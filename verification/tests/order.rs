use binding_library::bindings::Bindings;
use binding_library::config::{Config, Language};
use binding_library::dependencies::{build, targets_of};
use binding_library::item::{Field, Function, Item, ItemBody, Variant};
use binding_library::item_map::ItemMap;
use binding_library::library::Library;
use binding_library::monomorph::{collect, root_uses_of};
use binding_library::ty::{Primitive, Type};

fn named(name: &str, generics: Vec<Type>) -> Type {
    Type::Path { name: name.to_string(), generics, tag: None }
}

fn simple(name: &str) -> Type {
    named(name, vec![])
}

fn reference(target: Type) -> Type {
    Type::Ptr { is_const: true, target: Box::new(target) }
}

fn number() -> Type {
    Type::Primitive(Primitive::Int)
}

fn member(name: &str, ty: Type) -> Field {
    Field { name: name.to_string(), ty }
}

fn declared(name: &str, params: &[&str], body: ItemBody) -> Item {
    Item {
        path: name.to_string(),
        cfg: None,
        generic_params: params.iter().map(|p| p.to_string()).collect(),
        annotations: vec![],
        body,
    }
}

fn record(name: &str, params: &[&str], fields: Vec<Field>) -> Item {
    declared(name, params, ItemBody::Struct { fields })
}

fn call(name: &str, args: Vec<Field>, ret: Type) -> Function {
    Function { path: name.to_string(), cfg: None, annotations: vec![], args, ret }
}

fn filled(items: Vec<Item>) -> ItemMap {
    let mut map = ItemMap::new();
    for i in items {
        map.try_insert(i);
    }
    map
}

fn library(
    config: Config,
    enums: Vec<Item>,
    structs: Vec<Item>,
    unions: Vec<Item>,
    opaque_items: Vec<Item>,
    typedefs: Vec<Item>,
    functions: Vec<Function>,
) -> Library {
    Library::new(
        config,
        ItemMap::new(),
        ItemMap::new(),
        filled(enums),
        filled(structs),
        filled(unions),
        filled(opaque_items),
        filled(typedefs),
        functions,
    )
}

fn listed(b: &Bindings) -> Vec<&str> {
    b.items.iter().map(|i| i.path.as_str()).collect()
}

#[test]
fn empty_library_gives_an_empty_bundle() {
    let b = library(Config::new(Language::C), vec![], vec![], vec![], vec![], vec![], vec![])
        .generate()
        .unwrap();
    assert!(b.items.is_empty());
    assert!(b.constants.is_empty());
    assert!(b.globals.is_empty());
    assert!(b.functions.is_empty());
    assert!(b.conflicts.is_empty());
    assert_eq!(b.config, Config::new(Language::C));
}

#[test]
fn unknown_path_is_passed_over() {
    let b = library(
        Config::new(Language::C),
        vec![],
        vec![record("S", &[], vec![member("u", simple("Unknown"))])],
        vec![],
        vec![],
        vec![],
        vec![call("f", vec![member("s", simple("S")), member("m", simple("Missing"))], number())],
    )
    .generate()
    .unwrap();
    assert_eq!(listed(&b), vec!["S"]);
}

#[test]
fn retained_path_that_was_found_keeps_its_place() {
    let mut config = Config::new(Language::C);
    config.export.retain.push("B".to_string());
    config.export.retain.push("C".to_string());
    let b = library(
        config,
        vec![],
        vec![
            record("A", &[], vec![member("b", simple("B"))]),
            record("B", &[], vec![]),
            record("C", &[], vec![]),
        ],
        vec![],
        vec![],
        vec![],
        vec![call("f", vec![member("a", simple("A"))], number())],
    )
    .generate()
    .unwrap();
    assert_eq!(listed(&b), vec!["B", "A", "C"]);
}

#[test]
fn enum_comes_after_what_its_variants_carry() {
    let e = declared(
        "E",
        &[],
        ItemBody::Enum {
            variants: vec![
                Variant { name: "None".to_string(), payload: None },
                Variant { name: "Some".to_string(), payload: Some(simple("Inner")) },
            ],
        },
    );
    let b = library(
        Config::new(Language::C),
        vec![e],
        vec![record("Inner", &[], vec![])],
        vec![],
        vec![],
        vec![],
        vec![call("f", vec![member("e", reference(simple("E")))], number())],
    )
    .generate()
    .unwrap();
    assert_eq!(listed(&b), vec!["Inner", "E"]);
}

#[test]
fn alias_comes_after_what_it_names() {
    let b = library(
        Config::new(Language::C),
        vec![],
        vec![record("U", &[], vec![member("t", simple("T"))]), record("S", &[], vec![])],
        vec![],
        vec![],
        vec![declared("T", &[], ItemBody::Typedef { aliased: simple("S") })],
        vec![call("f", vec![member("u", simple("U"))], number())],
    )
    .generate()
    .unwrap();
    assert_eq!(listed(&b), vec!["S", "T", "U"]);
}

#[test]
fn function_signature_needs_names_only() {
    let callback = Type::FuncPtr { ret: Box::new(simple("C")), args: vec![simple("B")] };
    let b = library(
        Config::new(Language::C),
        vec![],
        vec![
            record("A", &[], vec![member("f", callback)]),
            record("B", &[], vec![member("a", simple("A"))]),
            record("C", &[], vec![]),
        ],
        vec![],
        vec![],
        vec![],
        vec![call("f", vec![member("a", simple("A"))], number())],
    )
    .generate()
    .unwrap();
    assert_eq!(listed(&b), vec!["A", "C", "B"]);
}

#[test]
fn conditional_entities_of_one_path_come_together() {
    let mut unix = record("S", &[], vec![member("a", number())]);
    unix.cfg = Some("unix".to_string());
    let mut windows = record("S", &[], vec![member("b", simple("W"))]);
    windows.cfg = Some("windows".to_string());
    let b = library(
        Config::new(Language::C),
        vec![],
        vec![unix, windows, record("W", &[], vec![])],
        vec![],
        vec![],
        vec![],
        vec![call("f", vec![member("s", simple("S"))], number())],
    )
    .generate()
    .unwrap();
    assert_eq!(listed(&b), vec!["W", "S", "S"]);
    assert_eq!(b.items[1].cfg.as_deref(), Some("unix"));
    assert_eq!(b.items[2].cfg.as_deref(), Some("windows"));
}

#[test]
fn instances_go_to_the_table_of_their_kind() {
    let b = library(
        Config::new(Language::C),
        vec![],
        vec![],
        vec![declared("Either", &["A", "B"], ItemBody::Union {
            fields: vec![member("a", simple("A")), member("b", simple("B"))],
        })],
        vec![declared("Handle", &["T"], ItemBody::Opaque)],
        vec![declared("Alias", &["T"], ItemBody::Typedef { aliased: reference(simple("T")) })],
        vec![call(
            "f",
            vec![
                member("h", reference(named("Handle", vec![number()]))),
                member("e", named("Either", vec![number(), Type::Primitive(Primitive::Bool)])),
                member("a", named("Alias", vec![number()])),
            ],
            number(),
        )],
    )
    .generate()
    .unwrap();
    assert_eq!(listed(&b), vec!["Handle_i", "Either_ib", "Alias_i"]);
    assert!(matches!(b.items[0].body, ItemBody::Opaque));
    assert!(matches!(b.items[1].body, ItemBody::Union { .. }));
    assert_eq!(b.items[2].body, ItemBody::Typedef { aliased: reference(number()) });
}

#[test]
fn wrong_number_of_arguments_gives_no_instance() {
    let b = library(
        Config::new(Language::C),
        vec![],
        vec![record("Box", &["T"], vec![member("value", simple("T"))])],
        vec![],
        vec![],
        vec![],
        vec![call(
            "f",
            vec![member("b", reference(named("Box", vec![number(), number()])))],
            number(),
        )],
    )
    .generate()
    .unwrap();
    assert!(b.items.is_empty());
    assert_eq!(b.functions[0].args[0].ty, reference(simple("Box_ii")));
}

#[test]
fn repeated_reference_costs_nothing() {
    let structs = || vec![record("Box", &["T"], vec![member("value", reference(simple("T")))])];
    let lib = library(Config::new(Language::C), vec![], structs(), vec![], vec![], vec![], vec![]);
    let f = vec![call(
        "take",
        vec![
            member("a", named("Box", vec![number()])),
            member("b", simple("Plain")),
            member("c", named("Box", vec![number()])),
            member("d", named("Box", vec![number()])),
        ],
        number(),
    )];
    let roots = root_uses_of(&vec![], &vec![], &vec![], &f);
    assert!(collect(&lib, &roots, 0).is_none());
    let made = collect(&lib, &roots, 1).unwrap();
    assert_eq!(made.len(), 1);
    assert_eq!(made[0].path, "Box_i");
    let b = library(Config::new(Language::C), vec![], structs(), vec![], vec![], vec![], f)
        .generate()
        .unwrap();
    assert_eq!(listed(&b), vec!["Box_i"]);
}

#[test]
fn build_gives_each_path_once() {
    let lib = library(
        Config::new(Language::C),
        vec![],
        vec![
            record("A", &[], vec![member("b", simple("B")), member("again", simple("B"))]),
            record("B", &[], vec![member("a", reference(simple("A")))]),
        ],
        vec![],
        vec![],
        vec![],
        vec![],
    );
    let roots = vec!["A".to_string(), "B".to_string(), "A".to_string(), "Nothing".to_string()];
    let order = build(&lib, &roots);
    assert_eq!(order.paths, vec!["B".to_string(), "A".to_string()]);
    let names: Vec<&str> = order.items.iter().map(|i| i.path.as_str()).collect();
    assert_eq!(names, vec!["B", "A"]);
    let empty = build(&lib, &vec![]);
    assert!(empty.items.is_empty() && empty.paths.is_empty());
}

#[test]
fn targets_leave_out_generic_parameters() {
    let items = vec![
        record("Box", &["T"], vec![member("value", simple("T")), member("next", reference(simple("N")))]),
        record("P", &[], vec![member("t", simple("T"))]),
    ];
    let found: Vec<(String, bool)> =
        targets_of(&items).into_iter().map(|u| (u.name, u.by_value)).collect();
    assert_eq!(found, vec![("N".to_string(), false), ("T".to_string(), true)]);
}

#[test]
fn collect_makes_the_instances_in_the_order_of_the_references() {
    let structs = vec![
        record("Box", &["T"], vec![member("value", simple("T"))]),
        record("User", &[], vec![
            member("a", named("Box", vec![Type::Primitive(Primitive::Char)])),
            member("b", named("Box", vec![number()])),
            member("c", named("Box", vec![Type::Primitive(Primitive::Char)])),
        ]),
    ];
    let copy = vec![
        record("Box", &["T"], vec![member("value", simple("T"))]),
        record("User", &[], vec![
            member("a", named("Box", vec![Type::Primitive(Primitive::Char)])),
            member("b", named("Box", vec![number()])),
            member("c", named("Box", vec![Type::Primitive(Primitive::Char)])),
        ]),
    ];
    let lib = library(Config::new(Language::C), vec![], structs, vec![], vec![], vec![], vec![]);
    let roots = root_uses_of(&copy, &vec![], &vec![], &vec![]);
    assert_eq!(roots.len(), 3);
    let made = collect(&lib, &roots, 10).unwrap();
    let names: Vec<&str> = made.iter().map(|i| i.path.as_str()).collect();
    assert_eq!(names, vec!["Box_c", "Box_i"]);
    assert!(collect(&lib, &roots, 1).is_none());
    assert!(collect(&lib, &roots, 2).is_some());
    assert!(collect(&lib, &vec![], 0).unwrap().is_empty());
}

#[test]
fn long_chain_comes_out_innermost_first() {
    let n = 400;
    let mut structs = Vec::new();
    for i in 0..n {
        let fields = if i + 1 < n {
            vec![member("inner", simple(&format!("S{:03}", i + 1)))]
        } else {
            vec![member("x", number())]
        };
        structs.push(record(&format!("S{:03}", i), &[], fields));
    }
    let b = library(
        Config::new(Language::C),
        vec![],
        structs,
        vec![],
        vec![],
        vec![],
        vec![call("f", vec![member("s", simple("S000"))], number())],
    )
    .generate()
    .unwrap();
    assert_eq!(b.items.len(), n);
    for (at, item) in b.items.iter().enumerate() {
        assert_eq!(item.path, format!("S{:03}", n - 1 - at));
    }
}
