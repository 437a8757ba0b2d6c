use binding_library::bindings::Bindings;
use binding_library::config::{Config, Language, Style};
use binding_library::error::Error;
use binding_library::item::{Annotation, Field, Function, Item, ItemBody, Variant};
use binding_library::item_map::ItemMap;
use binding_library::library::Library;
use binding_library::rename::Rename;
use binding_library::ty::{Primitive, Tag, Type};

fn path(name: &str) -> Type {
    Type::Path { name: name.to_string(), generics: vec![], tag: None }
}

fn generic(name: &str, generics: Vec<Type>) -> Type {
    Type::Path { name: name.to_string(), generics, tag: None }
}

fn ptr(target: Type) -> Type {
    Type::Ptr { is_const: false, target: Box::new(target) }
}

fn int_type() -> Type {
    Type::Primitive(Primitive::Int)
}

fn field(name: &str, ty: Type) -> Field {
    Field { name: name.to_string(), ty }
}

fn item(name: &str, params: &[&str], body: ItemBody) -> Item {
    Item {
        path: name.to_string(),
        cfg: None,
        generic_params: params.iter().map(|p| p.to_string()).collect(),
        annotations: vec![],
        body,
    }
}

fn structure(name: &str, params: &[&str], fields: Vec<Field>) -> Item {
    item(name, params, ItemBody::Struct { fields })
}

fn function(name: &str, args: Vec<Field>, ret: Type) -> Function {
    Function { path: name.to_string(), cfg: None, annotations: vec![], args, ret }
}

fn table(items: Vec<Item>) -> ItemMap {
    let mut map = ItemMap::new();
    for i in items {
        map.try_insert(i);
    }
    map
}

struct Parts {
    config: Config,
    constants: Vec<Item>,
    globals: Vec<Item>,
    enums: Vec<Item>,
    structs: Vec<Item>,
    unions: Vec<Item>,
    opaque_items: Vec<Item>,
    typedefs: Vec<Item>,
    functions: Vec<Function>,
}

fn parts(language: Language) -> Parts {
    Parts {
        config: Config::new(language),
        constants: vec![],
        globals: vec![],
        enums: vec![],
        structs: vec![],
        unions: vec![],
        opaque_items: vec![],
        typedefs: vec![],
        functions: vec![],
    }
}

fn run(p: Parts) -> Result<Bindings, Error> {
    Library::new(
        p.config,
        table(p.constants),
        table(p.globals),
        table(p.enums),
        table(p.structs),
        table(p.unions),
        table(p.opaque_items),
        table(p.typedefs),
        p.functions,
    )
    .generate()
}

fn names(items: &[Item]) -> Vec<&str> {
    items.iter().map(|i| i.path.as_str()).collect()
}

#[test]
fn generic_struct_is_replaced_by_its_instances() {
    let mut p = parts(Language::C);
    p.structs.push(structure("Box", &["T"], vec![field("value", ptr(path("T")))]));
    p.functions.push(function(
        "take",
        vec![
            field("a", ptr(generic("Box", vec![int_type()]))),
            field("b", ptr(generic("Box", vec![Type::Primitive(Primitive::Char)]))),
        ],
        Type::Primitive(Primitive::Void),
    ));
    let b = run(p).unwrap();
    assert_eq!(names(&b.items), vec!["Box_i", "Box_c"]);
    assert!(b.items.iter().all(|i| i.generic_params.is_empty()));
    assert_eq!(
        b.items[0].body,
        ItemBody::Struct { fields: vec![field("value", ptr(int_type()))] }
    );
    assert_eq!(
        b.items[1].body,
        ItemBody::Struct { fields: vec![field("value", ptr(Type::Primitive(Primitive::Char)))] }
    );
    assert_eq!(b.functions.len(), 1);
    assert_eq!(b.functions[0].args[0].ty, ptr(path("Box_i")));
    assert_eq!(b.functions[0].args[1].ty, ptr(path("Box_c")));
}

#[test]
fn generics_stay_where_the_target_has_them() {
    let mut p = parts(Language::Cxx);
    p.structs.push(structure("Box", &["T"], vec![field("value", ptr(path("T")))]));
    p.functions.push(function(
        "take",
        vec![field("a", ptr(generic("Box", vec![int_type()])))],
        Type::Primitive(Primitive::Void),
    ));
    let b = run(p).unwrap();
    assert_eq!(names(&b.items), vec!["Box"]);
    assert_eq!(b.functions[0].args[0].ty, ptr(generic("Box", vec![int_type()])));
}

#[test]
fn pointer_cycle_is_walked_once() {
    let mut p = parts(Language::C);
    p.structs.push(structure(
        "A",
        &[],
        vec![field("next", ptr(path("A"))), field("other", ptr(path("B")))],
    ));
    p.structs.push(structure("B", &[], vec![field("back", ptr(path("A")))]));
    p.functions.push(function("f", vec![field("a", ptr(path("A")))], int_type()));
    let b = run(p).unwrap();
    assert_eq!(names(&b.items), vec!["A", "B"]);
}

#[test]
fn contained_entity_comes_first() {
    let mut p = parts(Language::C);
    p.structs.push(structure("Outer", &[], vec![field("inner", path("Inner"))]));
    p.structs.push(structure("Inner", &[], vec![field("leaf", path("Leaf"))]));
    p.structs.push(structure("Leaf", &[], vec![field("x", int_type())]));
    p.functions.push(function("f", vec![field("a", path("Outer"))], int_type()));
    let b = run(p).unwrap();
    assert_eq!(names(&b.items), vec!["Leaf", "Inner", "Outer"]);
}

#[test]
fn containment_wins_over_a_pointer_cycle() {
    let mut p = parts(Language::C);
    p.structs.push(structure("T", &[], vec![field("s", path("S"))]));
    p.structs.push(structure("S", &[], vec![field("q", ptr(path("Q")))]));
    p.structs.push(structure("Q", &[], vec![field("t", path("T"))]));
    p.functions.push(function("f", vec![field("a", ptr(path("T")))], int_type()));
    let b = run(p).unwrap();
    assert_eq!(names(&b.items), vec!["S", "T", "Q"]);
    let at = |n: &str| b.items.iter().position(|i| i.path == n).unwrap();
    assert!(at("S") < at("T"));
    assert!(at("T") < at("Q"));
}

#[test]
fn pointer_to_container_does_not_come_before_it() {
    let mut p = parts(Language::C);
    p.structs.push(structure("A", &[], vec![field("b", path("B"))]));
    p.structs.push(structure("B", &[], vec![field("a", ptr(path("A")))]));
    p.functions.push(function("f", vec![field("b", ptr(path("B")))], int_type()));
    let b = run(p).unwrap();
    assert_eq!(names(&b.items), vec!["B", "A"]);
}

#[test]
fn unreferenced_entity_is_left_out_unless_retained() {
    let mut p = parts(Language::C);
    p.structs.push(structure("Used", &[], vec![field("x", int_type())]));
    p.structs.push(structure("Unused", &[], vec![field("x", int_type())]));
    p.structs.push(structure("Kept", &[], vec![field("u", ptr(path("Used")))]));
    p.functions.push(function("f", vec![field("a", path("Used"))], int_type()));
    p.config.export.retain.push("Kept".to_string());
    p.config.export.retain.push("Missing".to_string());
    let b = run(p).unwrap();
    assert_eq!(names(&b.items), vec!["Used", "Kept"]);
}

#[test]
fn globals_are_roots() {
    let mut p = parts(Language::C);
    p.structs.push(structure("State", &[], vec![field("x", int_type())]));
    p.globals.push(item("STATE", &[], ItemBody::Static { ty: path("State"), mutable: true }));
    let b = run(p).unwrap();
    assert_eq!(names(&b.items), vec!["State"]);
    assert_eq!(names(&b.globals), vec!["STATE"]);
}

#[test]
fn excluded_names_are_dropped() {
    let mut p = parts(Language::C);
    p.structs.push(structure("Gone", &[], vec![field("x", int_type())]));
    p.structs.push(structure("Stays", &[], vec![field("x", int_type())]));
    p.enums.push(item("Gone", &[], ItemBody::Enum { variants: vec![] }));
    p.constants.push(item(
        "Gone",
        &[],
        ItemBody::Constant { ty: int_type(), value: "1".to_string() },
    ));
    p.constants.push(item(
        "LIMIT",
        &[],
        ItemBody::Constant { ty: int_type(), value: "2".to_string() },
    ));
    p.functions.push(function("Gone", vec![], int_type()));
    p.functions.push(function("f", vec![field("a", path("Stays")), field("b", path("Gone"))], int_type()));
    p.config.export.exclude.push("Gone".to_string());
    p.config.export.exclude.push("Nobody".to_string());
    let b = run(p).unwrap();
    assert_eq!(names(&b.items), vec!["Stays"]);
    assert_eq!(names(&b.constants), vec!["LIMIT"]);
    assert_eq!(b.functions.len(), 1);
    assert_eq!(b.functions[0].path, "f");
}

#[test]
fn functions_and_constants_come_out_sorted() {
    let mut p = parts(Language::C);
    for n in ["zeta", "alpha", "mid", "alpha2", "Beta"] {
        p.functions.push(function(n, vec![], int_type()));
        p.constants.push(item(n, &[], ItemBody::Constant { ty: int_type(), value: n.to_string() }));
    }
    let b = run(p).unwrap();
    let f: Vec<&str> = b.functions.iter().map(|f| f.path.as_str()).collect();
    assert_eq!(f, vec!["Beta", "alpha", "alpha2", "mid", "zeta"]);
    assert_eq!(names(&b.constants), vec!["Beta", "alpha", "alpha2", "mid", "zeta"]);
}

#[test]
fn sorting_keeps_functions_of_one_name_in_order() {
    let mut p = parts(Language::C);
    let mut first = function("same", vec![], int_type());
    first.cfg = Some("unix".to_string());
    let mut second = function("same", vec![], int_type());
    second.cfg = Some("windows".to_string());
    p.functions.push(function("z", vec![], int_type()));
    p.functions.push(first);
    p.functions.push(second);
    let b = run(p).unwrap();
    let f: Vec<(&str, Option<&str>)> =
        b.functions.iter().map(|f| (f.path.as_str(), f.cfg.as_deref())).collect();
    assert_eq!(f, vec![("same", Some("unix")), ("same", Some("windows")), ("z", None)]);
}

#[test]
fn alias_hands_its_annotations_to_the_struct() {
    let mut p = parts(Language::C);
    p.structs.push(structure("S", &[], vec![field("x", int_type())]));
    p.unions.push(item("S", &[], ItemBody::Union { fields: vec![] }));
    let mut t = item("T", &[], ItemBody::Typedef { aliased: path("S") });
    t.annotations.push(Annotation { key: "doc".to_string(), value: "x".to_string() });
    p.typedefs.push(t);
    p.functions.push(function("f", vec![field("a", path("T"))], int_type()));
    let b = run(p).unwrap();
    assert_eq!(names(&b.items), vec!["S", "T"]);
    assert_eq!(
        b.items[0].annotations,
        vec![Annotation { key: "doc".to_string(), value: "x".to_string() }]
    );
    assert!(matches!(b.items[0].body, ItemBody::Struct { .. }));
    assert!(b.items[1].annotations.is_empty());
    assert!(b.conflicts.is_empty());
}

#[test]
fn annotated_target_keeps_its_annotations() {
    let mut p = parts(Language::C);
    let mut e = item("S", &[], ItemBody::Enum { variants: vec![] });
    e.annotations.push(Annotation { key: "own".to_string(), value: "1".to_string() });
    p.enums.push(e);
    p.structs.push(structure("S", &[], vec![field("x", int_type())]));
    let mut t = item("T", &[], ItemBody::Typedef { aliased: ptr(path("S")) });
    t.annotations.push(Annotation { key: "doc".to_string(), value: "x".to_string() });
    p.typedefs.push(t);
    p.config.export.retain.push("S".to_string());
    p.config.export.retain.push("T".to_string());
    let b = run(p).unwrap();
    assert_eq!(names(&b.items), vec!["S", "T"]);
    assert!(matches!(b.items[0].body, ItemBody::Enum { .. }));
    assert_eq!(
        b.items[0].annotations,
        vec![Annotation { key: "own".to_string(), value: "1".to_string() }]
    );
    assert_eq!(b.conflicts, vec!["S".to_string()]);
    assert!(b.items[1].annotations.is_empty());
}

#[test]
fn second_alias_of_one_target_keeps_its_annotations() {
    let mut p = parts(Language::C);
    p.structs.push(structure("S", &[], vec![]));
    let mut t1 = item("T1", &[], ItemBody::Typedef { aliased: path("S") });
    t1.annotations.push(Annotation { key: "a".to_string(), value: "1".to_string() });
    let mut t2 = item("T2", &[], ItemBody::Typedef { aliased: path("S") });
    t2.annotations.push(Annotation { key: "b".to_string(), value: "2".to_string() });
    p.typedefs.push(t1);
    p.typedefs.push(t2);
    p.config.export.retain.push("T1".to_string());
    p.config.export.retain.push("T2".to_string());
    let b = run(p).unwrap();
    assert_eq!(names(&b.items), vec!["S", "T1", "T2"]);
    assert_eq!(b.items[0].annotations, vec![Annotation { key: "a".to_string(), value: "1".to_string() }]);
    assert!(b.items[1].annotations.is_empty());
    assert_eq!(b.items[2].annotations, vec![Annotation { key: "b".to_string(), value: "2".to_string() }]);
}

#[test]
fn renaming_reaches_definitions_and_references() {
    let mut p = parts(Language::C);
    p.structs.push(structure("Point", &[], vec![field("next", ptr(path("Point")))]));
    p.structs.push(structure("Old", &[], vec![field("p", path("Point"))]));
    p.functions.push(function("f", vec![field("a", path("Old"))], int_type()));
    p.config.export.rename.prefix = Some("my_".to_string());
    p.config
        .export
        .rename
        .overrides
        .push(Rename { from: "Old".to_string(), to: "New".to_string() });
    let b = run(p).unwrap();
    assert_eq!(names(&b.items), vec!["my_Point", "my_New"]);
    assert_eq!(
        b.items[1].body,
        ItemBody::Struct { fields: vec![field("p", path("my_Point"))] }
    );
    assert_eq!(b.functions[0].path, "f");
    assert_eq!(b.functions[0].args[0].ty, path("my_New"));
}

#[test]
fn optional_pointer_becomes_nullable_pointer() {
    let mut p = parts(Language::C);
    p.structs.push(structure(
        "S",
        &[],
        vec![
            field("a", Type::Optional(Box::new(ptr(int_type())))),
            field("b", Type::Optional(Box::new(int_type()))),
        ],
    ));
    p.functions.push(function(
        "f",
        vec![field("s", path("S"))],
        Type::Optional(Box::new(Type::FuncPtr { ret: Box::new(int_type()), args: vec![] })),
    ));
    let b = run(p).unwrap();
    assert_eq!(
        b.items[0].body,
        ItemBody::Struct {
            fields: vec![field("a", ptr(int_type())), field("b", Type::Optional(Box::new(int_type())))]
        }
    );
    assert_eq!(b.functions[0].ret, Type::FuncPtr { ret: Box::new(int_type()), args: vec![] });
}

#[test]
fn references_get_the_keyword_of_the_aggregate() {
    let mut p = parts(Language::C);
    p.config.style = Style::Tag;
    p.structs.push(structure(
        "S",
        &[],
        vec![
            field("e", path("E")),
            field("u", ptr(path("U"))),
            field("o", ptr(path("O"))),
            field("t", path("T")),
        ],
    ));
    p.enums.push(item(
        "E",
        &[],
        ItemBody::Enum { variants: vec![Variant { name: "A".to_string(), payload: None }] },
    ));
    p.unions.push(item("U", &[], ItemBody::Union { fields: vec![] }));
    p.opaque_items.push(item("O", &[], ItemBody::Opaque));
    p.typedefs.push(item("T", &[], ItemBody::Typedef { aliased: int_type() }));
    p.functions.push(function("f", vec![field("s", path("S"))], int_type()));
    let b = run(p).unwrap();
    let tagged = |n: &str, tag: Option<Tag>| Type::Path { name: n.to_string(), generics: vec![], tag };
    assert_eq!(b.functions[0].args[0].ty, tagged("S", Some(Tag::Struct)));
    let s = b.items.iter().find(|i| i.path == "S").unwrap();
    assert_eq!(
        s.body,
        ItemBody::Struct {
            fields: vec![
                field("e", tagged("E", Some(Tag::Enum))),
                field("u", ptr(tagged("U", Some(Tag::Union)))),
                field("o", ptr(tagged("O", Some(Tag::Struct)))),
                field("t", tagged("T", None)),
            ]
        }
    );
}

#[test]
fn no_keyword_where_aggregates_get_an_alias() {
    let mut p = parts(Language::C);
    p.config.style = Style::Type;
    p.structs.push(structure("S", &[], vec![field("x", int_type())]));
    p.functions.push(function("f", vec![field("s", path("S"))], int_type()));
    let b = run(p).unwrap();
    assert_eq!(b.functions[0].args[0].ty, path("S"));
}

#[test]
fn instances_inside_instances_are_found() {
    let mut p = parts(Language::C);
    p.structs.push(structure("Pair", &["A", "B"], vec![field("a", path("A")), field("b", path("B"))]));
    p.structs.push(structure(
        "Wrap",
        &["T"],
        vec![field("inner", generic("Pair", vec![path("T"), ptr(path("T"))]))],
    ));
    p.structs.push(structure("Never", &["T"], vec![field("x", path("T"))]));
    p.functions.push(function("f", vec![field("w", generic("Wrap", vec![int_type()]))], int_type()));
    let b = run(p).unwrap();
    assert_eq!(names(&b.items), vec!["Pair_iPi", "Wrap_i"]);
    assert_eq!(
        b.items[1].body,
        ItemBody::Struct { fields: vec![field("inner", path("Pair_iPi"))] }
    );
    assert_eq!(
        b.items[0].body,
        ItemBody::Struct { fields: vec![field("a", int_type()), field("b", ptr(int_type()))] }
    );
}

#[test]
fn error_says_what_went_wrong() {
    assert_eq!(
        Error::InstantiationLimit.message(),
        "the generic entities have more instances than the machine can count"
    );
}

#[test]
fn recursive_generic_is_instantiated_once() {
    let mut p = parts(Language::C);
    p.structs.push(structure(
        "List",
        &["T"],
        vec![field("next", ptr(generic("List", vec![path("T")]))), field("value", path("T"))],
    ));
    p.functions.push(function("f", vec![field("l", ptr(generic("List", vec![int_type()])))], int_type()));
    let b = run(p).unwrap();
    assert_eq!(names(&b.items), vec!["List_i"]);
    assert_eq!(
        b.items[0].body,
        ItemBody::Struct {
            fields: vec![field("next", ptr(path("List_i"))), field("value", int_type())]
        }
    );
}

#[test]
fn lookup_goes_through_the_kinds_in_order() {
    let lib = Library::new(
        Config::new(Language::C),
        table(vec![]),
        table(vec![]),
        table(vec![item("X", &[], ItemBody::Enum { variants: vec![] })]),
        table(vec![structure("X", &[], vec![]), structure("Y", &[], vec![])]),
        table(vec![item("Y", &[], ItemBody::Union { fields: vec![] })]),
        table(vec![]),
        table(vec![item("Z", &[], ItemBody::Typedef { aliased: int_type() })]),
        vec![],
    );
    let x = lib.get_items(&"X".to_string()).unwrap();
    assert_eq!(x.len(), 1);
    assert!(matches!(x[0].body, ItemBody::Enum { .. }));
    let y = lib.get_items(&"Y".to_string()).unwrap();
    assert!(matches!(y[0].body, ItemBody::Struct { .. }));
    let z = lib.get_items(&"Z".to_string()).unwrap();
    assert!(matches!(z[0].body, ItemBody::Typedef { .. }));
    assert!(lib.get_items(&"W".to_string()).is_none());
}

#[test]
fn copy_of_a_library_gives_the_same_bundle() {
    let mut p = parts(Language::C);
    p.structs.push(structure("Box", &["T"], vec![field("value", ptr(path("T")))]));
    p.structs.push(structure("S", &[], vec![field("b", generic("Box", vec![int_type()]))]));
    p.functions.push(function("f", vec![field("s", path("S"))], int_type()));
    p.config.export.exclude.push("Nothing".to_string());
    let lib = Library::new(
        p.config,
        table(p.constants),
        table(p.globals),
        table(p.enums),
        table(p.structs),
        table(p.unions),
        table(p.opaque_items),
        table(p.typedefs),
        p.functions,
    );
    let copy = lib.duplicate();
    let first = lib.generate().unwrap();
    let second = copy.generate().unwrap();
    assert_eq!(names(&first.items), vec!["Box_i", "S"]);
    assert_eq!(first.items, second.items);
    assert_eq!(first.functions, second.functions);
    assert_eq!(first.config, second.config);
}
