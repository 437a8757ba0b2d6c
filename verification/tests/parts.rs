use binding_library::config::{Config, Language, Style};
use binding_library::item::{Item, ItemBody, ItemOp};
use binding_library::item_map::{Filter, ItemMap};
use binding_library::mangle::mangle_path;
use binding_library::names::{contains_name, name_before};
use binding_library::rename::{Rename, RenameRules};
use binding_library::resolver::CTypeResolver;
use binding_library::ty::{PathUse, Primitive, Tag, Type, TypeOp};

fn plain(name: &str) -> Type {
    Type::Path { name: name.to_string(), generics: vec![], tag: None }
}

fn pointer(target: Type) -> Type {
    Type::Ptr { is_const: false, target: Box::new(target) }
}

fn entity(name: &str, cfg: Option<&str>) -> Item {
    Item {
        path: name.to_string(),
        cfg: cfg.map(|c| c.to_string()),
        generic_params: vec![],
        annotations: vec![],
        body: ItemBody::Opaque,
    }
}

fn paths(map: &ItemMap) -> Vec<String> {
    map.to_vec().into_iter().map(|i| i.path).collect()
}

#[test]
fn names_are_ordered_by_their_bytes() {
    let s = |x: &str| x.to_string();
    assert!(name_before(&s("a"), &s("b")));
    assert!(!name_before(&s("b"), &s("a")));
    assert!(!name_before(&s("a"), &s("a")));
    assert!(name_before(&s(""), &s("a")));
    assert!(name_before(&s("ab"), &s("abc")));
    assert!(!name_before(&s("abc"), &s("ab")));
    assert!(name_before(&s("Z"), &s("a")));
    assert!(name_before(&s("z"), &s("é")));
    assert!(name_before(&s("é"), &s("€")));
    assert_eq!(name_before(&s("é"), &s("€")), "é" < "€");
}

#[test]
fn contains_name_finds_exact_names_only() {
    let list = vec!["a".to_string(), "bc".to_string()];
    assert!(contains_name(&list, &"bc".to_string()));
    assert!(!contains_name(&list, &"b".to_string()));
    assert!(!contains_name(&vec![], &"b".to_string()));
}

#[test]
fn table_keeps_entities_sorted() {
    let mut map = ItemMap::new();
    assert!(map.try_insert(entity("m", None)));
    assert!(map.try_insert(entity("a", None)));
    assert!(map.try_insert(entity("z", None)));
    assert!(map.try_insert(entity("b", None)));
    assert_eq!(paths(&map), vec!["a", "b", "m", "z"]);
    assert_eq!(map.len(), 4);
}

#[test]
fn table_takes_a_second_entity_only_where_both_are_conditional() {
    let mut map = ItemMap::new();
    assert!(map.try_insert(entity("plain", None)));
    assert!(!map.try_insert(entity("plain", None)));
    assert!(!map.try_insert(entity("plain", Some("unix"))));
    assert!(map.try_insert(entity("cond", Some("unix"))));
    assert!(map.try_insert(entity("cond", Some("windows"))));
    assert!(!map.try_insert(entity("cond", None)));
    assert_eq!(map.len(), 3);
    let found = map.get_items(&"cond".to_string()).unwrap();
    assert_eq!(found.len(), 2);
    assert_eq!(found[0].cfg.as_deref(), Some("unix"));
    assert_eq!(found[1].cfg.as_deref(), Some("windows"));
    assert!(map.get_items(&"other".to_string()).is_none());
    assert!(map.contains_key(&"plain".to_string()));
    assert!(!map.contains_key(&"other".to_string()));
}

#[test]
fn lookup_finds_the_new_name_only_after_rebuild() {
    let mut map = ItemMap::new();
    map.try_insert(entity("b", None));
    map.try_insert(entity("a", None));
    let rules = RenameRules {
        overrides: vec![Rename { from: "a".to_string(), to: "z".to_string() }],
        prefix: None,
    };
    map.map_items(&ItemOp::Rename(&rules));
    assert!(map.get_items(&"z".to_string()).is_none());
    assert_eq!(map.get_items(&"a".to_string()).unwrap()[0].path, "z");
    map.rebuild();
    assert_eq!(map.get_items(&"z".to_string()).unwrap()[0].path, "z");
    assert!(map.get_items(&"a".to_string()).is_none());
    assert_eq!(paths(&map), vec!["b", "z"]);
}

#[test]
fn rebuild_drops_an_entity_that_collides() {
    let mut map = ItemMap::new();
    map.try_insert(entity("a", None));
    map.try_insert(entity("b", None));
    let rules = RenameRules {
        overrides: vec![Rename { from: "b".to_string(), to: "a".to_string() }],
        prefix: None,
    };
    map.map_items(&ItemOp::Rename(&rules));
    map.rebuild();
    assert_eq!(paths(&map), vec!["a"]);
}

#[test]
fn filter_removes_by_name_and_by_generics() {
    let mut map = ItemMap::new();
    map.try_insert(entity("a", None));
    map.try_insert(entity("b", None));
    let mut g = entity("g", None);
    g.generic_params.push("T".to_string());
    map.try_insert(g);
    map.filter(&Filter::Named(&vec!["b".to_string(), "x".to_string()]));
    assert_eq!(paths(&map), vec!["a", "g"]);
    map.filter(&Filter::Generic);
    assert_eq!(paths(&map), vec!["a"]);
}

#[test]
fn mangled_paths_follow_the_code() {
    let n = "Box".to_string();
    assert_eq!(mangle_path(&n, &vec![Type::Primitive(Primitive::Int)]), "Box_i");
    assert_eq!(mangle_path(&n, &vec![]), "Box_");
    assert_eq!(
        mangle_path(&n, &vec![pointer(Type::Primitive(Primitive::Char)), plain("Foo")]),
        "Box_PcN3_FooE"
    );
    assert_eq!(
        mangle_path(
            &n,
            &vec![Type::Ptr { is_const: true, target: Box::new(Type::Primitive(Primitive::Void)) }]
        ),
        "Box_Kv"
    );
    assert_eq!(
        mangle_path(
            &n,
            &vec![Type::Array { element: Box::new(Type::Primitive(Primitive::UChar)), length: 120 }]
        ),
        "Box_A021_h"
    );
    assert_eq!(mangle_path(&n, &vec![plain("abcdefghijkl")]), "Box_N21_abcdefghijklE");
    assert_eq!(
        mangle_path(
            &n,
            &vec![Type::Path {
                name: "Map".to_string(),
                generics: vec![Type::Primitive(Primitive::Bool), plain("é")],
                tag: Some(Tag::Struct),
            }]
        ),
        "Box_S3_MapbN1_éEE"
    );
    assert_eq!(
        mangle_path(
            &n,
            &vec![Type::FuncPtr {
                ret: Box::new(Type::Primitive(Primitive::Double)),
                args: vec![Type::Optional(Box::new(Type::Primitive(Primitive::Float)))],
            }]
        ),
        "Box_FdOfE"
    );
}

#[test]
fn different_arguments_give_different_paths() {
    let n = "G".to_string();
    let a = mangle_path(&n, &vec![plain("A_B")]);
    let b = mangle_path(&n, &vec![plain("A"), plain("B")]);
    let c = mangle_path(&n, &vec![plain("A"), plain("B")]);
    assert_ne!(a, b);
    assert_eq!(b, c);
    let d = mangle_path(&n, &vec![pointer(plain("A"))]);
    let e = mangle_path(&n, &vec![plain("PA")]);
    assert_ne!(d, e);
}

#[test]
fn rename_applies_override_then_prefix() {
    let rules = RenameRules {
        overrides: vec![
            Rename { from: "a".to_string(), to: "first".to_string() },
            Rename { from: "a".to_string(), to: "second".to_string() },
        ],
        prefix: Some("p_".to_string()),
    };
    assert_eq!(rules.rename(&"a".to_string(), true), "p_first");
    assert_eq!(rules.rename(&"a".to_string(), false), "first");
    assert_eq!(rules.rename(&"b".to_string(), true), "p_b");
    assert_eq!(rules.rename(&"b".to_string(), false), "b");
    assert_eq!(RenameRules::new().rename(&"b".to_string(), true), "b");
    assert_eq!(rules.duplicate(), rules);
}

#[test]
fn rename_leaves_generic_parameters() {
    let rules = RenameRules { overrides: vec![], prefix: Some("p_".to_string()) };
    let params = vec!["T".to_string()];
    let op = TypeOp::Rename { rules: &rules, generic_params: &params };
    let ty = Type::Path { name: "Box".to_string(), generics: vec![plain("T"), plain("U")], tag: None };
    assert_eq!(
        ty.rewritten(&op),
        Type::Path { name: "p_Box".to_string(), generics: vec![plain("T"), plain("p_U")], tag: None }
    );
}

#[test]
fn specialize_binds_the_first_parameter_of_a_name() {
    let params = vec!["T".to_string(), "U".to_string(), "T".to_string()];
    let args = vec![Type::Primitive(Primitive::Int), Type::Primitive(Primitive::Char)];
    let op = TypeOp::Specialize { generic_params: &params, arguments: &args };
    assert_eq!(plain("T").rewritten(&op), Type::Primitive(Primitive::Int));
    assert_eq!(pointer(plain("U")).rewritten(&op), pointer(Type::Primitive(Primitive::Char)));
    assert_eq!(plain("V").rewritten(&op), plain("V"));
}

#[test]
fn resolver_gives_the_last_registration() {
    let mut r = CTypeResolver::new();
    assert_eq!(r.type_for(&"a".to_string()), None);
    r.add("a".to_string(), Tag::Struct);
    r.add("b".to_string(), Tag::Enum);
    r.add("a".to_string(), Tag::Union);
    assert_eq!(r.type_for(&"a".to_string()), Some(Tag::Union));
    assert_eq!(r.type_for(&"b".to_string()), Some(Tag::Enum));
    assert_eq!(r.type_for(&"c".to_string()), None);
}

#[test]
fn uses_come_with_arguments_first_and_their_position() {
    let ty = Type::FuncPtr {
        ret: Box::new(plain("R")),
        args: vec![Type::Path {
            name: "Box".to_string(),
            generics: vec![plain("A")],
            tag: None,
        }],
    };
    let s = Type::Array { element: Box::new(plain("E")), length: 3 };
    let mut out: Vec<PathUse> = Vec::new();
    ty.collect_uses(true, &mut out);
    s.collect_uses(true, &mut out);
    let seen: Vec<(&str, bool, usize)> =
        out.iter().map(|u| (u.name.as_str(), u.by_value, u.arguments.len())).collect();
    assert_eq!(
        seen,
        vec![("R", false, 0), ("A", false, 0), ("Box", false, 1), ("E", true, 0)]
    );
}

#[test]
fn root_path_goes_through_pointers_only() {
    assert_eq!(pointer(pointer(plain("S"))).root_path(), Some("S".to_string()));
    assert_eq!(Type::Primitive(Primitive::Int).root_path(), None);
    assert_eq!(
        Type::Array { element: Box::new(plain("S")), length: 1 }.root_path(),
        None
    );
}

#[test]
fn configuration_starts_empty() {
    let c = Config::new(Language::Cxx);
    assert_eq!(c.language, Language::Cxx);
    assert_eq!(c.style, Style::Both);
    assert!(c.export.retain.is_empty());
    assert!(c.export.exclude.is_empty());
    assert_eq!(c.duplicate(), c);
    assert!(Style::Both.generate_typedef());
    assert!(Style::Type.generate_typedef());
    assert!(!Style::Tag.generate_typedef());
}

#[test]
fn copy_of_a_table_holds_the_same_entities() {
    let mut map = ItemMap::new();
    map.try_insert(entity("b", Some("unix")));
    map.try_insert(entity("a", None));
    map.try_insert(entity("b", Some("windows")));
    let copy = map.duplicate();
    assert_eq!(copy.to_vec(), map.to_vec());
    assert_eq!(copy.len(), 3);
    map.filter(&Filter::Named(&vec!["a".to_string()]));
    assert_eq!(paths(&copy), vec!["a", "b", "b"]);
    assert_eq!(paths(&map), vec!["b", "b"]);
}
