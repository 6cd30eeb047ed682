use legend::ast::{IslandData, SourceInfo};
use legend::classpath::{
    classpath_toml, embedded_platform_repos, is_engine_descriptor, missing_platforms,
    platform_descriptors, referenced_platforms, repo_entry, repo_section, skips_entry,
};
use legend::natives::NativeRegistry;
use legend::parser::IslandPlugin;
use legend::relation_accessor::RelationAccessorPlugin;
use legend::tds::{is_simple_identifier, Multi};
use legend::unclassified::{ArgKind, FunctionsUnclassifiedExtension, MutateAdd, MutateArg};
use legend::window::{matches_dir, sort_dir_of, SortDir};

#[test]
fn relation_accessor_splits_on_dots() {
    let info = SourceInfo::new("a.pure", 1, 1, 1, 10);
    let ci = RelationAccessorPlugin.parse("db.schema.table", info.clone()).unwrap();
    assert_eq!(ci.instance_type, "relationAccessor");
    assert_eq!(ci.source_info, info);
    let IslandData::RelationAccessor(d) = ci.data;
    assert_eq!(d.path, vec!["db", "schema", "table"]);
    let ci = RelationAccessorPlugin.parse("", SourceInfo::dummy()).unwrap();
    let IslandData::RelationAccessor(d) = ci.data;
    assert_eq!(d.path, vec![""]);
    let ci = RelationAccessorPlugin.parse("a..b.", SourceInfo::dummy()).unwrap();
    let IslandData::RelationAccessor(d) = ci.data;
    assert_eq!(d.path, vec!["a", "", "b", ""]);
    assert_eq!(RelationAccessorPlugin.island_type(), ">");
}

#[test]
fn sort_directions_ignore_case() {
    assert!(matches_dir("desc", "DESC"));
    assert!(!matches_dir("des", "DESC"));
    assert_eq!(sort_dir_of("Asc"), Some(SortDir::Asc));
    assert_eq!(sort_dir_of("DESC"), Some(SortDir::Desc));
    assert_eq!(sort_dir_of("up"), None);
}

#[test]
fn simple_identifiers() {
    assert!(is_simple_identifier("col_1"));
    assert!(!is_simple_identifier(""));
    assert!(!is_simple_identifier("my col"));
    assert!(!is_simple_identifier("é"));
}

#[test]
fn mutate_add_flattens_its_values() {
    assert_eq!(MutateAdd.appended_values(Multi::Collection(vec![1, 2])), vec![1, 2]);
    assert_eq!(MutateAdd.appended_values::<i32>(Multi::Unit), Vec::<i32>::new());
    assert_eq!(MutateAdd.appended_values(Multi::Single(4)), vec![4]);
    let mut r = NativeRegistry::new();
    FunctionsUnclassifiedExtension.register_natives(&mut r);
    assert_eq!(r.entries, vec![("mutateAdd_T_1__String_1__Any_MANY__T_1_".to_string(), "MutateAdd".to_string())]);
    assert_eq!(FunctionsUnclassifiedExtension.name(), "core_functions_unclassified");
}

#[test]
fn descriptor_discovery_rules() {
    assert!(is_engine_descriptor("/x/mod/src/main/resources/a.definition.json", "a.definition.json"));
    assert!(!is_engine_descriptor("/x/mod/src/test/resources/a.definition.json", "a.definition.json"));
    assert!(!is_engine_descriptor("/x/mod/src/main/resources/a.json", "a.json"));
    assert!(skips_entry(1, true, "target"));
    assert!(!skips_entry(0, true, "target"));
    assert!(!skips_entry(2, false, ".git"));
    assert_eq!(platform_descriptors().len(), 8);
    assert_eq!(embedded_platform_repos(), vec!["platform".to_string()]);
}

#[test]
fn platform_drift_is_reported() {
    let deps = vec![
        vec!["platform".to_string(), "platform_dsl_tds".to_string(), "core".to_string()],
        vec!["platform_new".to_string(), "platform_dsl_tds".to_string()],
    ];
    let referenced = referenced_platforms(&deps);
    assert_eq!(referenced, vec!["platform", "platform_dsl_tds", "platform_new"]);
    let missing = missing_platforms(&referenced, &vec!["platform_dsl_tds".to_string()], &embedded_platform_repos());
    assert_eq!(missing, vec!["platform_new"]);
}

#[test]
fn classpath_sections_sort_by_name_and_relativize() {
    let entries = vec![
        ("zeta".to_string(), "/ws/engine/z/src/main/resources/zeta.definition.json".to_string()),
        ("alpha".to_string(), "/ws/engine/a/src/main/resources/alpha.definition.json".to_string()),
    ];
    let text = repo_section("engine repos (legend-engine)", &entries, "/ws/engine/rust");
    assert_eq!(
        text,
        "# --- engine repos (legend-engine) ---\n\n[[repo]]\nname = \"alpha\"\nkind = \"filesystem\"\ndescriptor = \"../a/src/main/resources/alpha.definition.json\"\n\n[[repo]]\nname = \"zeta\"\nkind = \"filesystem\"\ndescriptor = \"../z/src/main/resources/zeta.definition.json\"\n\n"
    );
    let whole = classpath_toml(&vec![], &entries, "/ws/engine/rust");
    assert!(whole.starts_with("# Auto-generated by `cargo gen-classpath`. Do not hand-edit.\n"));
    assert!(whole.contains("# --- platform_* repos (legend-pure) ---\n\n# --- engine repos"));
}

#[test]
fn mutate_add_checks_its_arguments() {
    let obj = || MutateArg { kind: ArgKind::Object(7), kind_name: "Person".to_string() };
    let prop = || MutateArg { kind: ArgKind::Text("items".to_string()), kind_name: "String".to_string() };
    let m = MutateAdd.execute(obj(), prop(), Multi::Collection(vec!["a", "b"])).unwrap();
    assert_eq!((m.handle, m.property.as_str(), m.values), (7, "items", vec!["a", "b"]));
    let none = MutateAdd.execute(obj(), prop(), Multi::<&str>::Unit).unwrap();
    assert!(none.values.is_empty());
    let bad_obj = MutateAdd.execute(prop(), prop(), Multi::Single(1));
    assert_eq!(bad_obj.err().unwrap(), "mutateAdd: expected an object as the first argument, got String");
    let bad_prop = MutateAdd.execute(obj(), obj(), Multi::Single(1));
    assert_eq!(bad_prop.err().unwrap(), "mutateAdd: expected a String as the second argument, got Person");
}

#[test]
fn repo_blocks_write_the_relative_path_or_the_path() {
    assert_eq!(
        repo_entry("x", "/a/b.json", Some("../b.json".to_string())),
        "[[repo]]\nname = \"x\"\nkind = \"filesystem\"\ndescriptor = \"../b.json\"\n\n"
    );
    assert_eq!(
        repo_entry("x", "/a/b.json", None),
        "[[repo]]\nname = \"x\"\nkind = \"filesystem\"\ndescriptor = \"/a/b.json\"\n\n"
    );
}
