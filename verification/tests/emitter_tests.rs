use legend::ast::{ClassDef, Element, Multiplicity, PackageableType, PackagePath, Property, SourceInfo, Type};
use legend::classpath::{read_descriptor_dependencies, read_descriptor_name, DescriptorError};
use legend::emitter::{Emitter, Json};

fn get<'a>(j: &'a Json, key: &str) -> &'a Json {
    match j {
        Json::Object(members) => &members.iter().find(|(k, _)| k == key).expect("missing member").1,
        _ => panic!("not an object"),
    }
}

fn is_str(j: &Json, s: &str) -> bool {
    matches!(j, Json::String(x) if x == s)
}

fn is_num(j: &Json, n: u64) -> bool {
    matches!(j, Json::Number(x) if *x == n.to_string())
}

#[test]
fn test_emit_class_def() {
    let class_def = Element::Class(ClassDef {
        package: PackagePath {
            path: vec!["model".to_string(), "domain".to_string()],
            source_info: SourceInfo::dummy(),
        },
        name: "Person".to_string(),
        super_types: vec![],
        properties: vec![Property {
            name: "firstName".to_string(),
            property_type: Type::Packageable(PackageableType {
                full_path: "String".to_string(),
                source_info: SourceInfo::dummy(),
            }),
            multiplicity: Multiplicity::pure_one(),
            stereotypes: vec![],
            tagged_values: vec![],
            source_info: SourceInfo::new("test.pure", 2, 5, 2, 20),
        }],
        qualified_properties: vec![],
        constraints: vec![],
        stereotypes: vec![],
        tagged_values: vec![],
        source_info: SourceInfo::new("test.pure", 1, 1, 3, 1),
    });

    let emitter = Emitter::new();
    let json = emitter.emit_element(&class_def).unwrap();

    assert!(is_str(get(&json, "_type"), "class"));
    assert!(is_str(get(&json, "name"), "Person"));
    assert!(is_str(get(&json, "package"), "model::domain"));
    assert!(is_str(get(get(&json, "sourceInformation"), "sourceId"), "test.pure"));
    assert!(is_num(get(get(&json, "sourceInformation"), "startLine"), 1));

    let props = match get(&json, "properties") {
        Json::Array(v) => v,
        _ => panic!("properties must be an array"),
    };
    assert_eq!(props.len(), 1);
    assert!(is_str(get(&props[0], "name"), "firstName"));
    assert!(is_str(get(&props[0], "type"), "String"));
    assert!(is_num(get(get(&props[0], "multiplicity"), "lowerBound"), 1));
    assert!(is_num(get(get(&props[0], "multiplicity"), "upperBound"), 1));
    assert!(is_num(get(get(&props[0], "sourceInformation"), "startLine"), 2));
}

#[test]
fn source_info_end_column_is_inclusive_but_not_before_start() {
    let emitter = Emitter::new();
    let j = emitter.emit_source_info(&SourceInfo::new("a.pure", 1, 5, 1, 9));
    assert!(is_num(get(&j, "endColumn"), 8));
    let j = emitter.emit_source_info(&SourceInfo::new("a.pure", 1, 5, 1, 5));
    assert!(is_num(get(&j, "endColumn"), 5));
    let j = emitter.emit_source_info(&SourceInfo::new("a.pure", 2, 3, 2, 0));
    assert!(is_num(get(&j, "endColumn"), 3));
    assert!(matches!(emitter.emit_source_info(&SourceInfo::dummy()), Json::Null));
}

#[test]
fn many_multiplicity_has_null_upper_bound_and_other_elements_are_unknown() {
    let emitter = Emitter::new();
    let p = Element::Class(ClassDef {
        package: PackagePath::root(),
        name: "C".to_string(),
        super_types: vec![Type::Packageable(PackageableType { full_path: "B".to_string(), source_info: SourceInfo::dummy() })],
        properties: vec![Property {
            name: "xs".to_string(),
            property_type: Type::Packageable(PackageableType { full_path: "Integer".to_string(), source_info: SourceInfo::dummy() }),
            multiplicity: Multiplicity::pure_many(),
            stereotypes: vec![],
            tagged_values: vec![],
            source_info: SourceInfo::dummy(),
        }],
        qualified_properties: vec![],
        constraints: vec![],
        stereotypes: vec![],
        tagged_values: vec![],
        source_info: SourceInfo::dummy(),
    });
    let j = emitter.emit_element(&p).unwrap();
    let props = match get(&j, "properties") { Json::Array(v) => v, _ => panic!() };
    assert!(matches!(get(get(&props[0], "multiplicity"), "upperBound"), Json::Null));
    let supers = match get(&j, "superTypes") { Json::Array(v) => v, _ => panic!() };
    assert!(is_str(get(&supers[0], "type"), "CLASS"));
    assert!(is_str(get(&supers[0], "path"), "B"));
    assert!(is_str(get(&j, "package"), ""));
}

#[test]
fn engine_errors_answer_with_an_inclusive_end_column() {
    let e = Emitter::new();
    let err: Result<Vec<Element>, legend::parser::ParseError> =
        Err(legend::parser::ParseError::EngineError("nope".to_string(), SourceInfo::new("a.pure", 2, 5, 2, 9)));
    let j = e.parse_response(&err).expect("engine errors are answered");
    assert!(matches!(get(&j, "engineError"), Json::Bool(true)));
    assert!(is_str(get(&j, "message"), "nope"));
    assert!(is_num(get(&j, "startLine"), 2));
    assert!(is_num(get(&j, "startColumn"), 5));
    assert!(is_num(get(&j, "endColumn"), 8));
    let at_start: Result<Vec<Element>, legend::parser::ParseError> =
        Err(legend::parser::ParseError::EngineError("x".to_string(), SourceInfo::new("a.pure", 1, 5, 1, 0)));
    assert!(is_num(get(&e.parse_response(&at_start).unwrap(), "endColumn"), 5));
    let other: Result<Vec<Element>, legend::parser::ParseError> = Err(legend::parser::ParseError::UnexpectedEof);
    assert!(e.parse_response(&other).is_none());
    let ok: Result<Vec<Element>, legend::parser::ParseError> = Ok(vec![]);
    let d = e.parse_response(&ok).unwrap();
    assert!(is_str(get(&d, "_type"), "data"));
    assert!(matches!(get(&d, "elements"), Json::Array(v) if v.is_empty()));
}

#[test]
fn descriptors_give_their_name_and_platform_dependencies() {
    let text = r#"{"name": "core_x", "version": 1.5, "dependencies": ["platform", 3, "core"]}"#;
    assert_eq!(read_descriptor_name(text).unwrap(), "core_x");
    assert_eq!(read_descriptor_dependencies(text).unwrap(), vec!["platform", "core"]);
    assert!(matches!(read_descriptor_name("{\"name\": 4}"), Err(DescriptorError::MissingName)));
    assert!(matches!(read_descriptor_name("not json"), Err(DescriptorError::NotJson)));
    assert!(read_descriptor_dependencies("{}").unwrap().is_empty());
}
