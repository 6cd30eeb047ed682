use legend::ast::{Element, ExtensionElement, PackagePath, SourceInfo, Type};
use legend::lexer::{SpannedToken, Token};
use legend::parser::{ParseError, Parser, PluginRegistry, SectionPlugin};
use legend::relation_accessor::RelationAccessorPlugin;
use std::sync::Arc;

fn parse_doc(code: &str) -> Vec<Element> {
    let registry = Arc::new(PluginRegistry::new());
    let mut parser = Parser::new("test.pure", code, registry);
    parser.parse_document().expect("Failed to parse document")
}

fn parse_doc_error(code: &str, registry: PluginRegistry) -> ParseError {
    let mut parser = Parser::new("test.pure", code, Arc::new(registry));
    match parser.parse_document() {
        Err(e) => e,
        Ok(_) => panic!("Expected parsing to fail"),
    }
}

#[test]
fn test_parse_class_with_stereotypes_and_tagged_values() {
    let code = "
    ###Pure
    Class <<temporal.businesstemporal>> {doc.doc = 'something'} A extends B
    {
    }
    ";

    let elements = parse_doc(code);
    assert_eq!(elements.len(), 1);

    if let Element::Class(c) = &elements[0] {
        assert_eq!(c.name.as_str(), "A");
        assert_eq!(c.super_types.len(), 1);
        let Type::Packageable(p) = &c.super_types[0];
        assert_eq!(p.full_path, "B");

        assert_eq!(c.stereotypes.len(), 1);
        assert_eq!(c.stereotypes[0].profile, "temporal");
        assert_eq!(c.stereotypes[0].value.as_str(), "businesstemporal");

        assert_eq!(c.tagged_values.len(), 1);
        assert_eq!(c.tagged_values[0].profile, "doc");
        assert_eq!(c.tagged_values[0].tag.as_str(), "doc");
        assert_eq!(c.tagged_values[0].value, "something");
    } else {
        panic!("Expected Class");
    }
}

#[test]
fn test_parse_profile() {
    let code = "
    ###Pure
    Profile test::A
    {
       tags : [tag1, tag2];
       stereotypes : [stereotype1, stereotype2];
    }
    ";

    let elements = parse_doc(code);
    assert_eq!(elements.len(), 1);

    if let Element::Profile(p) = &elements[0] {
        assert_eq!(p.name.as_str(), "A");
        assert_eq!(p.package.path.join("::"), "test");
        assert_eq!(p.tags.iter().map(|t| t.value.as_str()).collect::<Vec<_>>(), vec!["tag1", "tag2"]);
        assert_eq!(p.stereotypes.iter().map(|t| t.value.as_str()).collect::<Vec<_>>(), vec!["stereotype1", "stereotype2"]);
    } else {
        panic!("Expected Profile");
    }
}

#[test]
fn class_properties_and_package() {
    let elements = parse_doc("Class my::pkg::Person\n{\n  name: String[1];\n  nick: String[0..1];\n}");
    assert_eq!(elements.len(), 1);
    match &elements[0] {
        Element::Class(c) => {
            assert_eq!(c.package.path, vec!["my".to_string(), "pkg".to_string()]);
            assert_eq!(c.name, "Person");
            assert_eq!(c.properties.len(), 2);
            assert_eq!(c.properties[0].name, "name");
            assert_eq!(c.properties[0].multiplicity.lower_bound, 1);
            assert_eq!(c.properties[0].multiplicity.upper_bound, Some(1));
            // The multiplicity between the brackets is skipped: every property is `[1]`.
            assert_eq!(c.properties[1].multiplicity.lower_bound, 1);
            assert_eq!(c.properties[1].multiplicity.upper_bound, Some(1));
        }
        _ => panic!("Expected Class"),
    }
}

#[test]
fn type_parameters_are_refused() {
    let e = parse_doc_error("Class A<T>\n{\n}", PluginRegistry::new());
    match e {
        ParseError::EngineError(msg, _) => assert!(msg.contains("Type and/or multiplicity parameters")),
        other => panic!("unexpected {:?}", other),
    }
}

#[test]
fn unregistered_island_is_refused_with_the_available_ones() {
    let mut registry = PluginRegistry::new();
    registry.island_plugins.push(">".to_string());
    let e = parse_doc_error("function f():Any[1]\n{\n  #unknown{x}#\n}", registry);
    match e {
        ParseError::EngineError(msg, _) => {
            assert!(msg.contains("'unknown'"));
            assert!(msg.contains("[>]"));
        }
        other => panic!("unexpected {:?}", other),
    }
}

#[test]
fn unknown_section_is_reported() {
    let e = parse_doc_error("###Mapping\nMapping m()", PluginRegistry::new());
    assert!(matches!(e, ParseError::UnknownSection(s) if s == "Mapping"));
}

/// A section grammar reading `Mapping name` items up to the next section.
struct MappingSections;

impl SectionPlugin for MappingSections {
    fn section_name(&self) -> &str {
        "Mapping"
    }

    fn parse_section(
        &self,
        tokens: &[SpannedToken],
        pos: &mut usize,
        _source: &str,
        _island_types: &[String],
    ) -> Result<Vec<ExtensionElement>, ParseError> {
        let mut out = Vec::new();
        while *pos < tokens.len() && !matches!(tokens[*pos].token, Token::SectionHeader(_)) {
            if let Token::Ident(n) = &tokens[*pos].token {
                if n != "Mapping" {
                    out.push(ExtensionElement {
                        section: "Mapping".to_string(),
                        element_type: "mapping".to_string(),
                        package: PackagePath { path: vec![], source_info: SourceInfo::dummy() },
                        name: n.clone(),
                        source_info: tokens[*pos].source_info.clone(),
                    });
                }
            }
            *pos += 1;
        }
        Ok(out)
    }
}

#[test]
fn registered_sections_are_parsed_by_their_plugin() {
    let mut registry = PluginRegistry::new();
    registry.register_section(Box::new(MappingSections));
    registry.register_island(&RelationAccessorPlugin);
    assert_eq!(registry.island_plugins, vec![">".to_string()]);
    let mut parser = Parser::new("t.pure", "###Mapping\nMapping m1 Mapping m2\n###Pure\nClass A {}", Arc::new(registry));
    let els = parser.parse_document().expect("parses");
    assert_eq!(els.len(), 3);
    assert!(matches!(&els[0], Element::Extension(x) if x.name == "m1" && x.element_type == "mapping"));
    assert!(matches!(&els[1], Element::Extension(x) if x.name == "m2"));
    assert!(matches!(&els[2], Element::Class(c) if c.name == "A"));
}
