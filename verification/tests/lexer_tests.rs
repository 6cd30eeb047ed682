use legend::lexer::{lex_source, LineIndexer, Token};

#[test]
fn test_class_def() {
    let code = "
        Class model::Person {
            name: String[1];
        }
        ";
    let tokens = lex_source("test.pure", code);
    let kinds: Vec<Token> = tokens.into_iter().map(|t| t.token).collect();

    assert_eq!(
        kinds,
        vec![
            Token::KeywordClass,
            Token::Ident("model".into()),
            Token::PathSep,
            Token::Ident("Person".into()),
            Token::LBrace,
            Token::Ident("name".into()),
            Token::Colon,
            Token::Ident("String".into()),
            Token::LBracket,
            Token::Integer(1),
            Token::RBracket,
            Token::Semi,
            Token::RBrace,
        ]
    );
}

#[test]
fn test_island_grammar() {
    let code = r#"#>db.schema.table}#"#;
    let tokens = lex_source("test.pure", code);
    assert_eq!(tokens.len(), 2); // IslandOpen + IslandClose
    match &tokens[0].token {
        Token::IslandOpen(content) => assert_eq!(content, "db.schema.table"),
        _ => panic!("Expected IslandOpen"),
    }
}

#[test]
fn test_line_indexer() {
    let code = "Class A\n{\n  name: String[1];\n}";
    let tokens = lex_source("test.pure", code);

    let class_token = &tokens[0]; // 'Class'
    assert_eq!(class_token.source_info.start_line, 1);
    assert_eq!(class_token.source_info.start_column, 1);
    assert_eq!(class_token.source_info.end_line, 1);
    assert_eq!(class_token.source_info.end_column, 6);

    let name_token = &tokens[3]; // 'name'
    assert_eq!(name_token.source_info.start_line, 3);
    assert_eq!(name_token.source_info.start_column, 3);
    assert_eq!(name_token.source_info.end_line, 3);
    assert_eq!(name_token.source_info.end_column, 7);
}

#[test]
fn byte_offsets_map_to_one_based_lines_and_columns() {
    let indexer = LineIndexer::new("a.pure", "ab\ncd\n\nef");
    assert_eq!(indexer.byte_to_line_col(0), (1, 1));
    assert_eq!(indexer.byte_to_line_col(1), (1, 2));
    assert_eq!(indexer.byte_to_line_col(3), (2, 1));
    assert_eq!(indexer.byte_to_line_col(6), (3, 1));
    assert_eq!(indexer.byte_to_line_col(7), (4, 1));
    assert_eq!(indexer.byte_to_line_col(8), (4, 2));
}

#[test]
fn span_becomes_inclusive_source_info() {
    let indexer = LineIndexer::new("a.pure", "Class A\n{\n}");
    let info = indexer.span_to_source_info(0, 5);
    assert_eq!(info.source_id, "a.pure");
    assert_eq!((info.start_line, info.start_column, info.end_line, info.end_column), (1, 1, 1, 6));
}

#[test]
fn literals_keywords_and_operators() {
    let tokens: Vec<Token> = lex_source("t.pure", "let x = $y->f(3, 'a', true) != 2.5")
        .into_iter()
        .map(|t| t.token)
        .collect();
    assert_eq!(
        tokens,
        vec![
            Token::KeywordLet,
            Token::Ident("x".into()),
            Token::Eq,
            Token::Variable("y".into()),
            Token::Arrow,
            Token::Ident("f".into()),
            Token::LParen,
            Token::Integer(3),
            Token::Comma,
            Token::StringLit("a".into()),
            Token::Comma,
            Token::Bool(true),
            Token::RParen,
            Token::NotEq,
            Token::Float("2.5".into()),
        ]
    );
}

#[test]
fn comments_and_whitespace_are_skipped() {
    let tokens: Vec<Token> = lex_source("t.pure", "// line\n/* block */ Class")
        .into_iter()
        .map(|t| t.token)
        .collect();
    assert_eq!(tokens, vec![Token::KeywordClass]);
}

#[test]
fn section_header_and_as_ident() {
    let tokens = lex_source("t.pure", "###Pure\nClass");
    assert_eq!(tokens[0].token, Token::SectionHeader("Pure".into()));
    assert_eq!(tokens[1].token.as_ident(), Some("Class".to_string()));
    assert_eq!(Token::Comma.as_ident(), None);
}
