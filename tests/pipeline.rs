use gtk_ui::generator::Generator;
use gtk_ui::lexer::{DefinitionType, DirectiveType, IdentifierType, Lexer, Token, TokenValue, TypeIdentifierType};
use gtk_ui::parser::{DefinitionType as Kind, Parser, Statement, StatementValue};
use gtk_ui::preprocessor::Preprocessor;
use gtk_ui::util::{get_position_from_char_index, usize_to_decimal};
use std::ops::Range;

type Fault = (String, Range<usize>);

const OPENING: &str = "<?xml version=\"1.0\" encoding=\"UTF-8\"?>\n<interface>\n";

fn lex(src: &str) -> Result<Vec<Token>, Fault> {
    let mut lexer = Lexer::new(src.to_string());
    lexer.lex()?;
    Ok(lexer.tokens)
}

fn parse_file(src: &str, filename: &str) -> Result<Vec<Statement>, Fault> {
    let tokens = lex(src)?;
    let mut parser = Parser::new(tokens, filename.to_string());
    parser.parse()?;
    Ok(parser.statements)
}

fn parse(src: &str) -> Result<Vec<Statement>, Fault> {
    parse_file(src, "main.gui")
}

fn parse_err(src: &str) -> Fault {
    match parse(src) {
        Ok(_) => panic!("expected a parse error"),
        Err(e) => e,
    }
}

fn generate_statements(statements: Vec<Statement>) -> (Result<(), Fault>, Vec<(String, String)>) {
    let mut generator = Generator::new(statements);
    let result = generator.generate();
    let documents = generator.documents().iter().map(|d| (d.name.clone(), d.content.clone())).collect();
    (result, documents)
}

fn generate(src: &str) -> (Result<(), Fault>, Vec<(String, String)>) {
    match parse(src) {
        Ok(statements) => generate_statements(statements),
        Err(e) => panic!("parse failed: {:?}", e),
    }
}

fn document(body: &str) -> String {
    format!("{}\n{}</interface>\n", OPENING, body)
}

fn single_document(src: &str) -> String {
    let (result, documents) = generate(src);
    assert_eq!(result, Ok(()));
    assert_eq!(documents.len(), 1);
    documents[0].1.clone()
}

fn generate_err(src: &str) -> Fault {
    match generate(src).0 {
        Ok(()) => panic!("expected a generation error"),
        Err(e) => e,
    }
}

// Lexer

#[test]
fn lex_structural_tokens() {
    let tokens = lex("{ } ( ) , ->").unwrap();
    let kinds: Vec<&str> = tokens.iter().map(|t| t.to_string()).collect();
    assert_eq!(kinds, vec!["{", "}", "(", ")", ",", "->"]);
    assert_eq!(tokens[5].range, 10..12);
    assert_eq!(tokens[1].range, 2..3);
}

#[test]
fn lex_definition_kinds() {
    let tokens = lex("@InlineProp @ChildArg @Foo").unwrap();
    assert!(matches!(tokens[0].value, TokenValue::Definition(DefinitionType::InlineProp)));
    assert!(matches!(tokens[1].value, TokenValue::Definition(DefinitionType::ChildArg)));
    match &tokens[2].value {
        TokenValue::Definition(DefinitionType::Object(name)) => assert_eq!(name, "Foo"),
        _ => panic!("expected an object definition"),
    }
    assert_eq!(tokens[2].range, 22..26);
}

#[test]
fn lex_directives() {
    let tokens = lex("#include #header").unwrap();
    assert!(matches!(tokens[0].value, TokenValue::Directive(DirectiveType::Include)));
    assert!(matches!(tokens[1].value, TokenValue::Directive(DirectiveType::Header)));
}

#[test]
fn lex_invalid_directive() {
    assert_eq!(lex("#foo").err(), Some(("invalid directive".to_string(), 0..4)));
}

#[test]
fn lex_string_is_unescaped() {
    let tokens = lex("\"a\\nb\\\"c\"").unwrap();
    match &tokens[0].value {
        TokenValue::String(s) => assert_eq!(s, "a\nb\"c"),
        _ => panic!("expected a string"),
    }
    assert_eq!(tokens[0].range, 0..9);
}

#[test]
fn lex_string_bad_escape() {
    assert_eq!(lex("\"\\q\"").err(), Some(("unable to escape string".to_string(), 0..4)));
}

#[test]
fn lex_string_broken_by_newline() {
    assert_eq!(lex("\"ab\ncd\"").err(), Some(("unexpected end of string input".to_string(), 3..3)));
}

#[test]
fn lex_string_unterminated() {
    assert_eq!(lex("\"ab").err(), Some(("unexpected end of string input".to_string(), 3..3)));
}

#[test]
fn lex_numbers_canonical() {
    let tokens = lex("007.50 10 0.0 1. 3.25").unwrap();
    let texts: Vec<String> = tokens.iter().map(|t| t.value_to_string()).collect();
    assert_eq!(texts, vec!["7.5", "10", "0", "1", "3.25"]);
    assert_eq!(tokens[0].range, 0..6);
}

#[test]
fn lex_number_malformed() {
    assert_eq!(lex("1.2.3").err(), Some(("invalid float literal".to_string(), 0..5)));
}

#[test]
fn lex_booleans_and_type_names() {
    let tokens = lex("true false String Number Bool foo_bar-x").unwrap();
    assert!(matches!(tokens[0].value, TokenValue::Bool(1)));
    assert!(matches!(tokens[1].value, TokenValue::Bool(0)));
    assert!(matches!(tokens[2].value, TokenValue::Identifier(IdentifierType::Type(TypeIdentifierType::String))));
    assert!(matches!(tokens[3].value, TokenValue::Identifier(IdentifierType::Type(TypeIdentifierType::Number))));
    assert!(matches!(tokens[4].value, TokenValue::Identifier(IdentifierType::Type(TypeIdentifierType::Bool))));
    match &tokens[5].value {
        TokenValue::Identifier(IdentifierType::Generic(name)) => assert_eq!(name, "foo_bar-x"),
        _ => panic!("expected a generic identifier"),
    }
    assert_eq!(tokens[0].value_to_string(), "1");
    assert_eq!(tokens[1].value_to_string(), "0");
}

#[test]
fn lex_setter() {
    let tokens = lex(".label(\"x\")").unwrap();
    match &tokens[0].value {
        TokenValue::Setter(name) => assert_eq!(name, "label"),
        _ => panic!("expected a setter"),
    }
    assert_eq!(tokens[0].range, 0..6);
}

#[test]
fn lex_dash_without_arrow() {
    assert_eq!(lex("-x").err(), Some(("unrecognized character 'x'".to_string(), 1..2)));
    assert_eq!(lex("-").err(), Some(("unexpected end of input".to_string(), 1..1)));
}

#[test]
fn lex_comment_is_skipped() {
    let tokens = lex("/ a comment { }\n{").unwrap();
    assert_eq!(tokens.len(), 1);
    assert_eq!(tokens[0].range, 16..17);
}

#[test]
fn lex_unrecognized_character() {
    assert_eq!(lex("{ $").err(), Some(("unrecognized character '$'".to_string(), 2..2)));
}

#[test]
fn lex_carriage_return_is_rejected() {
    assert_eq!(lex("{\r}").err(), Some(("unrecognized character '\r'".to_string(), 1..1)));
}

#[test]
fn definition_type_names() {
    assert_eq!(DefinitionType::InlineArg.to_string(), "InlineArg");
    assert_eq!(DefinitionType::Object("x".to_string()).to_string(), "Object");
    assert!(DirectiveType::from(&"header".to_string()).is_some());
    assert!(DirectiveType::from(&"footer".to_string()).is_none());
}

// Parser

#[test]
fn parse_raw_definition() {
    let statements = parse("@Box { @InlineArg(\"label\", String) @ChildProp(\"text\", Number) }").unwrap();
    assert_eq!(statements.len(), 1);
    match &statements[0].value {
        StatementValue::Definition(d) => {
            assert_eq!(d.name, "Box");
            assert!(matches!(d.definition_type, Kind::Raw));
            assert_eq!(d.children.len(), 2);
            match &d.children[1].value {
                StatementValue::Property(p) => {
                    assert_eq!(p.name, "text");
                    assert!(matches!(p.internal_type, TypeIdentifierType::Number));
                    assert!(matches!(p.definition_type, DefinitionType::ChildProp));
                },
                _ => panic!("expected a property"),
            }
        },
        _ => panic!("expected a definition"),
    }
    assert_eq!(statements[0].range, 0..4);
}

#[test]
fn parse_root_is_named_after_file() {
    let statements = parse_file("@root { Box { } }", "dir/main.gui").unwrap();
    match &statements[0].value {
        StatementValue::Definition(d) => match &d.definition_type {
            Kind::Root(name) => assert_eq!(name, "main"),
            _ => panic!("expected a root definition"),
        },
        _ => panic!("expected a definition"),
    }
}

#[test]
fn parse_collective_definition() {
    let statements = parse("@Pair { Box { } Box(\"a\") .x(1) }").unwrap();
    match &statements[0].value {
        StatementValue::Definition(d) => {
            assert!(matches!(d.definition_type, Kind::Collective));
            match &d.children[1].value {
                StatementValue::Object(o) => {
                    assert_eq!(o.name, "Box");
                    assert_eq!(o.arguments.len(), 1);
                    assert_eq!(o.setters.len(), 1);
                    assert_eq!(o.setters[0].name, "x");
                    assert_eq!(o.setters[0].value.value_to_string(), "1");
                },
                _ => panic!("expected an object"),
            }
        },
        _ => panic!("expected a definition"),
    }
}

#[test]
fn parse_inherits_list() {
    let statements = parse("@B -> (A, C) { } @D -> A { }").unwrap();
    match &statements[0].value {
        StatementValue::Definition(d) => {
            assert_eq!(d.inherits, vec!["A".to_string(), "C".to_string()]);
            assert!(matches!(d.definition_type, Kind::Raw));
        },
        _ => panic!("expected a definition"),
    }
    match &statements[1].value {
        StatementValue::Definition(d) => assert_eq!(d.inherits, vec!["A".to_string()]),
        _ => panic!("expected a definition"),
    }
}

#[test]
fn parse_parents_must_be_names() {
    assert_eq!(parse_err("@B -> (A, \"x\") { }").0, "argument list of parents must only contain definitions");
}

#[test]
fn parse_mixed_body_is_rejected() {
    assert_eq!(
        parse_err("@Box { @InlineArg(\"a\", String) Label { } }"),
        ("a definition can only have all property definitions or all objects".to_string(), 5..6)
    );
}

#[test]
fn parse_object_on_top_level() {
    assert_eq!(
        parse_err("Box { }"),
        ("found Object on top level. Only object definitions and directives are allowed here.".to_string(), 0..3)
    );
}

#[test]
fn parse_empty_argument_list() {
    assert_eq!(parse_err("@A { B() }").0, "found ), expected Number, String, Bool, or type identifier");
}

#[test]
fn parse_property_needs_two_arguments() {
    assert_eq!(parse_err("@A { @InlineArg(\"a\") }").0, "expected only 2 arguments, found 1 args");
    assert_eq!(parse_err("@A { @InlineArg(1, String) }").0, "expected String, found number");
    assert_eq!(parse_err("@A { @InlineArg(\"a\", b) }").0, "expected type identifier, found identifier");
}

#[test]
fn parse_setter_needs_one_literal() {
    assert_eq!(parse_err("@root { Box { } .a(1, 2) }").0, "expected 1 argument, got 2");
    assert_eq!(parse_err("@root { Box { } .a(b) }").0, "expected Number, String, or Bool, found identifier");
}

#[test]
fn parse_unterminated_block_before_any_statement() {
    assert_eq!(parse_err("@root { Box { }"), ("expected the end of a block, found nothing".to_string(), 1..0));
}

#[test]
fn parse_missing_block_uses_last_statement() {
    assert_eq!(parse_err("#header \"h\" @A"), ("expected block or inherit statement, found nothing".to_string(), 12..14));
    assert_eq!(parse_err("#header \"h\" @A -> B"), ("expected the start of a block, found nothing".to_string(), 0..7));
}

#[test]
fn parse_directives() {
    let statements = parse("#header \"<a/>\" #include \"lib\"").unwrap();
    match &statements[0].value {
        StatementValue::Header(h) => assert_eq!(h, "<a/>"),
        _ => panic!("expected a header"),
    }
    match &statements[1].value {
        StatementValue::Include(p) => assert_eq!(p, "lib"),
        _ => panic!("expected an include"),
    }
    assert_eq!(statements[1].to_string(), "Include");
    assert_eq!(parse_err("#header 3").0, "expected string, found number");
}

#[test]
fn parse_type_identifier_as_object() {
    assert_eq!(parse_err("@root { String { } }").0, "expected generic identifier, found type identifier");
}

// Generator

#[test]
fn inline_arguments_round_trip() {
    let content = single_document(
        "@Btn { @InlineArg(\"label\", String) @InlineArg(\"width\", Number) @InlineProp(\"on\", Bool) }
         @root { Btn(\"OK\", 2.50) .on(true) }",
    );
    assert_eq!(content, document("<object class=\"Btn\" label=\"OK\" width=\"2.5\" on=\"1\">\n</object>\n"));
}

#[test]
fn document_is_named_after_file() {
    let (result, documents) = generate_statements(parse_file("@root { Nope { } }", "views/window.gui").unwrap());
    assert_eq!(result, Ok(()));
    assert_eq!(documents, vec![("window".to_string(), document(""))]);
}

#[test]
fn arity_too_many_arguments() {
    assert_eq!(
        generate_err("@Btn { @InlineArg(\"label\", String) } @root { Btn(\"a\", \"b\") }"),
        ("the 'Btn' definition expects 1 args, 2 given".to_string(), 45..48)
    );
}

#[test]
fn arity_too_few_arguments() {
    assert_eq!(
        generate_err("@Btn { @InlineArg(\"label\", String) } @root { Btn { } }").0,
        "the 'Btn' definition expects 1 args, 0 given"
    );
}

#[test]
fn inherited_child_property_renders() {
    let content = single_document("@A { @ChildProp(\"x\", String) } @B -> A { } @root { B { } .x(\"v\") }");
    assert_eq!(content, document("<object class=\"B\">\n<property name=\"x\">v</property>\n</object>\n"));
}

#[test]
fn inherit_collective_is_rejected() {
    assert_eq!(
        generate_err("@C { Box { } } @D -> C { @InlineProp(\"a\", String) }"),
        ("cannot inherit collective definition 'C'".to_string(), 15..17)
    );
}

#[test]
fn inherit_undefined_is_rejected() {
    assert_eq!(generate_err("@D -> Z { }").0, "'D' cannot inherit undefined definition 'Z'");
}

#[test]
fn mixed_definition_body_fails() {
    assert!(parse("@W { @ChildProp(\"t\", String) Btn { } }").is_err());
    assert!(parse("@W { Btn { } @ChildProp(\"t\", String) }").is_err());
}

#[test]
fn unknown_definition_renders_nothing() {
    let content = single_document("@Btn { } @root { Nope { } Btn { } Nope(1) }");
    assert_eq!(content, document("<object class=\"Btn\">\n</object>\n"));
}

#[test]
fn mismatched_setter_is_dropped() {
    let content = single_document("@Spin { @InlineProp(\"value\", Number) } @root { Spin { } .value(\"ten\") }");
    assert_eq!(content, document("<object class=\"Spin\">\n</object>\n"));
}

#[test]
fn mismatched_argument_is_dropped() {
    let content = single_document("@L { @ChildArg(\"label\", String) } @root { L(5) }");
    assert_eq!(content, document("<object class=\"L\">\n</object>\n"));
}

#[test]
fn child_argument_renders_property() {
    let content = single_document("@L { @ChildArg(\"label\", String) } @root { L(\"hi\") }");
    assert_eq!(content, document("<object class=\"L\">\n<property name=\"label\">hi</property>\n</object>\n"));
}

#[test]
fn headers_accumulate_in_order() {
    let content = single_document("#header \"<a/>\" @Btn { } #header \"<b/>\" @root { Btn { } }");
    assert_eq!(content, format!("{}<a/>\n<b/>\n\n<object class=\"Btn\">\n</object>\n</interface>\n", OPENING));
}

#[test]
fn header_after_root_is_not_in_document() {
    let content = single_document("#header \"<a/>\" @root { Nope { } } #header \"<b/>\"");
    assert_eq!(content, format!("{}<a/>\n\n</interface>\n", OPENING));
}

#[test]
fn nested_children_are_wrapped() {
    let content = single_document("@Box { } @root { Box { Box { } Nope { } } }");
    assert_eq!(
        content,
        document("<object class=\"Box\">\n<child>\n<object class=\"Box\">\n</object>\n</child>\n<child>\n</child>\n</object>\n")
    );
}

#[test]
fn collective_is_spliced() {
    let content = single_document("@Btn { } @Pair { Btn { } Btn { } } @root { Pair { } }");
    assert_eq!(content, document("<object class=\"Btn\">\n</object>\n<object class=\"Btn\">\n</object>\n"));
}

#[test]
fn setter_without_property_fails() {
    assert_eq!(
        generate_err("@Btn { } @root { Btn { } .nope(1) }"),
        ("no such property on 'Btn' called 'nope'".to_string(), 25..30)
    );
}

#[test]
fn later_definition_wins() {
    let content = single_document(
        "@Btn { @InlineProp(\"a\", Number) } @Btn { @InlineProp(\"b\", Number) } @root { Btn { } .b(1) }",
    );
    assert_eq!(content, document("<object class=\"Btn\" b=\"1\">\n</object>\n"));
}

#[test]
fn cyclic_inheritance_reports_missing_property() {
    assert_eq!(
        generate_err("@A { } @B -> A { } @A -> B { } @root { A { } .x(1) }").0,
        "no such property on 'A' called 'x'"
    );
}

#[test]
fn include_left_for_generator_fails() {
    assert_eq!(
        generate_err("#include \"lib\"").0,
        "this should never ever ever ever ever happen. something must be wrong with the parser if this does happen"
    );
}

#[test]
fn documents_before_error_are_kept() {
    let (result, documents) = generate("@root { Nope { } } @Btn { } @root { Btn(1) }");
    assert_eq!(result.unwrap_err().0, "the 'Btn' definition expects 0 args, 1 given");
    assert_eq!(documents.len(), 1);
}

#[test]
fn generate_from_collective_directly() {
    let statements = parse("@root { Box { } }").unwrap();
    let generator = Generator::new(Vec::new());
    match &statements[0].value {
        StatementValue::Definition(d) => assert_eq!(generator.generate_from_collective(&d.children), Ok(String::new())),
        _ => panic!("expected a definition"),
    }
}

// Preprocessor

fn headers(statements: &[Statement]) -> Vec<String> {
    statements
        .iter()
        .filter_map(|s| match &s.value {
            StatementValue::Header(h) => Some(h.clone()),
            _ => None,
        })
        .collect()
}

#[test]
fn include_is_spliced_in_place() {
    let mut pre = Preprocessor::new();
    let main = parse("#header \"one\" #include \"lib\" #header \"three\"").unwrap();
    let request = pre.preprocess(main, vec!["main.gui".to_string()]);
    assert_eq!(request, Some("lib".to_string()));
    assert_eq!(pre.current_file(), Some(&"main.gui".to_string()));
    let lib = parse("#header \"two\"").unwrap();
    assert_eq!(pre.resolved("lib.gui".to_string(), lib), Ok(None));
    assert_eq!(headers(&pre.statements), vec!["one", "two", "three"]);
}

#[test]
fn cyclic_include_fails() {
    let mut pre = Preprocessor::new();
    let a = parse("#include \"b\"").unwrap();
    assert_eq!(pre.preprocess(a, vec!["a.gui".to_string()]), Some("b".to_string()));
    let b = parse("#include \"a\"").unwrap();
    assert_eq!(pre.resolved("b.gui".to_string(), b), Ok(Some("a".to_string())));
    let a_again = parse("#include \"b\"").unwrap();
    assert_eq!(pre.resolved("a.gui".to_string(), a_again), Err(("recursive include of 'a.gui'".to_string(), 1..0)));
}

#[test]
fn self_include_fails() {
    let mut pre = Preprocessor::new();
    let a = parse("#include \"a\"").unwrap();
    assert_eq!(pre.preprocess(a, vec!["a.gui".to_string()]), Some("a".to_string()));
    assert_eq!(pre.resolved("a.gui".to_string(), Vec::new()), Err(("recursive include of 'a.gui'".to_string(), 1..0)));
}

#[test]
fn headers_from_included_file_reach_document() {
    let mut pre = Preprocessor::new();
    let main = parse("#include \"lib\" #header \"<b/>\" @root { Btn { } }").unwrap();
    assert_eq!(pre.preprocess(main, vec!["main.gui".to_string()]), Some("lib".to_string()));
    let lib = parse("#header \"<a/>\" @Btn { }").unwrap();
    assert_eq!(pre.resolved("lib.gui".to_string(), lib), Ok(None));
    let (result, documents) = generate_statements(pre.statements);
    assert_eq!(result, Ok(()));
    assert_eq!(documents[0].1, format!("{}<a/>\n<b/>\n\n<object class=\"Btn\">\n</object>\n</interface>\n", OPENING));
}

// Utilities

#[test]
fn position_of_index() {
    let text = "ab\ncd".to_string();
    assert_eq!(get_position_from_char_index(0, &text), Ok((1, 1)));
    assert_eq!(get_position_from_char_index(4, &text), Ok((2, 2)));
    assert!(get_position_from_char_index(5, &text).is_err());
}

#[test]
fn decimal_text_of_counts() {
    assert_eq!(usize_to_decimal(0), "0");
    assert_eq!(usize_to_decimal(1234), "1234");
}

#[test]
fn empty_root_body_is_a_schema() {
    let statements = parse("@root { }").unwrap();
    match &statements[0].value {
        StatementValue::Definition(d) => assert!(matches!(d.definition_type, Kind::Raw)),
        _ => panic!("expected a definition"),
    }
    let (result, documents) = generate_statements(statements);
    assert_eq!(result, Ok(()));
    assert!(documents.is_empty());
}

#[test]
fn root_takes_given_output_name() {
    let tokens = lex("@root { Box { } }").unwrap();
    let mut parser = Parser::with_output_name(tokens, "x.gui".to_string(), Some("custom".to_string()));
    parser.parse().unwrap();
    match &parser.statements[0].value {
        StatementValue::Definition(d) => match &d.definition_type {
            Kind::Root(name) => assert_eq!(name, "custom"),
            _ => panic!("expected a root definition"),
        },
        _ => panic!("expected a definition"),
    }
    let tokens = lex("@root { Box { } }").unwrap();
    let mut parser = Parser::with_output_name(tokens, "".to_string(), None);
    assert_eq!(parser.parse(), Err(("invalid file path".to_string(), 0..5)));
}
