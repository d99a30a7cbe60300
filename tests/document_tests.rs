use xml_parser::constraint::{Constraint, ConstraintType};
use xml_parser::document::{XmlDocument, XmlElement, XmlNode};
use xml_parser::lexer::tokenize;
use xml_parser::parser::{parse_tokens, ParseError};
use xml_parser::token::{Token, TokenizeError};
use xml_parser::validator::ConstraintValidator;

fn parse(text: &str) -> Result<XmlDocument, ParseError> {
    parse_tokens(tokenize(text).expect("text should tokenize"))
}

#[test]
fn scenario_nested_element_with_attribute_and_text() {
    let doc = parse(r#"<a x="1"><b>hi</b></a>"#).unwrap();
    let a = doc.get_root_element().unwrap();
    assert_eq!(a.name, "a");
    assert_eq!(a.get_attribute("x").unwrap(), "1");
    assert_eq!(a.attributes.len(), 1);
    assert_eq!(a.children.len(), 1);
    let b = a.find_child_by_name("b").unwrap();
    assert_eq!(b.children.len(), 1);
    match &b.children[0] {
        XmlNode::Text(t) => assert_eq!(t, "hi"),
        other => panic!("expected text, got {:?}", other),
    }
}

#[test]
fn scenario_self_closing_child() {
    let doc = parse("<a><b/></a>").unwrap();
    let a = doc.get_root_element().unwrap();
    assert_eq!(a.children.len(), 1);
    let b = a.find_child_by_name("b").unwrap();
    assert_eq!(b.attributes.len(), 0);
    assert_eq!(b.children.len(), 0);
}

#[test]
fn scenario_comment_child() {
    let doc = parse("<a><!-- note --></a>").unwrap();
    let a = doc.get_root_element().unwrap();
    assert_eq!(a.children.len(), 1);
    match &a.children[0] {
        XmlNode::Comment(c) => assert_eq!(c, "note"),
        other => panic!("expected comment, got {:?}", other),
    }
}

#[test]
fn scenario_mismatched_close() {
    assert!(matches!(parse("<a><b></a>"), Err(ParseError::MismatchedTags)));
}

#[test]
fn scenario_unclosed_element() {
    assert!(matches!(parse("<a>"), Err(ParseError::IncompleteDocument)));
}

#[test]
fn two_top_level_elements_fail() {
    assert!(matches!(parse("<a></a><b></b>"), Err(ParseError::MismatchedTags)));
    assert!(matches!(parse("<a/><b/>"), Err(ParseError::MismatchedTags)));
    assert!(matches!(parse("<a></a><b/>"), Err(ParseError::MismatchedTags)));
}

#[test]
fn close_without_open_is_empty_stack() {
    assert!(matches!(parse("</a>"), Err(ParseError::EmptyStack)));
}

#[test]
fn self_closing_matches_open_close_pair() {
    let short = parse(r#"<img src="a.jpg"/>"#).unwrap();
    let long = parse(r#"<img src="a.jpg"></img>"#).unwrap();
    let s = short.get_root_element().unwrap();
    let l = long.get_root_element().unwrap();
    assert_eq!(s.name, l.name);
    assert_eq!(s.attributes, l.attributes);
    assert_eq!(s.children.len(), 0);
    assert_eq!(l.children.len(), 0);
}

#[test]
fn attributes_go_to_the_following_tag() {
    let doc = parse(r#"<a p="1"><b q="2"/></a>"#).unwrap();
    let a = doc.get_root_element().unwrap();
    assert_eq!(a.get_attribute("p").unwrap(), "1");
    assert!(a.get_attribute("q").is_none());
    let b = a.find_child_by_name("b").unwrap();
    assert_eq!(b.get_attribute("q").unwrap(), "2");
    assert!(b.get_attribute("p").is_none());
}

#[test]
fn duplicate_attribute_keeps_last_value() {
    let doc = parse(r#"<a k="1" k='2'></a>"#).unwrap();
    let a = doc.get_root_element().unwrap();
    assert_eq!(a.attributes.len(), 1);
    assert_eq!(a.get_attribute("k").unwrap(), "2");
}

#[test]
fn whitespace_only_text_is_dropped() {
    let tokens = tokenize("<a>  \n\t </a>").unwrap();
    assert_eq!(
        tokens,
        vec![
            Token::OpenTag("a".to_string()),
            Token::CloseTag("a".to_string()),
            Token::EndOfFile
        ]
    );
    let doc = parse_tokens(tokens).unwrap();
    assert_eq!(doc.get_root_element().unwrap().children.len(), 0);
}

#[test]
fn text_is_trimmed() {
    let tokens = tokenize("<a>  two words \n</a>").unwrap();
    assert_eq!(tokens[1], Token::Text("two words".to_string()));
}

#[test]
fn element_count_matches_tags() {
    let doc = parse("<r><a><b/></a><c></c><d/></r>").unwrap();
    fn count(e: &XmlElement) -> usize {
        1 + e
            .children
            .iter()
            .map(|n| match n {
                XmlNode::Element(c) => count(c),
                _ => 0,
            })
            .sum::<usize>()
    }
    assert_eq!(count(doc.get_root_element().unwrap()), 5);
}

#[test]
fn tokens_of_declaration_and_attributes() {
    let tokens = tokenize(r#"<?xml version="1.0"?><a x ="1" y='2'>t</a>"#).unwrap();
    assert_eq!(
        tokens,
        vec![
            Token::XmlDeclaration,
            Token::Attribute("x".to_string(), "1".to_string()),
            Token::Attribute("y".to_string(), "2".to_string()),
            Token::OpenTag("a".to_string()),
            Token::Text("t".to_string()),
            Token::CloseTag("a".to_string()),
            Token::EndOfFile
        ]
    );
}

#[test]
fn empty_text_gives_only_end_of_file() {
    assert_eq!(tokenize("").unwrap(), vec![Token::EndOfFile]);
    let doc = parse_tokens(vec![Token::EndOfFile]).unwrap();
    assert!(doc.get_root_element().is_none());
}

#[test]
fn tokenize_errors() {
    assert!(matches!(tokenize("<a/ >"), Err(TokenizeError::MalformedTag)));
    assert!(matches!(tokenize("<!x>"), Err(TokenizeError::MalformedTag)));
    assert!(matches!(tokenize("<a x=1>"), Err(TokenizeError::MalformedAttribute)));
    assert!(matches!(tokenize("<a"), Err(TokenizeError::UnexpectedEndOfInput)));
    assert!(matches!(tokenize("<a x=\"1"), Err(TokenizeError::UnexpectedEndOfInput)));
    assert!(matches!(tokenize("<!-- open"), Err(TokenizeError::UnexpectedEndOfInput)));
    assert!(matches!(tokenize("<?xml"), Err(TokenizeError::UnexpectedEndOfInput)));
    assert!(matches!(tokenize("</a"), Err(TokenizeError::UnexpectedEndOfInput)));
    assert!(matches!(tokenize("<"), Err(TokenizeError::UnexpectedEndOfInput)));
}

#[test]
fn tokens_after_end_of_file_are_ignored() {
    let tokens = vec![
        Token::OpenTag("a".to_string()),
        Token::CloseTag("a".to_string()),
        Token::EndOfFile,
        Token::CloseTag("z".to_string()),
    ];
    let doc = parse_tokens(tokens).unwrap();
    assert_eq!(doc.get_root_element().unwrap().name, "a");
}

#[test]
fn text_content_joins_direct_text_only() {
    let doc = parse("<a>one<b>inner</b><!-- c -->two</a>").unwrap();
    assert_eq!(doc.get_root_element().unwrap().get_text_content(), "onetwo");
    let empty = parse("<a><b/></a>").unwrap();
    assert_eq!(empty.get_root_element().unwrap().get_text_content(), "");
}

#[test]
fn path_lookup() {
    let doc = parse("<r><a><b>x</b></a><a><c/></a></r>").unwrap();
    assert_eq!(doc.find_element_by_path("a/b").unwrap().get_text_content(), "x");
    assert_eq!(doc.find_element_by_path("/a//b/").unwrap().name, "b");
    assert_eq!(doc.find_element_by_path("").unwrap().name, "r");
    assert!(doc.find_element_by_path("a/c").is_none());
    assert!(doc.find_element_by_path("z").is_none());
    let none = XmlDocument { root: None };
    assert!(none.find_element_by_path("a").is_none());
}

#[test]
fn constraint_value_text_forms() {
    let validator = ConstraintValidator::new();
    let element = |value: &str| XmlElement {
        name: "constraint".to_string(),
        attributes: vec![
            ("type".to_string(), "min".to_string()),
            ("value".to_string(), value.to_string()),
            ("field".to_string(), "f".to_string()),
            ("id".to_string(), "i".to_string()),
        ],
        children: Vec::new(),
    };
    assert_eq!(validator.parse_constraint_element(&element("+7")).unwrap().value, 7);
    assert_eq!(validator.parse_constraint_element(&element("-12")).unwrap().value, -12);
    assert!(validator.parse_constraint_element(&element("2147483648")).is_err());
    assert!(validator.parse_constraint_element(&element(" 1")).is_err());
    let c = validator.parse_constraint_element(&element("3")).unwrap();
    assert_eq!(c.scope, "parent");
    assert!(!c.shared);
    assert_eq!(c.include_child_selections, None);
}

#[test]
fn constraint_flags_are_read() {
    let validator = ConstraintValidator::new();
    let element = XmlElement {
        name: "constraint".to_string(),
        attributes: vec![
            ("type".to_string(), "atMost".to_string()),
            ("value".to_string(), "4".to_string()),
            ("field".to_string(), "f".to_string()),
            ("id".to_string(), "i".to_string()),
            ("includeChildSelections".to_string(), "true".to_string()),
            ("includeChildForces".to_string(), "false".to_string()),
        ],
        children: Vec::new(),
    };
    let c = validator.parse_constraint_element(&element).unwrap();
    assert_eq!(c.constraint_type, ConstraintType::AtMost);
    assert_eq!(c.include_child_selections, Some(true));
    assert_eq!(c.include_child_forces, Some(false));
    assert_eq!(c.percent_value, None);
}

#[test]
fn unknown_type_message_names_it() {
    let validator = ConstraintValidator::new();
    let element = XmlElement {
        name: "constraint".to_string(),
        attributes: vec![("type".to_string(), "most".to_string())],
        children: Vec::new(),
    };
    assert_eq!(
        validator.parse_constraint_element(&element).unwrap_err(),
        "Unknown constraint type: most"
    );
}

#[test]
fn validation_message_text() {
    let mut validator = ConstraintValidator::new();
    validator.add_constraint(Constraint {
        constraint_type: ConstraintType::NotEqual,
        value: -3,
        field: "f".to_string(),
        scope: "parent".to_string(),
        shared: false,
        id: "n".to_string(),
        include_child_selections: None,
        include_child_forces: None,
        percent_value: None,
    });
    let results = validator.validate_value("f", -3);
    assert_eq!(results.len(), 1);
    assert!(!results[0].is_valid);
    assert_eq!(results[0].message, "Value -3 fails constraint notEqual -3");
    let results = validator.validate_field("f", 10);
    assert_eq!(results[0].message, "Value 10 meets constraint notEqual -3");
    assert_eq!(results[0].constraint.id, "n");
}

#[test]
fn constraint_descriptions() {
    assert_eq!(ConstraintType::AtLeast.to_string(), "atLeast");
    let c = Constraint {
        constraint_type: ConstraintType::Max,
        value: 5,
        field: "selections".to_string(),
        scope: "parent".to_string(),
        shared: true,
        id: "m".to_string(),
        include_child_selections: None,
        include_child_forces: None,
        percent_value: None,
    };
    assert_eq!(
        c.to_string(),
        "Constraint { type: max, value: 5, field: selections, scope: parent, id: m }"
    );
}

#[test]
fn failing_constraint_stops_reading() {
    let good = XmlElement {
        name: "constraint".to_string(),
        attributes: vec![
            ("type".to_string(), "min".to_string()),
            ("value".to_string(), "1".to_string()),
            ("field".to_string(), "f".to_string()),
            ("id".to_string(), "g".to_string()),
        ],
        children: Vec::new(),
    };
    let bad = XmlElement {
        name: "constraint".to_string(),
        attributes: Vec::new(),
        children: Vec::new(),
    };
    let other = XmlElement {
        name: "other".to_string(),
        attributes: Vec::new(),
        children: Vec::new(),
    };
    let group = XmlElement {
        name: "constraints".to_string(),
        attributes: Vec::new(),
        children: vec![
            XmlNode::Element(other),
            XmlNode::Text("t".to_string()),
            XmlNode::Element(good),
            XmlNode::Element(bad),
        ],
    };
    let mut validator = ConstraintValidator::new();
    let r = validator.parse_constraints_from_element(&group);
    assert_eq!(r.unwrap_err(), "Constraint type is required");
    assert_eq!(validator.constraint_count(), 1);
    assert!(ConstraintValidator::from_selection_entry_group_constraints(&group).is_err());
}

#[test]
fn text_ignoring_constructors() {
    let v = ConstraintValidator::from_xml_string("<constraints/>").unwrap();
    assert_eq!(v.constraint_count(), 0);
    let r = v.validate_xml_constraints_string("<x/>", "f", 1).unwrap();
    assert!(r.is_empty());
}

#[test]
fn space_after_equals_is_malformed() {
    assert!(matches!(tokenize(r#"<a x= "1">"#), Err(TokenizeError::MalformedAttribute)));
}

#[test]
fn comment_keeps_dashes_not_closing_it() {
    let tokens = tokenize("<!-- a--b -->").unwrap();
    assert_eq!(tokens[0], Token::Comment("a--b".to_string()));
    let tokens = tokenize("<!-- x --->").unwrap();
    assert_eq!(tokens[0], Token::Comment("x -".to_string()));
}

#[test]
fn declaration_ends_at_first_question_mark_angle() {
    assert_eq!(tokenize("<?a??>").unwrap(), vec![Token::XmlDeclaration, Token::EndOfFile]);
    assert_eq!(
        tokenize("<?a?b?><r/>").unwrap(),
        vec![
            Token::XmlDeclaration,
            Token::SelfClosingTag("r".to_string()),
            Token::EndOfFile
        ]
    );
}

#[test]
fn unicode_white_space_is_trimmed() {
    let tokens = tokenize("<a>\u{a0}word\u{3000}</a>").unwrap();
    assert_eq!(tokens[1], Token::Text("word".to_string()));
}

#[test]
fn attributes_before_close_go_to_next_tag() {
    let tokens = vec![
        Token::OpenTag("r".to_string()),
        Token::OpenTag("a".to_string()),
        Token::Attribute("x".to_string(), "1".to_string()),
        Token::CloseTag("a".to_string()),
        Token::SelfClosingTag("b".to_string()),
        Token::CloseTag("r".to_string()),
        Token::EndOfFile,
    ];
    let doc = parse_tokens(tokens).unwrap();
    let r = doc.get_root_element().unwrap();
    assert_eq!(r.find_child_by_name("a").unwrap().attributes.len(), 0);
    assert_eq!(r.find_child_by_name("b").unwrap().get_attribute("x").unwrap(), "1");
}
