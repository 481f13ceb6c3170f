use bnf::alternation::parse_alternations;
use bnf::element::{parse_element, parse_empty_symbol, Element};
use bnf::grammar::parse_grammar;
use bnf::literal::{parse_literal, parse_string};
use bnf::range::parse_range;
use bnf::reference::parse_reference;
use bnf::sequence::parse_sequence;
use bnf::symbols::{parse_newlines, parse_single_newline, parse_spacings};

fn chars(s: &str) -> Vec<char> {
    s.chars().collect()
}

#[test]
fn spacings_skip_spaces_only() {
    assert_eq!(parse_spacings(&chars("   x"), 0), 3);
    assert_eq!(parse_spacings(&chars("\tx"), 0), 0);
    assert_eq!(parse_spacings(&chars("ab  "), 2), 4);
    assert_eq!(parse_spacings(&chars(""), 0), 0);
}

#[test]
fn single_newline_forms() {
    assert_eq!(parse_single_newline(&chars("\nx"), 0), Ok(1));
    assert_eq!(parse_single_newline(&chars("\r\nx"), 0), Ok(2));
    assert_eq!(parse_single_newline(&chars("\rx"), 0), Err(()));
    assert_eq!(parse_single_newline(&chars("x"), 0), Err(()));
}

#[test]
fn newlines_read_a_whole_run() {
    assert_eq!(parse_newlines(&chars("\n\n\r\n\nx"), 0), Ok(5));
    assert_eq!(parse_newlines(&chars("a\n\nb"), 1), Ok(3));
    assert_eq!(parse_newlines(&chars("x"), 0), Err(()));
}

#[test]
fn literal_forms() {
    assert_eq!(parse_literal(&chars("\"abc\" rest"), 0), Ok((5, "abc".to_string())));
    assert_eq!(parse_literal(&chars("#\"a\"b\"#"), 0), Ok((7, "a\"b".to_string())));
    assert_eq!(parse_literal(&chars("##\"x\"#y\"##"), 0), Ok((10, "x\"#y".to_string())));
    assert_eq!(parse_literal(&chars("\"\""), 0), Err(()));
    assert_eq!(parse_literal(&chars("\"abc"), 0), Err(()));
    assert_eq!(parse_literal(&chars("#abc"), 0), Err(()));
}

#[test]
fn string_may_be_empty() {
    assert_eq!(parse_string(&chars("\"\""), 0), Ok((2, String::new())));
    assert_eq!(parse_string(&chars("\"ab\""), 0), Ok((4, "ab".to_string())));
    assert_eq!(parse_string(&chars("#\"ab\""), 0), Err(()));
}

#[test]
fn range_forms() {
    assert_eq!(parse_range(&chars("\"a\"..=\"z\""), 0), Ok((9, 'a', 'z')));
    assert_eq!(parse_range(&chars("\"α\"..=\"ω\""), 0), Ok((9, 'α', 'ω')));
    assert_eq!(parse_range(&chars("\"ab\"..=\"z\""), 0), Err(()));
    assert_eq!(parse_range(&chars("\"a\" ..=\"z\""), 0), Err(()));
    assert_eq!(parse_range(&chars("\"a\""), 0), Err(()));
}

#[test]
fn empty_symbol() {
    assert_eq!(parse_empty_symbol(&chars("ε"), 0), Ok(1));
    assert_eq!(parse_empty_symbol(&chars("e"), 0), Err(()));
}

#[test]
fn references_are_interned() {
    let mut labels: Vec<String> = Vec::new();
    let text = chars("<a><b><a><>");
    assert_eq!(parse_reference(&text, 0, &mut labels), Ok((3, 1)));
    assert_eq!(parse_reference(&text, 3, &mut labels), Ok((6, 2)));
    assert_eq!(parse_reference(&text, 6, &mut labels), Ok((9, 1)));
    assert_eq!(parse_reference(&text, 9, &mut labels), Ok((11, 3)));
    assert_eq!(labels, vec!["a".to_string(), "b".to_string(), String::new()]);
    let mut more = labels.clone();
    assert_eq!(parse_reference(&chars("<open"), 0, &mut more), Err(()));
    assert_eq!(more, labels);
}

#[test]
fn element_kinds_in_order() {
    let mut labels: Vec<String> = Vec::new();
    assert!(matches!(parse_element(&chars("ε"), 0, &mut labels), Ok((1, Element::Empty))));
    assert!(matches!(
        parse_element(&chars("\"a\"..=\"c\""), 0, &mut labels),
        Ok((9, Element::Range { start: 'a', end: 'c' }))
    ));
    match parse_element(&chars("\"a\""), 0, &mut labels) {
        Ok((3, Element::Literal(t))) => assert_eq!(t, "a"),
        other => panic!("unexpected {:?}", other),
    }
    assert!(matches!(parse_element(&chars("<x>"), 0, &mut labels), Ok((3, Element::Reference(1)))));
    assert!(parse_element(&chars("|"), 0, &mut labels).is_err());
    assert_eq!(labels.len(), 1);
}

#[test]
fn sequence_reads_spaced_elements() {
    let mut labels: Vec<String> = Vec::new();
    let (end, seq) = parse_sequence(&chars(" \"a\"  <b>ε  | x"), 0, &mut labels).unwrap();
    assert_eq!(end, 12);
    assert_eq!(seq.elements.len(), 3);
    assert!(parse_sequence(&chars("  | x"), 0, &mut labels).is_err());
}

#[test]
fn alternations_split_on_bar() {
    let mut labels: Vec<String> = Vec::new();
    let (end, alt) = parse_alternations(&chars("\"a\" | \"b\" \"c\" |\n"), 0, &mut labels).unwrap();
    assert_eq!(alt.sequences.len(), 2);
    assert_eq!(alt.sequences[1].elements.len(), 2);
    assert_eq!(end, 14);
    assert!(parse_alternations(&chars("| \"a\""), 0, &mut labels).is_err());
}

#[test]
fn trailing_bar_is_left_unread() {
    let mut labels: Vec<String> = Vec::new();
    let (end, alt) = parse_alternations(&chars("\"x\" |"), 0, &mut labels).unwrap();
    assert_eq!(end, 4);
    assert_eq!(alt.sequences.len(), 1);
    assert!(parse_grammar(&chars("<a> ::= \"x\" |"), 0).is_err());
}

#[test]
fn reading_past_the_end_fails() {
    let mut labels: Vec<String> = vec!["a".to_string()];
    let text = chars("\"x\"");
    assert!(parse_sequence(&text, 9, &mut labels).is_err());
    assert!(parse_alternations(&text, 9, &mut labels).is_err());
    assert!(parse_element(&text, 9, &mut labels).is_err());
    assert!(parse_reference(&text, 9, &mut labels).is_err());
    assert_eq!(labels, vec!["a".to_string()]);
}

#[test]
fn known_name_keeps_its_id_at_any_index() {
    let mut labels: Vec<String> = vec!["a".to_string(), "b".to_string()];
    assert_eq!(parse_reference(&chars("<b>"), 0, &mut labels), Ok((3, 2)));
    assert_eq!(parse_reference(&chars("<a>"), 0, &mut labels), Ok((3, 1)));
    assert_eq!(labels, vec!["a".to_string(), "b".to_string()]);
    assert_eq!(parse_reference(&chars("<c>"), 0, &mut labels), Ok((3, 3)));
    assert_eq!(labels.len(), 3);
    let mut more = labels.clone();
    let (_, seq) = parse_sequence(&chars("<a> <d>"), 0, &mut more).unwrap();
    assert!(matches!(seq.elements[0], Element::Reference(1)));
    assert!(matches!(seq.elements[1], Element::Reference(4)));
    assert_eq!(more.len(), 4);
}

#[test]
fn grammar_ids_follow_first_mention() {
    let g = parse_grammar(&chars("<s> ::= <b> <a>\n<a> ::= \"x\"\n<b> ::= \"y\"\n"), 0).unwrap();
    assert_eq!(g.references(), &vec!["s".to_string(), "b".to_string(), "a".to_string()]);
    assert_eq!(g.labels(), &vec![1, 3, 2]);
    assert_eq!(g.maps().len(), 3);
    assert!(matches!(g.maps()[2].sequences[0].elements[0], Element::Literal(_)));
    assert!(g.parse("yx").is_ok());
}

#[test]
fn grammar_rejections() {
    assert!(parse_grammar(&chars(""), 0).is_err());
    assert!(parse_grammar(&chars("<a> ::= \"x\"\n<a> ::= \"y\""), 0).is_err());
    assert!(parse_grammar(&chars("<a> ::= \"x\" junk"), 0).is_err());
    assert!(parse_grammar(&chars("<a> := \"x\""), 0).is_err());
    assert!(parse_grammar(&chars("<a> ::= \"\""), 0).is_err());
    assert!(parse_grammar(&chars("<a ::= \"x\""), 0).is_err());
    assert!(parse_grammar(&chars("<a> ::= \"x\"\n  "), 0).is_err());
    assert!(parse_grammar(&chars("<a> ::= \"x\""), 5).is_err());
}

#[test]
fn grammar_separators() {
    assert!(parse_grammar(&chars("<a> ::= <b>\r\n<b> ::= \"y\"\r\n"), 0).is_ok());
    assert!(parse_grammar(&chars("<a> ::= <b>\n\n\n<b> ::= \"y\""), 0).is_ok());
    assert!(parse_grammar(&chars("  <a>   ::=   \"x\"   |  \"y\"  \n"), 0).is_ok());
    assert!(parse_grammar(&chars("<a> ::= \"x\" |\n"), 0).is_err());
}
