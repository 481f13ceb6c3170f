use bnf::engine::{ChoiceState, Error};
use bnf::grammar::{parse_grammar, Grammar};

fn chars(s: &str) -> Vec<char> {
    s.chars().collect()
}

fn grammar(text: &str) -> Grammar {
    parse_grammar(&chars(text), 0).expect("grammar should parse")
}

#[test]
fn empty_element_matches_empty_input() {
    let g = grammar("<a> ::= ε");
    assert!(g.parse("").is_ok());
}

#[test]
fn empty_element_rejects_leftover_input() {
    let g = grammar("<a> ::= ε");
    assert_eq!(g.parse("x").unwrap_err(), Error::NoMatch);
}

#[test]
fn ordered_choice_retries_next_alternative() {
    // "x" matches first but leaves "y" unread at the top level, so the
    // second alternative is tried and succeeds
    let g = grammar("<a> ::= \"x\" | \"xy\"");
    let trace = g.parse("xy").expect("second alternative should match");
    assert_eq!(trace.len(), 1);
    assert_eq!(trace[0].destination_alternation_index, 1);
    assert_eq!(g.parse("x").map(|t| t.len()), Ok(1));
    assert_eq!(g.parse("xyz").unwrap_err(), Error::NoMatch);
}

#[test]
fn range_bounds_are_inclusive() {
    let g = grammar("<d> ::= \"0\"..=\"9\"");
    assert!(g.parse("0").is_ok());
    assert!(g.parse("5").is_ok());
    assert!(g.parse("9").is_ok());
    assert_eq!(g.parse("").unwrap_err(), Error::NoMatch);
    assert_eq!(g.parse("a").unwrap_err(), Error::NoMatch);
    assert_eq!(g.parse("/").unwrap_err(), Error::NoMatch);
    assert_eq!(g.parse(":").unwrap_err(), Error::NoMatch);
    assert_eq!(g.parse("55").unwrap_err(), Error::NoMatch);
}

#[test]
fn escaped_literal_matches_quote() {
    let g = grammar("<a> ::= #\"a\"b\"#");
    assert!(g.parse("a\"b").is_ok());
    assert_eq!(g.parse("ab").unwrap_err(), Error::NoMatch);
    assert_eq!(g.parse("a\"").unwrap_err(), Error::NoMatch);
    assert_eq!(g.parse("a\"bb").unwrap_err(), Error::NoMatch);
}

#[test]
fn unbounded_self_reference_overflows() {
    let g = grammar("<a> ::= <a> \"x\"");
    assert_eq!(g.parse("").unwrap_err(), Error::StackOverflow);
    assert_eq!(g.parse("xxx").unwrap_err(), Error::StackOverflow);
}

#[test]
fn dangling_reference_is_rejected() {
    assert!(parse_grammar(&chars("<a> ::= <missing>"), 0).is_err());
    assert!(parse_grammar(&chars("<a> ::= \"x\" <missing>\n<b> ::= \"y\""), 0).is_err());
}

#[test]
fn nested_reference_resumes_caller() {
    let g = grammar("<a> ::= <b> \"z\"\n<b> ::= \"y\"");
    let trace = g.parse("yz").expect("should match");
    assert_eq!(
        trace,
        vec![
            ChoiceState {
                depth: 0,
                source_label_index: 0,
                source_alternation_index: 0,
                source_sequence_index: 0,
                destination_label_index: 1,
                destination_alternation_index: 0,
                input_index: 0,
            },
            ChoiceState {
                depth: 1,
                source_label_index: 1,
                source_alternation_index: 0,
                source_sequence_index: 0,
                destination_label_index: 2,
                destination_alternation_index: 0,
                input_index: 0,
            },
        ]
    );
    assert_eq!(g.parse("y").unwrap_err(), Error::NoMatch);
    assert_eq!(g.parse("z").unwrap_err(), Error::NoMatch);
}

#[test]
fn failing_sub_production_backtracks_into_caller() {
    let g = grammar("<a> ::= <b> \"z\" | \"q\"\n<b> ::= \"y\" | \"yy\"");
    assert!(g.parse("yyz").is_ok());
    assert!(g.parse("q").is_ok());
    assert_eq!(g.parse("yyy").unwrap_err(), Error::NoMatch);
}

#[test]
fn left_recursive_expression_grammar() {
    let g = grammar("<entry> ::= <digit> | <entry> \"+\" <digit>\n<digit> ::= \"0\"..=\"9\"");
    assert!(g.parse("7").is_ok());
    assert!(g.parse("1+2").is_ok());
    // nothing bounds the left recursion once the first alternative fails
    assert_eq!(g.parse("").unwrap_err(), Error::StackOverflow);
}

#[test]
fn empty_alternative_lets_sequence_continue() {
    let g = grammar("<a> ::= <opt> \"b\"\n<opt> ::= \"a\" | ε");
    assert!(g.parse("ab").is_ok());
    assert!(g.parse("b").is_ok());
    assert_eq!(g.parse("aab").unwrap_err(), Error::NoMatch);
}

#[test]
fn multibyte_characters_are_single_characters() {
    let g = grammar("<g> ::= \"α\"..=\"ω\" \"→\"");
    assert!(g.parse("λ→").is_ok());
    assert_eq!(g.parse("a→").unwrap_err(), Error::NoMatch);
}

#[test]
fn frames_render_as_transitions() {
    let g = grammar("<a> ::= <b> \"z\"\n<b> ::= \"y\"");
    let trace = g.parse("yz").expect("should match");
    let shown: Vec<String> = trace.iter().map(|c| c.render()).collect();
    assert_eq!(shown, vec!["0[0,0]→1[0]".to_string(), "1[0,0]→2[0]".to_string()]);
    let big = ChoiceState {
        depth: 3,
        source_label_index: 1234,
        source_alternation_index: 10,
        source_sequence_index: 9,
        destination_label_index: 100,
        destination_alternation_index: 7,
        input_index: 5,
    };
    assert_eq!(big.render(), "1234[10,9]→100[7]");
}
