use bnf::element::Element;
use bnf::grammar::parse_grammar;

fn chars(s: &str) -> Vec<char> {
    s.chars().collect()
}

#[test]
fn format_writes_productions_in_definition_order() {
    let g = parse_grammar(&chars("<s> ::= <b> <a>\n<a> ::= \"x\" | ε\n<b> ::= \"0\"..=\"9\""), 0).unwrap();
    assert_eq!(g.format(), "<s> ::= <b> <a>\n<a> ::= \"x\" | ε\n<b> ::= \"0\"..=\"9\"\n");
}

#[test]
fn format_escapes_quotes_with_hashes() {
    let g = parse_grammar(&chars("<q> ::= #\"a\"b\"# | ##\"x\"#y\"## | #\"\"\"#..=\"z\""), 0).unwrap();
    assert_eq!(g.format(), "<q> ::= #\"a\"b\"# | ##\"x\"#y\"## | #\"\"\"#..=\"z\"\n");
}

#[test]
fn formatted_grammar_reads_back_the_same() {
    let text = "  <expr>   ::= <term> \"+\" <expr> |<term>\r\n\n<term> ::= #\"(\"# <expr> \")\" | <digit>\n<digit> ::= \"0\"..=\"9\" | ε";
    let g = parse_grammar(&chars(text), 0).unwrap();
    let out = g.format();
    let again = parse_grammar(&chars(&out), 0).unwrap();
    assert_eq!(again.references(), g.references());
    assert_eq!(again.labels(), g.labels());
    assert_eq!(again.maps().len(), g.maps().len());
    for (a, b) in again.maps().iter().zip(g.maps().iter()) {
        assert_eq!(a.sequences.len(), b.sequences.len());
        for (x, y) in a.sequences.iter().zip(b.sequences.iter()) {
            assert_eq!(x.elements.len(), y.elements.len());
            for (e, f) in x.elements.iter().zip(y.elements.iter()) {
                match (e, f) {
                    (Element::Empty, Element::Empty) => {}
                    (Element::Range { start: a, end: b }, Element::Range { start: c, end: d }) => {
                        assert_eq!((a, b), (c, d))
                    }
                    (Element::Literal(a), Element::Literal(b)) => assert_eq!(a, b),
                    (Element::Reference(a), Element::Reference(b)) => assert_eq!(a, b),
                    _ => panic!("elements differ: {:?} {:?}", e, f),
                }
            }
        }
    }
    assert_eq!(again.format(), out);
    assert!(g.parse("(1+2)+3").is_ok());
    assert!(again.parse("(1+2)+3").is_ok());
}
