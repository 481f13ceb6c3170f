//! Grammar elements: the empty marker, character ranges, literals and
//! references to productions.

use vstd::prelude::*;
use crate::literal::{literal_at, parse_literal, lemma_string_at};
use crate::range::{range_at, parse_range};
use crate::reference::{reference_at, parse_reference, names_of, names_ok, lemma_reference_at};
use crate::grammar::element_ok;

verus! {

/// One grammar atom.
#[derive(Debug, Clone)]
pub enum Element {
    /// Matches the empty string.
    Empty,
    /// Matches one character between `start` and `end`, both included.
    Range { start: char, end: char },
    /// Matches its text verbatim.
    Literal(String),
    /// Matches what the production with this id matches.
    Reference(usize),
}

/// The mathematical value of an [`Element`].
pub enum ElementModel {
    Empty,
    Range(char, char),
    Literal(Seq<char>),
    Reference(nat),
}

impl View for Element {
    type V = ElementModel;

    open spec fn view(&self) -> ElementModel {
        match self {
            Element::Empty => ElementModel::Empty,
            Element::Range { start, end } => ElementModel::Range(*start, *end),
            Element::Literal(text) => ElementModel::Literal(text@),
            Element::Reference(id) => ElementModel::Reference(*id as nat),
        }
    }
}

/// An element at `i`, tried in this order: the empty marker `ε`, a range,
/// a literal, a reference. Gives the position after it, the element, and the
/// names after interning.
pub open spec fn element_at(s: Seq<char>, i: nat, labels: Seq<Seq<char>>) -> Option<
    (nat, ElementModel, Seq<Seq<char>>),
> {
    if i < s.len() && s[i as int] == 'ε' {
        Some((i + 1, ElementModel::Empty, labels))
    } else if let Some((j, lo, hi)) = range_at(s, i) {
        Some((j, ElementModel::Range(lo, hi), labels))
    } else if let Some((j, t)) = literal_at(s, i) {
        Some((j, ElementModel::Literal(t), labels))
    } else if let Some((j, id, l2)) = reference_at(s, i, labels) {
        Some((j, ElementModel::Reference(id), l2))
    } else {
        None
    }
}

/// An element is not empty text, ends within the text, adds at most one
/// name, and keeps the names distinct.
pub proof fn lemma_element_at(s: Seq<char>, i: nat, labels: Seq<Seq<char>>)
    ensures
        element_at(s, i, labels) matches Some((j, e, l2)) ==> {
            &&& i < j <= s.len()
            &&& l2.len() <= labels.len() + 1
            &&& labels.is_prefix_of(l2)
            &&& names_ok(labels) ==> names_ok(l2)
            &&& element_ok(e, l2.len())
        },
{
    lemma_string_at(s, i);
    if let Some((j1, t1)) = literal_at(s, i) {
        lemma_string_at(s, j1 + 3);
    }
    lemma_reference_at(s, i, labels);
    assert(labels.is_prefix_of(labels));
}

/// Reads the empty marker `ε` at `index`.
pub fn parse_empty_symbol(chars: &Vec<char>, index: usize) -> (r: Result<usize, ()>)
    ensures
        match r {
            Ok(j) => index < chars.len() && chars@[index as int] == 'ε' && j == index + 1,
            Err(_) => !(index < chars.len() && chars@[index as int] == 'ε'),
        },
{
    if index < chars.len() && chars[index] == 'ε' {
        Ok(index + 1)
    } else {
        Err(())
    }
}

/// Reads one element at `index`, interning a referenced name in `labels`.
/// On failure `labels` is left as it was.
///
/// The next id must fit in a `usize`.
pub fn parse_element(chars: &Vec<char>, index: usize, labels: &mut Vec<String>) -> (r: Result<
    (usize, Element),
    (),
>)
    requires
        old(labels).len() < usize::MAX,
    ensures
        match r {
            Ok((j, e)) => element_at(chars@, index as nat, names_of(old(labels)@)) == Some(
                (j as nat, e@, names_of(final(labels)@)),
            ),
            Err(_) => element_at(chars@, index as nat, names_of(old(labels)@)) is None
                && final(labels)@ == old(labels)@,
        },
{
    // try to parse empty
    if let Ok(index) = parse_empty_symbol(chars, index) {
        return Ok((index, Element::Empty));
    }
    // try to parse range
    if let Ok((j, start, end)) = parse_range(chars, index) {
        proof {
            lemma_element_at(chars@, index as nat, names_of(labels@));
        }
        return Ok((j, Element::Range { start, end }));
    }
    // try to parse literal
    if let Ok((j, string)) = parse_literal(chars, index) {
        proof {
            lemma_string_at(chars@, index as nat);
        }
        return Ok((j, Element::Literal(string)));
    }
    // try to parse reference
    if let Ok((j, reference)) = parse_reference(chars, index, labels) {
        return Ok((j, Element::Reference(reference)));
    }
    // nothing worked
    Err(())
}

} // verus!
