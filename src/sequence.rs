//! Sequences: elements that match one after the other.

use vstd::prelude::*;
use crate::element::{Element, ElementModel, element_at, parse_element, lemma_element_at};
use crate::reference::{names_of, names_ok};
use crate::grammar::element_ok;
use crate::symbols::{spaces_end, parse_spacings, lemma_spaces_end_bounds};

verus! {

/// Elements that must match consecutively, left to right.
#[derive(Debug, Clone)]
pub struct Sequence {
    pub elements: Vec<Element>,
}

impl View for Sequence {
    type V = Seq<ElementModel>;

    open spec fn view(&self) -> Seq<ElementModel> {
        self.elements@.map_values(|e: Element| e@)
    }
}

/// The elements read one after the other from `i`, each after optional
/// spaces: where the last one ends, the elements, and the names after
/// interning.
pub open spec fn elements_from(s: Seq<char>, i: nat, labels: Seq<Seq<char>>) -> (
    nat,
    Seq<ElementModel>,
    Seq<Seq<char>>,
)
    decreases s.len() - i,
{
    match element_at(s, spaces_end(s, i), labels) {
        Some((j, e, l2)) => if i < j <= s.len() {
            let (k, rest, l3) = elements_from(s, j, l2);
            (k, seq![e] + rest, l3)
        } else {
            (i, seq![], labels)
        },
        None => (i, seq![], labels),
    }
}

/// A sequence at `i`: one or more elements, then the spaces after them.
pub open spec fn sequence_at(s: Seq<char>, i: nat, labels: Seq<Seq<char>>) -> Option<
    (nat, Seq<ElementModel>, Seq<Seq<char>>),
> {
    let (k, es, l2) = elements_from(s, i, labels);
    if es.len() == 0 {
        None
    } else {
        Some((spaces_end(s, k), es, l2))
    }
}

pub proof fn lemma_elements_from(s: Seq<char>, i: nat, labels: Seq<Seq<char>>)
    requires
        i <= s.len(),
    ensures
        i <= elements_from(s, i, labels).0 <= s.len(),
        elements_from(s, i, labels).2.len() <= labels.len() + (elements_from(s, i, labels).0 - i),
        labels.is_prefix_of(elements_from(s, i, labels).2),
        elements_from(s, i, labels).1.len() == 0 ==> elements_from(s, i, labels).2 == labels
            && elements_from(s, i, labels).0 == i,
        elements_from(s, i, labels).1.len() > 0 ==> elements_from(s, i, labels).0 > i,
        names_ok(labels) ==> names_ok(elements_from(s, i, labels).2),
        forall|k: int|
            0 <= k < elements_from(s, i, labels).1.len() ==> element_ok(
                #[trigger] elements_from(s, i, labels).1[k],
                elements_from(s, i, labels).2.len(),
            ),
    decreases s.len() - i,
{
    lemma_spaces_end_bounds(s, i);
    lemma_element_at(s, spaces_end(s, i), labels);
    if let Some((j, e, l2)) = element_at(s, spaces_end(s, i), labels) {
        lemma_elements_from(s, j, l2);
        let l3 = elements_from(s, j, l2).2;
        assert(labels.is_prefix_of(l3)) by {
            assert forall|t: int| 0 <= t < labels.len() implies labels[t] == l3[t] by {
                assert(l2[t] == labels[t]);
            }
        }
        let r = elements_from(s, j, l2);
        assert forall|k: int| 0 <= k < elements_from(s, i, labels).1.len() implies element_ok(
            #[trigger] elements_from(s, i, labels).1[k],
            elements_from(s, i, labels).2.len(),
        ) by {
            if k > 0 {
                assert(elements_from(s, i, labels).1[k] == r.1[k - 1]);
            }
        }
    }
}

/// Nothing is read from past the end of the text.
pub proof fn lemma_sequence_past_end(s: Seq<char>, i: nat, labels: Seq<Seq<char>>)
    requires
        i > s.len(),
    ensures
        sequence_at(s, i, labels) is None,
{
    lemma_element_at(s, i, labels);
}

pub proof fn lemma_sequence_at(s: Seq<char>, i: nat, labels: Seq<Seq<char>>)
    requires
        i <= s.len(),
    ensures
        sequence_at(s, i, labels) matches Some((j, es, l2)) ==> {
            &&& i < j <= s.len()
            &&& l2.len() <= labels.len() + (j - i)
            &&& labels.is_prefix_of(l2)
            &&& names_ok(labels) ==> names_ok(l2)
            &&& es.len() >= 1
            &&& forall|k: int| 0 <= k < es.len() ==> element_ok(#[trigger] es[k], l2.len())
        },
{
    lemma_elements_from(s, i, labels);
    lemma_spaces_end_bounds(s, elements_from(s, i, labels).0);
}

/// Reads one or more elements separated by optional spaces, and the spaces
/// after them. On failure `labels` is left as it was.
///
/// Each name read adds at most one id per character, so the ids fit in a
/// `usize` when the names already held and the characters from `index` on
/// do (which any table and text in memory satisfy).
pub fn parse_sequence(chars: &Vec<char>, index: usize, labels: &mut Vec<String>) -> (r: Result<
    (usize, Sequence),
    (),
>)
    requires
        old(labels)@.len() + chars@.len() <= usize::MAX + index,
    ensures
        match r {
            Ok((j, sq)) => sequence_at(chars@, index as nat, names_of(old(labels)@)) == Some(
                (j as nat, sq@, names_of(final(labels)@)),
            ) && sq@.len() <= usize::MAX,
            Err(_) => sequence_at(chars@, index as nat, names_of(old(labels)@)) is None
                && final(labels)@ == old(labels)@,
        },
{
    let ghost s = chars@;
    let ghost l0 = names_of(labels@);
    if index > chars.len() {
        proof {
            lemma_sequence_past_end(s, index as nat, l0);
        }
        return Err(());
    }
    let mut elements: Vec<Element> = Vec::new();
    let mut pos = index;
    loop
        invariant
            index <= pos <= chars.len(),
            labels@.len() <= old(labels)@.len() + (pos - index),
            old(labels)@.len() + chars@.len() <= usize::MAX + index,
            elements_from(s, index as nat, l0) == ({
                let (k, rest, l3) = elements_from(s, pos as nat, names_of(labels@));
                (k, elements@.map_values(|e: Element| e@) + rest, l3)
            }),
            elements.len() == 0 ==> labels@ == old(labels)@ && pos == index,
            s == chars@,
            l0 == names_of(old(labels)@),
        ensures
            element_at(s, spaces_end(s, pos as nat), names_of(labels@)) is None,
        decreases chars.len() - pos,
    {
        let ghost before = names_of(labels@);
        let start = parse_spacings(chars, pos);
        proof {
            lemma_spaces_end_bounds(s, pos as nat);
            lemma_element_at(s, start as nat, before);
        }
        if start >= chars.len() {
            // no element starts at the end of the text
            break;
        }
        match parse_element(chars, start, labels) {
            Ok((new_pos, element)) => {
                proof {
                    assert(elements_from(s, pos as nat, before) == ({
                        let (k, rest, l3) = elements_from(s, new_pos as nat, names_of(labels@));
                        (k, seq![element@] + rest, l3)
                    }));
                }
                let ghost done = elements@.map_values(|e: Element| e@);
                elements.push(element);
                proof {
                    let rest = elements_from(s, new_pos as nat, names_of(labels@)).1;
                    assert(elements@.map_values(|e: Element| e@) =~= done.push(element@));
                    assert(done.push(element@) + rest =~= done + (seq![element@] + rest));
                }
                pos = new_pos;
            },
            Err(()) => break,
        }
    }
    proof {
        let view = elements@.map_values(|e: Element| e@);
        assert(view + seq![] =~= view);
        lemma_spaces_end_bounds(s, pos as nat);
    }
    if elements.len() == 0 {
        return Err(());
    }
    Ok((parse_spacings(chars, pos), Sequence { elements }))
}

} // verus!
