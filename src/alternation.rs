//! Alternations: sequences tried in order.

use vstd::prelude::*;
use crate::element::ElementModel;
use crate::sequence::{Sequence, sequence_at, parse_sequence, lemma_sequence_at, lemma_sequence_past_end};
use crate::reference::{names_of, names_ok};
use crate::grammar::{sequences_ok, element_ok, alternation_fits};

verus! {

/// An ordered choice between sequences; the first that leads to success wins.
#[derive(Debug, Clone)]
pub struct Alternation {
    pub sequences: Vec<Sequence>,
}

impl View for Alternation {
    type V = Seq<Seq<ElementModel>>;

    open spec fn view(&self) -> Seq<Seq<ElementModel>> {
        self.sequences@.map_values(|s: Sequence| s@)
    }
}

/// The sequences read from `i`, each one after a `|`: where the last ends,
/// the sequences, and the names after interning. A `|` is read only when a
/// sequence follows it; otherwise the list ends before it.
pub open spec fn seqs_from(s: Seq<char>, i: nat, labels: Seq<Seq<char>>) -> (
    nat,
    Seq<Seq<ElementModel>>,
    Seq<Seq<char>>,
)
    decreases s.len() - i,
{
    match sequence_at(s, i, labels) {
        Some((j, sq, l2)) => if i <= j < s.len() && s[j as int] == '|' {
            let (k, rest, l3) = seqs_from(s, j + 1, l2);
            if rest.len() > 0 {
                (k, seq![sq] + rest, l3)
            } else {
                (j, seq![sq], l2)
            }
        } else {
            (j, seq![sq], l2)
        },
        None => (i, seq![], labels),
    }
}

/// An alternation at `i`: one or more sequences separated by `|`.
pub open spec fn alternation_at(s: Seq<char>, i: nat, labels: Seq<Seq<char>>) -> Option<
    (nat, Seq<Seq<ElementModel>>, Seq<Seq<char>>),
> {
    let (k, alts, l2) = seqs_from(s, i, labels);
    if alts.len() == 0 {
        None
    } else {
        Some((k, alts, l2))
    }
}

pub proof fn lemma_seqs_from(s: Seq<char>, i: nat, labels: Seq<Seq<char>>)
    requires
        i <= s.len(),
    ensures
        i <= seqs_from(s, i, labels).0 <= s.len(),
        seqs_from(s, i, labels).2.len() <= labels.len() + (seqs_from(s, i, labels).0 - i),
        labels.is_prefix_of(seqs_from(s, i, labels).2),
        seqs_from(s, i, labels).1.len() == 0 ==> seqs_from(s, i, labels).2 == labels
            && seqs_from(s, i, labels).0 == i,
        names_ok(labels) ==> names_ok(seqs_from(s, i, labels).2),
        sequences_ok(seqs_from(s, i, labels).1, seqs_from(s, i, labels).2.len()),
    decreases s.len() - i,
{
    lemma_sequence_at(s, i, labels);
    if let Some((j, sq, l2)) = sequence_at(s, i, labels) {
        if i <= j < s.len() && s[j as int] == '|' {
            lemma_seqs_from(s, j + 1, l2);
            let l3 = seqs_from(s, j + 1, l2).2;
            assert(labels.is_prefix_of(l3)) by {
                assert forall|t: int| 0 <= t < labels.len() implies labels[t] == l3[t] by {
                    assert(l2[t] == labels[t]);
                }
            }
            let r = seqs_from(s, i, labels);
            let rest = seqs_from(s, j + 1, l2).1;
            assert forall|a: int| 0 <= a < r.1.len() implies (#[trigger] r.1[a]).len() >= 1 by {
                if a > 0 {
                    assert(r.1[a] == rest[a - 1]);
                }
            }
            assert forall|a: int, e: int|
                0 <= a < r.1.len() && 0 <= e < r.1[a].len() implies element_ok(
                #[trigger] r.1[a][e],
                r.2.len(),
            ) by {
                if a > 0 {
                    assert(r.1[a] == rest[a - 1]);
                } else {
                    assert(r.1[a] == sq);
                }
            }
        }
    }
}

fn parse_alternation_symbol(chars: &Vec<char>, index: usize) -> (r: Result<usize, ()>)
    ensures
        match r {
            Ok(j) => index < chars.len() && chars@[index as int] == '|' && j == index + 1,
            Err(_) => !(index < chars.len() && chars@[index as int] == '|'),
        },
{
    if index < chars.len() && chars[index] == '|' {
        Ok(index + 1)
    } else {
        Err(())
    }
}

/// Reads one or more sequences separated by `|`; a `|` with no sequence
/// after it is left unread. On failure `labels` is left as it was.
///
/// Each name read adds at most one id per character, so the ids fit in a
/// `usize` when the names already held and the characters from `index` on
/// do (which any table and text in memory satisfy).
pub fn parse_alternations(chars: &Vec<char>, index: usize, labels: &mut Vec<String>) -> (r: Result<
    (usize, Alternation),
    (),
>)
    requires
        old(labels)@.len() + chars@.len() <= usize::MAX + index,
    ensures
        match r {
            Ok((j, a)) => alternation_at(chars@, index as nat, names_of(old(labels)@)) == Some(
                (j as nat, a@, names_of(final(labels)@)),
            ) && alternation_fits(a@),
            Err(_) => alternation_at(chars@, index as nat, names_of(old(labels)@)) is None
                && final(labels)@ == old(labels)@,
        },
{
    let ghost s = chars@;
    let ghost l0 = names_of(labels@);
    if index > chars.len() {
        proof {
            lemma_sequence_past_end(s, index as nat, l0);
        }
        return Err(());
    }
    let mut sequences: Vec<Sequence> = Vec::new();
    // where the next sequence may start, and where the last one read ends
    let mut pos = index;
    let mut end = index;
    loop
        invariant_except_break
            seqs_from(s, index as nat, l0) == ({
                let (k, rest, l3) = seqs_from(s, pos as nat, names_of(labels@));
                if rest.len() > 0 {
                    (k, sequences@.map_values(|q: Sequence| q@) + rest, l3)
                } else {
                    (end as nat, sequences@.map_values(|q: Sequence| q@), names_of(labels@))
                }
            }),
            end <= pos,
        invariant
            index <= end <= chars.len(),
            index <= pos <= chars.len(),
            labels@.len() <= old(labels)@.len() + (end - index),
            old(labels)@.len() + chars@.len() <= usize::MAX + index,
            sequences.len() == 0 ==> labels@ == old(labels)@ && pos == index && end == index,
            s == chars@,
            l0 == names_of(old(labels)@),
            forall|q: int| 0 <= q < sequences.len() ==> (#[trigger] sequences@[q])@.len() <= usize::MAX,
        ensures
            seqs_from(s, index as nat, l0) == (
                end as nat,
                sequences@.map_values(|q: Sequence| q@),
                names_of(labels@),
            ),
            labels@.len() <= old(labels)@.len() + (end - index),
        decreases chars.len() - pos,
    {
        let ghost before = names_of(labels@);
        let ghost done = sequences@.map_values(|q: Sequence| q@);
        proof {
            lemma_sequence_at(s, pos as nat, before);
            lemma_seqs_from(s, pos as nat, before);
        }
        match parse_sequence(chars, pos, labels) {
            Ok((new_pos, sequence)) => {
                sequences.push(sequence);
                proof {
                    assert(sequences@.map_values(|q: Sequence| q@) =~= done.push(sequence@));
                }
                end = new_pos;
                match parse_alternation_symbol(chars, new_pos) {
                    Ok(next) => {
                        proof {
                            let rest = seqs_from(s, next as nat, names_of(labels@)).1;
                            assert(done.push(sequence@) + rest =~= done + (seq![sequence@] + rest));
                        }
                        pos = next;
                    },
                    Err(()) => {
                        proof {
                            assert(done.push(sequence@) =~= done + seq![sequence@]);
                        }
                        break;
                    },
                }
            },
            Err(()) => {
                break;
            },
        }
    }
    if sequences.len() == 0 {
        return Err(());
    }
    Ok((end, Alternation { sequences }))
}

} // verus!
