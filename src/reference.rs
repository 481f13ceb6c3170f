//! References to productions, `<name>`, and the interning of names to ids.

use vstd::prelude::*;
use crate::text::push_char;

verus! {

/// The first position at or after `j` that holds `c`.
pub open spec fn find_char(s: Seq<char>, j: nat, c: char) -> Option<nat>
    decreases s.len() - j,
{
    if j >= s.len() {
        None
    } else if s[j as int] == c {
        Some(j)
    } else {
        find_char(s, j + 1, c)
    }
}

/// A bracketed name at `i`: the position after the closing `>`, and the
/// name, which is everything up to the first `>`.
pub open spec fn name_at(s: Seq<char>, i: nat) -> Option<(nat, Seq<char>)> {
    if i < s.len() && s[i as int] == '<' {
        match find_char(s, i + 1, '>') {
            Some(j) => Some((j + 1, s.subrange(i + 1int, j as int))),
            None => None,
        }
    } else {
        None
    }
}

/// The first index of `name` in `labels`.
pub open spec fn find_name(labels: Seq<Seq<char>>, name: Seq<char>) -> Option<nat>
    decreases labels.len(),
{
    if labels.len() == 0 {
        None
    } else {
        match find_name(labels.drop_last(), name) {
            Some(i) => Some(i),
            None => if labels.last() == name {
                Some((labels.len() - 1) as nat)
            } else {
                None
            },
        }
    }
}

/// The id of `name`, and the names after it is interned: a known name keeps
/// its id, a new one gets the next id. Id `k` names `labels[k - 1]`.
pub open spec fn intern(labels: Seq<Seq<char>>, name: Seq<char>) -> (nat, Seq<Seq<char>>) {
    match find_name(labels, name) {
        Some(i) => (i + 1, labels),
        None => ((labels.len() + 1) as nat, labels.push(name)),
    }
}

/// A reference at `i`: the position after it, its id, and the names after
/// interning.
pub open spec fn reference_at(s: Seq<char>, i: nat, labels: Seq<Seq<char>>) -> Option<
    (nat, nat, Seq<Seq<char>>),
> {
    match name_at(s, i) {
        Some((j, name)) => {
            let (id, l2) = intern(labels, name);
            Some((j, id, l2))
        },
        None => None,
    }
}

/// Names that are pairwise distinct and hold no `>`.
pub open spec fn names_ok(labels: Seq<Seq<char>>) -> bool {
    &&& forall|j: int, k: int|
        0 <= j < labels.len() && 0 <= k < labels.len() && j != k ==> #[trigger] labels[j]
            != #[trigger] labels[k]
    &&& forall|k: int| 0 <= k < labels.len() ==> !(#[trigger] labels[k]).contains('>')
}

/// Interning keeps the names distinct, and gives an id among them.
pub proof fn lemma_reference_at(s: Seq<char>, i: nat, labels: Seq<Seq<char>>)
    ensures
        reference_at(s, i, labels) matches Some((j, id, l2)) ==> {
            &&& i < j <= s.len()
            &&& 1 <= id <= l2.len() <= labels.len() + 1
            &&& labels.is_prefix_of(l2)
            &&& names_ok(labels) ==> names_ok(l2)
        },
{
    lemma_find_char(s, i + 1, '>');
    if let Some((j, name)) = name_at(s, i) {
        lemma_find_name(labels, name);
        assert(labels.is_prefix_of(labels.push(name)));
        assert forall|k: int| 0 <= k < name.len() implies name[k] != '>' by {
            assert(name[k] == s[i + 1 + k]);
        }
        let l2 = labels.push(name);
        if names_ok(labels) && find_name(labels, name) is None {
            assert forall|a: int, b: int|
                0 <= a < l2.len() && 0 <= b < l2.len() && a != b implies #[trigger] l2[a]
                != #[trigger] l2[b] by {
                if a < labels.len() && b < labels.len() {
                    assert(l2[a] == labels[a] && l2[b] == labels[b]);
                }
            }
            assert forall|k: int| 0 <= k < l2.len() implies !(#[trigger] l2[k]).contains('>') by {
                if k < labels.len() {
                    assert(l2[k] == labels[k]);
                }
            }
        }
    }
}

/// The names held by a label table.
pub open spec fn names_of(v: Seq<String>) -> Seq<Seq<char>> {
    v.map_values(|x: String| x@)
}

pub proof fn lemma_find_char(s: Seq<char>, j: nat, c: char)
    ensures
        find_char(s, j, c) matches Some(k) ==> j <= k < s.len() && s[k as int] == c && forall|
            t: int,
        | j <= t < k ==> s[t] != c,
    decreases s.len() - j,
{
    if j < s.len() && s[j as int] != c {
        lemma_find_char(s, j + 1, c);
    }
}

pub proof fn lemma_find_name(labels: Seq<Seq<char>>, name: Seq<char>)
    ensures
        find_name(labels, name) matches Some(i) ==> i < labels.len() && labels[i as int] == name,
        find_name(labels, name) is None ==> forall|k: int|
            0 <= k < labels.len() ==> labels[k] != name,
    decreases labels.len(),
{
    if labels.len() > 0 {
        lemma_find_name(labels.drop_last(), name);
        assert forall|k: int| 0 <= k < labels.len() - 1 implies labels.drop_last()[k] == labels[k] by {}
    }
}

fn parse_openbra_symbol(chars: &Vec<char>, index: usize) -> (r: Result<usize, ()>)
    ensures
        match r {
            Ok(j) => index < chars.len() && chars@[index as int] == '<' && j == index + 1,
            Err(_) => !(index < chars.len() && chars@[index as int] == '<'),
        },
{
    if index < chars.len() && chars[index] == '<' {
        Ok(index + 1)
    } else {
        Err(())
    }
}

fn parse_closebra_symbol(chars: &Vec<char>, index: usize) -> (r: Result<usize, ()>)
    ensures
        match r {
            Ok(j) => index < chars.len() && chars@[index as int] == '>' && j == index + 1,
            Err(_) => !(index < chars.len() && chars@[index as int] == '>'),
        },
{
    if index < chars.len() && chars[index] == '>' {
        Ok(index + 1)
    } else {
        Err(())
    }
}

/// Reads a reference `<name>` at `index` and interns its name in `labels`,
/// where id `k` names `labels[k - 1]`. Returns the position after it and
/// the id. On failure `labels` is left as it was.
///
/// The next id must fit in a `usize`.
pub fn parse_reference(chars: &Vec<char>, index: usize, labels: &mut Vec<String>) -> (r: Result<
    (usize, usize),
    (),
>)
    requires
        old(labels).len() < usize::MAX,
    ensures
        match r {
            Ok((j, id)) => reference_at(chars@, index as nat, names_of(old(labels)@)) == Some(
                (j as nat, id as nat, names_of(final(labels)@)),
            ),
            Err(_) => reference_at(chars@, index as nat, names_of(old(labels)@)) is None
                && final(labels)@ == old(labels)@,
        },
{
    let start = match parse_openbra_symbol(chars, index) {
        Ok(j) => j,
        Err(()) => return Err(()),
    };
    let mut pos = start;
    let mut reference = String::new();
    loop
        invariant
            index < chars.len(),
            chars@[index as int] == '<',
            start == index + 1,
            start <= pos <= chars.len(),
            labels@ == old(labels)@,
            labels.len() < usize::MAX,
            find_char(chars@, start as nat, '>') == find_char(chars@, pos as nat, '>'),
            reference@ == chars@.subrange(start as int, pos as int),
        decreases chars.len() - pos,
    {
        if let Ok(end) = parse_closebra_symbol(chars, pos) {
            // find the id of the name, or give it the next one
            let ghost names = names_of(labels@);
            let mut k: usize = 0;
            let mut found: Option<usize> = None;
            while k < labels.len()
                invariant_except_break
                    found is None,
                    find_name(names.take(k as int), reference@) is None,
                invariant
                    k <= labels.len(),
                    names == names_of(labels@),
                ensures
                    match found {
                        Some(i) => find_name(names, reference@) == Some(i as nat),
                        None => find_name(names.take(k as int), reference@) is None && k
                            == labels.len(),
                    },
                decreases labels.len() - k,
            {
                assert(names.take(k + 1).drop_last() =~= names.take(k as int));
                if labels[k] == reference {
                    found = Some(k);
                    assert(names.take(k + 1).last() == reference@);
                    proof {
                        lemma_find_name_prefix(names, reference@, (k + 1) as nat);
                    }
                    break;
                }
                k += 1;
            }
            if k == labels.len() {
                assert(names.take(k as int) =~= names);
            }
            proof {
                lemma_find_name(names, reference@);
            }
            let reference_index = match found {
                Some(i) => i + 1,
                None => {
                    let id = labels.len() + 1;
                    labels.push(reference);
                    proof {
                        assert(names_of(labels@) =~= names.push(chars@.subrange(start as int, pos as int)));
                    }
                    id
                },
            };
            return Ok((end, reference_index));
        }
        if pos >= chars.len() {
            return Err(());
        }
        push_char(&mut reference, chars[pos]);
        pos += 1;
        proof {
            assert(reference@ =~= chars@.subrange(start as int, pos as int));
        }
    }
}

/// A name found in a prefix is found at the same index in the whole.
proof fn lemma_find_name_prefix(labels: Seq<Seq<char>>, name: Seq<char>, k: nat)
    requires
        k <= labels.len(),
        find_name(labels.take(k as int), name) is Some,
    ensures
        find_name(labels, name) == find_name(labels.take(k as int), name),
    decreases labels.len() - k,
{
    if k < labels.len() {
        assert(labels.take(k + 1int).drop_last() =~= labels.take(k as int));
        lemma_find_name_prefix(labels, name, k + 1);
    } else {
        assert(labels.take(k as int) =~= labels);
    }
}

} // verus!
