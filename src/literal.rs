//! Quoted text: `"abc"`, or with `N` hashes around the quotes,
//! `#"a"b"#`, so that the text may hold a quote.

use vstd::prelude::*;
use crate::text::push_char;

verus! {

/// The number of `#` characters in a row from `i` on.
pub open spec fn hash_run(s: Seq<char>, i: nat) -> nat
    decreases s.len() - i,
{
    if i < s.len() && s[i as int] == '#' {
        1 + hash_run(s, i + 1)
    } else {
        0
    }
}

/// An opening delimiter (`k` hashes, then a quote) at `i`: the position
/// after it, and `k`.
pub open spec fn opening_at(s: Seq<char>, i: nat) -> Option<(nat, nat)> {
    let k = hash_run(s, i);
    if i + k < s.len() && s[(i + k) as int] == '"' {
        Some((i + k + 1, k))
    } else {
        None
    }
}

/// A closing delimiter (a quote, then `k` hashes) at `j`.
pub open spec fn closes_at(s: Seq<char>, j: nat, k: nat) -> bool {
    &&& j + k < s.len()
    &&& s[j as int] == '"'
    &&& forall|t: int| 1 <= t <= k ==> #[trigger] s[j + t] == '#'
}

/// The first closing delimiter at or after `j`.
pub open spec fn find_close(s: Seq<char>, j: nat, k: nat) -> Option<nat>
    decreases s.len() - j,
{
    if j >= s.len() {
        None
    } else if closes_at(s, j, k) {
        Some(j)
    } else {
        find_close(s, j + 1, k)
    }
}

/// A quoted text at `i`, possibly empty: the position after it, and the text.
pub open spec fn string_at(s: Seq<char>, i: nat) -> Option<(nat, Seq<char>)> {
    match opening_at(s, i) {
        Some((start, k)) => match find_close(s, start, k) {
            Some(j) => Some((j + 1 + k, s.subrange(start as int, j as int))),
            None => None,
        },
        None => None,
    }
}

/// A grammar literal at `i`: quoted text that is not empty.
pub open spec fn literal_at(s: Seq<char>, i: nat) -> Option<(nat, Seq<char>)> {
    match string_at(s, i) {
        Some((j, t)) => if t.len() > 0 {
            Some((j, t))
        } else {
            None
        },
        None => None,
    }
}

pub proof fn lemma_find_close(s: Seq<char>, j: nat, k: nat)
    ensures
        find_close(s, j, k) matches Some(c) ==> j <= c && closes_at(s, c, k),
    decreases s.len() - j,
{
    if j < s.len() && !closes_at(s, j, k) {
        lemma_find_close(s, j + 1, k);
    }
}

/// A literal ends after it starts, within the text.
pub proof fn lemma_string_at(s: Seq<char>, i: nat)
    ensures
        string_at(s, i) matches Some((j, t)) ==> i < j <= s.len() && t.len() + 2 <= j - i,
{
    if let Some((start, k)) = opening_at(s, i) {
        lemma_find_close(s, start, k);
    }
}

fn parse_literal_start(chars: &Vec<char>, index: usize) -> (r: Result<(usize, usize), ()>)
    ensures
        match r {
            Ok((j, k)) => opening_at(chars@, index as nat) == Some((j as nat, k as nat)),
            Err(_) => opening_at(chars@, index as nat) is None,
        },
{
    // count how many # there are before the quote
    let mut escape_length: usize = 0;
    while index < chars.len() && escape_length < chars.len() - index && chars[index
        + escape_length] == '#'
        invariant
            index < chars.len() ==> escape_length <= chars.len() - index,
            index >= chars.len() ==> escape_length == 0,
            hash_run(chars@, index as nat) == escape_length + hash_run(
                chars@,
                (index + escape_length) as nat,
            ),
        decreases chars.len() - index - escape_length,
    {
        escape_length += 1;
    }
    // check that there is a quote after the #
    if index < chars.len() && escape_length < chars.len() - index && chars[index + escape_length]
        == '"' {
        Ok((index + escape_length + 1, escape_length))
    } else {
        Err(())
    }
}

fn parse_literal_end(chars: &Vec<char>, index: usize, escape_length: usize) -> (r: Result<usize, ()>)
    ensures
        match r {
            Ok(j) => closes_at(chars@, index as nat, escape_length as nat) && j == index + 1
                + escape_length,
            Err(_) => !closes_at(chars@, index as nat, escape_length as nat),
        },
{
    // check that there is a quote
    if index >= chars.len() || chars[index] != '"' {
        return Err(());
    }
    // check that there are enough # after the quote
    if escape_length >= chars.len() - index {
        return Err(());
    }
    for i in 0..escape_length
        invariant
            index + escape_length < chars.len(),
            forall|t: int| 1 <= t <= i ==> #[trigger] chars@[index + t] == '#',
    {
        if chars[index + 1 + i] != '#' {
            proof {
                let t: int = i + 1;
                assert(chars@[index + t] != '#');
            }
            return Err(());
        }
    }
    Ok(index + 1 + escape_length)
}

/// Reads quoted text at `index`; the text may be empty.
pub fn parse_string(chars: &Vec<char>, index: usize) -> (r: Result<(usize, String), ()>)
    ensures
        match r {
            Ok((j, t)) => string_at(chars@, index as nat) == Some((j as nat, t@)),
            Err(_) => string_at(chars@, index as nat) is None,
        },
{
    let (start, escape_length) = match parse_literal_start(chars, index) {
        Ok(p) => p,
        Err(()) => return Err(()),
    };
    let mut pos = start;
    let mut content = String::new();
    loop
        invariant
            start <= pos <= chars.len(),
            opening_at(chars@, index as nat) == Some((start as nat, escape_length as nat)),
            find_close(chars@, start as nat, escape_length as nat) == find_close(
                chars@,
                pos as nat,
                escape_length as nat,
            ),
            content@ == chars@.subrange(start as int, pos as int),
        decreases chars.len() - pos,
    {
        if pos >= chars.len() {
            return Err(());
        }
        if let Ok(end) = parse_literal_end(chars, pos, escape_length) {
            return Ok((end, content));
        }
        push_char(&mut content, chars[pos]);
        pos += 1;
        proof {
            assert(content@ =~= chars@.subrange(start as int, pos as int));
        }
    }
}

/// Reads a grammar literal at `index`: quoted text that is not empty.
pub fn parse_literal(chars: &Vec<char>, index: usize) -> (r: Result<(usize, String), ()>)
    ensures
        match r {
            Ok((j, t)) => literal_at(chars@, index as nat) == Some((j as nat, t@)),
            Err(_) => literal_at(chars@, index as nat) is None,
        },
{
    match parse_string(chars, index) {
        Ok((j, content)) => {
            if content.as_str().is_empty() {
                Err(())
            } else {
                Ok((j, content))
            }
        },
        Err(()) => Err(()),
    }
}

} // verus!
