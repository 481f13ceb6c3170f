//! Spacing and line-break helpers for the grammar-text parser.

use vstd::prelude::*;

verus! {

/// The first position at or after `i` that does not hold a space.
pub open spec fn spaces_end(s: Seq<char>, i: nat) -> nat
    decreases s.len() - i,
{
    if i < s.len() && s[i as int] == ' ' {
        spaces_end(s, i + 1)
    } else {
        i
    }
}

/// The position after one line break (`\n` or `\r\n`) that starts at `i`.
pub open spec fn newline_at(s: Seq<char>, i: nat) -> Option<nat> {
    if i < s.len() && s[i as int] == '\n' {
        Some(i + 1)
    } else if i + 1 < s.len() && s[i as int] == '\r' && s[i + 1int] == '\n' {
        Some(i + 2)
    } else {
        None
    }
}

/// The position after the run of line breaks that starts at `i` (possibly empty).
pub open spec fn newlines_end(s: Seq<char>, i: nat) -> nat
    decreases s.len() - i,
{
    match newline_at(s, i) {
        Some(j) => if j <= s.len() { newlines_end(s, j) } else { i },
        None => i,
    }
}

/// The position after one or more line breaks starting at `i`, if there is one.
pub open spec fn newlines_at(s: Seq<char>, i: nat) -> Option<nat> {
    match newline_at(s, i) {
        Some(j) => Some(newlines_end(s, j)),
        None => None,
    }
}

pub proof fn lemma_spaces_end_bounds(s: Seq<char>, i: nat)
    ensures
        i <= spaces_end(s, i),
        i <= s.len() ==> spaces_end(s, i) <= s.len(),
        forall|k: int| i <= k < spaces_end(s, i) ==> s[k] == ' ',
        spaces_end(s, i) < s.len() ==> s[spaces_end(s, i) as int] != ' ',
    decreases s.len() - i,
{
    if i < s.len() && s[i as int] == ' ' {
        lemma_spaces_end_bounds(s, i + 1);
    }
}

pub proof fn lemma_newlines_end_bounds(s: Seq<char>, i: nat)
    ensures
        i <= newlines_end(s, i),
        i <= s.len() ==> newlines_end(s, i) <= s.len(),
    decreases s.len() - i,
{
    if let Some(j) = newline_at(s, i) {
        if j <= s.len() {
            lemma_newlines_end_bounds(s, j);
        }
    }
}

/// Skips the spaces (not tabs) that start at `index`.
pub fn parse_spacings(chars: &Vec<char>, index: usize) -> (r: usize)
    ensures
        r == spaces_end(chars@, index as nat),
{
    let mut i = index;
    while i < chars.len() && chars[i] == ' '
        invariant
            index <= i,
            spaces_end(chars@, index as nat) == spaces_end(chars@, i as nat),
        decreases chars.len() - i,
    {
        i = i + 1;
    }
    i
}

/// Reads one line break (`\n` or `\r\n`) at `index`.
pub fn parse_single_newline(chars: &Vec<char>, index: usize) -> (r: Result<usize, ()>)
    ensures
        match r {
            Ok(j) => newline_at(chars@, index as nat) == Some(j as nat),
            Err(_) => newline_at(chars@, index as nat) is None,
        },
{
    if index < chars.len() && chars[index] == '\n' {
        Ok(index + 1)
    } else if index < chars.len() && chars[index] == '\r' && index + 1 < chars.len()
        && chars[index + 1] == '\n' {
        Ok(index + 2)
    } else {
        Err(())
    }
}

/// Reads one or more line breaks at `index`.
pub fn parse_newlines(chars: &Vec<char>, index: usize) -> (r: Result<usize, ()>)
    ensures
        match r {
            Ok(j) => newlines_at(chars@, index as nat) == Some(j as nat),
            Err(_) => newlines_at(chars@, index as nat) is None,
        },
{
    let mut i = match parse_single_newline(chars, index) {
        Ok(j) => j,
        Err(()) => return Err(()),
    };
    loop
        invariant
            i <= chars@.len(),
            newlines_at(chars@, index as nat) == Some(newlines_end(chars@, i as nat)),
        ensures
            newlines_at(chars@, index as nat) == Some(i as nat),
        decreases chars.len() - i,
    {
        match parse_single_newline(chars, i) {
            Ok(next) => i = next,
            Err(()) => break,
        }
    }
    Ok(i)
}

} // verus!
