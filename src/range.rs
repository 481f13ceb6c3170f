//! Character ranges: two one-character literals joined by `..=`.

use vstd::prelude::*;
use vstd::string::StrSliceExecFns;
use crate::literal::{literal_at, parse_literal};

verus! {

/// The range operator `..=` at `i`.
pub open spec fn range_symbol_at(s: Seq<char>, i: nat) -> bool {
    &&& i + 2 < s.len()
    &&& s[i as int] == '.'
    &&& s[i + 1int] == '.'
    &&& s[i + 2int] == '='
}

/// A range at `i`: the position after it and its two bounds.
pub open spec fn range_at(s: Seq<char>, i: nat) -> Option<(nat, char, char)> {
    match literal_at(s, i) {
        Some((j1, t1)) => if t1.len() == 1 && range_symbol_at(s, j1) {
            match literal_at(s, j1 + 3) {
                Some((j2, t2)) => if t2.len() == 1 {
                    Some((j2, t1[0], t2[0]))
                } else {
                    None
                },
                None => None,
            }
        } else {
            None
        },
        None => None,
    }
}

fn parse_range_symbol(chars: &Vec<char>, index: usize) -> (r: Result<usize, ()>)
    ensures
        match r {
            Ok(j) => range_symbol_at(chars@, index as nat) && j == index + 3,
            Err(_) => !range_symbol_at(chars@, index as nat),
        },
{
    if index < chars.len() && chars.len() - index > 2 && chars[index] == '.' && chars[index + 1]
        == '.' && chars[index + 2] == '=' {
        Ok(index + 3)
    } else {
        Err(())
    }
}

/// Reads a range such as `"a"..="z"` at `index`; each bound is one character.
pub fn parse_range(chars: &Vec<char>, index: usize) -> (r: Result<(usize, char, char), ()>)
    ensures
        match r {
            Ok((j, start, end)) => range_at(chars@, index as nat) == Some((j as nat, start, end)),
            Err(_) => range_at(chars@, index as nat) is None,
        },
{
    let (index, first_string) = match parse_literal(chars, index) {
        Ok(p) => p,
        Err(()) => return Err(()),
    };
    if first_string.as_str().unicode_len() != 1 {
        return Err(());
    }
    let index = match parse_range_symbol(chars, index) {
        Ok(j) => j,
        Err(()) => return Err(()),
    };
    let (index, second_string) = match parse_literal(chars, index) {
        Ok(p) => p,
        Err(()) => return Err(()),
    };
    if second_string.as_str().unicode_len() != 1 {
        return Err(());
    }
    Ok((index, first_string.as_str().get_char(0), second_string.as_str().get_char(0)))
}

} // verus!
