//! Writing a production table back as grammar text, and a decision frame
//! as a transition.
//!
//! Productions come out in the order they were defined, one per line, so
//! that reading the text again gives the same table.

use vstd::prelude::*;
use crate::alternation::Alternation;
use crate::element::{Element, ElementModel};
use crate::engine::ChoiceState;
use crate::grammar::{
    Grammar,
    GrammarModel,
    well_formed,
    element_ok,
    sequences_ok,
    expression_at,
    match_symbol_at,
    productions_from,
    finish,
    grammar_at,
    lemma_expression_at,
};
use crate::symbols::{newline_at, newlines_at, newlines_end};
use crate::reference::names_of;
use crate::sequence::Sequence;
use crate::text::{push_char, to_chars};
use crate::literal::{hash_run, opening_at, closes_at, find_close, string_at, literal_at};
use crate::reference::{find_char, name_at, find_name, intern, names_ok, lemma_find_name, reference_at};
use crate::range::{range_at, range_symbol_at};
use crate::element::element_at;
use crate::sequence::{elements_from, sequence_at, lemma_elements_from};
use crate::alternation::{seqs_from, alternation_at, lemma_seqs_from};
use crate::symbols::spaces_end;

verus! {

/// How often `c` occurs in `t`.
pub open spec fn count_char(t: Seq<char>, c: char) -> nat
    decreases t.len(),
{
    if t.len() == 0 {
        0
    } else {
        count_char(t.drop_last(), c) + if t.last() == c {
            1nat
        } else {
            0nat
        }
    }
}

/// The number of hashes that delimit `t`: none when `t` holds no quote,
/// else one more than the hashes in `t`, so that no quote in `t` is
/// followed by that many hashes.
pub open spec fn hash_count(t: Seq<char>) -> nat {
    if t.contains('"') {
        count_char(t, '#') + 1
    } else {
        0
    }
}

pub open spec fn hashes(k: nat) -> Seq<char> {
    Seq::new(k, |i: int| '#')
}

/// `t` as a literal: quotes, with as many hashes around them as needed.
pub open spec fn quote(t: Seq<char>) -> Seq<char> {
    let k = hash_count(t);
    hashes(k) + seq!['"'] + t + seq!['"'] + hashes(k)
}

/// `parts` with `sep` between each two.
pub open spec fn join(parts: Seq<Seq<char>>, sep: Seq<char>) -> Seq<char>
    decreases parts.len(),
{
    if parts.len() == 0 {
        seq![]
    } else if parts.len() == 1 {
        parts[0]
    } else {
        join(parts.drop_last(), sep) + sep + parts.last()
    }
}

pub open spec fn render_element(e: ElementModel, names: Seq<Seq<char>>) -> Seq<char> {
    match e {
        ElementModel::Empty => seq!['ε'],
        ElementModel::Range(lo, hi) => quote(seq![lo]) + seq!['.', '.', '='] + quote(seq![hi]),
        ElementModel::Literal(t) => quote(t),
        ElementModel::Reference(id) => seq!['<'] + names[id - 1] + seq!['>'],
    }
}

pub open spec fn render_sequence(sq: Seq<ElementModel>, names: Seq<Seq<char>>) -> Seq<char> {
    join(sq.map_values(|e: ElementModel| render_element(e, names)), seq![' '])
}

pub open spec fn render_alternation(alt: Seq<Seq<ElementModel>>, names: Seq<Seq<char>>) -> Seq<
    char,
> {
    join(alt.map_values(|sq: Seq<ElementModel>| render_sequence(sq, names)), seq![' ', '|', ' '])
}

/// `<name> ::= alternation` and a line break.
pub open spec fn render_production(g: GrammarModel, id: nat) -> Seq<char> {
    seq!['<'] + g.names[id - 1] + seq!['>', ' ', ':', ':', '=', ' '] + render_alternation(
        g.rules[id - 1],
        g.names,
    ) + seq!['\n']
}

/// The first `k` productions, in the order they were defined.
pub open spec fn render_productions(g: GrammarModel, k: nat) -> Seq<char>
    decreases k,
{
    if k == 0 {
        seq![]
    } else {
        render_productions(g, (k - 1) as nat) + render_production(g, g.order[k - 1])
    }
}

/// The grammar text of a table.
pub open spec fn render_grammar(g: GrammarModel) -> Seq<char> {
    render_productions(g, g.order.len())
}

proof fn lemma_count_char_bound(t: Seq<char>, c: char, d: char)
    requires
        c != d,
    ensures
        count_char(t, c) + (if t.contains(d) {
            1nat
        } else {
            0nat
        }) <= t.len(),
    decreases t.len(),
{
    if t.len() > 0 {
        let u = t.drop_last();
        lemma_count_char_bound(u, c, d);
        if u.contains(d) {
            let k = choose|k: int| 0 <= k < u.len() && u[k] == d;
            assert(t[k] == d);
        }
        if t.contains(d) && !u.contains(d) {
            let k = choose|k: int| 0 <= k < t.len() && t[k] == d;
            if k < u.len() {
                assert(u[k] == d);
            }
        }
    }
}

fn push_all(output: &mut String, t: &Vec<char>)
    ensures
        final(output)@ == old(output)@ + t@,
{
    let ghost start = output@;
    for i in 0..t.len()
        invariant
            output@ == start + t@.take(i as int),
    {
        push_char(output, t[i]);
        assert(t@.take(i + 1) =~= t@.take(i as int).push(t@[i as int]));
        assert(output@ =~= start + t@.take(i + 1));
    }
    assert(t@.take(t.len() as int) =~= t@);
}

fn push_hashes(output: &mut String, k: usize)
    ensures
        final(output)@ == old(output)@ + hashes(k as nat),
{
    let ghost start = output@;
    for i in 0..k
        invariant
            output@ == start + hashes(i as nat),
    {
        push_char(output, '#');
        assert(hashes((i + 1) as nat) =~= hashes(i as nat).push('#'));
        assert(output@ =~= start + hashes((i + 1) as nat));
    }
}

fn push_quoted(output: &mut String, t: &Vec<char>)
    ensures
        final(output)@ == old(output)@ + quote(t@),
{
    // a quote in the text needs hashes around the delimiters
    let mut has_quote = false;
    let mut count: usize = 0;
    for i in 0..t.len()
        invariant
            has_quote == t@.take(i as int).contains('"'),
            count == count_char(t@.take(i as int), '#'),
            count <= i,
    {
        assert(t@.take(i + 1).drop_last() =~= t@.take(i as int));
        if t[i] == '"' {
            has_quote = true;
            assert(t@.take(i + 1)[i as int] == '"');
        } else {
            proof {
                if has_quote {
                    let k = choose|k: int| 0 <= k < i && t@.take(i as int)[k] == '"';
                    assert(t@.take(i + 1)[k] == '"');
                } else {
                    let u = t@.take(i + 1);
                    assert forall|k: int| 0 <= k < i + 1 implies #[trigger] u[k] != '"' by {
                        if k < i {
                            assert(t@.take(i as int)[k] == u[k]);
                        }
                    }
                }
            }
        }
        if t[i] == '#' {
            count = count + 1;
        }
    }
    assert(t@.take(t.len() as int) =~= t@);
    let k: usize = if has_quote {
        proof {
            lemma_count_char_bound(t@, '#', '"');
        }
        count + 1
    } else {
        0
    };
    push_hashes(output, k);
    push_char(output, '"');
    push_all(output, t);
    push_char(output, '"');
    push_hashes(output, k);
    proof {
        assert(output@ =~= old(output)@ + quote(t@));
    }
}

fn format_element(e: &Element, names: &Vec<String>, output: &mut String)
    requires
        element_ok(e@, names.len() as nat),
    ensures
        final(output)@ == old(output)@ + render_element(e@, names_of(names@)),
{
    let ghost start_text = output@;
    match e {
        Element::Empty => {
            push_char(output, 'ε');
            assert(output@ =~= start_text + render_element(e@, names_of(names@)));
        },
        Element::Range { start, end } => {
            let lo = vec![*start];
            let hi = vec![*end];
            assert(lo@ =~= seq![*start]);
            assert(hi@ =~= seq![*end]);
            push_quoted(output, &lo);
            push_char(output, '.');
            push_char(output, '.');
            push_char(output, '=');
            push_quoted(output, &hi);
            assert(output@ =~= start_text + render_element(e@, names_of(names@)));
        },
        Element::Literal(text) => {
            push_quoted(output, &to_chars(text.as_str()));
        },
        Element::Reference(id) => {
            push_char(output, '<');
            push_all(output, &to_chars(names[*id - 1].as_str()));
            push_char(output, '>');
            assert(names_of(names@)[*id - 1] == names@[*id - 1]@);
            assert(output@ =~= start_text + render_element(e@, names_of(names@)));
        },
    }
}

fn push_str(output: &mut String, text: &str)
    ensures
        final(output)@ == old(output)@ + text@,
{
    push_all(output, &to_chars(text));
}

fn format_sequence(sq: &Sequence, names: &Vec<String>, output: &mut String)
    requires
        forall|e: int| 0 <= e < sq@.len() ==> element_ok(#[trigger] sq@[e], names.len() as nat),
    ensures
        final(output)@ == old(output)@ + render_sequence(sq@, names_of(names@)),
{
    let ghost start = output@;
    let ghost parts = sq@.map_values(|e: ElementModel| render_element(e, names_of(names@)));
    let n = sq.elements.len();
    for i in 0..n
        invariant
            n == sq@.len(),
            parts == sq@.map_values(|e: ElementModel| render_element(e, names_of(names@))),
            forall|e: int| 0 <= e < sq@.len() ==> element_ok(#[trigger] sq@[e], names.len() as nat),
            output@ == start + join(parts.take(i as int), seq![' ']),
    {
        let ghost before = output@;
        if i > 0 {
            push_char(output, ' ');
        }
        assert(sq.elements@[i as int]@ == sq@[i as int]);
        format_element(&sq.elements[i], names, output);
        proof {
            let done = parts.take(i + 1);
            assert(done.drop_last() =~= parts.take(i as int));
            if i == 0 {
                assert(join(done, seq![' ']) == done[0]);
            }
            assert(output@ =~= start + join(done, seq![' ']));
        }
    }
    proof {
        assert(parts.take(n as int) =~= parts);
    }
}

fn format_alternation(alt: &Alternation, names: &Vec<String>, output: &mut String)
    requires
        sequences_ok(alt@, names.len() as nat),
    ensures
        final(output)@ == old(output)@ + render_alternation(alt@, names_of(names@)),
{
    let ghost start = output@;
    let ghost parts = alt@.map_values(|q: Seq<ElementModel>| render_sequence(q, names_of(names@)));
    let n = alt.sequences.len();
    for i in 0..n
        invariant
            n == alt@.len(),
            parts == alt@.map_values(|q: Seq<ElementModel>| render_sequence(q, names_of(names@))),
            sequences_ok(alt@, names.len() as nat),
            output@ == start + join(parts.take(i as int), seq![' ', '|', ' ']),
    {
        if i > 0 {
            push_str(output, " | ");
            proof {
                reveal_strlit(" | ");
            }
        }
        assert(alt.sequences@[i as int]@ == alt@[i as int]);
        format_sequence(&alt.sequences[i], names, output);
        proof {
            let done = parts.take(i + 1);
            assert(done.drop_last() =~= parts.take(i as int));
            if i == 0 {
                assert(join(done, seq![' ', '|', ' ']) == done[0]);
            }
            assert(output@ =~= start + join(done, seq![' ', '|', ' ']));
        }
    }
    proof {
        assert(parts.take(n as int) =~= parts);
    }
}

impl Grammar {
    /// The grammar text of this table: one production per line, in the
    /// order the productions were defined. Reading it again gives the same
    /// table (see `lemma_round_trip`).
    pub fn format(&self) -> (r: String)
        ensures
            r@ == render_grammar(self@),
    {
        let references = self.references();
        let labels = self.labels();
        let maps = self.maps();
        let ghost g = self@;
        let mut output = String::new();
        for k in 0..labels.len()
            invariant
                g == self@,
                well_formed(g),
                references@.map_values(|s: String| s@) == g.names,
                labels@.map_values(|i: usize| i as nat) == g.order,
                maps@.map_values(|a: Alternation| a@) == g.rules,
                output@ == render_productions(g, k as nat),
        {
            let id = labels[k];
            assert(g.order[k as int] == id);
            push_char(&mut output, '<');
            push_all(&mut output, &to_chars(references[id - 1].as_str()));
            push_str(&mut output, "> ::= ");
            assert(maps@[id - 1]@ == g.rules[id - 1]);
            assert(names_of(references@) == g.names);
            format_alternation(&maps[id - 1], references, &mut output);
            push_char(&mut output, '\n');
            proof {
                reveal_strlit("> ::= ");
                assert(output@ =~= render_productions(g, (k + 1) as nat));
            }
        }
        output
    }
}

/// The decimal digits of `n`, most significant first.
pub open spec fn decimal(n: nat) -> Seq<char>
    decreases n,
{
    let digit = seq!['0', '1', '2', '3', '4', '5', '6', '7', '8', '9'][(n % 10) as int];
    if n < 10 {
        seq![digit]
    } else {
        decimal(n / 10).push(digit)
    }
}

/// A decision frame as `source[alternative,element]→destination[alternative]`.
pub open spec fn render_choice(c: ChoiceState) -> Seq<char> {
    decimal(c.source_label_index as nat) + seq!['['] + decimal(c.source_alternation_index as nat)
        + seq![','] + decimal(c.source_sequence_index as nat) + seq![']', '→'] + decimal(
        c.destination_label_index as nat,
    ) + seq!['['] + decimal(c.destination_alternation_index as nat) + seq![']']
}

fn push_decimal(output: &mut String, n: usize)
    ensures
        final(output)@ == old(output)@ + decimal(n as nat),
    decreases n,
{
    let digits = vec!['0', '1', '2', '3', '4', '5', '6', '7', '8', '9'];
    assert(digits@ =~= seq!['0', '1', '2', '3', '4', '5', '6', '7', '8', '9']);
    if n >= 10 {
        push_decimal(output, n / 10);
    }
    push_char(output, digits[n % 10]);
    assert(output@ =~= old(output)@ + decimal(n as nat));
}

impl ChoiceState {
    /// The frame as `source[alternative,element]→destination[alternative]`,
    /// the ids and indices in decimal.
    pub fn render(&self) -> (r: String)
        ensures
            r@ == render_choice(*self),
    {
        let mut output = String::new();
        push_decimal(&mut output, self.source_label_index);
        push_char(&mut output, '[');
        push_decimal(&mut output, self.source_alternation_index);
        push_char(&mut output, ',');
        push_decimal(&mut output, self.source_sequence_index);
        push_char(&mut output, ']');
        push_char(&mut output, '→');
        push_decimal(&mut output, self.destination_label_index);
        push_char(&mut output, '[');
        push_decimal(&mut output, self.destination_alternation_index);
        push_char(&mut output, ']');
        assert(output@ =~= render_choice(*self));
        output
    }
}

// ----- reading the text back -----

proof fn lemma_join_head(parts: Seq<Seq<char>>, sep: Seq<char>)
    requires
        parts.len() >= 2,
    ensures
        join(parts, sep) == parts[0] + sep + join(parts.drop_first(), sep),
    decreases parts.len(),
{
    if parts.len() == 2 {
        assert(parts.drop_first().len() == 1);
        assert(parts.drop_last().len() == 1);
        assert(parts.drop_last()[0] == parts[0]);
        assert(parts.drop_first()[0] == parts[1]);
    } else {
        assert(parts.drop_first().last() == parts.last());
        assert(parts.drop_last()[0] == parts[0]);
        lemma_join_head(parts.drop_last(), sep);
        assert(parts.drop_last().drop_first() =~= parts.drop_first().drop_last());
        let j = join(parts.drop_first().drop_last(), sep);
        assert(join(parts.drop_last(), sep) == parts[0] + sep + j);
        assert(join(parts, sep) == join(parts.drop_last(), sep) + sep + parts.last());
        assert(join(parts.drop_first(), sep) == j + sep + parts.last());
        assert((parts[0] + sep + join(parts.drop_first().drop_last(), sep)) + sep
            + parts.last() =~= parts[0] + sep + (join(parts.drop_first().drop_last(), sep) + sep
            + parts.drop_first().last()));
    }
}

proof fn lemma_join_first(parts: Seq<Seq<char>>, sep: Seq<char>)
    requires
        parts.len() >= 1,
    ensures
        parts[0].len() <= join(parts, sep).len(),
        forall|x: int| 0 <= x < parts[0].len() ==> join(parts, sep)[x] == parts[0][x],
    decreases parts.len(),
{
    if parts.len() > 1 {
        lemma_join_first(parts.drop_last(), sep);
        assert(parts.drop_last()[0] == parts[0]);
    }
}

proof fn lemma_hash_run(t: Seq<char>, p: nat, k: nat)
    requires
        p + k < t.len(),
        forall|x: int| p <= x < p + k ==> t[x] == '#',
        t[(p + k) as int] != '#',
    ensures
        hash_run(t, p) == k,
    decreases k,
{
    if k > 0 {
        lemma_hash_run(t, p + 1, (k - 1) as nat);
    }
}

proof fn lemma_find_close_at(t: Seq<char>, j: nat, k: nat, c: nat)
    requires
        j <= c < t.len(),
        forall|x: nat| j <= x < c ==> !closes_at(t, x, k),
        closes_at(t, c, k),
    ensures
        find_close(t, j, k) == Some(c),
    decreases c - j,
{
    if j < c {
        lemma_find_close_at(t, j + 1, k, c);
    }
}

proof fn lemma_count_block(t: Seq<char>, a: int, k: int)
    requires
        0 <= a,
        0 <= k,
        a + k <= t.len(),
        forall|x: int| a <= x < a + k ==> t[x] == '#',
    ensures
        count_char(t, '#') >= k,
    decreases t.len(),
{
    if t.len() > 0 {
        if a + k == t.len() && k > 0 {
            lemma_count_block(t.drop_last(), a, k - 1);
        } else if a + k < t.len() {
            lemma_count_block(t.drop_last(), a, k);
        }
    }
}

/// A quoted text reads back as itself.
proof fn lemma_quote(t: Seq<char>, text: Seq<char>, p: nat)
    requires
        t.len() >= 1,
        p + quote(text).len() <= t.len(),
        t.subrange(p as int, (p + quote(text).len()) as int) == quote(text),
        text.len() >= 1,
    ensures
        literal_at(t, p) == Some(((p + quote(text).len()) as nat, text)),
{
    let k = hash_count(text);
    let q = quote(text);
    let start = p + k + 1;
    let c = start + text.len();
    assert forall|x: int| 0 <= x < q.len() implies t[p + x] == #[trigger] q[x] by {
        assert(t.subrange(p as int, (p + q.len()) as int)[x] == q[x]);
    }
    assert forall|x: int| p <= x < p + k implies t[x] == '#' by {
        assert(q[x - p] == '#');
    }
    assert(q[k as int] == '"');
    lemma_hash_run(t, p, k);
    assert(opening_at(t, p) == Some((start as nat, k)));
    assert forall|x: int| start <= x < c implies t[x] == text[x - start] by {
        assert(q[x - p] == text[x - start]);
    }
    assert(q[c - p] == '"');
    assert forall|x: int| c < x <= c + k implies t[x] == '#' by {
        assert(q[x - p] == '#');
    }
    assert(closes_at(t, c as nat, k));
    assert forall|x: nat| start <= x < c implies !closes_at(t, x, k) by {
        if closes_at(t, x, k) {
            if k == 0 {
                assert(text[x - start] == '"');
                assert(!text.contains('"'));
            } else if x + k < c {
                assert(text[x - start] == '"');
                assert(text.contains('"'));
                assert forall|y: int| x - start + 1 <= y < x - start + 1 + k implies text[y] == '#' by {
                    let tt = start + y - x;
                    assert(t[x + tt] == '#');
                }
                lemma_count_block(text, x - start + 1, k as int);
            } else {
                let tt = c - x;
                assert(t[x + tt] == '#');
            }
        }
    }
    lemma_find_close_at(t, start as nat, k, c as nat);
    assert(t.subrange(start as int, c as int) =~= text);
}

proof fn lemma_find_char_at(t: Seq<char>, j: nat, ch: char, c: nat)
    requires
        j <= c < t.len(),
        forall|x: int| j <= x < c ==> t[x] != ch,
        t[c as int] == ch,
    ensures
        find_char(t, j, ch) == Some(c),
    decreases c - j,
{
    if j < c {
        lemma_find_char_at(t, j + 1, ch, c);
    }
}

/// A bracketed name reads back as itself.
proof fn lemma_name(t: Seq<char>, name: Seq<char>, p: nat)
    requires
        !name.contains('>'),
        p + name.len() + 2 <= t.len(),
        t.subrange(p as int, (p + name.len() + 2) as int) == seq!['<'] + name + seq!['>'],
    ensures
        name_at(t, p) == Some(((p + name.len() + 2) as nat, name)),
{
    let w = seq!['<'] + name + seq!['>'];
    assert forall|x: int| 0 <= x < w.len() implies t[p + x] == #[trigger] w[x] by {
        assert(t.subrange(p as int, (p + w.len()) as int)[x] == w[x]);
    }
    assert(t[p as int] == w[0]);
    assert forall|x: int| p + 1 <= x < p + 1 + name.len() implies t[x] != '>' by {
        assert(w[x - p] == name[x - p - 1]);
    }
    assert(w[(name.len() + 1) as int] == '>');
    lemma_find_char_at(t, p + 1, '>', p + 1 + name.len());
    assert forall|x: int| 0 <= x < name.len() implies t.subrange(p + 1int, (p + 1 + name.len()) as int)[x] == name[x] by {
        assert(w[x + 1] == name[x]);
    }
    assert(t.subrange(p + 1int, (p + 1 + name.len()) as int) =~= name);
}

proof fn lemma_intern(labels: Seq<Seq<char>>, name: Seq<char>)
    ensures
        1 <= intern(labels, name).0 <= intern(labels, name).1.len(),
        intern(labels, name).1[intern(labels, name).0 - 1] == name,
        labels.is_prefix_of(intern(labels, name).1),
{
    lemma_find_name(labels, name);
    assert(labels.is_prefix_of(labels.push(name)));
    assert(labels.is_prefix_of(labels));
}

/// A rendered element starts with `ε`, `#`, `"` or `<`.
proof fn lemma_render_element_start(e: ElementModel, names: Seq<Seq<char>>)
    ensures
        render_element(e, names).len() >= 1,
        ({
            let c = render_element(e, names)[0];
            c == 'ε' || c == '#' || c == '"' || c == '<'
        }),
{
    match e {
        ElementModel::Range(lo, hi) => {
            let q = quote(seq![lo]);
            if hash_count(seq![lo]) > 0 {
                assert(q[0] == '#');
            } else {
                assert(q[0] == '"');
            }
            assert(render_element(e, names)[0] == q[0]);
        },
        ElementModel::Literal(t) => {
            if hash_count(t) > 0 {
                assert(quote(t)[0] == '#');
            } else {
                assert(quote(t)[0] == '"');
            }
        },
        _ => {},
    }
}

/// An element read from some text, rendered into `t` at `p`, reads back
/// the same, with the same names.
proof fn lemma_element_back(
    s: Seq<char>,
    i: nat,
    labels: Seq<Seq<char>>,
    names: Seq<Seq<char>>,
    t: Seq<char>,
    p: nat,
)
    requires
        element_at(s, i, labels) is Some,
        element_at(s, i, labels)->Some_0.2.is_prefix_of(names),
        names_ok(names),
        element_ok(element_at(s, i, labels)->Some_0.1, names.len()),
        ({
            let r = render_element(element_at(s, i, labels)->Some_0.1, names);
            &&& p + r.len() < t.len()
            &&& t.subrange(p as int, (p + r.len()) as int) == r
            &&& t[(p + r.len()) as int] != '.'
        }),
    ensures
        ({
            let (j, e, l2) = element_at(s, i, labels)->Some_0;
            element_at(t, p, labels) == Some(((p + render_element(e, names).len()) as nat, e, l2))
        }),
{
    let (j, e, l2) = element_at(s, i, labels)->Some_0;
    let r = render_element(e, names);
    let end = (p + r.len()) as nat;
    assert forall|x: int| 0 <= x < r.len() implies t[p + x] == #[trigger] r[x] by {
        assert(t.subrange(p as int, (p + r.len()) as int)[x] == r[x]);
    }
    lemma_render_element_start(e, names);
    match e {
        ElementModel::Empty => {},
        ElementModel::Range(lo, hi) => {
            let q1 = quote(seq![lo]);
            let q2 = quote(seq![hi]);
            assert(t.subrange(p as int, (p + q1.len()) as int) =~= q1) by {
                assert forall|x: int| 0 <= x < q1.len() implies t.subrange(p as int, (p + q1.len()) as int)[x] == q1[x] by {
                    assert(r[x] == q1[x]);
                }
            }
            lemma_quote(t, seq![lo], p);
            let b: int = (p + q1.len() + 3) as int;
            assert(t.subrange(b, b + q2.len()) =~= q2) by {
                assert forall|x: int| 0 <= x < q2.len() implies t.subrange(b, b + q2.len())[x] == q2[x] by {
                    assert(r[q1.len() + 3 + x] == q2[x]);
                }
            }
            assert(r[q1.len() as int] == '.' && r[q1.len() + 1int] == '.' && r[q1.len() + 2int] == '=');
            lemma_quote(t, seq![hi], b as nat);
            assert(range_symbol_at(t, (p + q1.len()) as nat));
            assert(seq![lo][0] == lo);
            assert(seq![hi][0] == hi);
            assert(range_at(t, p) == Some((end, lo, hi)));
        },
        ElementModel::Literal(text) => {
            assert(t.subrange(p as int, (p + r.len()) as int) =~= quote(text));
            lemma_quote(t, text, p);
            assert(!range_symbol_at(t, end));
        },
        ElementModel::Reference(id) => {
            let name = names[id - 1];
            lemma_intern(labels, crate::reference::name_at(s, i)->Some_0.1);
            assert(l2[id - 1] == names[id - 1]);
            assert(!name.contains('>'));
            assert(t.subrange(p as int, (p + r.len()) as int) =~= seq!['<'] + name + seq!['>']);
            lemma_name(t, name, p);
            assert(hash_run(t, p) == 0);
        },
    }
}

proof fn lemma_prefix_trans(a: Seq<Seq<char>>, b: Seq<Seq<char>>, c: Seq<Seq<char>>)
    requires
        a.is_prefix_of(b),
        b.is_prefix_of(c),
    ensures
        a.is_prefix_of(c),
{
    assert forall|x: int| 0 <= x < a.len() implies a[x] == c[x] by {
        assert(a[x] == b[x]);
    }
}

/// The elements of a sequence read from some text, rendered into `t` at
/// `p` (after optional spaces from `p0`), read back the same.
#[verifier::rlimit(50)]
proof fn lemma_elements_back(
    s: Seq<char>,
    i: nat,
    labels: Seq<Seq<char>>,
    names: Seq<Seq<char>>,
    t: Seq<char>,
    p0: nat,
    p: nat,
)
    requires
        i <= s.len(),
        elements_from(s, i, labels).1.len() >= 1,
        elements_from(s, i, labels).2.is_prefix_of(names),
        names_ok(names),
        forall|e: int|
            0 <= e < elements_from(s, i, labels).1.len() ==> element_ok(
                #[trigger] elements_from(s, i, labels).1[e],
                names.len(),
            ),
        p0 <= p,
        spaces_end(t, p0) == p,
        ({
            let r = render_sequence(elements_from(s, i, labels).1, names);
            &&& p + r.len() < t.len()
            &&& t.subrange(p as int, (p + r.len()) as int) == r
            &&& (t[(p + r.len()) as int] == ' ' || t[(p + r.len()) as int] == '\n')
            &&& element_at(t, spaces_end(t, (p + r.len()) as nat), elements_from(s, i, labels).2) is None
        }),
    ensures
        elements_from(t, p0, labels) == (
            (p + render_sequence(elements_from(s, i, labels).1, names).len()) as nat,
            elements_from(s, i, labels).1,
            elements_from(s, i, labels).2,
        ),
    decreases s.len() - i,
{
    let (k, es, l3) = elements_from(s, i, labels);
    let (j, e0, l1) = element_at(s, spaces_end(s, i), labels)->Some_0;
    let (k2, rest, l3b) = elements_from(s, j, l1);
    lemma_elements_from(s, j, l1);
    lemma_prefix_trans(l1, l3, names);
    assert(es == seq![e0] + rest);
    assert(es[0] == e0);
    let f = |e: ElementModel| render_element(e, names);
    let parts = es.map_values(f);
    let r = render_sequence(es, names);
    let r0 = render_element(e0, names);
    assert forall|x: int| 0 <= x < r.len() implies t[p + x] == #[trigger] r[x] by {
        assert(t.subrange(p as int, (p + r.len()) as int)[x] == r[x]);
    }
    if rest.len() == 0 {
        assert(parts.len() == 1);
        assert(r == r0);
        assert(t.subrange(p as int, (p + r0.len()) as int) =~= r0);
        lemma_element_back(s, spaces_end(s, i), labels, names, t, p);
        assert(es =~= seq![e0]);
        assert(l3 == l1);
        let end = (p + r0.len()) as nat;
        assert(element_at(t, p, labels) == Some((end, e0, l1)));
        assert(elements_from(t, end, l1) == (end, Seq::<ElementModel>::empty(), l1));
        assert(seq![e0] + Seq::<ElementModel>::empty() =~= es);
    } else {
        lemma_join_head(parts, seq![' ']);
        assert(parts.drop_first() =~= rest.map_values(f));
        let rr = render_sequence(rest, names);
        assert(r == r0 + seq![' '] + rr);
        assert(t.subrange(p as int, (p + r0.len()) as int) =~= r0) by {
            assert forall|x: int| 0 <= x < r0.len() implies t.subrange(p as int, (p + r0.len()) as int)[x] == r0[x] by {
                assert(r[x] == r0[x]);
            }
        }
        assert(r[r0.len() as int] == ' ');
        lemma_element_back(s, spaces_end(s, i), labels, names, t, p);
        let q0 = (p + r0.len()) as nat;
        let q = q0 + 1;
        assert(rr == render_sequence(elements_from(s, j, l1).1, names));
        assert(parts.drop_first()[0] == render_element(rest[0], names));
        lemma_render_element_start(rest[0], names);
        assert(rr[0] == r[r0.len() + 1int]);
        lemma_join_first(rest.map_values(f), seq![' ']);
        assert(rest.map_values(f)[0] == render_element(rest[0], names));
        assert(t[q0 as int] == ' ');
        assert(t[q as int] == rr[0]);
        assert(spaces_end(t, q as nat) == q);
        assert(spaces_end(t, q0) == q);
        assert(t.subrange(q as int, (q + rr.len()) as int) =~= rr) by {
            assert forall|x: int| 0 <= x < rr.len() implies t.subrange(q as int, (q + rr.len()) as int)[x] == rr[x] by {
                assert(r[r0.len() + 1 + x] == rr[x]);
            }
        }
        assert forall|e: int| 0 <= e < rest.len() implies element_ok(#[trigger] rest[e], names.len()) by {
            assert(es[e + 1] == rest[e]);
        }
        lemma_elements_back(s, j, l1, names, t, q0, q as nat);
        assert(element_at(t, p, labels) == Some((q0, e0, l1)));
        assert(elements_from(t, q0, l1) == ((p + r.len()) as nat, rest, l3));
    }
}

/// No element starts at a `|` or a line break.
proof fn lemma_element_at_stop(t: Seq<char>, x: nat, labels: Seq<Seq<char>>)
    requires
        x < t.len(),
        t[x as int] == '|' || t[x as int] == '\n',
    ensures
        element_at(t, x, labels) is None,
{
    assert(hash_run(t, x) == 0);
}

/// A rendered sequence starts with the start of its first element.
proof fn lemma_render_sequence_start(sq: Seq<ElementModel>, names: Seq<Seq<char>>)
    requires
        sq.len() >= 1,
    ensures
        render_sequence(sq, names).len() >= 1,
        ({
            let c = render_sequence(sq, names)[0];
            c == 'ε' || c == '#' || c == '"' || c == '<'
        }),
{
    let f = |e: ElementModel| render_element(e, names);
    lemma_join_first(sq.map_values(f), seq![' ']);
    lemma_render_element_start(sq[0], names);
    assert(sq.map_values(f)[0] == render_element(sq[0], names));
}

/// The sequences of an alternation read from some text, rendered into `t`
/// at `p` (after optional spaces from `p0`) and followed by a line break,
/// read back the same.
#[verifier::rlimit(50)]
proof fn lemma_seqs_back(
    s: Seq<char>,
    i: nat,
    labels: Seq<Seq<char>>,
    names: Seq<Seq<char>>,
    t: Seq<char>,
    p0: nat,
    p: nat,
)
    requires
        i <= s.len(),
        seqs_from(s, i, labels).1.len() >= 1,
        seqs_from(s, i, labels).2.is_prefix_of(names),
        names_ok(names),
        sequences_ok(seqs_from(s, i, labels).1, names.len()),
        p0 <= p,
        spaces_end(t, p0) == p,
        ({
            let r = render_alternation(seqs_from(s, i, labels).1, names);
            &&& p + r.len() < t.len()
            &&& t.subrange(p as int, (p + r.len()) as int) == r
            &&& t[(p + r.len()) as int] == '\n'
        }),
    ensures
        seqs_from(t, p0, labels) == (
            (p + render_alternation(seqs_from(s, i, labels).1, names).len()) as nat,
            seqs_from(s, i, labels).1,
            seqs_from(s, i, labels).2,
        ),
    decreases s.len() - i,
{
    let (k, alts, l3) = seqs_from(s, i, labels);
    let (j, sq, l1) = sequence_at(s, i, labels)->Some_0;
    lemma_elements_from(s, i, labels);
    let r = render_alternation(alts, names);
    let rs0 = render_sequence(sq, names);
    let f = |q: Seq<ElementModel>| render_sequence(q, names);
    let parts = alts.map_values(f);
    assert(alts[0] == sq);
    assert forall|x: int| 0 <= x < r.len() implies t[p + x] == #[trigger] r[x] by {
        assert(t.subrange(p as int, (p + r.len()) as int)[x] == r[x]);
    }
    assert forall|e: int| 0 <= e < sq.len() implies element_ok(#[trigger] sq[e], names.len()) by {
        assert(alts[0][e] == sq[e]);
    }
    let rest = if i <= j < s.len() && s[j as int] == '|' {
        seqs_from(s, j + 1, l1).1
    } else {
        Seq::<Seq<ElementModel>>::empty()
    };
    if i <= j < s.len() && s[j as int] == '|' {
        lemma_seqs_from(s, j + 1, l1);
        assert(alts == seq![sq] + rest);
    } else {
        assert(alts == seq![sq]);
    }
    lemma_prefix_trans(l1, l3, names);
    if rest.len() == 0 {
        assert(alts =~= seq![sq]);
        assert(l3 == l1);
        assert(r == rs0);
        let end = (p + r.len()) as nat;
        assert(spaces_end(t, end) == end);
        lemma_element_at_stop(t, end, l1);
        assert(sq == elements_from(s, i, labels).1);
        lemma_elements_back(s, i, labels, names, t, p0, p);
        assert(sequence_at(t, p0, labels) == Some((end, sq, l1)));
        assert(seqs_from(t, p0, labels) == (end, seq![sq], l1));
    } else {
        lemma_join_head(parts, seq![' ', '|', ' ']);
        assert(parts.drop_first() =~= rest.map_values(f));
        let rr = render_alternation(rest, names);
        assert(r == rs0 + seq![' ', '|', ' '] + rr);
        let a = (p + rs0.len()) as nat;
        assert(t.subrange(p as int, a as int) =~= rs0) by {
            assert forall|x: int| 0 <= x < rs0.len() implies t.subrange(p as int, a as int)[x] == rs0[x] by {
                assert(r[x] == rs0[x]);
            }
        }
        assert(r[rs0.len() as int] == ' ');
        assert(r[rs0.len() + 1int] == '|');
        assert(r[rs0.len() + 2int] == ' ');
        assert(t[a as int] == ' ');
        assert(t[a + 1int] == '|');
        assert(spaces_end(t, (a + 1) as nat) == a + 1);
        assert(spaces_end(t, a) == a + 1);
        lemma_element_at_stop(t, (a + 1) as nat, l1);
        assert(sq == elements_from(s, i, labels).1);
        lemma_elements_back(s, i, labels, names, t, p0, p);
        assert(sequence_at(t, p0, labels) == Some(((a + 1) as nat, sq, l1)));
        let q0 = (a + 2) as nat;
        let q = (a + 3) as nat;
        lemma_join_first(rest.map_values(f), seq![' ', '|', ' ']);
        assert(rest.map_values(f)[0] == render_sequence(rest[0], names));
        assert(rest[0] == alts[1]);
        lemma_render_sequence_start(rest[0], names);
        assert(rr[0] == r[rs0.len() + 3int]);
        assert(t[q0 as int] == ' ');
        assert(spaces_end(t, q) == q);
        assert(spaces_end(t, q0) == q);
        assert(t.subrange(q as int, (q + rr.len()) as int) =~= rr) by {
            assert forall|x: int| 0 <= x < rr.len() implies t.subrange(q as int, (q + rr.len()) as int)[x] == rr[x] by {
                assert(r[rs0.len() + 3 + x] == rr[x]);
            }
        }
        assert(sequences_ok(rest, names.len())) by {
            assert forall|x: int| 0 <= x < rest.len() implies #[trigger] rest[x] == alts[x + 1] by {}
        }
        lemma_seqs_back(s, j + 1, l1, names, t, q0, q);
        assert(seqs_from(t, q0, l1) == ((p + r.len()) as nat, rest, l3));
        assert(seqs_from(t, p0, labels) == ((p + r.len()) as nat, seq![sq] + rest, l3));
    }
}

/// A production read from some text, rendered into `t` at `pp`, reads back
/// the same; it ends at its line break.
#[verifier::rlimit(50)]
proof fn lemma_expression_back(
    s: Seq<char>,
    i: nat,
    labels: Seq<Seq<char>>,
    g: GrammarModel,
    t: Seq<char>,
    pp: nat,
)
    requires
        i <= s.len(),
        expression_at(s, i, labels) is Some,
        expression_at(s, i, labels)->Some_0.3.is_prefix_of(g.names),
        well_formed(g),
        g.rules[expression_at(s, i, labels)->Some_0.1 - 1] == expression_at(s, i, labels)->Some_0.2,
        ({
            let rp = render_production(g, expression_at(s, i, labels)->Some_0.1);
            &&& pp + rp.len() <= t.len()
            &&& t.subrange(pp as int, (pp + rp.len()) as int) == rp
        }),
    ensures
        ({
            let (j, id, alt, l2) = expression_at(s, i, labels)->Some_0;
            expression_at(t, pp, labels) == Some(
                ((pp + render_production(g, id).len() - 1) as nat, id, alt, l2),
            )
        }),
{
    let (j, id, alt, l2) = expression_at(s, i, labels)->Some_0;
    lemma_expression_at(s, i, labels);
    let names = g.names;
    let name_start = spaces_end(s, i);
    let (j1, id1, l1) = reference_at(s, name_start, labels)->Some_0;
    let name = name_at(s, name_start)->Some_0.1;
    lemma_intern(labels, name);
    let q = spaces_end(s, j1);
    crate::symbols::lemma_spaces_end_bounds(s, i);
    crate::reference::lemma_reference_at(s, name_start, labels);
    crate::symbols::lemma_spaces_end_bounds(s, j1);
    lemma_seqs_from(s, q + 3, l1);
    lemma_prefix_trans(l1, l2, names);
    assert(l1[id - 1] == names[id - 1]);
    let n = names[id - 1];
    assert(name == n);
    let rp = render_production(g, id);
    let ra = render_alternation(alt, names);
    assert forall|x: int| 0 <= x < rp.len() implies t[pp + x] == #[trigger] rp[x] by {
        assert(t.subrange(pp as int, (pp + rp.len()) as int)[x] == rp[x]);
    }
    assert(0 <= id - 1 < names.len());
    assert(!n.contains('>'));
    assert(t.subrange(pp as int, (pp + n.len() + 2) as int) =~= seq!['<'] + n + seq!['>']) by {
        assert forall|x: int| 0 <= x < n.len() + 2 implies t.subrange(pp as int, (pp + n.len() + 2) as int)[x] == (seq!['<'] + n + seq!['>'])[x] by {
            assert(rp[x] == (seq!['<'] + n + seq!['>'])[x]);
        }
    }
    lemma_name(t, n, pp);
    assert(spaces_end(t, pp) == pp);
    assert(reference_at(t, pp, labels) == Some(((pp + n.len() + 2) as nat, id, l1)));
    let a = (pp + n.len() + 2) as nat;
    assert(rp[n.len() + 2int] == ' ');
    assert(rp[n.len() + 3int] == ':');
    assert(rp[n.len() + 4int] == ':');
    assert(rp[n.len() + 5int] == '=');
    assert(rp[n.len() + 6int] == ' ');
    assert(spaces_end(t, (a + 1) as nat) == a + 1);
    assert(spaces_end(t, a) == a + 1);
    assert(match_symbol_at(t, (a + 1) as nat));
    let b0 = (a + 4) as nat;
    let b = (a + 5) as nat;
    let f = |sq: Seq<ElementModel>| render_sequence(sq, names);
    lemma_join_first(alt.map_values(f), seq![' ', '|', ' ']);
    assert(alt.map_values(f)[0] == render_sequence(alt[0], names));
    lemma_render_sequence_start(alt[0], names);
    assert(ra[0] == rp[n.len() + 7int]);
    assert(spaces_end(t, b) == b);
    assert(spaces_end(t, b0) == b);
    assert(t.subrange(b as int, (b + ra.len()) as int) =~= ra) by {
        assert forall|x: int| 0 <= x < ra.len() implies t.subrange(b as int, (b + ra.len()) as int)[x] == ra[x] by {
            assert(rp[n.len() + 7 + x] == ra[x]);
        }
    }
    assert(rp[rp.len() - 1] == '\n');
    crate::grammar::lemma_sequences_ok_grow(alt, l2.len(), names.len());
    lemma_seqs_back(s, q + 3, l1, names, t, b0, b);
}

/// What a successful reading of productions keeps of what was read before.
proof fn lemma_productions_facts(
    s: Seq<char>,
    i: nat,
    labels: Seq<Seq<char>>,
    order: Seq<nat>,
    defs: Map<nat, Seq<Seq<ElementModel>>>,
)
    requires
        i <= s.len(),
        forall|id: nat| #[trigger] defs.contains_key(id) <==> order.contains(id),
        forall|k: int| 0 <= k < order.len() ==> 1 <= #[trigger] order[k] <= labels.len(),
    ensures
        productions_from(s, i, labels, order, defs) matches Some(g) ==> {
            &&& labels.is_prefix_of(g.names)
            &&& order.len() <= g.order.len()
            &&& g.order.take(order.len() as int) == order
            &&& forall|id: nat|
                #[trigger] defs.contains_key(id) ==> 1 <= id <= g.names.len() && g.rules[id - 1]
                    == defs[id]
        },
    decreases s.len() - i,
{
    lemma_expression_at(s, i, labels);
    if let Some((j, id, alt, l2)) = expression_at(s, i, labels) {
        if !order.contains(id) {
            let order2 = order.push(id);
            let defs2 = defs.insert(id, alt);
            assert forall|x: nat| #[trigger] defs2.contains_key(x) <==> order2.contains(x) by {
                if order2.contains(x) && x != id {
                    let k = choose|k: int| 0 <= k < order2.len() && order2[k] == x;
                    assert(order[k] == x);
                }
                if order.contains(x) {
                    let k = choose|k: int| 0 <= k < order.len() && order[k] == x;
                    assert(order2[k] == x);
                }
                assert(order2[order.len() as int] == id);
            }
            assert forall|k: int| 0 <= k < order2.len() implies 1 <= #[trigger] order2[k] <= l2.len() by {
                if k < order.len() {
                    assert(order2[k] == order[k]);
                }
            }
            let next = newlines_at(s, j);
            if next is Some && i < next->Some_0 <= s.len() {
                lemma_productions_facts(s, next->Some_0, l2, order2, defs2);
            }
            if let Some(g) = productions_from(s, i, labels, order, defs) {
                lemma_prefix_trans(labels, l2, g.names);
                assert(order2.take(order.len() as int) =~= order);
                assert(g.order.take(order2.len() as int).take(order.len() as int) =~= g.order.take(order.len() as int));
                assert forall|x: nat| #[trigger] defs.contains_key(x) implies 1 <= x <= g.names.len()
                    && g.rules[x - 1] == defs[x] by {
                    assert(defs2.contains_key(x));
                    assert(x != id);
                }
            }
        }
    } else {
        if let Some(g) = productions_from(s, i, labels, order, defs) {
            assert(labels.is_prefix_of(labels));
            assert(order.take(order.len() as int) =~= order);
        }
    }
}

proof fn lemma_render_productions_prefix(g: GrammarModel, m: nat, n: nat)
    requires
        m <= n,
    ensures
        render_productions(g, m).len() <= render_productions(g, n).len(),
        forall|x: int| 0 <= x < render_productions(g, m).len() ==> #[trigger] render_productions(g, n)[x]
            == render_productions(g, m)[x],
    decreases n - m,
{
    if m < n {
        lemma_render_productions_prefix(g, m, (n - 1) as nat);
    }
}

/// Adding a definition keeps the ids defined and the ids listed in step.
proof fn lemma_add_definition(
    order: Seq<nat>,
    defs: Map<nat, Seq<Seq<ElementModel>>>,
    id: nat,
    alt: Seq<Seq<ElementModel>>,
    n: nat,
)
    requires
        forall|x: nat| #[trigger] defs.contains_key(x) <==> order.contains(x),
        forall|k: int| 0 <= k < order.len() ==> 1 <= #[trigger] order[k] <= n,
        1 <= id <= n,
    ensures
        forall|x: nat| #[trigger] defs.insert(id, alt).contains_key(x) <==> order.push(id).contains(x),
        forall|k: int| 0 <= k < order.push(id).len() ==> 1 <= #[trigger] order.push(id)[k] <= n,
{
    let order2 = order.push(id);
    let defs2 = defs.insert(id, alt);
    assert forall|x: nat| #[trigger] defs2.contains_key(x) <==> order2.contains(x) by {
        if order2.contains(x) && x != id {
            let k = choose|k: int| 0 <= k < order2.len() && order2[k] == x;
            assert(order[k] == x);
        }
        if order.contains(x) {
            let k = choose|k: int| 0 <= k < order.len() && order[k] == x;
            assert(order2[k] == x);
        }
        assert(order2[order.len() as int] == id);
    }
    assert forall|k: int| 0 <= k < order2.len() implies 1 <= #[trigger] order2[k] <= n by {
        if k < order.len() {
            assert(order2[k] == order[k]);
        }
    }
}

/// Where the `m`-th production stands in the rendered text, and that a
/// single line break follows it.
proof fn lemma_production_place(g: GrammarModel, m: nat)
    requires
        m < g.order.len(),
    ensures
        ({
            let t = render_grammar(g);
            let pp = render_productions(g, m).len();
            let rp = render_production(g, g.order[m as int]);
            &&& pp + rp.len() <= t.len()
            &&& render_productions(g, m + 1).len() == pp + rp.len()
            &&& t.subrange(pp as int, (pp + rp.len()) as int) == rp
            &&& newlines_at(t, (pp + rp.len() - 1) as nat) == Some((pp + rp.len()) as nat)
        }),
{
    let t = render_grammar(g);
    let pp = render_productions(g, m).len();
    let rp = render_production(g, g.order[m as int]);
    let end = pp + rp.len();
    lemma_render_productions_prefix(g, m + 1, g.order.len());
    assert(render_productions(g, m + 1) == render_productions(g, m) + rp);
    assert(t.subrange(pp as int, end as int) =~= rp) by {
        assert forall|x: int| 0 <= x < rp.len() implies t.subrange(pp as int, end as int)[x] == rp[x] by {
            assert(t[pp + x] == render_productions(g, m + 1)[pp + x]);
        }
    }
    assert(rp[rp.len() - 1] == '\n');
    assert(t[end - 1] == render_productions(g, m + 1)[end - 1]);
    assert(newline_at(t, (end - 1) as nat) == Some(end as nat));
    if end < t.len() {
        lemma_render_productions_prefix(g, m + 2, g.order.len());
        assert(render_productions(g, m + 2) == render_productions(g, m + 1) + render_production(
            g,
            g.order[m + 1int],
        ));
        assert(t[end as int] == render_productions(g, m + 2)[end as int]);
        assert(t[end as int] == '<');
    }
    assert(newlines_end(t, end as nat) == end);
}

proof fn lemma_productions_step(
    t: Seq<char>,
    pp: nat,
    end: nat,
    labels: Seq<Seq<char>>,
    order: Seq<nat>,
    defs: Map<nat, Seq<Seq<ElementModel>>>,
    id: nat,
    alt: Seq<Seq<ElementModel>>,
    l2: Seq<Seq<char>>,
)
    requires
        pp < end <= t.len(),
        expression_at(t, pp, labels) == Some(((end - 1) as nat, id, alt, l2)),
        !order.contains(id),
        newlines_at(t, (end - 1) as nat) == Some(end),
    ensures
        productions_from(t, pp, labels, order, defs) == productions_from(
            t,
            end,
            l2,
            order.push(id),
            defs.insert(id, alt),
        ),
{
}

proof fn lemma_productions_end(
    t: Seq<char>,
    labels: Seq<Seq<char>>,
    order: Seq<nat>,
    defs: Map<nat, Seq<Seq<ElementModel>>>,
)
    ensures
        productions_from(t, t.len(), labels, order, defs) == finish(t, t.len(), labels, order, defs),
{
    assert(expression_at(t, t.len(), labels) is None);
}

/// The productions read from some text, from the `order.len()`-th on,
/// rendered, read back as the same table.
#[verifier::rlimit(100)]
proof fn lemma_productions_back(
    s: Seq<char>,
    i: nat,
    labels: Seq<Seq<char>>,
    order: Seq<nat>,
    defs: Map<nat, Seq<Seq<ElementModel>>>,
    g: GrammarModel,
)
    requires
        i <= s.len(),
        productions_from(s, i, labels, order, defs) == Some(g),
        well_formed(g),
        forall|id: nat| #[trigger] defs.contains_key(id) <==> order.contains(id),
        forall|k: int| 0 <= k < order.len() ==> 1 <= #[trigger] order[k] <= labels.len(),
    ensures
        productions_from(
            render_grammar(g),
            render_productions(g, order.len()).len(),
            labels,
            order,
            defs,
        ) == Some(g),
    decreases s.len() - i,
{
    let t = render_grammar(g);
    let m = order.len();
    let pp = render_productions(g, m).len();
    lemma_productions_facts(s, i, labels, order, defs);
    lemma_render_productions_prefix(g, m, g.order.len());
    lemma_expression_at(s, i, labels);
    if let Some((j, id, alt, l2)) = expression_at(s, i, labels) {
        let order2 = order.push(id);
        let defs2 = defs.insert(id, alt);
        lemma_add_definition(order, defs, id, alt, l2.len());
        let next = newlines_at(s, j);
        lemma_productions_facts(s, j, l2, order2, defs2);
        if next is Some && i < next->Some_0 <= s.len() {
            lemma_productions_facts(s, next->Some_0, l2, order2, defs2);
        }
        // the production comes next in the rendered text
        assert(g.order.take(order2.len() as int)[m as int] == id);
        assert(defs2.contains_key(id));
        lemma_production_place(g, m);
        lemma_expression_back(s, i, labels, g, t, pp);
        let end = (pp + render_production(g, id).len()) as nat;
        lemma_productions_step(t, pp, end, labels, order, defs, id, alt, l2);
        if next is Some && i < next->Some_0 <= s.len() {
            lemma_productions_back(s, next->Some_0, l2, order2, defs2, g);
        } else {
            assert(finish(s, j, l2, order2, defs2) == Some(g));
            lemma_productions_end(t, l2, order2, defs2);
        }
    } else {
        assert(finish(s, i, labels, order, defs) == Some(g));
        lemma_productions_end(t, labels, order, defs);
    }
}

/// Reading the text that `format` writes for a table gives the table back:
/// for any grammar text that reads as `g`, the rendering of `g` reads as `g`
/// (same names, ids, definition order and alternations).
pub proof fn lemma_round_trip(s: Seq<char>, i: nat, g: GrammarModel)
    requires
        grammar_at(s, i) == Some(g),
    ensures
        grammar_at(render_grammar(g), 0) == Some(g),
{
    crate::grammar::lemma_accepted_grammar_well_formed(s, i);
    if i > s.len() {
        assert(expression_at(s, i, seq![]) is None);
    }
    lemma_productions_back(s, i, seq![], seq![], map![], g);
}

} // verus!
