//! The matching engine: ordered-choice backtracking over a production table,
//! driven by an explicit decision stack instead of native recursion.
//!
//! The engine is specified as a state machine (`step`); `Grammar::parse`
//! runs that machine until it stops and returns what it stopped with.

use vstd::prelude::*;
use vstd::arithmetic::power::*;
use vstd::arithmetic::mul::*;
use crate::alternation::Alternation;
use crate::element::{Element, ElementModel};
use crate::text::to_chars;
use crate::grammar::{Grammar, GrammarModel, well_formed, element_ok, fits_usize};

verus! {

/// The largest number of frames the decision stack holds before a match
/// gives up with `Error::StackOverflow`.
pub const MAX_STACK: usize = 1_000_000;

/// One pending backtracking point, pushed when the engine enters a
/// production.
#[derive(Debug, Clone, Copy, PartialEq, Eq, Structural)]
pub struct ChoiceState {
    /// Nesting depth of the production that made the reference.
    pub depth: usize,
    /// Where to resume on success: the referring production ...
    pub source_label_index: usize,
    /// ... its alternative ...
    pub source_alternation_index: usize,
    /// ... and the position of the reference in that alternative.
    pub source_sequence_index: usize,
    /// The production entered.
    pub destination_label_index: usize,
    /// The alternative of it being tried; advanced on failure.
    pub destination_alternation_index: usize,
    /// The input position when the production was entered.
    pub input_index: usize,
}

/// Why a match failed.
#[derive(Debug, Clone, Copy, PartialEq, Eq, Structural)]
pub enum Error {
    /// The decision stack outgrew `MAX_STACK`.
    StackOverflow,
    /// Every alternative was tried without consuming the whole input.
    NoMatch,
}

/// The engine's state: the decision stack and where execution stands.
pub struct Machine {
    pub stack: Seq<ChoiceState>,
    pub depth: nat,
    pub label: nat,
    pub alt: nat,
    pub elem: nat,
    pub pos: nat,
}

/// The outcome of one step of the engine.
pub enum Step {
    Next(Machine),
    Done(Result<Seq<ChoiceState>, Error>),
}

/// The alternatives of production `label`.
pub open spec fn alternatives(g: GrammarModel, label: nat) -> Seq<Seq<ElementModel>> {
    g.rules[label - 1]
}

/// Where a non-reference element that starts at `pos` ends, if it matches.
pub open spec fn match_element(e: ElementModel, input: Seq<char>, pos: nat) -> Option<nat> {
    match e {
        ElementModel::Empty => Some(pos),
        ElementModel::Range(lo, hi) => {
            if pos < input.len() && (lo as u32) <= (input[pos as int] as u32) && (input[
                pos as int
            ] as u32) <= (hi as u32) {
                Some(pos + 1)
            } else {
                None
            }
        },
        ElementModel::Literal(t) => {
            if pos + t.len() <= input.len() && input.subrange(pos as int, (pos + t.len()) as int) == t {
                Some(pos + t.len())
            } else {
                None
            }
        },
        ElementModel::Reference(_) => None,
    }
}

/// The first frame at the bottom of a match.
pub open spec fn seed_frame() -> ChoiceState {
    ChoiceState {
        depth: 0,
        source_label_index: 0,
        source_alternation_index: 0,
        source_sequence_index: 0,
        destination_label_index: 1,
        destination_alternation_index: 0,
        input_index: 0,
    }
}

/// The state a match starts in: the entry production, its first alternative.
pub open spec fn initial() -> Machine {
    Machine { stack: seq![seed_frame()], depth: 1, label: 1, alt: 0, elem: 0, pos: 0 }
}

/// Advances the top frame to its next alternative and resumes there.
pub open spec fn retry(stack: Seq<ChoiceState>) -> Machine {
    let top = stack.last();
    let next = ChoiceState {
        destination_alternation_index: (top.destination_alternation_index + 1) as usize,
        ..top
    };
    Machine {
        stack: stack.update(stack.len() - 1, next),
        depth: (top.depth + 1) as nat,
        label: top.destination_label_index as nat,
        alt: next.destination_alternation_index as nat,
        elem: 0,
        pos: top.input_index as nat,
    }
}

/// The index of the nearest frame at or below `i` whose depth is `depth`.
pub open spec fn find_depth(stack: Seq<ChoiceState>, depth: nat, i: int) -> int
    decreases i,
{
    if i <= 0 {
        0
    } else if stack[i].depth == depth {
        i
    } else {
        find_depth(stack, depth, i - 1)
    }
}

/// The frame pushed when the element at the cursor references production `id`.
pub open spec fn entry_frame(m: Machine, id: nat) -> ChoiceState {
    ChoiceState {
        depth: m.depth as usize,
        source_label_index: m.label as usize,
        source_alternation_index: m.alt as usize,
        source_sequence_index: m.elem as usize,
        destination_label_index: id as usize,
        destination_alternation_index: 0,
        input_index: m.pos as usize,
    }
}

/// One step of the engine.
pub open spec fn step(g: GrammarModel, input: Seq<char>, m: Machine) -> Step {
    if m.stack.len() > MAX_STACK {
        Step::Done(Err(Error::StackOverflow))
    } else if m.alt >= alternatives(g, m.label).len() {
        // every alternative of this production failed: back out of it
        let rest = m.stack.drop_last();
        if rest.len() == 0 {
            Step::Done(Err(Error::NoMatch))
        } else {
            Step::Next(retry(rest))
        }
    } else {
        let sq = alternatives(g, m.label)[m.alt as int];
        if m.elem >= sq.len() {
            if m.depth == 1 {
                if m.pos == input.len() {
                    Step::Done(Ok(m.stack))
                } else {
                    Step::Next(retry(m.stack))
                }
            } else {
                // the production is complete: resume its caller after the reference
                let f = m.stack[find_depth(m.stack, (m.depth - 1) as nat, m.stack.len() - 1)];
                Step::Next(
                    Machine {
                        stack: m.stack,
                        depth: f.depth as nat,
                        label: f.source_label_index as nat,
                        alt: f.source_alternation_index as nat,
                        elem: (f.source_sequence_index + 1) as nat,
                        pos: m.pos,
                    },
                )
            }
        } else {
            match sq[m.elem as int] {
                ElementModel::Reference(id) => Step::Next(
                    Machine {
                        stack: m.stack.push(entry_frame(m, id)),
                        depth: m.depth + 1,
                        label: id,
                        alt: 0,
                        elem: 0,
                        pos: m.pos,
                    },
                ),
                e => match match_element(e, input, m.pos) {
                    Some(p) => Step::Next(Machine { elem: m.elem + 1, pos: p, ..m }),
                    None => Step::Next(retry(m.stack)),
                },
            }
        }
    }
}

/// Runs the engine from `m` for at most `fuel` steps.
pub open spec fn run(g: GrammarModel, input: Seq<char>, m: Machine, fuel: nat) -> Option<
    Result<Seq<ChoiceState>, Error>,
>
    decreases fuel,
{
    if fuel == 0 {
        None
    } else {
        match step(g, input, m) {
            Step::Done(r) => Some(r),
            Step::Next(m2) => run(g, input, m2, (fuel - 1) as nat),
        }
    }
}

/// A run that stops gives the same result whatever fuel it was given.
pub proof fn lemma_run_deterministic(
    g: GrammarModel,
    input: Seq<char>,
    m: Machine,
    f1: nat,
    f2: nat,
)
    requires
        run(g, input, m, f1) is Some,
        run(g, input, m, f2) is Some,
    ensures
        run(g, input, m, f1) == run(g, input, m, f2),
    decreases f1,
{
    if let Step::Next(m2) = step(g, input, m) {
        lemma_run_deterministic(g, input, m2, (f1 - 1) as nat, (f2 - 1) as nat);
    }
}

// ----- termination measure -----

/// The largest number of alternatives of any production.
pub open spec fn max_alts(rules: Seq<Seq<Seq<ElementModel>>>) -> nat
    decreases rules.len(),
{
    if rules.len() == 0 {
        0
    } else {
        let rest = max_alts(rules.drop_last());
        if rules.last().len() > rest {
            rules.last().len()
        } else {
            rest
        }
    }
}

proof fn lemma_max_alts(rules: Seq<Seq<Seq<ElementModel>>>, k: int)
    requires
        0 <= k < rules.len(),
    ensures
        rules[k].len() <= max_alts(rules),
    decreases rules.len(),
{
    if k < rules.len() - 1 {
        assert(rules.drop_last()[k] == rules[k]);
        lemma_max_alts(rules.drop_last(), k);
    }
}

/// The stack read as a number whose digits are the frames' alternative
/// indices plus one, most significant at the bottom, in base `b` with
/// `MAX_STACK + 1` digit positions. Every step that changes the stack makes it larger.
pub open spec fn stack_value(s: Seq<ChoiceState>, b: int) -> int
    decreases s.len(),
{
    if s.len() == 0 {
        0
    } else {
        stack_value(s.drop_last(), b) + (s.last().destination_alternation_index + 1) * pow(
            b,
            (MAX_STACK + 1 - s.len()) as nat,
        )
    }
}

pub open spec fn digit_base(g: GrammarModel) -> int {
    (max_alts(g.rules) + 2) as int
}

/// What is left of the search: decreases whenever the stack changes.
pub open spec fn potential(g: GrammarModel, s: Seq<ChoiceState>) -> int {
    pow(digit_base(g), (MAX_STACK + 1) as nat) - stack_value(s, digit_base(g))
}

/// What is left of the current sequence.
pub open spec fn room(g: GrammarModel, m: Machine) -> nat {
    if m.alt < alternatives(g, m.label).len() {
        (alternatives(g, m.label)[m.alt as int].len() - m.elem) as nat
    } else {
        0
    }
}

proof fn lemma_stack_value_bound(s: Seq<ChoiceState>, b: int)
    requires
        b >= 2,
        s.len() <= MAX_STACK + 1,
        forall|i: int| 0 <= i < s.len() ==> s[i].destination_alternation_index + 2 <= b,
    ensures
        stack_value(s, b) <= pow(b, (MAX_STACK + 1) as nat) - pow(
            b,
            (MAX_STACK + 1 - s.len()) as nat,
        ),
        stack_value(s, b) >= 0,
    decreases s.len(),
{
    let w = (MAX_STACK + 1 - s.len()) as nat;
    lemma_pow_positive(b, w);
    if s.len() > 0 {
        let s1 = s.drop_last();
        lemma_stack_value_bound(s1, b);
        let d = s.last().destination_alternation_index + 1;
        let pw = pow(b, w);
        assert(pow(b, w + 1) == b * pw) by {
            reveal(pow);
        }
        assert((w + 1) as nat == (MAX_STACK + 1 - s1.len()) as nat);
        assert(d * pw <= (b - 1) * pw) by {
            lemma_mul_inequality(d, b - 1, pw);
        }
        assert((b - 1) * pw == b * pw - pw) by {
            lemma_mul_is_distributive_sub(pw, b, 1);
        }
        assert(d * pw >= 0) by {
            lemma_mul_strictly_positive(d, pw);
        }
    } else {
        reveal(pow);
    }
}


proof fn lemma_value_push(s: Seq<ChoiceState>, f: ChoiceState, b: int)
    requires
        b >= 2,
        s.len() < MAX_STACK + 1,
    ensures
        stack_value(s.push(f), b) > stack_value(s, b),
{
    assert(s.push(f).drop_last() == s);
    let w = (MAX_STACK + 1 - (s.len() + 1)) as nat;
    lemma_pow_positive(b, w);
    lemma_mul_strictly_positive(f.destination_alternation_index + 1, pow(b, w));
}

proof fn lemma_value_bump(s: Seq<ChoiceState>, t: ChoiceState, b: int)
    requires
        b >= 2,
        1 <= s.len() <= MAX_STACK + 1,
        t.destination_alternation_index == s.last().destination_alternation_index + 1,
    ensures
        stack_value(s.update(s.len() - 1, t), b) > stack_value(s, b),
{
    let s2 = s.update(s.len() - 1, t);
    assert(s2.drop_last() == s.drop_last());
    let w = (MAX_STACK + 1 - s.len()) as nat;
    let pw = pow(b, w);
    lemma_pow_positive(b, w);
    let d = s.last().destination_alternation_index + 1;
    assert((d + 1) * pw == d * pw + pw) by {
        lemma_mul_is_distributive_add_other_way(pw, d, 1);
    }
}

proof fn lemma_value_pop_bump(s: Seq<ChoiceState>, t: ChoiceState, b: int)
    requires
        b >= 2,
        2 <= s.len() <= MAX_STACK + 1,
        s.last().destination_alternation_index + 2 <= b,
        t.destination_alternation_index == s.drop_last().last().destination_alternation_index + 1,
    ensures
        stack_value(s.drop_last().update(s.len() - 2, t), b) > stack_value(s, b),
{
    let s1 = s.drop_last();
    let s2 = s1.update(s1.len() - 1, t);
    assert(s2.drop_last() == s1.drop_last());
    let w = (MAX_STACK + 1 - s.len()) as nat;
    let pw = pow(b, w);
    lemma_pow_positive(b, w);
    assert(pow(b, w + 1) == b * pw) by {
        reveal(pow);
    }
    assert((w + 1) as nat == (MAX_STACK + 1 - s1.len()) as nat);
    let d1 = s.last().destination_alternation_index + 1;
    let d2 = s1.last().destination_alternation_index + 1;
    let pw1 = b * pw;
    assert(s2.last() == t);
    assert(stack_value(s, b) == stack_value(s1, b) + d1 * pw);
    assert(stack_value(s1, b) == stack_value(s1.drop_last(), b) + d2 * pw1);
    assert(stack_value(s2, b) == stack_value(s1.drop_last(), b) + (d2 + 1) * pw1);
    assert((d2 + 1) * pw1 == d2 * pw1 + pw1) by {
        lemma_mul_is_distributive_add_other_way(pw1, d2, 1);
    }
    assert(d1 * pw <= (b - 1) * pw) by {
        lemma_mul_inequality(d1, b - 1, pw);
    }
    assert((b - 1) * pw == b * pw - pw) by {
        lemma_mul_is_distributive_sub(pw, b, 1);
    }
}

// ----- what holds of every state the engine reaches -----

/// The number of alternatives of production `label`.
pub open spec fn nalts(g: GrammarModel, label: nat) -> nat {
    alternatives(g, label).len()
}

pub open spec fn valid_label(g: GrammarModel, label: nat) -> bool {
    1 <= label <= g.rules.len()
}

/// The frame names a production and an alternative of it (or one past the
/// last), and an input position.
pub open spec fn frame_ok(g: GrammarModel, input: Seq<char>, f: ChoiceState) -> bool {
    &&& valid_label(g, f.destination_label_index as nat)
    &&& f.destination_alternation_index <= nalts(g, f.destination_label_index as nat)
    &&& f.input_index <= input.len()
}

/// The frame's calling site is an element of the table.
pub open spec fn source_ok(g: GrammarModel, f: ChoiceState) -> bool {
    &&& valid_label(g, f.source_label_index as nat)
    &&& f.source_alternation_index < nalts(g, f.source_label_index as nat)
    &&& f.source_sequence_index < alternatives(g, f.source_label_index as nat)[
        f.source_alternation_index as int
    ].len()
}

/// The invariant of the engine. `parents[i]` is a frame below frame `i`
/// one level up, and `cp` a frame one level above the cursor.
pub open spec fn machine_ok(
    g: GrammarModel,
    input: Seq<char>,
    m: Machine,
    parents: Seq<int>,
    cp: int,
) -> bool {
    let s = m.stack;
    &&& 1 <= s.len() <= MAX_STACK + 1
    &&& s[0].depth == 0
    &&& parents.len() == s.len()
    &&& forall|i: int|
        1 <= i < s.len() ==> 0 <= #[trigger] parents[i] < i && s[parents[i]].depth + 1
            == s[i].depth
    &&& forall|i: int| 0 <= i < s.len() ==> (#[trigger] s[i]).depth <= i
    &&& forall|i: int| 1 <= i < s.len() ==> source_ok(g, #[trigger] s[i])
    &&& forall|i: int| 0 <= i < s.len() ==> frame_ok(g, input, #[trigger] s[i])
    &&& forall|i: int|
        0 <= i < s.len() - 1 ==> (#[trigger] s[i]).destination_alternation_index < nalts(
            g,
            s[i].destination_label_index as nat,
        )
    &&& s.last().destination_alternation_index == nalts(g, s.last().destination_label_index as nat)
        ==> m.label == s.last().destination_label_index && m.alt
        == s.last().destination_alternation_index
    &&& valid_label(g, m.label)
    &&& m.alt <= nalts(g, m.label)
    &&& m.alt < nalts(g, m.label) ==> m.elem <= alternatives(g, m.label)[m.alt as int].len()
    &&& 1 <= m.depth
    &&& 0 <= cp < s.len()
    &&& s[cp].depth + 1 == m.depth
    &&& m.pos <= input.len()
}

/// `m2` is strictly closer to the end of the search than `m`.
pub open spec fn progresses(g: GrammarModel, m2: Machine, m: Machine) -> bool {
    ||| potential(g, m2.stack) < potential(g, m.stack)
    ||| potential(g, m2.stack) == potential(g, m.stack) && m2.depth < m.depth
    ||| potential(g, m2.stack) == potential(g, m.stack) && m2.depth == m.depth && room(g, m2)
        < room(g, m)
}

proof fn lemma_find_depth(s: Seq<ChoiceState>, depth: nat, i: int, j: int)
    requires
        0 <= j <= i < s.len(),
        s[j].depth == depth,
    ensures
        0 <= find_depth(s, depth, i) <= i,
        s[find_depth(s, depth, i)].depth == depth,
    decreases i,
{
    if i > 0 && s[i].depth != depth {
        lemma_find_depth(s, depth, i - 1, j);
    }
}

proof fn lemma_digits(g: GrammarModel, input: Seq<char>, s: Seq<ChoiceState>)
    requires
        forall|i: int| 0 <= i < s.len() ==> frame_ok(g, input, #[trigger] s[i]),
    ensures
        forall|i: int|
            0 <= i < s.len() ==> (#[trigger] s[i]).destination_alternation_index + 2
                <= digit_base(g),
{
    assert forall|i: int| 0 <= i < s.len() implies (#[trigger] s[i]).destination_alternation_index
        + 2 <= digit_base(g) by {
        assert(frame_ok(g, input, s[i]));
        lemma_max_alts(g.rules, s[i].destination_label_index - 1);
    }
}

proof fn lemma_potential_nonneg(g: GrammarModel, input: Seq<char>, m: Machine, parents: Seq<int>, cp: int)
    requires
        machine_ok(g, input, m, parents, cp),
    ensures
        potential(g, m.stack) >= 0,
{
    lemma_digits(g, input, m.stack);
    lemma_stack_value_bound(m.stack, digit_base(g));
    lemma_pow_positive(digit_base(g), (MAX_STACK + 1 - m.stack.len()) as nat);
}

/// Each step keeps the invariant and moves closer to the end of the search.
pub proof fn lemma_step(
    g: GrammarModel,
    input: Seq<char>,
    m: Machine,
    parents: Seq<int>,
    cp: int,
) -> (r: (Seq<int>, int))
    requires
        well_formed(g),
        fits_usize(g),
        input.len() <= usize::MAX,
        machine_ok(g, input, m, parents, cp),
        step(g, input, m) is Next,
    ensures
        machine_ok(g, input, step(g, input, m)->Next_0, r.0, r.1),
        progresses(g, step(g, input, m)->Next_0, m),
        potential(g, m.stack) >= 0,
{
    let s = m.stack;
    let b = digit_base(g);
    let m2 = step(g, input, m)->Next_0;
    lemma_digits(g, input, s);
    lemma_stack_value_bound(s, b);
    lemma_pow_positive(b, (MAX_STACK + 1 - s.len()) as nat);
    if m.alt >= nalts(g, m.label) {
        let s1 = s.drop_last();
        let top = s1.last();
        let t = ChoiceState {
            destination_alternation_index: (top.destination_alternation_index + 1) as usize,
            ..top
        };
        assert(m2.stack == s1.update(s1.len() - 1, t));
        lemma_value_pop_bump(s, t, b);
        assert(s1[s1.len() - 1] == s[s.len() - 2]);
        assert(frame_ok(g, input, m2.stack[m2.stack.len() - 1]));
        assert forall|i: int| 0 <= i < m2.stack.len() implies frame_ok(g, input, #[trigger] m2.stack[i]) by {
            if i < m2.stack.len() - 1 {
                assert(m2.stack[i] == s[i]);
            }
        }
        assert forall|i: int| 1 <= i < m2.stack.len() implies source_ok(g, #[trigger] m2.stack[i]) by {
            assert(m2.stack[i].source_label_index == s[i].source_label_index);
            assert(source_ok(g, s[i]));
        }
        let parents2 = parents.drop_last();
        assert forall|i: int| 1 <= i < m2.stack.len() implies 0 <= #[trigger] parents2[i] < i
            && m2.stack[parents2[i]].depth + 1 == m2.stack[i].depth by {
            assert(parents[i] == parents2[i]);
        }
        assert forall|i: int| 0 <= i < m2.stack.len() implies (#[trigger] m2.stack[i]).depth <= i by {
            assert(m2.stack[i].depth == s[i].depth);
        }
        (parents2, s1.len() - 1)
    } else {
        let sq = alternatives(g, m.label)[m.alt as int];
        if m.elem >= sq.len() {
            if m.depth == 1 {
                let top = s.last();
                let t = ChoiceState {
                    destination_alternation_index: (top.destination_alternation_index + 1) as usize,
                    ..top
                };
                lemma_value_bump(s, t, b);
                assert forall|i: int| 0 <= i < m2.stack.len() implies frame_ok(g, input, #[trigger] m2.stack[i]) by {
                    if i < m2.stack.len() - 1 {
                        assert(m2.stack[i] == s[i]);
                    }
                }
                assert forall|i: int| 1 <= i < m2.stack.len() implies source_ok(g, #[trigger] m2.stack[i]) by {
                    assert(m2.stack[i].source_label_index == s[i].source_label_index);
                    assert(source_ok(g, s[i]));
                }
                assert forall|i: int| 1 <= i < m2.stack.len() implies 0 <= #[trigger] parents[i] < i
                    && m2.stack[parents[i]].depth + 1 == m2.stack[i].depth by {
                    assert(m2.stack[parents[i]].depth == s[parents[i]].depth);
                }
                assert forall|i: int| 0 <= i < m2.stack.len() implies (#[trigger] m2.stack[i]).depth <= i by {
                    assert(m2.stack[i].depth == s[i].depth);
                }
                (parents, s.len() - 1)
            } else {
                let x = find_depth(s, (m.depth - 1) as nat, s.len() - 1);
                lemma_find_depth(s, (m.depth - 1) as nat, s.len() - 1, cp);
                assert(x >= 1);
                assert(source_ok(g, s[x]));
                (parents, parents[x])
            }
        } else {
            match sq[m.elem as int] {
                ElementModel::Reference(id) => {
                    let f = entry_frame(m, id);
                    lemma_value_push(s, f, b);
                    assert(element_ok(g.rules[m.label - 1][m.alt as int][m.elem as int], g.names.len()));
                    assert(m2.stack[s.len() as int] == f);
                    assert forall|i: int| 0 <= i < m2.stack.len() implies frame_ok(g, input, #[trigger] m2.stack[i]) by {
                        if i < s.len() {
                            assert(m2.stack[i] == s[i]);
                        }
                    }
                    assert forall|i: int| 1 <= i < m2.stack.len() implies source_ok(g, #[trigger] m2.stack[i]) by {
                        if i < s.len() {
                            assert(m2.stack[i] == s[i]);
                        }
                    }
                    let parents2 = parents.push(cp);
                    assert forall|i: int| 1 <= i < m2.stack.len() implies 0 <= #[trigger] parents2[i] < i
                        && m2.stack[parents2[i]].depth + 1 == m2.stack[i].depth by {
                        if i < s.len() {
                            assert(m2.stack[i] == s[i]);
                            assert(parents2[i] == parents[i]);
                        }
                    }
                    assert forall|i: int| 0 <= i < m2.stack.len() implies (#[trigger] m2.stack[i]).depth <= i by {
                        if i < s.len() {
                            assert(m2.stack[i] == s[i]);
                        }
                    }
                    (parents2, s.len() as int)
                },
                e => {
                    match match_element(e, input, m.pos) {
                        Some(p) => (parents, cp),
                        None => {
                            let top = s.last();
                            let t = ChoiceState {
                                destination_alternation_index: (top.destination_alternation_index + 1) as usize,
                                ..top
                            };
                            lemma_value_bump(s, t, b);
                            assert forall|i: int| 0 <= i < m2.stack.len() implies frame_ok(g, input, #[trigger] m2.stack[i]) by {
                                if i < m2.stack.len() - 1 {
                                    assert(m2.stack[i] == s[i]);
                                }
                            }
                            assert forall|i: int| 1 <= i < m2.stack.len() implies source_ok(g, #[trigger] m2.stack[i]) by {
                                assert(m2.stack[i].source_label_index == s[i].source_label_index);
                                assert(source_ok(g, s[i]));
                            }
                            assert forall|i: int| 1 <= i < m2.stack.len() implies 0 <= #[trigger] parents[i] < i
                                && m2.stack[parents[i]].depth + 1 == m2.stack[i].depth by {
                                assert(m2.stack[parents[i]].depth == s[parents[i]].depth);
                            }
                            assert forall|i: int| 0 <= i < m2.stack.len() implies (#[trigger] m2.stack[i]).depth <= i by {
                                assert(m2.stack[i].depth == s[i].depth);
                            }
                            (parents, s.len() - 1)
                        },
                    }
                },
            }
        }
    }
}


// ----- the executable engine -----

/// The machine state that the engine's variables stand for.
pub open spec fn machine_of(
    stack: Seq<ChoiceState>,
    depth: usize,
    label: usize,
    alt: usize,
    elem: usize,
    pos: usize,
) -> Machine {
    Machine {
        stack,
        depth: depth as nat,
        label: label as nat,
        alt: alt as nat,
        elem: elem as nat,
        pos: pos as nat,
    }
}

/// What a finished match amounts to.
pub open spec fn outcome_of(r: Result<Vec<ChoiceState>, Error>) -> Result<Seq<ChoiceState>, Error> {
    match r {
        Ok(v) => Ok(v@),
        Err(e) => Err(e),
    }
}

/// Whether the character at `index` lies between `start` and `end`.
fn match_range(start: &char, end: &char, chars: &Vec<char>, index: usize) -> (r: Result<usize, ()>)
    ensures
        match r {
            Ok(j) => match_element(ElementModel::Range(*start, *end), chars@, index as nat) == Some(
                j as nat,
            ),
            Err(_) => match_element(ElementModel::Range(*start, *end), chars@, index as nat) is None,
        },
{
    if index < chars.len() {
        let c = chars[index];
        if (*start as u32) <= (c as u32) && (c as u32) <= (*end as u32) {
            Ok(index + 1)
        } else {
            Err(())
        }
    } else {
        Err(())
    }
}

/// Whether the input at `index` starts with `literal`.
fn match_literal(literal: &String, chars: &Vec<char>, index: usize) -> (r: Result<usize, ()>)
    ensures
        match r {
            Ok(j) => match_element(ElementModel::Literal(literal@), chars@, index as nat) == Some(
                j as nat,
            ),
            Err(_) => match_element(ElementModel::Literal(literal@), chars@, index as nat) is None,
        },
{
    if index > chars.len() {
        return Err(());
    }
    let mut i: usize = 0;
    for c in it: literal.as_str().chars()
        invariant
            i == it.index(),
            index <= chars.len(),
            i <= chars.len() - index,
            it.seq() == literal@,
            chars@.subrange(index as int, index + i) == literal@.take(i as int),
    {
        if i >= chars.len() - index {
            return Err(());
        }
        if chars[index + i] != c {
            proof {
                let t = literal@;
                if index + t.len() <= chars@.len() && chars@.subrange(index as int, index + t.len()) == t {
                    assert(chars@.subrange(index as int, index + t.len())[i as int] == chars@[index + i]);
                }
            }
            return Err(());
        }
        proof {
            assert(chars@.subrange(index as int, index + i + 1) =~= chars@.subrange(index as int, index + i).push(c));
            assert(literal@.take(i + 1) =~= literal@.take(i as int).push(c));
        }
        i = i + 1;
    }
    proof {
        assert(i == literal@.len());
        assert(literal@.take(i as int) =~= literal@);
    }
    Ok(index + i)
}

/// Points the top frame at its next alternative and returns the updated frame.
fn advance_top(choice_stack: &mut Vec<ChoiceState>, maps: &Vec<Alternation>) -> (top: ChoiceState)
    requires
        old(choice_stack).len() >= 1,
        1 <= old(choice_stack)@.last().destination_label_index <= maps@.len(),
        old(choice_stack)@.last().destination_alternation_index < maps@[old(
            choice_stack,
        )@.last().destination_label_index - 1]@.len(),
    ensures
        top == (ChoiceState {
            destination_alternation_index: (old(choice_stack)@.last().destination_alternation_index
                + 1) as usize,
            ..old(choice_stack)@.last()
        }),
        final(choice_stack)@ == old(choice_stack)@.update(old(choice_stack)@.len() - 1, top),
{
    let last = choice_stack.len() - 1;
    let old_top = choice_stack[last];
    // the next index is at most the number of alternatives, a usize
    let _alternatives = maps[old_top.destination_label_index - 1].sequences.len();
    let top = ChoiceState {
        destination_alternation_index: old_top.destination_alternation_index + 1,
        ..old_top
    };
    choice_stack.set(last, top);
    top
}

impl Grammar {
    /// Matches `input` against the grammar, starting with the entry production.
    ///
    /// On success the result is the decision stack, which records which
    /// alternative was chosen at each nesting level and where each entered
    /// production was called from. It is what the engine's state machine
    /// (`step`) stops with when run from its initial state.
    pub fn parse(&self, input: &str) -> (r: Result<Vec<ChoiceState>, Error>)
        ensures
            exists|fuel: nat| run(self@, input@, initial(), fuel) == Some(outcome_of(r)),
    {
        let chars = to_chars(input);
        let maps = self.maps();
        let ghost g = self@;
        let n = chars.len();
        let mut choice_stack: Vec<ChoiceState> = vec![ChoiceState {
            depth: 0,
            source_label_index: 0,
            source_alternation_index: 0,
            source_sequence_index: 0,
            destination_label_index: 1,
            destination_alternation_index: 0,
            input_index: 0,
        }];
        let mut current_depth: usize = 1;
        let mut current_label_index: usize = 1;
        let mut current_alternation_index: usize = 0;
        let mut current_sequence_index: usize = 0;
        let mut current_input_index: usize = 0;
        let ghost mut parents: Seq<int> = seq![0int];
        let ghost mut cp: int = 0;
        let ghost mut steps: nat = 0;
        proof {
            assert(choice_stack@ =~= seq![seed_frame()]);
            assert(g.rules[0].len() >= 1);
            assert(machine_of(choice_stack@, 1, 1, 0, 0, 0) == initial());
        }
        loop
            invariant
                g == self@,
                well_formed(g),
                fits_usize(g),
                maps@.map_values(|a: Alternation| a@) == g.rules,
                chars@ == input@,
                n == chars@.len(),
                machine_ok(
                    g,
                    chars@,
                    machine_of(
                        choice_stack@,
                        current_depth,
                        current_label_index,
                        current_alternation_index,
                        current_sequence_index,
                        current_input_index,
                    ),
                    parents,
                    cp,
                ),
                forall|f: nat|
                    #[trigger] run(
                        g,
                        chars@,
                        machine_of(
                            choice_stack@,
                            current_depth,
                            current_label_index,
                            current_alternation_index,
                            current_sequence_index,
                            current_input_index,
                        ),
                        f,
                    ) == run(g, chars@, initial(), f + steps),
            decreases
                potential(g, choice_stack@),
                current_depth,
                room(
                    g,
                    machine_of(
                        choice_stack@,
                        current_depth,
                        current_label_index,
                        current_alternation_index,
                        current_sequence_index,
                        current_input_index,
                    ),
                ),
        {
            let ghost m0 = machine_of(
                choice_stack@,
                current_depth,
                current_label_index,
                current_alternation_index,
                current_sequence_index,
                current_input_index,
            );
            proof {
                assert(run(g, chars@, m0, 1) == run(g, chars@, initial(), 1 + steps));
            }
            // check for stack overflow
            if choice_stack.len() > MAX_STACK {
                return Err(Error::StackOverflow);
            }
            let current_alternation = &maps[current_label_index - 1];
            assert(current_alternation@ == g.rules[current_label_index - 1]);
            if current_alternation.sequences.len() <= current_alternation_index {
                // every alternative failed: drop the frame of this production
                choice_stack.pop();
                if choice_stack.len() == 0 {
                    return Err(Error::NoMatch);
                }
                // and try the next alternative one level up
                assert(choice_stack@.last() == m0.stack[m0.stack.len() - 2]);
                assert(maps@[choice_stack@.last().destination_label_index - 1]@
                    == g.rules[choice_stack@.last().destination_label_index - 1]);
                let choice = advance_top(&mut choice_stack, maps);
                current_depth = choice.depth + 1;
                current_label_index = choice.destination_label_index;
                current_alternation_index = choice.destination_alternation_index;
                current_sequence_index = 0;
                current_input_index = choice.input_index;
                proof {
                    assert(choice_stack@ =~= m0.stack.drop_last().update(m0.stack.len() - 2, choice));
                }
            } else {
                let current_sequence = &current_alternation.sequences[current_alternation_index];
                assert(current_sequence@ == g.rules[current_label_index - 1][current_alternation_index as int]);
                if current_sequence.elements.len() <= current_sequence_index {
                    // the alternative is complete
                    if current_depth == 1 {
                        // at the top level the whole input must have been read ...
                        if current_input_index == n {
                            return Ok(choice_stack);
                        }
                        // ... else the last choice was wrong
                        assert(maps@[choice_stack@.last().destination_label_index - 1]@
                            == g.rules[choice_stack@.last().destination_label_index - 1]);
                        let choice = advance_top(&mut choice_stack, maps);
                        current_depth = choice.depth + 1;
                        current_label_index = choice.destination_label_index;
                        current_alternation_index = choice.destination_alternation_index;
                        current_sequence_index = 0;
                        current_input_index = choice.input_index;
                    } else {
                        // go one level up, to the nearest frame of the caller's depth
                        let target_depth = current_depth - 1;
                        let mut stack_size: usize = choice_stack.len() - 1;
                        loop
                            invariant
                                choice_stack@ == m0.stack,
                                machine_ok(g, chars@, m0, parents, cp),
                                target_depth == m0.depth - 1,
                                0 <= stack_size < choice_stack@.len(),
                                forall|k: int|
                                    stack_size < k < choice_stack@.len() ==> (#[trigger] choice_stack@[k]).depth
                                        != target_depth,
                                find_depth(m0.stack, target_depth as nat, m0.stack.len() - 1)
                                    == find_depth(m0.stack, target_depth as nat, stack_size as int),
                            ensures
                                0 <= stack_size < choice_stack@.len(),
                                choice_stack@[stack_size as int].depth == target_depth,
                                find_depth(m0.stack, target_depth as nat, m0.stack.len() - 1)
                                    == find_depth(m0.stack, target_depth as nat, stack_size as int),
                            decreases stack_size,
                        {
                            if choice_stack[stack_size].depth == target_depth {
                                break;
                            }
                            assert(stack_size != cp);
                            stack_size -= 1;
                        }
                        assert(find_depth(m0.stack, target_depth as nat, stack_size as int) == stack_size);
                        let previous_choice = choice_stack[stack_size];
                        current_depth = previous_choice.depth;
                        current_label_index = previous_choice.source_label_index;
                        current_alternation_index = previous_choice.source_alternation_index;
                        current_sequence_index = previous_choice.source_sequence_index + 1;
                        // the input position stays: the sub-derivation consumed it
                    }
                } else {
                    let current_element = &current_sequence.elements[current_sequence_index];
                    assert(current_element@ == g.rules[current_label_index - 1][current_alternation_index as int][current_sequence_index as int]);
                    let match_result: Result<usize, ()> = match current_element {
                        Element::Empty => Ok(current_input_index),
                        Element::Range { start, end } => match_range(
                            start,
                            end,
                            &chars,
                            current_input_index,
                        ),
                        Element::Literal(literal) => match_literal(
                            literal,
                            &chars,
                            current_input_index,
                        ),
                        Element::Reference(label_index) => {
                            // go one level down
                            choice_stack.push(
                                ChoiceState {
                                    depth: current_depth,
                                    source_label_index: current_label_index,
                                    source_alternation_index: current_alternation_index,
                                    source_sequence_index: current_sequence_index,
                                    destination_label_index: *label_index,
                                    destination_alternation_index: 0,
                                    input_index: current_input_index,
                                },
                            );
                            current_depth += 1;
                            current_label_index = *label_index;
                            current_alternation_index = 0;
                            current_sequence_index = 0;
                            Ok(current_input_index)
                        },
                    };
                    if let Element::Reference(_) = current_element {
                    } else {
                        match match_result {
                            Ok(new_input_index) => {
                                current_input_index = new_input_index;
                                current_sequence_index += 1;
                            },
                            Err(()) => {
                                // the alternative failed: retry the last choice
                                assert(maps@[choice_stack@.last().destination_label_index - 1]@
                                    == g.rules[choice_stack@.last().destination_label_index - 1]);
                                let choice = advance_top(&mut choice_stack, maps);
                                current_depth = choice.depth + 1;
                                current_label_index = choice.destination_label_index;
                                current_alternation_index = choice.destination_alternation_index;
                                current_sequence_index = 0;
                                current_input_index = choice.input_index;
                            },
                        }
                    }
                }
            }
            proof {
                let m1 = machine_of(
                    choice_stack@,
                    current_depth,
                    current_label_index,
                    current_alternation_index,
                    current_sequence_index,
                    current_input_index,
                );
                assert(step(g, chars@, m0) == Step::Next(m1));
                let r = lemma_step(g, chars@, m0, parents, cp);
                parents = r.0;
                cp = r.1;
                assert forall|f: nat| #[trigger] run(g, chars@, m1, f) == run(g, chars@, initial(), f + (steps + 1)) by {
                    assert(run(g, chars@, m0, f + 1) == run(g, chars@, initial(), f + 1 + steps));
                }
                steps = steps + 1;
                lemma_potential_nonneg(g, chars@, m1, parents, cp);
            }
        }
    }
}

// ----- unbounded self-reference -----

/// The table of `<a> ::= <a> "x"`.
pub open spec fn self_reference_rules() -> Seq<Seq<Seq<ElementModel>>> {
    seq![seq![seq![ElementModel::Reference(1), ElementModel::Literal(seq!['x'])]]]
}

/// The frame pushed at depth `d` while `<a> ::= <a> "x"` descends into itself.
pub open spec fn self_reference_frame(d: nat) -> ChoiceState {
    ChoiceState {
        depth: d as usize,
        source_label_index: 1,
        source_alternation_index: 0,
        source_sequence_index: 0,
        destination_label_index: 1,
        destination_alternation_index: 0,
        input_index: 0,
    }
}

/// The state after `k` descents.
pub open spec fn self_reference_state(k: nat) -> Machine {
    Machine {
        stack: Seq::new(
            k + 1,
            |i: int|
                if i == 0 {
                    seed_frame()
                } else {
                    self_reference_frame(i as nat)
                },
        ),
        depth: k + 1,
        label: 1,
        alt: 0,
        elem: 0,
        pos: 0,
    }
}

proof fn lemma_self_reference_descends(g: GrammarModel, input: Seq<char>, k: nat)
    requires
        g.rules == self_reference_rules(),
        k <= MAX_STACK,
    ensures
        run(g, input, self_reference_state(k), (MAX_STACK - k + 1) as nat) == Some(
            Err::<Seq<ChoiceState>, Error>(Error::StackOverflow),
        ),
    decreases MAX_STACK - k,
{
    let m = self_reference_state(k);
    if k < MAX_STACK {
        let next = self_reference_state(k + 1);
        assert(alternatives(g, 1) == self_reference_rules()[0]);
        assert(entry_frame(m, 1) == self_reference_frame(k + 1));
        assert(m.stack.push(entry_frame(m, 1)) =~= next.stack);
        assert(step(g, input, m) == Step::Next(next));
        lemma_self_reference_descends(g, input, k + 1);
    }
}

/// A production that refers to itself first, `<a> ::= <a> "x"`, makes every
/// match stop with `StackOverflow`, whatever the input.
pub proof fn lemma_self_reference_overflows(g: GrammarModel, input: Seq<char>)
    requires
        g.rules == self_reference_rules(),
    ensures
        run(g, input, initial(), (MAX_STACK + 1) as nat) == Some(
            Err::<Seq<ChoiceState>, Error>(Error::StackOverflow),
        ),
{
    assert(self_reference_state(0).stack =~= initial().stack);
    assert(self_reference_state(0) == initial());
    lemma_self_reference_descends(g, input, 0);
}

// ----- a production of one element -----

/// A grammar whose entry production is a single element `e` that is not a
/// reference (`<a> ::= ε`, `<d> ::= "0"..="9"`, `<a> ::= "text"`) matches
/// exactly the inputs that `e` matches as a whole, and fails on every other
/// input with `NoMatch`.
pub proof fn lemma_single_element_rule(g: GrammarModel, input: Seq<char>, e: ElementModel)
    requires
        g.rules == seq![seq![seq![e]]],
        !(e is Reference),
    ensures
        run(g, input, initial(), 3) == Some(
            if match_element(e, input, 0) == Some(input.len()) {
                Ok::<Seq<ChoiceState>, Error>(seq![seed_frame()])
            } else {
                Err(Error::NoMatch)
            },
        ),
{
    let m0 = initial();
    assert(alternatives(g, 1) == seq![seq![e]]);
    assert(alternatives(g, 1)[0] == seq![e]);
    assert(seq![e][0] == e);
    let retried = retry(m0.stack);
    assert(retried.alt == 1);
    assert(retried.stack.drop_last().len() == 0);
    assert(step(g, input, retried) == Step::Done(Err::<Seq<ChoiceState>, Error>(Error::NoMatch)));
    match match_element(e, input, 0) {
        Some(p) => {
            let m1 = Machine { elem: 1, pos: p, ..m0 };
            assert(step(g, input, m0) == Step::Next(m1));
            if p == input.len() {
                assert(step(g, input, m1) == Step::Done(Ok::<Seq<ChoiceState>, Error>(m0.stack)));
                assert(run(g, input, m1, 2) == Some(Ok::<Seq<ChoiceState>, Error>(m0.stack)));
            } else {
                assert(step(g, input, m1) == Step::Next(retried));
                assert(run(g, input, retried, 1) == Some(Err::<Seq<ChoiceState>, Error>(Error::NoMatch)));
                assert(run(g, input, m1, 2) == Some(Err::<Seq<ChoiceState>, Error>(Error::NoMatch)));
            }
        },
        None => {
            assert(step(g, input, m0) == Step::Next(retried));
            assert(run(g, input, retried, 2) == Some(Err::<Seq<ChoiceState>, Error>(Error::NoMatch)));
        },
    }
}

} // verus!
