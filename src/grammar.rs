//! The production table: interned names, definition order and alternations.

use vstd::prelude::*;
use vstd::set_lib::*;
use crate::alternation::{Alternation, alternation_at, parse_alternations, lemma_seqs_from};
use crate::element::ElementModel;
use crate::reference::{reference_at, parse_reference, names_of, names_ok, lemma_reference_at};
use crate::symbols::{
    spaces_end,
    newlines_at,
    parse_spacings,
    parse_newlines,
    lemma_spaces_end_bounds,
    lemma_newlines_end_bounds,
};

verus! {

/// The mathematical value of a [`Grammar`].
///
/// Production ids start at 1: id `k` is named `names[k - 1]` and defined by
/// `rules[k - 1]`. `order` lists the ids in the order their definitions appear
/// in the grammar text; id 1 is the entry production.
pub struct GrammarModel {
    pub names: Seq<Seq<char>>,
    pub order: Seq<nat>,
    pub rules: Seq<Seq<Seq<ElementModel>>>,
}

/// An element whose references point into a table of `n` productions, and
/// whose literal text is not empty.
pub open spec fn element_ok(e: ElementModel, n: nat) -> bool {
    match e {
        ElementModel::Reference(id) => 1 <= id <= n,
        ElementModel::Literal(t) => t.len() >= 1,
        _ => true,
    }
}

/// Sequences that are not empty, with elements that fit a table of `n`
/// productions.
pub open spec fn sequences_ok(alts: Seq<Seq<ElementModel>>, n: nat) -> bool {
    &&& forall|a: int| 0 <= a < alts.len() ==> (#[trigger] alts[a]).len() >= 1
    &&& forall|a: int, e: int|
        0 <= a < alts.len() && 0 <= e < alts[a].len() ==> element_ok(#[trigger] alts[a][e], n)
}

/// What every production table built from grammar text satisfies.
pub open spec fn well_formed(g: GrammarModel) -> bool {
    let n = g.names.len();
    &&& n >= 1
    &&& g.rules.len() == n
    &&& g.order.len() == n
    &&& forall|k: int| 0 <= k < n ==> 1 <= #[trigger] g.order[k] <= n
    &&& forall|j: int, k: int|
        0 <= j < n && 0 <= k < n && j != k ==> #[trigger] g.order[j] != #[trigger] g.order[k]
    &&& forall|j: int, k: int|
        0 <= j < n && 0 <= k < n && j != k ==> #[trigger] g.names[j] != #[trigger] g.names[k]
    &&& forall|k: int| 0 <= k < n ==> !(#[trigger] g.names[k]).contains('>')
    &&& forall|k: int| 0 <= k < n ==> (#[trigger] g.rules[k]).len() >= 1
    &&& forall|k: int, a: int|
        0 <= k < n && 0 <= a < g.rules[k].len() ==> (#[trigger] g.rules[k][a]).len() >= 1
    &&& forall|k: int, a: int, e: int|
        0 <= k < n && 0 <= a < g.rules[k].len() && 0 <= e < g.rules[k][a].len()
            ==> element_ok(#[trigger] g.rules[k][a][e], n)
}

/// The counts of an alternation fit in a `usize`.
pub open spec fn alternation_fits(alt: Seq<Seq<ElementModel>>) -> bool {
    &&& alt.len() <= usize::MAX
    &&& forall|a: int| 0 <= a < alt.len() ==> (#[trigger] alt[a]).len() <= usize::MAX
}

/// Every count in the table fits in a `usize`.
pub open spec fn fits_usize(g: GrammarModel) -> bool {
    &&& g.rules.len() <= usize::MAX
    &&& forall|k: int| 0 <= k < g.rules.len() ==> alternation_fits(#[trigger] g.rules[k])
}

/// A compiled grammar. It is built by `parse_grammar` and never changes.
#[derive(Debug)]
pub struct Grammar {
    references: Vec<String>,
    labels: Vec<usize>,
    maps: Vec<Alternation>,
}

impl View for Grammar {
    type V = GrammarModel;

    closed spec fn view(&self) -> GrammarModel {
        GrammarModel {
            names: self.references@.map_values(|s: String| s@),
            order: self.labels@.map_values(|i: usize| i as nat),
            rules: self.maps@.map_values(|a: Alternation| a@),
        }
    }
}

impl Grammar {
    #[verifier::type_invariant]
    closed spec fn inv(&self) -> bool {
        well_formed(self@) && fits_usize(self@)
    }

    /// The production names; id `k` is named `references()[k - 1]`.
    pub fn references(&self) -> (r: &Vec<String>)
        ensures
            r@.map_values(|s: String| s@) == self@.names,
            well_formed(self@),
            fits_usize(self@),
    {
        proof {
            use_type_invariant(self);
        }
        &self.references
    }

    /// The defined ids, in the order their definitions appear in the text.
    pub fn labels(&self) -> (r: &Vec<usize>)
        ensures
            r@.map_values(|i: usize| i as nat) == self@.order,
            well_formed(self@),
            fits_usize(self@),
    {
        proof {
            use_type_invariant(self);
        }
        &self.labels
    }

    /// The alternations; id `k` is defined by `maps()[k - 1]`.
    pub fn maps(&self) -> (r: &Vec<Alternation>)
        ensures
            r@.map_values(|a: Alternation| a@) == self@.rules,
            well_formed(self@),
            fits_usize(self@),
    {
        proof {
            use_type_invariant(self);
        }
        &self.maps
    }
}


// ----- reading grammar text -----

/// The definition operator `::=` at `i`.
pub open spec fn match_symbol_at(s: Seq<char>, i: nat) -> bool {
    &&& i + 2 < s.len()
    &&& s[i as int] == ':'
    &&& s[i + 1int] == ':'
    &&& s[i + 2int] == '='
}

/// A production `<name> ::= alternation` at `i`, spaces allowed before the
/// name and around `::=`: the position after it, the name's id, the
/// alternation, and the names after interning.
pub open spec fn expression_at(s: Seq<char>, i: nat, labels: Seq<Seq<char>>) -> Option<
    (nat, nat, Seq<Seq<ElementModel>>, Seq<Seq<char>>),
> {
    match reference_at(s, spaces_end(s, i), labels) {
        Some((j, id, l1)) => {
            let q = spaces_end(s, j);
            if match_symbol_at(s, q) {
                match alternation_at(s, q + 3, l1) {
                    Some((k, alt, l2)) => Some((k, id, alt, l2)),
                    None => None,
                }
            } else {
                None
            }
        },
        None => None,
    }
}

/// The table, once the productions are read: the text must be used up,
/// hold a production, and define every name it mentions.
pub open spec fn finish(
    s: Seq<char>,
    i: nat,
    labels: Seq<Seq<char>>,
    order: Seq<nat>,
    defs: Map<nat, Seq<Seq<ElementModel>>>,
) -> Option<GrammarModel> {
    if i != s.len() || order.len() == 0 || labels.len() != order.len() {
        None
    } else {
        Some(
            GrammarModel {
                names: labels,
                order,
                rules: Seq::new(labels.len(), |k: int| defs[(k + 1) as nat]),
            },
        )
    }
}

/// Reads productions separated by line breaks from `i`; `order` and `defs`
/// hold those read so far. A name defined twice makes the text invalid.
pub open spec fn productions_from(
    s: Seq<char>,
    i: nat,
    labels: Seq<Seq<char>>,
    order: Seq<nat>,
    defs: Map<nat, Seq<Seq<ElementModel>>>,
) -> Option<GrammarModel>
    decreases s.len() - i,
{
    match expression_at(s, i, labels) {
        Some((j, id, alt, l2)) => if order.contains(id) {
            None
        } else {
            let order2 = order.push(id);
            let defs2 = defs.insert(id, alt);
            match newlines_at(s, j) {
                Some(k) => if i < k <= s.len() {
                    productions_from(s, k, l2, order2, defs2)
                } else {
                    finish(s, j, l2, order2, defs2)
                },
                None => finish(s, j, l2, order2, defs2),
            }
        },
        None => finish(s, i, labels, order, defs),
    }
}

/// The production table that the grammar text from `i` on defines, if it
/// is valid.
pub open spec fn grammar_at(s: Seq<char>, i: nat) -> Option<GrammarModel> {
    productions_from(s, i, seq![], seq![], map![])
}

pub proof fn lemma_expression_at(s: Seq<char>, i: nat, labels: Seq<Seq<char>>)
    requires
        i <= s.len(),
    ensures
        expression_at(s, i, labels) matches Some((j, id, alt, l2)) ==> {
            &&& i < j <= s.len()
            &&& 1 <= id <= l2.len()
            &&& l2.len() <= labels.len() + (j - i)
            &&& labels.is_prefix_of(l2)
            &&& names_ok(labels) ==> names_ok(l2)
            &&& alt.len() >= 1
            &&& sequences_ok(alt, l2.len())
        },
{
    let p = spaces_end(s, i);
    lemma_spaces_end_bounds(s, i);
    lemma_reference_at(s, p, labels);
    if let Some((j, id, l1)) = reference_at(s, p, labels) {
        let q = spaces_end(s, j);
        lemma_spaces_end_bounds(s, j);
        if match_symbol_at(s, q) {
            lemma_seqs_from(s, q + 3, l1);
            if let Some((k, alt, l2)) = alternation_at(s, q + 3, l1) {
                assert(labels.is_prefix_of(l2)) by {
                    assert forall|t: int| 0 <= t < labels.len() implies labels[t] == l2[t] by {
                        assert(l1[t] == labels[t]);
                    }
                }
            }
        }
    }
}

pub(crate) proof fn lemma_sequences_ok_grow(alt: Seq<Seq<ElementModel>>, n: nat, n2: nat)
    requires
        sequences_ok(alt, n),
        n <= n2,
    ensures
        sequences_ok(alt, n2),
{
    assert forall|a: int, e: int| 0 <= a < alt.len() && 0 <= e < alt[a].len() implies element_ok(
        #[trigger] alt[a][e],
        n2,
    ) by {
        assert(element_ok(alt[a][e], n));
    }
}

/// `n` distinct ids between 1 and `n` name every id between 1 and `n`.
proof fn lemma_all_defined(order: Seq<nat>, n: nat)
    requires
        order.len() == n,
        forall|k: int| 0 <= k < n ==> 1 <= #[trigger] order[k] <= n,
        forall|j: int, k: int| 0 <= j < n && 0 <= k < n && j != k ==> #[trigger] order[j] != #[trigger] order[k],
    ensures
        forall|id: nat| 1 <= id <= n ==> order.contains(id),
{
    let ints = order.map_values(|x: nat| x as int);
    assert(ints.no_duplicates()) by {
        assert forall|j: int, k: int| 0 <= j < ints.len() && 0 <= k < ints.len() && j != k implies ints[j] != ints[k] by {
            assert(order[j] != order[k]);
        }
    }
    ints.unique_seq_to_set();
    let range = set_int_range(1, n + 1int);
    lemma_int_range(1, n + 1int);
    assert(ints.to_set().subset_of(range)) by {
        assert forall|x: int| ints.to_set().contains(x) implies range.contains(x) by {
            let k = choose|k: int| 0 <= k < ints.len() && ints[k] == x;
            assert(1 <= order[k] <= n);
        }
    }
    lemma_len_subset(ints.to_set(), range);
    lemma_subset_equality(ints.to_set(), range);
    assert forall|id: nat| 1 <= id <= n implies order.contains(id) by {
        assert(range.contains(id as int));
        assert(ints.to_set().contains(id as int));
        let k = choose|k: int| 0 <= k < ints.len() && ints[k] == id as int;
        assert(order[k] == id);
    }
}

/// What holds of the tables between productions while text is read.
spec fn reading_ok(
    labels: Seq<Seq<char>>,
    order: Seq<nat>,
    defs: Map<nat, Seq<Seq<ElementModel>>>,
) -> bool {
    &&& names_ok(labels)
    &&& forall|k: int| 0 <= k < order.len() ==> 1 <= #[trigger] order[k] <= labels.len()
    &&& forall|j: int, k: int|
        0 <= j < order.len() && 0 <= k < order.len() && j != k ==> #[trigger] order[j]
            != #[trigger] order[k]
    &&& forall|id: nat| #[trigger] defs.contains_key(id) <==> order.contains(id)
    &&& forall|id: nat|
        #[trigger] defs.contains_key(id) ==> defs[id].len() >= 1 && sequences_ok(
            defs[id],
            labels.len(),
        )
}

proof fn lemma_productions_well_formed(
    s: Seq<char>,
    i: nat,
    labels: Seq<Seq<char>>,
    order: Seq<nat>,
    defs: Map<nat, Seq<Seq<ElementModel>>>,
)
    requires
        i <= s.len(),
        reading_ok(labels, order, defs),
    ensures
        productions_from(s, i, labels, order, defs) matches Some(g) ==> well_formed(g),
    decreases s.len() - i,
{
    lemma_expression_at(s, i, labels);
    if let Some((j, id, alt, l2)) = expression_at(s, i, labels) {
        if !order.contains(id) {
            let order2 = order.push(id);
            let defs2 = defs.insert(id, alt);
            assert(reading_ok(l2, order2, defs2)) by {
                assert forall|k: int| 0 <= k < order2.len() implies 1 <= #[trigger] order2[k]
                    <= l2.len() by {
                    if k < order.len() {
                        assert(order2[k] == order[k]);
                    }
                }
                assert forall|a: int, b: int|
                    0 <= a < order2.len() && 0 <= b < order2.len() && a != b implies #[trigger] order2[a]
                    != #[trigger] order2[b] by {
                    if a < order.len() && b < order.len() {
                        assert(order2[a] == order[a] && order2[b] == order[b]);
                    } else if a < order.len() {
                        assert(order2[a] == order[a]);
                    } else if b < order.len() {
                        assert(order2[b] == order[b]);
                    }
                }
                assert forall|x: nat| #[trigger] defs2.contains_key(x) <==> order2.contains(x) by {
                    if order2.contains(x) && x != id {
                        let k = choose|k: int| 0 <= k < order2.len() && order2[k] == x;
                        assert(order[k] == x);
                    }
                    if order.contains(x) {
                        let k = choose|k: int| 0 <= k < order.len() && order[k] == x;
                        assert(order2[k] == x);
                    }
                    assert(order2[order.len() as int] == id);
                }
                assert forall|x: nat| #[trigger] defs2.contains_key(x) implies defs2[x].len() >= 1
                    && sequences_ok(defs2[x], l2.len()) by {
                    if x != id {
                        lemma_sequences_ok_grow(defs[x], labels.len(), l2.len());
                    }
                }
            }
            let next = newlines_at(s, j);
            if next is Some && i < next->Some_0 <= s.len() {
                lemma_productions_well_formed(s, next->Some_0, l2, order2, defs2);
            } else {
                lemma_finish_well_formed(s, j, l2, order2, defs2);
            }
        }
    } else {
        lemma_finish_well_formed(s, i, labels, order, defs);
    }
}

proof fn lemma_finish_well_formed(
    s: Seq<char>,
    i: nat,
    labels: Seq<Seq<char>>,
    order: Seq<nat>,
    defs: Map<nat, Seq<Seq<ElementModel>>>,
)
    requires
        reading_ok(labels, order, defs),
    ensures
        finish(s, i, labels, order, defs) matches Some(g) ==> well_formed(g),
{
    if let Some(g) = finish(s, i, labels, order, defs) {
        let n = labels.len();
        lemma_all_defined(order, n);
        assert forall|k: int| 0 <= k < n implies #[trigger] defs.contains_key((k + 1) as nat) by {
            assert(order.contains((k + 1) as nat));
        }
        assert forall|k: int| 0 <= k < n implies (#[trigger] g.rules[k]).len() >= 1 by {
            assert(defs.contains_key((k + 1) as nat));
        }
        assert forall|k: int, a: int|
            0 <= k < n && 0 <= a < g.rules[k].len() implies (#[trigger] g.rules[k][a]).len() >= 1 by {
            assert(defs.contains_key((k + 1) as nat));
        }
        assert forall|k: int, a: int, e: int|
            0 <= k < n && 0 <= a < g.rules[k].len() && 0 <= e < g.rules[k][a].len() implies element_ok(
            #[trigger] g.rules[k][a][e],
            n,
        ) by {
            assert(defs.contains_key((k + 1) as nat));
        }
    }
}

/// Grammar text is accepted only when the table it gives is well formed:
/// in particular every name it references is defined by a production, so
/// a dangling reference is rejected when the table is built, never while
/// matching.
pub proof fn lemma_accepted_grammar_well_formed(s: Seq<char>, i: nat)
    ensures
        grammar_at(s, i) matches Some(g) ==> well_formed(g),
{
    if i <= s.len() {
        assert(reading_ok(seq![], seq![], map![]));
        lemma_productions_well_formed(s, i, seq![], seq![], map![]);
    } else {
        assert(expression_at(s, i, seq![]) is None);
    }
}

fn parse_match_symbol(chars: &Vec<char>, index: usize) -> (r: Result<usize, ()>)
    ensures
        match r {
            Ok(j) => match_symbol_at(chars@, index as nat) && j == index + 3,
            Err(_) => !match_symbol_at(chars@, index as nat),
        },
{
    if index < chars.len() && chars.len() - index > 2 && chars[index] == ':' && chars[index + 1]
        == ':' && chars[index + 2] == '=' {
        Ok(index + 3)
    } else {
        Err(())
    }
}

/// Reads one production; returns the position after it, the id of its
/// name and its alternation.
fn parse_expression(chars: &Vec<char>, index: usize, labels: &mut Vec<String>) -> (r: Result<
    (usize, usize, Alternation),
    (),
>)
    requires
        old(labels)@.len() + chars@.len() <= usize::MAX + index,
    ensures
        match r {
            Ok((j, id, a)) => expression_at(chars@, index as nat, names_of(old(labels)@)) == Some(
                (j as nat, id as nat, a@, names_of(final(labels)@)),
            ) && alternation_fits(a@),
            Err(_) => expression_at(chars@, index as nat, names_of(old(labels)@)) is None && (
            final(labels)@ == old(labels)@ || index < chars.len()),
        },
{
    let p = parse_spacings(chars, index);
    proof {
        lemma_spaces_end_bounds(chars@, index as nat);
        lemma_reference_at(chars@, p as nat, names_of(old(labels)@));
    }
    if p >= chars.len() {
        // no name starts at the end of the text
        return Err(());
    }
    let (j, label_index) = match parse_reference(chars, p, labels) {
        Ok(r) => r,
        Err(()) => return Err(()),
    };
    proof {
        lemma_reference_at(chars@, p as nat, names_of(old(labels)@));
    }
    let q = parse_spacings(chars, j);
    proof {
        lemma_spaces_end_bounds(chars@, j as nat);
    }
    let k = match parse_match_symbol(chars, q) {
        Ok(k) => k,
        Err(()) => return Err(()),
    };
    let (end, alternation) = match parse_alternations(chars, k, labels) {
        Ok(r) => r,
        Err(()) => return Err(()),
    };
    Ok((end, label_index, alternation))
}

/// What the parser's tables hold between productions: the names, the ids
/// defined so far in order, and their alternations, also filed by id in `slots`.
spec fn tables_ok(
    names: Seq<Seq<char>>,
    order: Seq<nat>,
    slots: Seq<Option<Alternation>>,
    defs: Map<nat, Seq<Seq<ElementModel>>>,
) -> bool {
    &&& names_ok(names)
    &&& slots.len() == names.len()
    &&& forall|k: int| 0 <= k < order.len() ==> 1 <= #[trigger] order[k] <= names.len()
    &&& forall|j: int, k: int|
        0 <= j < order.len() && 0 <= k < order.len() && j != k ==> #[trigger] order[j]
            != #[trigger] order[k]
    &&& forall|id: nat| #[trigger] defs.contains_key(id) <==> order.contains(id)
    &&& forall|k: int|
        0 <= k < slots.len() ==> ((#[trigger] slots[k]) is Some <==> defs.contains_key(
            (k + 1) as nat,
        ))
    &&& forall|k: int|
        0 <= k < slots.len() && (#[trigger] slots[k]) is Some ==> slots[k]->Some_0@ == defs[(k
            + 1) as nat]
    &&& forall|id: nat|
        #[trigger] defs.contains_key(id) ==> defs[id].len() >= 1 && sequences_ok(
            defs[id],
            names.len(),
        ) && alternation_fits(defs[id])
}

/// Compiles grammar text, from `index` on, into a production table.
///
/// The text is productions separated by line breaks; it must be read to its
/// end, hold at least one production, define no name twice and define every
/// name it references.
pub fn parse_grammar(chars: &Vec<char>, index: usize) -> (r: Result<Grammar, ()>)
    ensures
        match r {
            Ok(g) => grammar_at(chars@, index as nat) == Some(g@) && well_formed(g@),
            Err(_) => grammar_at(chars@, index as nat) is None,
        },
{
    let ghost s = chars@;
    if index > chars.len() {
        return Err(());
    }
    let mut references: Vec<String> = Vec::new();
    let mut labels: Vec<usize> = Vec::new();
    let mut slots: Vec<Option<Alternation>> = Vec::new();
    let ghost mut defs: Map<nat, Seq<Seq<ElementModel>>> = map![];
    let mut pos = index;
    proof {
        assert(names_of(references@) =~= seq![]);
        assert(labels@.map_values(|i: usize| i as nat) =~= seq![]);
    }
    // read all the productions
    loop
        invariant_except_break
            grammar_at(s, index as nat) == productions_from(
                s,
                pos as nat,
                names_of(references@),
                labels@.map_values(|i: usize| i as nat),
                defs,
            ),
            tables_ok(names_of(references@), labels@.map_values(|i: usize| i as nat), slots@, defs),
            references.len() <= pos,
        invariant
            s == chars@,
            index <= pos <= chars.len(),
        ensures
            grammar_at(s, index as nat) == finish(
                s,
                pos as nat,
                names_of(references@),
                labels@.map_values(|i: usize| i as nat),
                defs,
            ),
            pos == chars.len() ==> tables_ok(
                names_of(references@),
                labels@.map_values(|i: usize| i as nat),
                slots@,
                defs,
            ),
        decreases chars.len() - pos,
    {
        let ghost names0 = names_of(references@);
        let ghost order0 = labels@.map_values(|i: usize| i as nat);
        let ghost slots0 = slots@;
        let ghost defs0 = defs;
        proof {
            lemma_expression_at(s, pos as nat, names0);
        }
        match parse_expression(chars, pos, &mut references) {
            Ok((new_pos, label_index, alternation)) => {
                let ghost names1 = names_of(references@);
                while slots.len() < references.len()
                    invariant
                        slots0.len() <= slots.len() <= references.len(),
                        names_of(references@) == names1,
                        forall|k: int| 0 <= k < slots0.len() ==> slots@[k] == slots0[k],
                        forall|k: int| slots0.len() <= k < slots.len() ==> slots@[k] is None,
                    decreases references.len() - slots.len(),
                {
                    slots.push(None);
                }
                // a name may be defined once only
                if let Some(_) = &slots[label_index - 1] {
                    proof {
                        assert(slots0[label_index - 1] is Some);
                        assert(order0.contains(label_index as nat));
                    }
                    return Err(());
                }
                proof {
                    if order0.contains(label_index as nat) {
                        assert(defs0.contains_key(label_index as nat));
                        assert(slots0[label_index - 1] is Some);
                    }
                }
                proof {
                    defs = defs.insert(label_index as nat, alternation@);
                }
                let ghost slots_ext = slots@;
                labels.push(label_index);
                slots.set(label_index - 1, Some(alternation));
                proof {
                    let order1 = labels@.map_values(|i: usize| i as nat);
                    assert(order1 =~= order0.push(label_index as nat));
                    assert forall|id: nat| #[trigger] defs.contains_key(id) implies defs[id].len()
                        >= 1 && sequences_ok(defs[id], names1.len()) && alternation_fits(
                        defs[id],
                    ) by {
                        if id != label_index {
                            lemma_sequences_ok_grow(defs0[id], names0.len(), names1.len());
                        }
                    }
                    assert forall|id: nat| order1.contains(id) implies #[trigger] defs.contains_key(id) by {
                        let k = choose|k: int| 0 <= k < order1.len() && order1[k] == id;
                        if k < order0.len() {
                            assert(order0[k] == id);
                        }
                    }
                    assert forall|id: nat| #[trigger] defs.contains_key(id) implies order1.contains(id) by {
                        {
                            if id == label_index {
                                assert(order1[order0.len() as int] == id);
                            } else {
                                let k = choose|k: int| 0 <= k < order0.len() && order0[k] == id;
                                assert(order1[k] == id);
                            }
                        }
                    }
                }
                proof {
                    let order1 = labels@.map_values(|i: usize| i as nat);
                    let sl = slots@;
                    assert(names_ok(names1));
                    assert(sl.len() == names1.len());
                    assert(forall|k: int| 0 <= k < order1.len() ==> 1 <= #[trigger] order1[k] <= names1.len());
                    assert(forall|j: int, k: int|
                        0 <= j < order1.len() && 0 <= k < order1.len() && j != k ==> #[trigger] order1[j]
                            != #[trigger] order1[k]);
                    assert forall|k: int| 0 <= k < sl.len() implies ((#[trigger] sl[k]) is Some
                        <==> defs.contains_key((k + 1) as nat)) && (sl[k] is Some ==> sl[k]->Some_0@
                        == defs[(k + 1) as nat]) by {
                        if k != label_index - 1 {
                            assert(sl[k] == slots_ext[k]);
                            if k < slots0.len() {
                                assert(slots_ext[k] == slots0[k]);
                            } else {
                                assert(slots_ext[k] is None);
                                if defs0.contains_key((k + 1) as nat) {
                                    assert(order0.contains((k + 1) as nat));
                                    let j = choose|j: int| 0 <= j < order0.len() && order0[j] == (k + 1) as nat;
                                    assert(order0[j] <= names0.len());
                                }
                            }
                        }
                    }
                }
                assert(tables_ok(
                    names_of(references@),
                    labels@.map_values(|i: usize| i as nat),
                    slots@,
                    defs,
                ));
                match parse_newlines(chars, new_pos) {
                    Ok(next) => {
                        proof {
                            lemma_newlines_end_bounds(s, (new_pos + 1) as nat);
                            lemma_newlines_end_bounds(s, (new_pos + 2) as nat);
                        }
                        pos = next;
                    },
                    Err(()) => {
                        pos = new_pos;
                        break;
                    },
                }
            },
            Err(()) => break,
        }
    }
    // the whole text must have been read
    if chars.len() != pos {
        return Err(());
    }
    // there must be a production
    if labels.len() == 0 {
        return Err(());
    }
    // every name must be defined
    if references.len() != labels.len() {
        return Err(());
    }
    let n = references.len();
    let ghost order = labels@.map_values(|i: usize| i as nat);
    proof {
        lemma_all_defined(order, n as nat);
    }
    // file the alternations by id
    let ghost slots0 = slots@;
    let mut maps: Vec<Alternation> = Vec::new();
    while maps.len() < n
        invariant
            maps.len() <= n,
            n == slots0.len(),
            slots@ == slots0.subrange(maps.len() as int, n as int),
            forall|id: nat| 1 <= id <= n ==> order.contains(id),
            tables_ok(names_of(references@), order, slots0, defs),
            forall|k: int| 0 <= k < maps.len() ==> (#[trigger] maps@[k])@ == defs[(k + 1) as nat],
        decreases n - maps.len(),
    {
        let ghost k = maps.len() as int;
        assert(order.contains((k + 1) as nat));
        assert(slots@[0] == slots0[k]);
        let alternation = slots.remove(0).unwrap();
        maps.push(alternation);
        assert(slots@ =~= slots0.subrange(k + 1, n as int));
    }
    let ghost model = GrammarModel {
        names: names_of(references@),
        order,
        rules: Seq::new(n as nat, |k: int| defs[(k + 1) as nat]),
    };
    proof {
        assert(maps@.map_values(|a: Alternation| a@) =~= model.rules);
        assert forall|id: nat| 1 <= id <= n implies #[trigger] defs.contains_key(id) by {
            assert(order.contains(id));
        }
    }
    proof {
        let g = model;
        assert(g.rules.len() == n);
        assert(forall|k: int| 0 <= k < n ==> 1 <= #[trigger] g.order[k] <= n);
        assert(forall|j: int, k: int|
            0 <= j < n && 0 <= k < n && j != k ==> #[trigger] g.names[j] != #[trigger] g.names[k]);
        assert(forall|k: int| 0 <= k < n ==> !(#[trigger] g.names[k]).contains('>'));
        assert forall|k: int| 0 <= k < n implies (#[trigger] g.rules[k]).len() >= 1 by {
            assert(defs.contains_key((k + 1) as nat));
        }
        assert forall|k: int, a: int|
            0 <= k < n && 0 <= a < g.rules[k].len() implies (#[trigger] g.rules[k][a]).len() >= 1 by {
            assert(defs.contains_key((k + 1) as nat));
        }
        assert forall|k: int, a: int, e: int|
            0 <= k < n && 0 <= a < g.rules[k].len() && 0 <= e < g.rules[k][a].len() implies element_ok(#[trigger] g.rules[k][a][e], n as nat) by {
            assert(defs.contains_key((k + 1) as nat));
        }
        assert forall|k: int| 0 <= k < n implies alternation_fits(#[trigger] g.rules[k]) by {
            assert(defs.contains_key((k + 1) as nat));
        }
        assert(well_formed(g));
        assert(fits_usize(g));
    }
    let grammar = Grammar { references, labels, maps };
    proof {
        assert(grammar@ == model);
    }
    Ok(grammar)
}

} // verus!
