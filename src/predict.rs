//! Next-symbol prediction: training sequences that share a symbol with the
//! end of a query vote for the symbols that follow that shared part.

use crate::cpt::CPT;
use crate::data_types::DataTypes;
use crate::inverted_index::InvertedIndex;
use std::cmp::Ordering;
use crate::nodes::{NodeId, NodeView};
use vstd::prelude::*;

verus! {

/// Why a prediction is refused.
#[derive(Clone, Copy, Debug, PartialEq, Eq, Structural)]
pub enum PredictError {
    /// The prefix length exceeds the query's length.
    PrefixTooLong,
    /// A support count does not fit in `usize`.
    SupportOverflow,
}

/// Whether node `n`, or one of its ancestors, holds a symbol of `p`.
pub open spec fn reaches(a: Seq<NodeView>, n: NodeId, p: Seq<DataTypes>) -> bool
    decreases n.pos(),
{
    if !(0 <= n.pos() < a.len()) {
        false
    } else if a[n.pos()].data matches Some(d) && p.contains(d) {
        true
    } else {
        match a[n.pos()].parent {
            Some(q) => if 0 <= q.pos() < n.pos() {
                reaches(a, q, p)
            } else {
                false
            },
            None => false,
        }
    }
}

/// The symbols from node `n` up toward the root, last symbol first, up to
/// (and without) the first one that occurs in `s`, or up to the root.
pub open spec fn consequent(a: Seq<NodeView>, n: NodeId, s: Seq<DataTypes>) -> Seq<DataTypes>
    decreases n.pos(),
{
    if !(1 <= n.pos() < a.len()) {
        Seq::empty()
    } else {
        match a[n.pos()].data {
            Some(d) => if s.contains(d) {
                Seq::empty()
            } else {
                seq![d] + match a[n.pos()].parent {
                    Some(q) => if 0 <= q.pos() < n.pos() {
                        consequent(a, q, s)
                    } else {
                        Seq::empty()
                    },
                    None => Seq::empty(),
                }
            },
            None => Seq::empty(),
        }
    }
}

/// How often `d` occurs in `v`.
pub open spec fn count(v: Seq<DataTypes>, d: DataTypes) -> int
    decreases v.len(),
{
    if v.len() == 0 {
        0
    } else {
        (if v[0] == d { 1int } else { 0int }) + count(v.drop_first(), d)
    }
}

/// The last `k` symbols of `s`.
pub open spec fn prefix_of(s: Seq<DataTypes>, k: int) -> Seq<DataTypes> {
    s.subrange(s.len() - k, s.len() as int)
}

/// Whether training sequence `i` is matched by prefix `p`: its terminal
/// node is a leaf that holds, or descends from a node that holds, a symbol
/// of `p`.
pub open spec fn matched(t: CPT, i: int, p: Seq<DataTypes>) -> bool {
    let n = t.sequences_lookup_table@[i];
    &&& 0 <= n.pos() < t.arena().len()
    &&& t.arena()[n.pos()].children.len() == 0
    &&& reaches(t.arena(), n, p)
}

/// The occurrences of `d` in the consequents of the matched sequences among
/// the first `i` trained ones.
pub open spec fn support_upto(t: CPT, s: Seq<DataTypes>, p: Seq<DataTypes>, d: DataTypes, i: int) -> int
    decreases i,
{
    if i <= 0 {
        0
    } else {
        support_upto(t, s, p, d, i - 1) + if matched(t, i - 1, p) {
            count(consequent(t.arena(), t.sequences_lookup_table@[i - 1], s), d)
        } else {
            0
        }
    }
}

/// The support of `d` for query `s` with prefix length `k`.
pub open spec fn support(t: CPT, s: Seq<DataTypes>, k: int, d: DataTypes) -> int {
    support_upto(t, s, prefix_of(s, k), d, t.sequences_lookup_table@.len() as int)
}

/// Whether prediction `x` ranks above prediction `y`: higher support first;
/// at equal support, higher confidence (support over occurrences), which is
/// fewer occurrences; then the smaller symbol.
pub open spec fn ranks_above(x: (DataTypes, usize, usize), y: (DataTypes, usize, usize)) -> bool {
    x.1 > y.1 || (x.1 == y.1 && (x.2 < y.2 || (x.2 == y.2 && x.0.precedes(y.0))))
}

/// `v` is the prediction of tree `t` for query `s` with prefix length `k`:
/// each symbol of nonzero support once, with its support and its number of
/// occurrences in the tree, best first.
pub open spec fn is_prediction(t: CPT, s: Seq<DataTypes>, k: int, v: Seq<(DataTypes, usize, usize)>) -> bool {
    &&& forall|j: int|
        0 <= j < v.len() ==> {
            &&& (#[trigger] v[j]).1 == support(t, s, k, v[j].0)
            &&& v[j].1 > 0
            &&& v[j].2 == t.inverted_index.bag(v[j].0).len()
        }
    &&& forall|d: DataTypes| #[trigger] support(t, s, k, d) > 0 ==> exists|j: int| 0 <= j < v.len() && v[j].0 == d
    &&& forall|i: int, j: int| 0 <= i < j < v.len() ==> ranks_above(#[trigger] v[i], #[trigger] v[j])
}

/// At equal support, the greater confidence is the smaller occurrence count.
pub proof fn lemma_confidence_order(support: int, o1: int, o2: int)
    requires
        support > 0,
        o1 > 0,
        o2 > 0,
    ensures
        (support * o2 > support * o1) <==> o1 < o2,
{
    if o1 < o2 {
        assert(support * o2 > support * o1) by (nonlinear_arith)
            requires
                support > 0,
                o1 < o2,
        ;
    } else {
        assert(support * o2 <= support * o1) by (nonlinear_arith)
            requires
                support > 0,
                o1 >= o2,
        ;
    }
}

/// The sum of the counts that `v` lists for `d`.
pub open spec fn tally(v: Seq<(DataTypes, usize)>, d: DataTypes) -> int
    decreases v.len(),
{
    if v.len() == 0 {
        0
    } else {
        tally(v.drop_last(), d) + if v.last().0 == d {
            v.last().1 as int
        } else {
            0
        }
    }
}

/// No symbol is listed twice.
pub open spec fn keys_unique(v: Seq<(DataTypes, usize)>) -> bool {
    forall|a: int, b: int| 0 <= a < b < v.len() ==> (#[trigger] v[a]).0 != (#[trigger] v[b]).0
}

proof fn lemma_tally_absent(v: Seq<(DataTypes, usize)>, d: DataTypes)
    requires
        forall|j: int| 0 <= j < v.len() ==> (#[trigger] v[j]).0 != d,
    ensures
        tally(v, d) == 0,
    decreases v.len(),
{
    if v.len() > 0 {
        lemma_tally_absent(v.drop_last(), d);
    }
}

proof fn lemma_tally_unique(v: Seq<(DataTypes, usize)>, j: int)
    requires
        keys_unique(v),
        0 <= j < v.len(),
    ensures
        tally(v, v[j].0) == v[j].1,
    decreases v.len(),
{
    let d = v[j].0;
    if j == v.len() - 1 {
        assert forall|k: int| 0 <= k < v.drop_last().len() implies (#[trigger] v.drop_last()[k]).0 != d by {
            assert(v[k] == v.drop_last()[k]);
        }
        lemma_tally_absent(v.drop_last(), d);
    } else {
        assert(v.drop_last()[j] == v[j]);
        lemma_tally_unique(v.drop_last(), j);
        assert(v.last() == v[v.len() - 1]);
    }
}

proof fn lemma_tally_update(v: Seq<(DataTypes, usize)>, j: int, c: usize, d: DataTypes)
    requires
        0 <= j < v.len(),
    ensures
        tally(v.update(j, (v[j].0, c)), d) == tally(v, d) + if v[j].0 == d {
            c - v[j].1
        } else {
            0
        },
    decreases v.len(),
{
    let w = v.update(j, (v[j].0, c));
    if j == v.len() - 1 {
        assert(w.drop_last() =~= v.drop_last());
    } else {
        assert(w.drop_last() =~= v.drop_last().update(j, (v[j].0, c)));
        lemma_tally_update(v.drop_last(), j, c, d);
    }
}

proof fn lemma_count_nonneg(v: Seq<DataTypes>, d: DataTypes)
    ensures
        count(v, d) >= 0,
    decreases v.len(),
{
    if v.len() > 0 {
        lemma_count_nonneg(v.drop_first(), d);
    }
}

proof fn lemma_support_mono(t: CPT, s: Seq<DataTypes>, p: Seq<DataTypes>, d: DataTypes, i: int, n: int)
    requires
        0 <= i <= n,
    ensures
        support_upto(t, s, p, d, i) <= support_upto(t, s, p, d, n),
    decreases n - i,
{
    if i < n {
        lemma_support_mono(t, s, p, d, i, n - 1);
        lemma_count_nonneg(consequent(t.arena(), t.sequences_lookup_table@[n - 1], s), d);
    }
}

proof fn lemma_ranks_above(x: (DataTypes, usize, usize), y: (DataTypes, usize, usize), z: (DataTypes, usize, usize))
    ensures
        !ranks_above(x, x),
        ranks_above(x, y) ==> !ranks_above(y, x),
        x.0 != y.0 ==> ranks_above(x, y) || ranks_above(y, x),
        ranks_above(x, y) && ranks_above(y, z) ==> ranks_above(x, z),
{
}

/// Whether prediction `x` ranks above prediction `y`.
fn prediction_ranks_above(x: (DataTypes, usize, usize), y: (DataTypes, usize, usize)) -> (r: bool)
    ensures
        r == ranks_above(x, y),
{
    if x.1 != y.1 {
        x.1 > y.1
    } else if x.2 != y.2 {
        x.2 < y.2
    } else {
        match InvertedIndex::element_ordering(x.0, y.0) {
            Ordering::Less => true,
            _ => false,
        }
    }
}

/// The prediction entry of the `j`-th counted symbol.
pub open spec fn entry_of(t: CPT, counts: Seq<(DataTypes, usize)>, j: int) -> (DataTypes, usize, usize) {
    (counts[j].0, counts[j].1, t.inverted_index.bag(counts[j].0).len() as usize)
}

/// Inserts `x` into the ranked list `out` at its place.
fn insert_ranked(out: &mut Vec<(DataTypes, usize, usize)>, x: (DataTypes, usize, usize))
    requires
        forall|a: int, b: int| 0 <= a < b < old(out)@.len() ==> ranks_above(#[trigger] old(out)@[a], #[trigger] old(out)@[b]),
        forall|e: int| 0 <= e < old(out)@.len() ==> (#[trigger] old(out)@[e]).0 != x.0,
    ensures
        forall|a: int, b: int| 0 <= a < b < final(out)@.len() ==> ranks_above(#[trigger] final(out)@[a], #[trigger] final(out)@[b]),
        forall|y: (DataTypes, usize, usize)| #[trigger] final(out)@.contains(y) <==> (old(out)@.contains(y) || y == x),
{
    let mut pos: usize = 0;
    while pos < out.len() && !prediction_ranks_above(x, out[pos])
        invariant
            pos <= out@.len(),
            forall|a: int| 0 <= a < pos ==> !ranks_above(x, #[trigger] out@[a]),
        decreases out@.len() - pos,
    {
        pos = pos + 1;
    }
    let ghost old_out = out@;
    out.insert(pos, x);
    proof {
        assert(out@ == old_out.insert(pos as int, x));
        assert forall|a: int, b: int| 0 <= a < b < out@.len() implies ranks_above(#[trigger] out@[a], #[trigger] out@[b]) by {
            if a != pos && b != pos {
                let a0 = if a < pos { a } else { a - 1 };
                let b0 = if b < pos { b } else { b - 1 };
                assert(out@[a] == old_out[a0]);
                assert(out@[b] == old_out[b0]);
            } else if b == pos {
                assert(out@[a] == old_out[a]);
                lemma_ranks_above(x, old_out[a], x);
            } else {
                assert(out@[b] == old_out[b - 1]);
                assert(ranks_above(x, old_out[pos as int]));
                lemma_ranks_above(x, old_out[pos as int], old_out[b - 1]);
            }
        }
        assert forall|y: (DataTypes, usize, usize)| #[trigger] out@.contains(y) <==> (old_out.contains(y) || y == x) by {
            if out@.contains(y) {
                let e = choose|e: int| 0 <= e < out@.len() && out@[e] == y;
                if e < pos {
                    assert(old_out[e] == y);
                } else if e > pos {
                    assert(old_out[e - 1] == y);
                }
            }
            if old_out.contains(y) {
                let e = choose|e: int| 0 <= e < old_out.len() && old_out[e] == y;
                if e < pos {
                    assert(out@[e] == y);
                } else {
                    assert(out@[e + 1] == y);
                }
            }
            if y == x {
                assert(out@[pos as int] == x);
            }
        }
    }
}

/// Whether `d` occurs in `v`.
fn contains(v: &[DataTypes], d: DataTypes) -> (r: bool)
    ensures
        r == v@.contains(d),
{
    let mut i: usize = 0;
    while i < v.len()
        invariant
            i <= v@.len(),
            forall|k: int| 0 <= k < i ==> v@[k] != d,
        decreases v@.len() - i,
    {
        if v[i] == d {
            return true;
        }
        i = i + 1;
    }
    false
}

impl CPT {
    /// Whether node `n`, or one of its ancestors, holds a symbol of `p`.
    fn reaches_prefix(&self, n: NodeId, p: &[DataTypes]) -> (r: bool)
        requires
            self.wf(),
            self.valid_id(n),
        ensures
            r == reaches(self.arena(), n, p@),
    {
        let mut cur = n;
        while cur.index1 >= 1
            invariant
                self.wf(),
                self.valid_id(cur),
                reaches(self.arena(), n, p@) == reaches(self.arena(), cur, p@),
            decreases cur.index1,
        {
            let node = &self.nodes[cur.index0()];
            assert(node@ == self.arena()[cur.pos()]);
            match node.data {
                Some(d) => {
                    if contains(p, d) {
                        return true;
                    }
                },
                None => {},
            }
            match node.parent {
                Some(q) => {
                    proof {
                        if cur.pos() >= 1 {
                            self.lemma_parent_in_range(cur.pos());
                        }
                    }
                    cur = q;
                },
                None => {
                    return false;
                },
            }
        }
        false
    }

    /// Adds to `counts` the symbols of the consequent of the sequence ending at `term`.
    fn tally_consequent(&self, counts: &mut Vec<(DataTypes, usize)>, term: NodeId, s: &[DataTypes]) -> (r: Result<
        (),
        DataTypes,
    >)
        requires
            self.wf(),
            self.valid_id(term),
            keys_unique(old(counts)@),
            forall|j: int| 0 <= j < old(counts)@.len() ==> (#[trigger] old(counts)@[j]).1 > 0,
            forall|j: int| 0 <= j < old(counts)@.len() ==> self.inverted_index.has((#[trigger] old(counts)@[j]).0),
        ensures
            match r {
                Ok(_) => {
                    &&& keys_unique(final(counts)@)
                    &&& forall|j: int| 0 <= j < final(counts)@.len() ==> (#[trigger] final(counts)@[j]).1 > 0
                    &&& forall|j: int|
                        0 <= j < final(counts)@.len() ==> self.inverted_index.has((#[trigger] final(counts)@[j]).0)
                    &&& forall|d: DataTypes|
                        #[trigger] tally(final(counts)@, d) == tally(old(counts)@, d) + count(
                            consequent(self.arena(), term, s@),
                            d,
                        )
                },
                Err(d) => tally(old(counts)@, d) + count(consequent(self.arena(), term, s@), d) > usize::MAX,
            },
    {
        let ghost a = self.arena();
        let ghost c0 = counts@;
        let mut cur = term;
        let mut going = true;
        proof {
            self.lemma_index_consistent();
        }
        while going && cur.index1 >= 2
            invariant
                self.wf(),
                self.valid_id(cur),
                a == self.arena(),
                c0 == old(counts)@,
                keys_unique(counts@),
                forall|j: int| 0 <= j < counts@.len() ==> (#[trigger] counts@[j]).1 > 0,
                forall|j: int| 0 <= j < counts@.len() ==> self.inverted_index.has((#[trigger] counts@[j]).0),
                forall|i2: int|
                    1 <= i2 < a.len() ==> self.inverted_index.has((#[trigger] a[i2]).data.unwrap()),
                forall|d: DataTypes|
                    #[trigger] tally(counts@, d) + (if going { count(consequent(a, cur, s@), d) } else { 0 })
                        == tally(c0, d) + count(consequent(a, term, s@), d),
            decreases 2 * (cur.index1 as int) + if going {
                1int
            } else {
                0int
            },
        {
            proof {
                self.lemma_parent_in_range(cur.pos());
            }
            let node = &self.nodes[cur.index0()];
            assert(node@ == a[cur.pos()]);
            let d0 = match node.data {
                Some(d) => d,
                None => s[0],
            };
            let ghost rest = match a[cur.pos()].parent {
                Some(q) => if 0 <= q.pos() < cur.pos() {
                    consequent(a, q, s@)
                } else {
                    Seq::empty()
                },
                None => Seq::empty(),
            };
            if contains(s, d0) {
                assert(consequent(a, cur, s@) =~= Seq::<DataTypes>::empty());
                going = false;
            } else {
                assert(consequent(a, cur, s@) == seq![d0] + rest);
                assert((seq![d0] + rest).drop_first() =~= rest);
                assert(forall|d: DataTypes| #[trigger] count(consequent(a, cur, s@), d) == (if d0 == d { 1int } else { 0int }) + count(rest, d));
                let ghost pre_counts = counts@;
                let mut j: usize = 0;
                while j < counts.len() && counts[j].0 != d0
                    invariant
                        j <= counts@.len(),
                        forall|k: int| 0 <= k < j ==> (#[trigger] counts@[k]).0 != d0,
                    decreases counts@.len() - j,
                {
                    j = j + 1;
                }
                let ghost before = counts@;
                if j < counts.len() {
                    let c = counts[j].1;
                    assert(before[j as int].0 == d0);
                    proof {
                        lemma_tally_unique(before, j as int);
                    }
                    assert(tally(before, d0) == c);
                    if c == usize::MAX {
                        proof {
                            lemma_count_nonneg(rest, d0);
                            assert(tally(counts@, d0) + count(consequent(a, cur, s@), d0) == tally(c0, d0) + count(consequent(a, term, s@), d0));
                            assert(count(consequent(a, cur, s@), d0) >= 1);
                            assert(tally(counts@, d0) == usize::MAX);
                            assert(tally(c0, d0) + count(consequent(a, term, s@), d0) > usize::MAX);
                            assert(c0 == old(counts)@);
                        }
                        return Err(d0);
                    }
                    counts.set(j, (d0, c + 1));
                    proof {
                        assert forall|d: DataTypes| #[trigger] tally(counts@, d) == tally(before, d) + if d == d0 { 1int } else { 0int } by {
                            lemma_tally_update(before, j as int, (c + 1) as usize, d);
                        }
                        assert forall|a2: int, b2: int| 0 <= a2 < b2 < counts@.len() implies (#[trigger] counts@[a2]).0 != (#[trigger] counts@[b2]).0 by {
                            assert(counts@[a2].0 == before[a2].0);
                            assert(counts@[b2].0 == before[b2].0);
                        }
                    }
                } else {
                    proof {
                        lemma_tally_absent(before, d0);
                    }
                    counts.push((d0, 1));
                    proof {
                        assert(counts@.drop_last() =~= before);
                        assert forall|d: DataTypes| #[trigger] tally(counts@, d) == tally(before, d) + if d == d0 { 1int } else { 0int } by {}
                        assert forall|a2: int, b2: int| 0 <= a2 < b2 < counts@.len() implies (#[trigger] counts@[a2]).0 != (#[trigger] counts@[b2]).0 by {
                            if b2 < before.len() {
                                assert(counts@[a2] == before[a2]);
                                assert(counts@[b2] == before[b2]);
                            } else {
                                assert(counts@[a2] == before[a2]);
                            }
                        }
                    }
                }
                proof {
                    assert forall|j2: int| 0 <= j2 < counts@.len() implies self.inverted_index.has((#[trigger] counts@[j2]).0) by {
                        if j2 < before.len() && counts@[j2].0 != d0 {
                            assert(counts@[j2].0 == before[j2].0);
                        }
                    }
                    assert forall|j2: int| 0 <= j2 < counts@.len() implies (#[trigger] counts@[j2]).1 > 0 by {
                        if j2 < before.len() && j2 != j {
                            assert(counts@[j2] == before[j2]);
                        }
                    }
                }
                let ghost old_cur = cur;
                match node.parent {
                    Some(q) => {
                        cur = q;
                    },
                    None => {
                        going = false;
                    },
                }
                proof {
                    assert(going ==> consequent(a, cur, s@) == rest);
                    assert forall|d: DataTypes| #[trigger] tally(counts@, d) + (if going { count(consequent(a, cur, s@), d) } else { 0 })
                        == tally(c0, d) + count(consequent(a, term, s@), d) by {
                        assert(tally(counts@, d) == tally(pre_counts, d) + if d == d0 { 1int } else { 0int });
                        assert(tally(pre_counts, d) + count(consequent(a, old_cur, s@), d) == tally(c0, d) + count(consequent(a, term, s@), d));
                    }
                }
            }
        }
        proof {
            if going {
                assert(consequent(a, cur, s@) =~= Seq::<DataTypes>::empty());
            }
        }
        Ok(())
    }

    /// Predicts the symbols that may follow `sequence`. The last
    /// `prefix_length` symbols are the prefix. A trained sequence is matched
    /// when its terminal node is a leaf that holds, or descends from a node
    /// that holds, a symbol of the prefix. The lookup table is read position
    /// by position rather than binary-searched, as it is kept in training
    /// order and need not be sorted: each position whose terminal is such a
    /// leaf counts, so a sequence trained twice counts twice. Each matched sequence contributes the symbols from its
    /// end back to (and without) the first symbol that occurs anywhere in
    /// `sequence`, or back to the root. The result lists each symbol with
    /// nonzero support as `(symbol, support, occurrences)`: how often it was
    /// contributed, and how many nodes of the tree hold it. The confidence
    /// is support over occurrences. The list is ranked by support, then
    /// confidence, then symbol.
    pub fn predict(&self, sequence: &[DataTypes], prefix_length: usize) -> (r: Result<
        Vec<(DataTypes, usize, usize)>,
        PredictError,
    >)
        requires
            self.wf(),
        ensures
            prefix_length > sequence@.len() ==> r == Err::<Vec<(DataTypes, usize, usize)>, PredictError>(
                PredictError::PrefixTooLong,
            ),
            prefix_length <= sequence@.len() ==> match r {
                Ok(v) => {
                    &&& is_prediction(*self, sequence@, prefix_length as int, v@)
                    &&& forall|d: DataTypes| #[trigger] support(*self, sequence@, prefix_length as int, d) <= usize::MAX
                },
                Err(e) => e == PredictError::SupportOverflow && exists|d: DataTypes|
                    #[trigger] support(*self, sequence@, prefix_length as int, d) > usize::MAX,
            },
    {
        if prefix_length > sequence.len() {
            return Err(PredictError::PrefixTooLong);
        }
        let ghost s = sequence@;
        let ghost k = prefix_length as int;
        let start = sequence.len() - prefix_length;
        let mut prefix: Vec<DataTypes> = Vec::new();
        let mut i: usize = start;
        while i < sequence.len()
            invariant
                start <= i <= s.len(),
                s == sequence@,
                prefix@ == s.subrange(start as int, i as int),
            decreases s.len() - i,
        {
            prefix.push(sequence[i]);
            assert(prefix@ =~= s.subrange(start as int, i as int + 1));
            i = i + 1;
        }
        let ghost p = prefix@;
        assert(p == prefix_of(s, k));
        let mut counts: Vec<(DataTypes, usize)> = Vec::new();
        let mut i: usize = 0;
        while i < self.sequences_lookup_table.len()
            invariant
                self.wf(),
                s == sequence@,
                p == prefix@,
                p == prefix_of(s, k),
                k == prefix_length,
                prefix_length <= s.len(),
                i <= self.sequences_lookup_table@.len(),
                keys_unique(counts@),
                forall|j: int| 0 <= j < counts@.len() ==> (#[trigger] counts@[j]).1 > 0,
                forall|j: int| 0 <= j < counts@.len() ==> self.inverted_index.has((#[trigger] counts@[j]).0),
                forall|d: DataTypes| #[trigger] tally(counts@, d) == support_upto(*self, s, p, d, i as int),
            decreases self.sequences_lookup_table@.len() - i,
        {
            let term = self.sequences_lookup_table[i];
            assert(self.valid_id(self.sequences_lookup_table@[i as int]));
            let leaf = self.nodes[term.index0()].children.len() == 0;
            assert(self.nodes@[term.pos()]@ == self.arena()[term.pos()]);
            if leaf && self.reaches_prefix(term, &prefix) {
                assert(matched(*self, i as int, p));
                let ghost before = counts@;
                match self.tally_consequent(&mut counts, term, sequence) {
                    Ok(()) => {},
                    Err(d) => {
                        proof {
                            lemma_support_mono(*self, s, p, d, i as int + 1, self.sequences_lookup_table@.len() as int);
                            assert(support(*self, s, k, d) > usize::MAX);
                        }
                        return Err(PredictError::SupportOverflow);
                    },
                }
            } else {
                assert(!matched(*self, i as int, p));
            }
            i = i + 1;
        }
        assert forall|d: DataTypes| #[trigger] tally(counts@, d) == support(*self, s, k, d) by {}
        let mut out: Vec<(DataTypes, usize, usize)> = Vec::new();
        let mut j: usize = 0;
        while j < counts.len()
            invariant
                self.wf(),
                j <= counts@.len(),
                keys_unique(counts@),
                forall|j2: int| 0 <= j2 < counts@.len() ==> (#[trigger] counts@[j2]).1 > 0,
                forall|j2: int| 0 <= j2 < counts@.len() ==> self.inverted_index.has((#[trigger] counts@[j2]).0),
                s == sequence@,
                forall|d: DataTypes| #[trigger] tally(counts@, d) == support(*self, s, k, d),
                forall|j2: int| 0 <= j2 < j ==> self.inverted_index.bag((#[trigger] counts@[j2]).0).len() <= usize::MAX,
                forall|x: (DataTypes, usize, usize)|
                    #[trigger] out@.contains(x) <==> exists|j2: int|
                        0 <= j2 < j && x == #[trigger] entry_of(*self, counts@, j2),
                forall|a: int, b: int| 0 <= a < b < out@.len() ==> ranks_above(#[trigger] out@[a], #[trigger] out@[b]),
            decreases counts@.len() - j,
        {
            let (d, c) = counts[j];
            assert(self.inverted_index.has(d));
            let occ = match self.inverted_index.get_value_ids(d) {
                Some(b) => b.len(),
                None => 0,
            };
            assert(occ == self.inverted_index.bag(d).len());
            let x = (d, c, occ);
            assert(x == entry_of(*self, counts@, j as int));
            proof {
                assert forall|e: int| 0 <= e < out@.len() implies (#[trigger] out@[e]).0 != d by {
                    assert(out@.contains(out@[e]));
                    let j2 = choose|j2: int| 0 <= j2 < j && out@[e] == #[trigger] entry_of(*self, counts@, j2);
                    assert(counts@[j2].0 != counts@[j as int].0);
                }
            }
            let ghost old_out = out@;
            insert_ranked(&mut out, x);
            proof {
                assert forall|y: (DataTypes, usize, usize)|
                    #[trigger] out@.contains(y) <==> exists|j2: int|
                        0 <= j2 < j + 1 && y == #[trigger] entry_of(*self, counts@, j2) by {
                    if out@.contains(y) && y != x {
                        assert(old_out.contains(y));
                    }
                    if exists|j2: int| 0 <= j2 < j + 1 && y == #[trigger] entry_of(*self, counts@, j2) {
                        let j2 = choose|j2: int| 0 <= j2 < j + 1 && y == #[trigger] entry_of(*self, counts@, j2);
                        if j2 < j {
                            assert(old_out.contains(y));
                        }
                    }
                }
            }
            j = j + 1;
        }
        proof {
            let v = out@;
            assert forall|e: int| 0 <= e < v.len() implies {
                &&& (#[trigger] v[e]).1 == support(*self, s, k, v[e].0)
                &&& v[e].1 > 0
                &&& v[e].2 == self.inverted_index.bag(v[e].0).len()
            } by {
                assert(v.contains(v[e]));
                let j2 = choose|j2: int| 0 <= j2 < counts@.len() && v[e] == #[trigger] entry_of(*self, counts@, j2);
                lemma_tally_unique(counts@, j2);
            }
            assert forall|d: DataTypes| #[trigger] support(*self, s, k, d) > 0 implies exists|e: int|
                0 <= e < v.len() && v[e].0 == d by {
                if forall|j2: int| 0 <= j2 < counts@.len() ==> (#[trigger] counts@[j2]).0 != d {
                    lemma_tally_absent(counts@, d);
                }
                let j2 = choose|j2: int| 0 <= j2 < counts@.len() && (#[trigger] counts@[j2]).0 == d;
                let y = entry_of(*self, counts@, j2);
                assert(v.contains(y));
                let e = choose|e: int| 0 <= e < v.len() && v[e] == y;
            }
            assert forall|d: DataTypes| #[trigger] support(*self, s, k, d) <= usize::MAX by {
                if forall|j2: int| 0 <= j2 < counts@.len() ==> (#[trigger] counts@[j2]).0 != d {
                    lemma_tally_absent(counts@, d);
                } else {
                    let j2 = choose|j2: int| 0 <= j2 < counts@.len() && (#[trigger] counts@[j2]).0 == d;
                    lemma_tally_unique(counts@, j2);
                }
            }
        }
        Ok(out)
    }
}

} // verus!
