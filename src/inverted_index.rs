//! The inverted index: for each distinct symbol in the tree, the ids of the
//! nodes that hold it.

use crate::data_types::{
    comparable, order_of, similarity, DataTypes, ScoreError, SequenceMatchFunction,
    SimilarityScores,
};
use crate::matching::{
    all_strict, is_all_strict, lemma_similar_strict, anchor_scores_for, copy_scores, incomparable_with, path_view, similar_from, step_view,
    NodeMatchResult, StepView,
};
use crate::nodes::{Node, NodeId};
use std::cmp::Ordering;
use vstd::prelude::*;

verus! {

/// Two parallel lists: the distinct symbols in ascending order, and for each
/// one the ids of the nodes holding it, in insertion order.
#[derive(Debug)]
pub struct InvertedIndex {
    values: Vec<DataTypes>,
    node_ids: Vec<Vec<NodeId>>,
}

/// Two lists that form an index: as many bags as symbols, the symbols
/// strictly ascending, no bag empty.
pub open spec fn parts_ok(keys: Seq<DataTypes>, bags: Seq<Seq<NodeId>>) -> bool {
    &&& keys.len() == bags.len()
    &&& forall|i: int, j: int| 0 <= i < j < keys.len() ==> (#[trigger] keys[i]).precedes(#[trigger] keys[j])
    &&& forall|i: int| 0 <= i < bags.len() ==> (#[trigger] bags[i]).len() > 0
}

/// The lists of a well-formed index form an index again, so that taking an
/// index apart with `values` and `node_ids` and putting it back together
/// with `from_parts` gives the same index.
pub proof fn lemma_parts_round_trip(ix: InvertedIndex)
    requires
        ix.wf(),
    ensures
        parts_ok(ix.keys(), ix.bags()),
{
}

impl InvertedIndex {
    /// The distinct symbols, ascending.
    pub closed spec fn keys(&self) -> Seq<DataTypes> {
        self.values@
    }

    /// The bag of node ids of each symbol, parallel to `keys`.
    pub closed spec fn bags(&self) -> Seq<Seq<NodeId>> {
        self.node_ids@.map_values(|b: Vec<NodeId>| b@)
    }

    /// Keys strictly ascending, one non-empty bag per key.
    pub open spec fn wf(&self) -> bool {
        &&& self.keys().len() == self.bags().len()
        &&& forall|i: int, j: int|
            0 <= i < j < self.keys().len() ==> (#[trigger] self.keys()[i]).precedes(
                #[trigger] self.keys()[j],
            )
        &&& forall|i: int| 0 <= i < self.bags().len() ==> (#[trigger] self.bags()[i]).len() > 0
    }

    /// The scored lookup where every metric is `StrictEqual`: the nodes
    /// holding `value` itself, found by binary search.
    fn get_equal_value_ids(&self, sequence_match_functions: &[SequenceMatchFunction], value: DataTypes) -> (r: Result<
        Vec<NodeMatchResult>,
        ScoreError,
    >)
        requires
            self.wf(),
            sequence_match_functions@.len() > 0,
            all_strict(sequence_match_functions@),
        ensures
            match r {
                Ok(v) => {
                    &&& !incomparable_with(self.keys(), sequence_match_functions@, value)
                    &&& path_view(v) == self.similar(sequence_match_functions@, value)
                    &&& forall|k: int|
                        0 <= k < v@.len() ==> exists|i: int|
                            0 <= i < self.keys().len() && self.bag(self.keys()[i]).contains(
                                (#[trigger] v@[k]).0,
                            )
                },
                Err(e) => false,
            },
    {
        let ghost mfs = sequence_match_functions@;
        assert(!incomparable_with(self.keys(), mfs, value)) by {
            if incomparable_with(self.keys(), mfs, value) {
                let (i, j) = choose|i: int, j: int|
                    0 <= i < self.keys().len() && 0 <= j < mfs.len() && !comparable(mfs[j], #[trigger] self.keys()[i], value)
                        && #[trigger] mfs[j] == mfs[j];
                assert(mfs[j] == SequenceMatchFunction::StrictEqual);
            }
        }
        let sc = match anchor_scores_for(sequence_match_functions, value, value) {
            Ok(v) => v,
            Err(e) => {
                proof {
                    let j = choose|j: int| 0 <= j < mfs.len() && !comparable(#[trigger] mfs[j], value, value);
                    assert(mfs[j] == SequenceMatchFunction::StrictEqual);
                }
                return Err(e);
            },
        };
        proof {
            assert(self.keys().no_duplicates()) by {
                assert forall|a: int, b: int| 0 <= a < b < self.keys().len() implies self.keys()[a] != self.keys()[b] by {
                    assert(self.keys()[a].precedes(self.keys()[b]));
                }
            }
            lemma_similar_strict(self.keys(), self.bags(), mfs, value);
        }
        let mut out: Vec<NodeMatchResult> = Vec::new();
        match self.get_value_ids(value) {
            Some(bag) => {
                let ghost b = bag@;
                let ghost i = self.keys().index_of(value);
                assert(self.keys()[i] == value);
                assert(self.bag(value) == self.bags()[i]);
                let mut j: usize = 0;
                while j < bag.len()
                    invariant
                        j <= b.len(),
                        bag@ == b,
                        0 <= i < self.keys().len(),
                        self.keys()[i] == value,
                        self.bag(value) == b,
                        out@.len() == j,
                        path_view(out) == b.take(j as int).map_values(|id: NodeId| (id, sc@)),
                        forall|k: int|
                            0 <= k < out@.len() ==> exists|i2: int|
                                0 <= i2 < self.keys().len() && self.bag(self.keys()[i2]).contains(
                                    (#[trigger] out@[k]).0,
                                ),
                    decreases b.len() - j,
                {
                    let ghost before = out@;
                    let ghost pv = path_view(out);
                    out.push((bag[j], copy_scores(&sc)));
                    proof {
                        assert forall|k: int| 0 <= k < before.len() implies path_view(out)[k] == pv[k] by {
                            assert(out@[k] == before[k]);
                        }
                        assert(path_view(out)[before.len() as int] == (b[j as int], sc@));
                        assert(path_view(out) =~= pv.push((b[j as int], sc@)));
                        assert(b.take(j as int + 1).map_values(|id: NodeId| (id, sc@)) =~= b.take(j as int).map_values(
                            |id: NodeId| (id, sc@),
                        ).push((b[j as int], sc@)));
                        assert forall|k: int| 0 <= k < out@.len() implies exists|i2: int|
                            0 <= i2 < self.keys().len() && self.bag(self.keys()[i2]).contains((#[trigger] out@[k]).0) by {
                            if k < before.len() {
                                assert(out@[k] == before[k]);
                            } else {
                                assert(self.bag(self.keys()[i])[j as int] == out@[k].0);
                            }
                        }
                    }
                    j = j + 1;
                }
                assert(b.take(b.len() as int) =~= b);
            },
            None => {
                assert(path_view(out) =~= Seq::<StepView>::empty());
            },
        }
        Ok(out)
    }

    /// Whether some node holds `d`.
    pub open spec fn has(&self, d: DataTypes) -> bool {
        self.keys().contains(d)
    }

    /// The ids of the nodes holding `d`, empty where none does.
    pub open spec fn bag(&self, d: DataTypes) -> Seq<NodeId> {
        if self.has(d) {
            self.bags()[self.keys().index_of(d)]
        } else {
            Seq::empty()
        }
    }

    /// The nodes a lookup of `q` under `mfs` finds, with their scores.
    pub open spec fn similar(&self, mfs: Seq<SequenceMatchFunction>, q: DataTypes) -> Seq<StepView> {
        similar_from(self.keys(), self.bags(), mfs, q)
    }

    /// The distinct symbols, ascending.
    pub fn values(&self) -> (r: &Vec<DataTypes>)
        ensures
            r@ == self.keys(),
    {
        &self.values
    }

    /// The bag of node ids of each symbol, parallel to `values`.
    pub fn node_ids(&self) -> (r: &Vec<Vec<NodeId>>)
        ensures
            r@.map_values(|b: Vec<NodeId>| b@) == self.bags(),
    {
        &self.node_ids
    }

    /// The index made of `values` and `node_ids`, where they form one:
    /// as many bags as symbols, the symbols strictly ascending, no bag empty.
    pub fn from_parts(values: Vec<DataTypes>, node_ids: Vec<Vec<NodeId>>) -> (r: Option<InvertedIndex>)
        ensures
            match r {
                Some(ix) => ix.wf() && ix.keys() == values@ && ix.bags() == node_ids@.map_values(
                    |b: Vec<NodeId>| b@,
                ),
                None => !parts_ok(values@, node_ids@.map_values(|b: Vec<NodeId>| b@)),
            },
    {
        let ghost bags = node_ids@.map_values(|b: Vec<NodeId>| b@);
        if values.len() != node_ids.len() {
            return None;
        }
        let mut i: usize = 0;
        while i < values.len()
            invariant
                values@.len() == node_ids@.len(),
                bags == node_ids@.map_values(|b: Vec<NodeId>| b@),
                i <= values@.len(),
                forall|a: int, b: int| 0 <= a < b <= i && b < values@.len() ==> (#[trigger] values@[a]).precedes(
                    #[trigger] values@[b],
                ),
                forall|a: int| 0 <= a < i ==> (#[trigger] bags[a]).len() > 0,
            decreases values@.len() - i,
        {
            if node_ids[i].len() == 0 {
                assert(bags[i as int].len() == 0);
                return None;
            }
            if i + 1 < values.len() {
                match values[i].ordering(values[i + 1]) {
                    Ordering::Less => {},
                    _ => {
                        assert(!values@[i as int].precedes(values@[i + 1]));
                        return None;
                    },
                }
                assert forall|a: int, b: int| 0 <= a < b <= i + 1 && b < values@.len() implies (
                #[trigger] values@[a]).precedes(#[trigger] values@[b]) by {
                    if b == i + 1 && a < i {
                        assert(values@[a].precedes(values@[i as int]));
                    }
                }
            }
            i = i + 1;
        }
        let r = InvertedIndex { values, node_ids };
        assert(r.keys() == values@);
        assert(r.bags() == bags);
        Some(r)
    }

    /// Whether the index is well formed: symbols strictly ascending, one
    /// non-empty bag per symbol.
    pub fn is_well_formed(&self) -> (r: bool)
        ensures
            r == self.wf(),
    {
        if self.values.len() != self.node_ids.len() {
            return false;
        }
        let mut i: usize = 0;
        while i < self.values.len()
            invariant
                self.values@.len() == self.node_ids@.len(),
                i <= self.keys().len(),
                forall|a: int, b: int|
                    0 <= a < b <= i && b < self.keys().len() ==> (#[trigger] self.keys()[a]).precedes(
                        #[trigger] self.keys()[b],
                    ),
                forall|a: int| 0 <= a < i ==> (#[trigger] self.bags()[a]).len() > 0,
            decreases self.keys().len() - i,
        {
            if self.node_ids[i].len() == 0 {
                assert(self.bags()[i as int].len() == 0);
                return false;
            }
            if i + 1 < self.values.len() {
                match self.values[i].ordering(self.values[i + 1]) {
                    Ordering::Less => {},
                    _ => {
                        assert(!self.keys()[i as int].precedes(self.keys()[i + 1]));
                        return false;
                    },
                }
                assert forall|a: int, b: int| 0 <= a < b <= i + 1 && b < self.keys().len() implies (
                #[trigger] self.keys()[a]).precedes(#[trigger] self.keys()[b]) by {
                    if b == i + 1 && a < i {
                        assert(self.keys()[a].precedes(self.keys()[i as int]));
                    }
                }
            }
            i = i + 1;
        }
        true
    }

    /// Whether every node id the index lists denotes a node of `nodes`
    /// other than the first, holding the symbol it is listed under, and no
    /// bag lists a node twice.
    pub fn lists_only_holders(&self, nodes: &Vec<Node>) -> (r: bool)
        requires
            self.wf(),
        ensures
            r == ((forall|d: DataTypes, k: int|
                0 <= k < self.bag(d).len() ==> {
                    &&& 1 <= (#[trigger] self.bag(d)[k]).pos() < nodes@.len()
                    &&& nodes@[self.bag(d)[k].pos()]@.data == Some(d)
                }) && (forall|d: DataTypes| (#[trigger] self.bag(d)).no_duplicates())),
    {
        let mut j: usize = 0;
        while j < self.values.len()
            invariant
                self.wf(),
                j <= self.keys().len(),
                forall|j2: int, k: int|
                    0 <= j2 < j && 0 <= k < self.bags()[j2].len() ==> {
                        &&& 1 <= (#[trigger] self.bags()[j2][k]).pos() < nodes@.len()
                        &&& nodes@[self.bags()[j2][k].pos()]@.data == Some(self.keys()[j2])
                    },
                forall|j2: int| 0 <= j2 < j ==> (#[trigger] self.bags()[j2]).no_duplicates(),
            decreases self.keys().len() - j,
        {
            let d = self.values[j];
            let bag = &self.node_ids[j];
            let ghost b = self.bags()[j as int];
            assert(bag@ == b);
            proof {
                self.lemma_index_of(j as int);
            }
            let mut k: usize = 0;
            while k < bag.len()
                invariant
                    bag@ == b,
                    self.bag(d) == b,
                    k <= b.len(),
                    forall|k2: int| 0 <= k2 < k ==> {
                        &&& 1 <= (#[trigger] b[k2]).pos() < nodes@.len()
                        &&& nodes@[b[k2].pos()]@.data == Some(d)
                    },
                    forall|x: int, y: int| 0 <= x < y < k ==> b[x] != b[y],
                decreases b.len() - k,
            {
                let e = bag[k];
                if e.index1 < 2 || e.index1 > nodes.len() {
                    proof {
                        assert(self.bag(d)[k as int] == e);
                    }
                    return false;
                }
                let held = nodes[e.index1 - 1].data;
                assert(held == nodes@[e.pos()]@.data);
                match held {
                    Some(h) => {
                        if h != d {
                            assert(self.bag(d)[k as int] == e);
                            return false;
                        }
                    },
                    None => {
                        assert(self.bag(d)[k as int] == e);
                        return false;
                    },
                }
                let mut k2: usize = 0;
                while k2 < k
                    invariant
                        bag@ == b,
                        self.bag(d) == b,
                        k < b.len(),
                        e == b[k as int],
                        k2 <= k,
                        forall|x: int| 0 <= x < k2 ==> b[x] != e,
                    decreases k - k2,
                {
                    if bag[k2] == e {
                        proof {
                            assert(!self.bag(d).no_duplicates()) by {
                                assert(self.bag(d)[k2 as int] == self.bag(d)[k as int]);
                            }
                        }
                        return false;
                    }
                    k2 = k2 + 1;
                }
                k = k + 1;
            }
            j = j + 1;
        }
        proof {
            assert forall|d: DataTypes, k: int| 0 <= k < self.bag(d).len() implies {
                &&& 1 <= (#[trigger] self.bag(d)[k]).pos() < nodes@.len()
                &&& nodes@[self.bag(d)[k].pos()]@.data == Some(d)
            } by {
                let j2 = self.keys().index_of(d);
                assert(self.keys()[j2] == d);
                self.lemma_index_of(j2);
                assert(self.bags()[j2][k] == self.bag(d)[k]);
            }
            assert forall|d: DataTypes| (#[trigger] self.bag(d)).no_duplicates() by {
                if self.has(d) {
                    let j2 = self.keys().index_of(d);
                    assert(self.keys()[j2] == d);
                    self.lemma_index_of(j2);
                }
            }
        }
        true
    }

    /// An empty index.
    pub fn new() -> (r: InvertedIndex)
        ensures
            r.wf(),
            r.keys().len() == 0,
    {
        InvertedIndex { values: Vec::new(), node_ids: Vec::new() }
    }

    /// The order the index keeps its symbols in.
    pub fn element_ordering(a: DataTypes, b: DataTypes) -> (r: Ordering)
        ensures
            r == order_of(a, b),
    {
        a.ordering(b)
    }

    /// Whether two symbols are the same key of the index.
    pub fn insert_element_matching(a: DataTypes, b: DataTypes) -> (r: bool)
        ensures
            r == (a == b),
    {
        let o = InvertedIndex::element_ordering(a, b);
        match o {
            Ordering::Equal => true,
            _ => false,
        }
    }

    /// Scores a stored symbol `a` against a queried symbol `b` under `match_function`.
    pub fn element_matching(match_function: SequenceMatchFunction, a: DataTypes, b: DataTypes) -> (r:
        Result<SimilarityScores, ScoreError>)
        ensures
            r == (if comparable(match_function, a, b) {
                Ok::<SimilarityScores, ScoreError>(similarity(match_function, a, b))
            } else {
                Err(ScoreError::Incomparable)
            }),
    {
        a.compute_similarity(match_function, b)
    }

    /// Every node holding a symbol that scores against `value` under some
    /// metric of `sequence_match_functions`, with those scores, in key order.
    /// `StrictEqual` scores equal symbols only; the other metrics score every
    /// symbol. A metric that cannot compare some stored symbol with `value`
    /// is refused.
    pub fn get_similar_value_ids(
        &self,
        sequence_match_functions: &[SequenceMatchFunction],
        value: DataTypes,
    ) -> (r: Result<Vec<NodeMatchResult>, ScoreError>)
        requires
            self.wf(),
        ensures
            match r {
                Ok(v) => {
                    &&& !incomparable_with(self.keys(), sequence_match_functions@, value)
                    &&& path_view(v) == self.similar(sequence_match_functions@, value)
                    &&& forall|k: int|
                        0 <= k < v@.len() ==> exists|i: int|
                            0 <= i < self.keys().len() && self.bag(self.keys()[i]).contains(
                                (#[trigger] v@[k]).0,
                            )
                },
                Err(e) => e == ScoreError::Incomparable && incomparable_with(
                    self.keys(),
                    sequence_match_functions@,
                    value,
                ),
            },
    {
        let ghost mfs = sequence_match_functions@;
        if sequence_match_functions.len() > 0 && is_all_strict(sequence_match_functions) {
            return self.get_equal_value_ids(sequence_match_functions, value);
        }
        let mut out: Vec<NodeMatchResult> = Vec::new();
        let mut i: usize = 0;
        while i < self.values.len()
            invariant
                self.wf(),
                mfs == sequence_match_functions@,
                i <= self.keys().len(),
                forall|k: int, j: int|
                    0 <= k < i && 0 <= j < mfs.len() ==> comparable(mfs[j], #[trigger] self.keys()[k], value)
                        && #[trigger] mfs[j] == mfs[j],
                forall|k: int|
                    0 <= k < out@.len() ==> exists|i2: int|
                        0 <= i2 < self.keys().len() && self.bag(self.keys()[i2]).contains((#[trigger] out@[k]).0),
                path_view(out) == similar_from(
                    self.keys().take(i as int),
                    self.bags().take(i as int),
                    mfs,
                    value,
                ),
            decreases self.keys().len() - i,
        {
            let sc = match anchor_scores_for(sequence_match_functions, self.values[i], value) {
                Ok(v) => v,
                Err(e) => {
                    proof {
                        let j = choose|j: int| 0 <= j < mfs.len() && !comparable(#[trigger] mfs[j], self.keys()[i as int], value);
                        assert(!comparable(mfs[j], self.keys()[i as int], value) && mfs[j] == mfs[j]);
                    }
                    return Err(e);
                },
            };
            let ghost pre = out@;
            let ghost base = similar_from(self.keys().take(i as int), self.bags().take(i as int), mfs, value);
            assert(self.keys().take(i as int + 1).drop_last() =~= self.keys().take(i as int));
            assert(self.bags().take(i as int + 1).drop_last() =~= self.bags().take(i as int));
            if sc.len() > 0 {
                let bag = &self.node_ids[i];
                let ghost b = self.bags()[i as int];
                assert(bag@ == b);
                proof {
                    self.lemma_index_of(i as int);
                }
                let mut j: usize = 0;
                while j < bag.len()
                    invariant
                        j <= b.len(),
                        bag@ == b,
                        i < self.keys().len(),
                        self.bag(self.keys()[i as int]) == b,
                        forall|k: int|
                            0 <= k < out@.len() ==> exists|i2: int|
                                0 <= i2 < self.keys().len() && self.bag(self.keys()[i2]).contains(
                                    (#[trigger] out@[k]).0,
                                ),
                        out@.len() == base.len() + j,
                        path_view(out) == base + b.take(j as int).map_values(|id: NodeId| (id, sc@)),
                    decreases b.len() - j,
                {
                    let ghost before = out@;
                    let ghost pv = path_view(out);
                    out.push((bag[j], copy_scores(&sc)));
                    assert forall|k: int| 0 <= k < before.len() implies path_view(out)[k] == pv[k] by {
                        assert(out@[k] == before[k]);
                    }
                    assert(b[j as int] == out@[before.len() as int].0);
                    assert forall|k: int| 0 <= k < out@.len() implies exists|i2: int|
                        0 <= i2 < self.keys().len() && self.bag(self.keys()[i2]).contains((#[trigger] out@[k]).0) by {
                        if k < before.len() {
                            assert(out@[k] == before[k]);
                        } else {
                            assert(self.bag(self.keys()[i as int])[j as int] == out@[k].0);
                        }
                    }
                    assert(path_view(out)[before.len() as int] == (b[j as int], sc@));
                    assert(path_view(out) =~= pv.push((b[j as int], sc@)));
                    assert(b.take(j as int + 1).map_values(|id: NodeId| (id, sc@)) =~= b.take(j as int).map_values(
                        |id: NodeId| (id, sc@),
                    ).push((b[j as int], sc@)));
                    assert(path_view(out) =~= base + b.take(j as int + 1).map_values(|id: NodeId| (id, sc@)));
                    j = j + 1;
                }
                assert(b.take(b.len() as int) =~= b);
            } else {
            }
            i = i + 1;
        }
        proof {
            assert(self.keys().take(self.keys().len() as int) =~= self.keys());
            assert(self.bags().take(self.bags().len() as int) =~= self.bags());
            if incomparable_with(self.keys(), mfs, value) {
                let (k, j) = choose|k: int, j: int|
                    0 <= k < self.keys().len() && 0 <= j < mfs.len() && !comparable(mfs[j], #[trigger] self.keys()[k], value)
                        && #[trigger] mfs[j] == mfs[j];
                assert(comparable(mfs[j], self.keys()[k], value));
            }
        }
        Ok(out)
    }

    /// Whether every metric of `mfs` can compare every stored symbol with `q`.
    pub fn comparable_with_keys(&self, mfs: &[SequenceMatchFunction], q: DataTypes) -> (r: bool)
        ensures
            r == !incomparable_with(self.keys(), mfs@, q),
    {
        let mut i: usize = 0;
        while i < self.values.len()
            invariant
                i <= self.keys().len(),
                forall|k: int, j: int|
                    0 <= k < i && 0 <= j < mfs@.len() ==> comparable(mfs@[j], #[trigger] self.keys()[k], q)
                        && #[trigger] mfs@[j] == mfs@[j],
            decreases self.keys().len() - i,
        {
            let mut j: usize = 0;
            while j < mfs.len()
                invariant
                    i < self.keys().len(),
                    j <= mfs@.len(),
                    forall|k: int, j2: int|
                        0 <= k < i && 0 <= j2 < mfs@.len() ==> comparable(mfs@[j2], #[trigger] self.keys()[k], q)
                            && #[trigger] mfs@[j2] == mfs@[j2],
                    forall|j2: int| 0 <= j2 < j ==> comparable(#[trigger] mfs@[j2], self.keys()[i as int], q),
                decreases mfs@.len() - j,
            {
                match self.values[i].compute_similarity(mfs[j], q) {
                    Ok(_) => {},
                    Err(_) => {
                        assert(!comparable(mfs@[j as int], self.keys()[i as int], q) && mfs@[j as int] == mfs@[j as int]);
                        return false;
                    },
                }
                j = j + 1;
            }
            i = i + 1;
        }
        true
    }

    /// Binary search for `value`: `Ok(i)` where `keys[i] == value`, else
    /// `Err(i)` where `i` is the position that keeps the keys ascending.
    fn search(&self, value: DataTypes) -> (r: Result<usize, usize>)
        requires
            self.wf(),
        ensures
            match r {
                Ok(i) => i < self.keys().len() && self.keys()[i as int] == value,
                Err(i) => {
                    &&& i <= self.keys().len()
                    &&& forall|k: int| 0 <= k < i ==> (#[trigger] self.keys()[k]).precedes(value)
                    &&& forall|k: int|
                        i <= k < self.keys().len() ==> value.precedes(#[trigger] self.keys()[k])
                },
            },
    {
        let mut lo: usize = 0;
        let mut hi: usize = self.values.len();
        while lo < hi
            invariant
                self.wf(),
                lo <= hi <= self.keys().len(),
                forall|k: int| 0 <= k < lo ==> (#[trigger] self.keys()[k]).precedes(value),
                forall|k: int| hi <= k < self.keys().len() ==> value.precedes(#[trigger] self.keys()[k]),
            decreases hi - lo,
        {
            let mid = lo + (hi - lo) / 2;
            match self.values[mid].ordering(value) {
                Ordering::Less => {
                    lo = mid + 1;
                },
                Ordering::Equal => {
                    return Ok(mid);
                },
                Ordering::Greater => {
                    hi = mid;
                },
            }
        }
        Err(lo)
    }

    /// The ids of the nodes holding `value`, or `None` where no node does.
    pub fn get_value_ids(&self, value: DataTypes) -> (r: Option<&Vec<NodeId>>)
        requires
            self.wf(),
        ensures
            match r {
                Some(b) => self.has(value) && b@ == self.bag(value),
                None => !self.has(value),
            },
    {
        match self.search(value) {
            Ok(i) => {
                proof {
                    self.lemma_index_of(i as int);
                }
                Some(&self.node_ids[i])
            },
            Err(i) => {
                proof {
                    if self.has(value) {
                        let k = self.keys().index_of(value);
                        assert(self.keys()[k] == value);
                    }
                }
                None
            },
        }
    }

    proof fn lemma_index_of(&self, i: int)
        requires
            self.wf(),
            0 <= i < self.keys().len(),
        ensures
            self.has(self.keys()[i]),
            self.keys().index_of(self.keys()[i]) == i,
            self.bag(self.keys()[i]) == self.bags()[i],
    {
        let d = self.keys()[i];
        assert(self.keys()[i] == d);
        let k = self.keys().index_of(d);
        if k < i {
            assert(self.keys()[k].precedes(self.keys()[i]));
        } else if k > i {
            assert(self.keys()[i].precedes(self.keys()[k]));
        }
    }

    /// Records that node `node_id` holds `value`.
    pub(crate) fn insert_value(&mut self, value: DataTypes, node_id: NodeId)
        requires
            old(self).wf(),
        ensures
            final(self).wf(),
            forall|d: DataTypes| #[trigger] final(self).has(d) <==> (old(self).has(d) || d == value),
            final(self).bag(value) == old(self).bag(value).push(node_id),
            forall|d: DataTypes| d != value ==> #[trigger] final(self).bag(d) == old(self).bag(d),
    {
        match self.search(value) {
            Ok(i) => {
                proof {
                    self.lemma_index_of(i as int);
                }
                self.node_ids[i].push(node_id);
                proof {
                    assert(self.keys() == old(self).keys());
                    assert(self.bags() =~= old(self).bags().update(i as int, old(self).bags()[i as int].push(node_id)));
                    self.lemma_index_of(i as int);
                    assert forall|d: DataTypes| d != value implies #[trigger] self.bag(d) == old(self).bag(d) by {
                        if self.has(d) {
                            let k = self.keys().index_of(d);
                            assert(self.keys()[k] == d);
                            old(self).lemma_index_of(k);
                            self.lemma_index_of(k);
                        }
                    }
                }
            },
            Err(i) => {
                let mut fresh: Vec<NodeId> = Vec::new();
                fresh.push(node_id);
                assert(fresh@ =~= seq![node_id]);
                self.values.insert(i, value);
                self.node_ids.insert(i, fresh);
                proof {
                    let ghost ok = old(self).keys();
                    assert(self.keys() =~= ok.insert(i as int, value));
                    assert forall|k: int| 0 <= k < self.bags().len() implies #[trigger] self.bags()[k]
                        == old(self).bags().insert(i as int, seq![node_id])[k] by {
                        if k < i {
                        } else if k == i {
                        } else {
                            assert(self.node_ids@[k] == old(self).node_ids@[k - 1]);
                        }
                    }
                    assert(self.bags() =~= old(self).bags().insert(i as int, seq![node_id]));
                    assert forall|a: int, b: int|
                        0 <= a < b < self.keys().len() implies (#[trigger] self.keys()[a]).precedes(
                        #[trigger] self.keys()[b]) by {
                        if a < i && b > i {
                            assert(ok[a].precedes(value));
                            assert(value.precedes(ok[b - 1]));
                        } else if a < i && b == i {
                            assert(ok[a].precedes(value));
                        } else if a == i {
                            assert(value.precedes(ok[b - 1]));
                        } else if a > i {
                            assert(ok[a - 1].precedes(ok[b - 1]));
                        }
                    }
                    assert(self.wf());
                    self.lemma_index_of(i as int);
                    assert(!old(self).has(value));
                    assert forall|d: DataTypes| #[trigger] self.has(d) <==> (old(self).has(d) || d == value) by {
                        if old(self).has(d) {
                            let k = ok.index_of(d);
                            if k < i {
                                assert(self.keys()[k] == d);
                            } else {
                                assert(self.keys()[k + 1] == d);
                            }
                        }
                        if self.has(d) && d != value {
                            let k = self.keys().index_of(d);
                            if k < i {
                                assert(ok[k] == d);
                            } else {
                                assert(ok[k - 1] == d);
                            }
                        }
                    }
                    assert forall|d: DataTypes| d != value implies #[trigger] self.bag(d) == old(self).bag(d) by {
                        if old(self).has(d) {
                            let k = ok.index_of(d);
                            assert(ok[k] == d);
                            old(self).lemma_index_of(k);
                            if k < i {
                                self.lemma_index_of(k);
                            } else {
                                assert(self.keys()[k + 1] == d);
                                self.lemma_index_of(k + 1);
                            }
                        }
                    }
                }
            },
        }
    }
}

} // verus!
