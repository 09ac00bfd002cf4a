//! Approximate sub-sequence matching: every path of the tree that lines up
//! with a query, scored per step under the requested metrics, summed per
//! metric and ranked.

use crate::cpt::CPT;
use crate::data_types::{
    comparable, similarity, DataTypes, ScoreError, SequenceMatchFunction, SimilarityScores,
};
use crate::nodes::{NodeId, NodeView};
use std::cmp::Ordering;
use vstd::prelude::*;

verus! {

/// How a lookup may pick the stored values to match against.
#[derive(Clone, Copy, Debug)]
pub enum SequenceRetreiveFunction {
    TopNSimilarValues(usize),
}

/// A score per metric.
pub type Scores = Vec<(SequenceMatchFunction, SimilarityScores)>;

/// One step of a matched path: a node and its scores against the query.
pub type NodeMatchResult = (NodeId, Vec<(SequenceMatchFunction, SimilarityScores)>);

/// A matched path with its score per metric, summed over the path.
pub type SequenceMatchResult = (Vec<NodeMatchResult>, Scores);

/// A step as mathematical values.
pub type StepView = (NodeId, Seq<(SequenceMatchFunction, SimilarityScores)>);

pub open spec fn step_view(x: NodeMatchResult) -> StepView {
    (x.0, x.1@)
}

pub open spec fn path_view(p: Vec<NodeMatchResult>) -> Seq<StepView> {
    p@.map_values(|x: NodeMatchResult| step_view(x))
}

pub open spec fn paths_view(v: Vec<Vec<NodeMatchResult>>) -> Seq<Seq<StepView>> {
    v@.map_values(|p: Vec<NodeMatchResult>| path_view(p))
}

/// The scores of stored symbol `d` against queried symbol `q` under each metric of `mfs`.
pub open spec fn step_scores(mfs: Seq<SequenceMatchFunction>, d: DataTypes, q: DataTypes) -> Seq<
    (SequenceMatchFunction, SimilarityScores),
> {
    mfs.map_values(|m: SequenceMatchFunction| (m, similarity(m, d, q)))
}

/// The scores a stored symbol `d` gets when looked up for `q`: `StrictEqual`
/// only scores an equal symbol, every other metric scores any symbol.
pub open spec fn anchor_scores(mfs: Seq<SequenceMatchFunction>, d: DataTypes, q: DataTypes) -> Seq<
    (SequenceMatchFunction, SimilarityScores),
>
    decreases mfs.len(),
{
    if mfs.len() == 0 {
        Seq::empty()
    } else {
        let pre = anchor_scores(mfs.drop_last(), d, q);
        let m = mfs.last();
        if m != SequenceMatchFunction::StrictEqual || d == q {
            pre.push((m, similarity(m, d, q)))
        } else {
            pre
        }
    }
}

/// The nodes that a lookup of `q` finds, with their scores: for each key in
/// order, each node holding it, where the key gets any score at all.
pub open spec fn similar_from(
    keys: Seq<DataTypes>,
    bags: Seq<Seq<NodeId>>,
    mfs: Seq<SequenceMatchFunction>,
    q: DataTypes,
) -> Seq<StepView>
    decreases keys.len(),
{
    if keys.len() == 0 || bags.len() == 0 {
        Seq::empty()
    } else {
        let pre = similar_from(keys.drop_last(), bags.drop_last(), mfs, q);
        let sc = anchor_scores(mfs, keys.last(), q);
        if sc.len() > 0 {
            pre + bags.last().map_values(|id: NodeId| (id, sc))
        } else {
            pre
        }
    }
}

/// Whether some metric of `mfs` cannot compare some key of `keys` with `q`.
pub open spec fn incomparable_with(
    keys: Seq<DataTypes>,
    mfs: Seq<SequenceMatchFunction>,
    q: DataTypes,
) -> bool {
    exists|i: int, j: int|
        0 <= i < keys.len() && 0 <= j < mfs.len() && !comparable(mfs[j], #[trigger] keys[i], q)
            && #[trigger] mfs[j] == mfs[j]
}

/// Whether some metric of `mfs` cannot compare some stored symbol with some symbol of `s`.
pub open spec fn query_incomparable(t: CPT, mfs: Seq<SequenceMatchFunction>, s: Seq<DataTypes>) -> bool {
    exists|i: int| 0 <= i < s.len() && incomparable_with(t.inverted_index.keys(), mfs, #[trigger] s[i])
}

/// The extensions of path `p` by each child of its last node, scored against `q`.
pub open spec fn forward_extend(
    a: Seq<NodeView>,
    mfs: Seq<SequenceMatchFunction>,
    p: Seq<StepView>,
    q: DataTypes,
) -> Seq<Seq<StepView>> {
    a[p.last().0.pos()].children.map_values(
        |c: NodeId| p.push((c, step_scores(mfs, a[c.pos()].data.unwrap(), q))),
    )
}

/// The paths that match `s` going from the root toward the leaves: one per
/// node the lookup of `s[0]` finds, each extended by every child in turn
/// for each later symbol. A path whose end has no child goes no further
/// and is dropped.
pub open spec fn forward_paths(t: CPT, mfs: Seq<SequenceMatchFunction>, s: Seq<DataTypes>) -> Seq<
    Seq<StepView>,
>
    decreases s.len(),
{
    if s.len() == 0 {
        Seq::empty()
    } else if s.len() == 1 {
        t.inverted_index.similar(mfs, s[0]).map_values(|x: StepView| seq![x])
    } else {
        forward_paths(t, mfs, s.drop_last()).map_values(
            |p: Seq<StepView>| forward_extend(t.arena(), mfs, p, s.last()),
        ).flatten()
    }
}

/// Path `p` with the parent of its first node put in front, scored against
/// `q`; `p` itself where that node is the root or a child of the root.
pub open spec fn backward_extend(
    a: Seq<NodeView>,
    mfs: Seq<SequenceMatchFunction>,
    p: Seq<StepView>,
    q: DataTypes,
) -> Seq<StepView> {
    match a[p[0].0.pos()].parent {
        Some(par) => match a[par.pos()].data {
            Some(d) => seq![(par, step_scores(mfs, d, q))] + p,
            None => p,
        },
        None => p,
    }
}

/// The paths that match `s` going from the leaves toward the root: one per
/// node the lookup of the last symbol finds, each extended by its parent for
/// each earlier symbol, from the end of `s` toward its start.
pub open spec fn backward_paths(t: CPT, mfs: Seq<SequenceMatchFunction>, s: Seq<DataTypes>) -> Seq<
    Seq<StepView>,
>
    decreases s.len(),
{
    if s.len() == 0 {
        Seq::empty()
    } else if s.len() == 1 {
        t.inverted_index.similar(mfs, s[0]).map_values(|x: StepView| seq![x])
    } else {
        backward_paths(t, mfs, s.drop_first()).map_values(
            |p: Seq<StepView>| backward_extend(t.arena(), mfs, p, s[0]),
        )
    }
}

/// The scores of `es` under metric `m` added onto `acc`, in order; the first
/// error stays.
pub open spec fn fold_entries(
    acc: Result<SimilarityScores, ScoreError>,
    es: Seq<(SequenceMatchFunction, SimilarityScores)>,
    m: SequenceMatchFunction,
) -> Result<SimilarityScores, ScoreError>
    decreases es.len(),
{
    if es.len() == 0 {
        acc
    } else {
        let a = fold_entries(acc, es.drop_last(), m);
        if es.last().0 == m {
            match a {
                Ok(x) => x.sum_spec(es.last().1),
                Err(e) => Err(e),
            }
        } else {
            a
        }
    }
}

/// The sum under metric `m` of all step scores of path `p`, starting from
/// the metric's neutral score.
pub open spec fn path_total(p: Seq<StepView>, m: SequenceMatchFunction) -> Result<SimilarityScores, ScoreError>
    decreases p.len(),
{
    if p.len() == 0 {
        Ok(m.zero_of())
    } else {
        fold_entries(path_total(p.drop_last(), m), p.last().1, m)
    }
}

/// The total of path `p` under each metric of `mfs`, where every one is defined.
pub open spec fn path_totals(p: Seq<StepView>, mfs: Seq<SequenceMatchFunction>) -> Seq<
    (SequenceMatchFunction, SimilarityScores),
> {
    mfs.map_values(
        |m: SequenceMatchFunction|
            (
                m,
                match path_total(p, m) {
                    Ok(x) => x,
                    Err(_) => m.zero_of(),
                },
            ),
    )
}

/// Whether every total of every path is defined.
pub open spec fn totals_defined(paths: Seq<Seq<StepView>>, mfs: Seq<SequenceMatchFunction>) -> bool {
    forall|k: int, j: int|
        0 <= k < paths.len() && 0 <= j < mfs.len() ==> (#[trigger] path_total(paths[k], #[trigger] mfs[j])).is_ok()
}

/// Each path with its totals.
pub open spec fn scored(paths: Seq<Seq<StepView>>, mfs: Seq<SequenceMatchFunction>) -> Seq<
    (Seq<StepView>, Seq<(SequenceMatchFunction, SimilarityScores)>),
> {
    paths.map_values(|p: Seq<StepView>| (p, path_totals(p, mfs)))
}

/// Lexicographic comparison of two total lists by merit, the entry at
/// position `n - 1` first: whether `a` ranks strictly above `b`.
pub open spec fn better(
    a: Seq<(SequenceMatchFunction, SimilarityScores)>,
    b: Seq<(SequenceMatchFunction, SimilarityScores)>,
    n: int,
) -> bool
    decreases n,
{
    if n <= 0 {
        false
    } else {
        a[n - 1].1.merit() > b[n - 1].1.merit() || (a[n - 1].1.merit() == b[n - 1].1.merit() && better(
            a,
            b,
            n - 1,
        ))
    }
}

/// Whether two total lists have equal merit at each of their first `n` entries.
pub open spec fn tied(
    a: Seq<(SequenceMatchFunction, SimilarityScores)>,
    b: Seq<(SequenceMatchFunction, SimilarityScores)>,
    n: int,
) -> bool {
    forall|j: int| 0 <= j < n ==> (#[trigger] a[j]).1.merit() == b[j].1.merit()
}

/// `res` is `input` in ascending rank by `better` over `n` metrics (the
/// best last), entries of equal rank keeping their order.
pub open spec fn ranked(
    res: Seq<(Seq<StepView>, Seq<(SequenceMatchFunction, SimilarityScores)>)>,
    input: Seq<(Seq<StepView>, Seq<(SequenceMatchFunction, SimilarityScores)>)>,
    n: int,
) -> bool {
    exists|idx: Seq<int>| #[trigger] ranked_by(res, input, n, idx)
}

/// `res` lists `input[idx[0]]`, `input[idx[1]]`, ..., `idx` being a
/// reordering of `input`'s positions, in ascending rank by `better` over
/// `n` metrics, entries of equal rank in their input order.
pub open spec fn ranked_by(
    res: Seq<(Seq<StepView>, Seq<(SequenceMatchFunction, SimilarityScores)>)>,
    input: Seq<(Seq<StepView>, Seq<(SequenceMatchFunction, SimilarityScores)>)>,
    n: int,
    idx: Seq<int>,
) -> bool {
    &&& idx.len() == input.len() == res.len()
    &&& forall|i: int| 0 <= i < idx.len() ==> 0 <= #[trigger] idx[i] < input.len()
    &&& idx.no_duplicates()
    &&& forall|i: int| 0 <= i < idx.len() ==> #[trigger] res[i] == input[idx[i]]
    &&& forall|i: int, j: int|
        0 <= i < j < res.len() ==> !better(#[trigger] res[i].1, #[trigger] res[j].1, n) && (tied(
            res[i].1,
            res[j].1,
            n,
        ) ==> idx[i] < idx[j])
}

/// The matched paths of a query, by direction.
pub open spec fn matched_paths(
    t: CPT,
    s: Seq<DataTypes>,
    backwards: bool,
    mfs: Seq<SequenceMatchFunction>,
) -> Seq<Seq<StepView>> {
    if backwards {
        backward_paths(t, mfs, s)
    } else {
        forward_paths(t, mfs, s)
    }
}

pub open spec fn results_view(v: Vec<SequenceMatchResult>) -> Seq<
    (Seq<StepView>, Seq<(SequenceMatchFunction, SimilarityScores)>),
> {
    v@.map_values(|x: SequenceMatchResult| (path_view(x.0), x.1@))
}

/// The node ids along a path.
pub open spec fn path_nodes(p: Seq<StepView>) -> Seq<NodeId> {
    p.map_values(|st: StepView| st.0)
}

/// The symbols along a path.
pub open spec fn path_symbols(t: CPT, p: Seq<StepView>) -> Seq<DataTypes> {
    p.map_values(|st: StepView| t.arena()[st.0.pos()].data.unwrap())
}

/// `nodes` is a chain of parent and child nodes of `t` holding the symbols of `s` in order.
pub open spec fn spells(t: CPT, nodes: Seq<NodeId>, s: Seq<DataTypes>) -> bool {
    &&& nodes.len() == s.len()
    &&& forall|i: int|
        0 <= i < nodes.len() ==> t.inner_id(#[trigger] nodes[i]) && t.arena()[nodes[i].pos()].data == Some(s[i])
    &&& forall|i: int|
        0 <= i < nodes.len() - 1 ==> t.arena()[(#[trigger] nodes[i]).pos()].children.contains(nodes[i + 1])
}

/// Ranking by a single metric ranks a smaller distance above a larger one,
/// and a larger length above a smaller one: in the ascending order of the
/// result the winner stands after the other.
pub proof fn lemma_cost_and_reward_ranking(
    res: Seq<(Seq<StepView>, Seq<(SequenceMatchFunction, SimilarityScores)>)>,
    input: Seq<(Seq<StepView>, Seq<(SequenceMatchFunction, SimilarityScores)>)>,
    a: int,
    b: int,
)
    requires
        ranked(res, input, 1),
        0 <= a < res.len(),
        0 <= b < res.len(),
    ensures
        (res[a].1[0].1 matches SimilarityScores::Distance(x) && res[b].1[0].1 matches SimilarityScores::Distance(
            y,
        ) && x < y) ==> b < a,
        (res[a].1[0].1 matches SimilarityScores::Length(x) && res[b].1[0].1 matches SimilarityScores::Length(y)
            && x > y) ==> b < a,
{
    let idx = choose|idx: Seq<int>| #[trigger] ranked_by(res, input, 1, idx);
    if a < b {
        assert(!better(res[a].1, res[b].1, 1));
        assert(!better(res[a].1, res[b].1, 0));
    }
}

/// Every element of an inner sequence occurs in the flattened sequence.
proof fn lemma_flatten_contains<A>(x: Seq<Seq<A>>, k: int, c: int)
    requires
        0 <= k < x.len(),
        0 <= c < x[k].len(),
    ensures
        x.flatten().contains(x[k][c]),
    decreases x.len(),
{
    if k == 0 {
        assert(x.flatten() == x.first() + x.drop_first().flatten());
        assert(x.flatten()[c] == x[0][c]);
    } else {
        assert(x.drop_first()[k - 1] == x[k]);
        lemma_flatten_contains(x.drop_first(), k - 1, c);
        let y = x.drop_first().flatten();
        let i = choose|i: int| 0 <= i < y.len() && y[i] == x[k][c];
        assert(x.flatten() == x.first() + y);
        assert(x.flatten()[x.first().len() + i] == y[i]);
    }
}

/// A symbol looked up for itself gets a score under every metric.
proof fn lemma_anchor_scores_self(mfs: Seq<SequenceMatchFunction>, d: DataTypes)
    ensures
        anchor_scores(mfs, d, d).len() == mfs.len(),
    decreases mfs.len(),
{
    if mfs.len() > 0 {
        lemma_anchor_scores_self(mfs.drop_last(), d);
    }
}

/// The lookup finds each node of the bag of a scoring key.
proof fn lemma_similar_contains(
    keys: Seq<DataTypes>,
    bags: Seq<Seq<NodeId>>,
    mfs: Seq<SequenceMatchFunction>,
    q: DataTypes,
    i: int,
    j: int,
)
    requires
        keys.len() == bags.len(),
        0 <= i < keys.len(),
        0 <= j < bags[i].len(),
        anchor_scores(mfs, keys[i], q).len() > 0,
    ensures
        similar_from(keys, bags, mfs, q).contains((bags[i][j], anchor_scores(mfs, keys[i], q))),
    decreases keys.len(),
{
    let pre = similar_from(keys.drop_last(), bags.drop_last(), mfs, q);
    let sc = anchor_scores(mfs, keys.last(), q);
    if i == keys.len() - 1 {
        let tail = bags.last().map_values(|id: NodeId| (id, sc));
        assert(similar_from(keys, bags, mfs, q) == pre + tail);
        assert((pre + tail)[pre.len() + j] == tail[j]);
    } else {
        assert(keys.drop_last()[i] == keys[i]);
        assert(bags.drop_last()[i] == bags[i]);
        lemma_similar_contains(keys.drop_last(), bags.drop_last(), mfs, q, i, j);
        let e = choose|e: int| 0 <= e < pre.len() && pre[e] == (bags[i][j], anchor_scores(mfs, keys[i], q));
        if sc.len() > 0 {
            let tail = bags.last().map_values(|id: NodeId| (id, sc));
            assert((pre + tail)[e] == pre[e]);
        }
    }
}

/// The lookup of a stored symbol finds every node that holds it.
proof fn lemma_anchor_found(t: CPT, mfs: Seq<SequenceMatchFunction>, n: NodeId, d: DataTypes)
    requires
        t.wf(),
        mfs.len() > 0,
        t.inner_id(n),
        t.arena()[n.pos()].data == Some(d),
    ensures
        exists|e: int| 0 <= e < t.inverted_index.similar(mfs, d).len() && (#[trigger] t.inverted_index.similar(mfs, d)[e]).0 == n,
{
    t.lemma_index_consistent();
    let ix = t.inverted_index;
    assert(ix.bag(d).contains(crate::cpt::id_at(n.pos())));
    assert(crate::cpt::id_at(n.pos()) == n);
    let i = ix.keys().index_of(d);
    assert(ix.keys()[i] == d);
    let j = choose|j: int| 0 <= j < ix.bag(d).len() && ix.bag(d)[j] == n;
    lemma_anchor_scores_self(mfs, d);
    lemma_similar_contains(ix.keys(), ix.bags(), mfs, d, i, j);
    let sim = ix.similar(mfs, d);
    let e = choose|e: int| 0 <= e < sim.len() && sim[e] == (ix.bags()[i][j], anchor_scores(mfs, ix.keys()[i], d));
    assert(sim[e].0 == n);
}

proof fn lemma_forward_prefix(
    t: CPT,
    mfs: Seq<SequenceMatchFunction>,
    s: Seq<DataTypes>,
    nodes: Seq<NodeId>,
    m: int,
)
    requires
        t.wf(),
        mfs.len() > 0,
        spells(t, nodes, s),
        1 <= m <= s.len(),
    ensures
        exists|k: int|
            0 <= k < forward_paths(t, mfs, s.take(m)).len() && path_nodes(
                #[trigger] forward_paths(t, mfs, s.take(m))[k],
            ) == nodes.take(m),
    decreases m,
{
    if m == 1 {
        assert(s.take(1).len() == 1);
        lemma_anchor_found(t, mfs, nodes[0], s[0]);
        let sim = t.inverted_index.similar(mfs, s[0]);
        let e = choose|e: int| 0 <= e < sim.len() && (#[trigger] sim[e]).0 == nodes[0];
        let fp = forward_paths(t, mfs, s.take(1));
        assert(fp == sim.map_values(|x: StepView| seq![x]));
        assert(path_nodes(fp[e]) =~= nodes.take(1));
    } else {
        lemma_forward_prefix(t, mfs, s, nodes, m - 1);
        let prev = forward_paths(t, mfs, s.take(m - 1));
        let k = choose|k: int| 0 <= k < prev.len() && path_nodes(#[trigger] prev[k]) == nodes.take(m - 1);
        let p = prev[k];
        assert(s.take(m).drop_last() =~= s.take(m - 1));
        assert(s.take(m).last() == s[m - 1]);
        let f = |q: Seq<StepView>| forward_extend(t.arena(), mfs, q, s[m - 1]);
        assert(forward_paths(t, mfs, s.take(m)) == prev.map_values(f).flatten());
        assert(path_nodes(p).len() == m - 1);
        assert(p.last().0 == path_nodes(p)[m - 2]);
        assert(p.last().0 == nodes[m - 2]);
        let ch = t.arena()[nodes[m - 2].pos()].children;
        assert(ch.contains(nodes[m - 1]));
        let c = choose|c: int| 0 <= c < ch.len() && ch[c] == nodes[m - 1];
        let ext = f(p);
        assert(ext == prev.map_values(f)[k]);
        let np = ext[c];
        lemma_flatten_contains(prev.map_values(f), k, c);
        let all = forward_paths(t, mfs, s.take(m));
        let k2 = choose|k2: int| 0 <= k2 < all.len() && all[k2] == np;
        assert(path_nodes(np) =~= nodes.take(m));
        assert(path_nodes(all[k2]) == nodes.take(m));
    }
}

proof fn lemma_backward_suffix(
    t: CPT,
    mfs: Seq<SequenceMatchFunction>,
    s: Seq<DataTypes>,
    nodes: Seq<NodeId>,
    m: int,
)
    requires
        t.wf(),
        mfs.len() > 0,
        spells(t, nodes, s),
        0 <= m < s.len(),
    ensures
        exists|k: int|
            0 <= k < backward_paths(t, mfs, s.subrange(m, s.len() as int)).len() && path_nodes(
                #[trigger] backward_paths(t, mfs, s.subrange(m, s.len() as int))[k],
            ) == nodes.subrange(m, s.len() as int),
    decreases s.len() - m,
{
    let n = s.len() as int;
    if m == n - 1 {
        assert(s.subrange(m, n).len() == 1);
        assert(s.subrange(m, n)[0] == s[m]);
        lemma_anchor_found(t, mfs, nodes[m], s[m]);
        let sim = t.inverted_index.similar(mfs, s[m]);
        let e = choose|e: int| 0 <= e < sim.len() && (#[trigger] sim[e]).0 == nodes[m];
        let bp = backward_paths(t, mfs, s.subrange(m, n));
        assert(bp == sim.map_values(|x: StepView| seq![x]));
        assert(path_nodes(bp[e]) =~= nodes.subrange(m, n));
    } else {
        lemma_backward_suffix(t, mfs, s, nodes, m + 1);
        let prev = backward_paths(t, mfs, s.subrange(m + 1, n));
        let k = choose|k: int| 0 <= k < prev.len() && path_nodes(#[trigger] prev[k]) == nodes.subrange(m + 1, n);
        let p = prev[k];
        assert(s.subrange(m, n).drop_first() =~= s.subrange(m + 1, n));
        assert(s.subrange(m, n)[0] == s[m]);
        let f = |q: Seq<StepView>| backward_extend(t.arena(), mfs, q, s[m]);
        let bp = backward_paths(t, mfs, s.subrange(m, n));
        assert(bp == prev.map_values(f));
        assert(path_nodes(p).len() == n - m - 1);
        assert(p[0].0 == path_nodes(p)[0]);
        assert(p[0].0 == nodes[m + 1]);
        let ch = t.arena()[nodes[m].pos()].children;
        assert(ch.contains(nodes[m + 1]));
        let c = choose|c: int| 0 <= c < ch.len() && ch[c] == nodes[m + 1];
        t.lemma_child_parent(nodes[m].pos(), c);
        assert(crate::cpt::id_at(nodes[m].pos()) == nodes[m]);
        assert(t.arena()[p[0].0.pos()].parent == Some(nodes[m]));
        assert(t.arena()[nodes[m].pos()].data == Some(s[m]));
        assert(bp[k] == f(p));
        let np = seq![(nodes[m], step_scores(mfs, s[m], s[m]))] + p;
        assert(f(p) == np);
        assert forall|i: int| 0 <= i < n - m implies path_nodes(np)[i] == nodes.subrange(m, n)[i] by {
            if i > 0 {
                assert(np[i] == p[i - 1]);
                assert(path_nodes(p)[i - 1] == nodes[m + i]);
            }
        }
        assert(path_nodes(bp[k]) =~= nodes.subrange(m, n));
    }
}

/// For a query that a chain of parent and child nodes spells, matching
/// forward and matching backward each give a path through exactly those
/// nodes, whose symbols are the query.
pub proof fn lemma_match_symmetry(
    t: CPT,
    mfs: Seq<SequenceMatchFunction>,
    s: Seq<DataTypes>,
    nodes: Seq<NodeId>,
)
    requires
        t.wf(),
        mfs.len() > 0,
        s.len() > 0,
        spells(t, nodes, s),
    ensures
        exists|k: int|
            0 <= k < forward_paths(t, mfs, s).len() && path_nodes(#[trigger] forward_paths(t, mfs, s)[k]) == nodes
                && path_symbols(t, forward_paths(t, mfs, s)[k]) == s,
        exists|k: int|
            0 <= k < backward_paths(t, mfs, s).len() && path_nodes(#[trigger] backward_paths(t, mfs, s)[k])
                == nodes && path_symbols(t, backward_paths(t, mfs, s)[k]) == s,
{
    let n = s.len() as int;
    lemma_forward_prefix(t, mfs, s, nodes, n);
    assert(s.take(n) =~= s);
    assert(nodes.take(n) =~= nodes);
    let fp = forward_paths(t, mfs, s);
    let k = choose|k: int| 0 <= k < fp.len() && path_nodes(#[trigger] fp[k]) == nodes;
    assert(path_symbols(t, fp[k]) =~= s) by {
        assert forall|i: int| 0 <= i < n implies path_symbols(t, fp[k])[i] == s[i] by {
            assert(path_nodes(fp[k])[i] == nodes[i]);
        }
    }
    lemma_backward_suffix(t, mfs, s, nodes, 0);
    assert(s.subrange(0, n) =~= s);
    assert(nodes.subrange(0, n) =~= nodes);
    let bp = backward_paths(t, mfs, s);
    let k2 = choose|k2: int| 0 <= k2 < bp.len() && path_nodes(#[trigger] bp[k2]) == nodes;
    assert(path_symbols(t, bp[k2]) =~= s) by {
        assert forall|i: int| 0 <= i < n implies path_symbols(t, bp[k2])[i] == s[i] by {
            assert(path_nodes(bp[k2])[i] == nodes[i]);
        }
    }
}

/// Whether every metric of `mfs` is `StrictEqual`.
pub open spec fn all_strict(mfs: Seq<SequenceMatchFunction>) -> bool {
    forall|j: int| 0 <= j < mfs.len() ==> #[trigger] mfs[j] == SequenceMatchFunction::StrictEqual
}

/// Under `StrictEqual` alone, only an equal symbol gets scores.
proof fn lemma_anchor_scores_strict(mfs: Seq<SequenceMatchFunction>, d: DataTypes, q: DataTypes)
    requires
        all_strict(mfs),
        d != q,
    ensures
        anchor_scores(mfs, d, q).len() == 0,
    decreases mfs.len(),
{
    if mfs.len() > 0 {
        lemma_anchor_scores_strict(mfs.drop_last(), d, q);
    }
}

/// Under `StrictEqual` alone, the lookup of `q` finds exactly the bag of `q`.
pub proof fn lemma_similar_strict(
    keys: Seq<DataTypes>,
    bags: Seq<Seq<NodeId>>,
    mfs: Seq<SequenceMatchFunction>,
    q: DataTypes,
)
    requires
        keys.len() == bags.len(),
        keys.no_duplicates(),
        all_strict(mfs),
        mfs.len() > 0,
    ensures
        forall|i: int| 0 <= i < keys.len() && keys[i] == q ==> similar_from(keys, bags, mfs, q) == bags[i].map_values(
            |id: NodeId| (id, anchor_scores(mfs, q, q)),
        ),
        !keys.contains(q) ==> similar_from(keys, bags, mfs, q).len() == 0,
    decreases keys.len(),
{
    if keys.len() > 0 {
        let kd = keys.drop_last();
        assert(kd.no_duplicates()) by {
            assert forall|a: int, b: int| 0 <= a < b < kd.len() implies kd[a] != kd[b] by {
                assert(kd[a] == keys[a] && kd[b] == keys[b]);
            }
        }
        lemma_similar_strict(kd, bags.drop_last(), mfs, q);
        lemma_anchor_scores_self(mfs, q);
        if keys.last() == q {
            assert(!kd.contains(q)) by {
                if kd.contains(q) {
                    let a = choose|a: int| 0 <= a < kd.len() && kd[a] == q;
                    assert(keys[a] == keys[keys.len() - 1]);
                }
            }
            assert forall|i: int| 0 <= i < keys.len() && keys[i] == q implies i == keys.len() - 1 by {
                if i < keys.len() - 1 {
                    assert(kd[i] == q);
                }
            }
            assert(similar_from(keys, bags, mfs, q) =~= bags.last().map_values(
                |id: NodeId| (id, anchor_scores(mfs, q, q)),
            ));
        } else {
            lemma_anchor_scores_strict(mfs, keys.last(), q);
            assert forall|i: int| 0 <= i < keys.len() && keys[i] == q implies similar_from(keys, bags, mfs, q)
                == bags[i].map_values(|id: NodeId| (id, anchor_scores(mfs, q, q))) by {
                assert(i < keys.len() - 1);
                assert(kd[i] == q);
                assert(bags.drop_last()[i] == bags[i]);
            }
            if !keys.contains(q) {
                assert(!kd.contains(q)) by {
                    if kd.contains(q) {
                        let a = choose|a: int| 0 <= a < kd.len() && kd[a] == q;
                        assert(keys[a] == q);
                    }
                }
            }
        }
    }
}

/// Whether every metric of `mfs` is `StrictEqual`.
pub(crate) fn is_all_strict(mfs: &[SequenceMatchFunction]) -> (r: bool)
    ensures
        r == all_strict(mfs@),
{
    let mut j: usize = 0;
    while j < mfs.len()
        invariant
            j <= mfs@.len(),
            forall|k: int| 0 <= k < j ==> #[trigger] mfs@[k] == SequenceMatchFunction::StrictEqual,
        decreases mfs@.len() - j,
    {
        match mfs[j] {
            SequenceMatchFunction::StrictEqual => {},
            _ => {
                return false;
            },
        }
        j = j + 1;
    }
    true
}

/// The scores of `d` against `q` under each metric of `mfs`.
pub fn scores_for(mfs: &[SequenceMatchFunction], d: DataTypes, q: DataTypes) -> (r: Result<
    Vec<(SequenceMatchFunction, SimilarityScores)>,
    ScoreError,
>)
    ensures
        match r {
            Ok(v) => (forall|j: int| 0 <= j < mfs@.len() ==> comparable(#[trigger] mfs@[j], d, q)) && v@
                == step_scores(mfs@, d, q),
            Err(e) => e == ScoreError::Incomparable && exists|j: int|
                0 <= j < mfs@.len() && !comparable(#[trigger] mfs@[j], d, q),
        },
{
    let mut out: Vec<(SequenceMatchFunction, SimilarityScores)> = Vec::new();
    let mut j: usize = 0;
    while j < mfs.len()
        invariant
            j <= mfs@.len(),
            forall|k: int| 0 <= k < j ==> comparable(#[trigger] mfs@[k], d, q),
            out@ == step_scores(mfs@.take(j as int), d, q),
        decreases mfs@.len() - j,
    {
        let m = mfs[j];
        match d.compute_similarity(m, q) {
            Ok(sc) => {
                out.push((m, sc));
            },
            Err(e) => {
                return Err(e);
            },
        }
        assert(step_scores(mfs@.take(j as int + 1), d, q) =~= step_scores(mfs@.take(j as int), d, q).push(
            (m, similarity(m, d, q)),
        ));
        j = j + 1;
    }
    assert(mfs@.take(mfs@.len() as int) =~= mfs@);
    Ok(out)
}

/// The scores of stored symbol `d` when looked up for `q` under each metric of `mfs`.
pub(crate) fn anchor_scores_for(mfs: &[SequenceMatchFunction], d: DataTypes, q: DataTypes) -> (r: Result<
    Vec<(SequenceMatchFunction, SimilarityScores)>,
    ScoreError,
>)
    ensures
        match r {
            Ok(v) => (forall|j: int| 0 <= j < mfs@.len() ==> comparable(#[trigger] mfs@[j], d, q)) && v@
                == anchor_scores(mfs@, d, q),
            Err(e) => e == ScoreError::Incomparable && exists|j: int|
                0 <= j < mfs@.len() && !comparable(#[trigger] mfs@[j], d, q),
        },
{
    let mut out: Vec<(SequenceMatchFunction, SimilarityScores)> = Vec::new();
    let mut j: usize = 0;
    while j < mfs.len()
        invariant
            j <= mfs@.len(),
            forall|k: int| 0 <= k < j ==> comparable(#[trigger] mfs@[k], d, q),
            out@ == anchor_scores(mfs@.take(j as int), d, q),
        decreases mfs@.len() - j,
    {
        let m = mfs[j];
        assert(mfs@.take(j as int + 1).drop_last() =~= mfs@.take(j as int));
        match d.compute_similarity(m, q) {
            Ok(sc) => {
                if m != SequenceMatchFunction::StrictEqual || d == q {
                    out.push((m, sc));
                }
            },
            Err(e) => {
                return Err(e);
            },
        }
        j = j + 1;
    }
    assert(mfs@.take(mfs@.len() as int) =~= mfs@);
    Ok(out)
}

/// A copy of a list of scores.
pub(crate) fn copy_scores(v: &Vec<(SequenceMatchFunction, SimilarityScores)>) -> (r: Vec<
    (SequenceMatchFunction, SimilarityScores),
>)
    ensures
        r@ == v@,
{
    let mut out: Vec<(SequenceMatchFunction, SimilarityScores)> = Vec::new();
    let mut j: usize = 0;
    while j < v.len()
        invariant
            j <= v@.len(),
            out@ == v@.take(j as int),
        decreases v@.len() - j,
    {
        out.push(v[j]);
        assert(v@.take(j as int + 1) =~= v@.take(j as int).push(v@[j as int]));
        j = j + 1;
    }
    assert(v@.take(v@.len() as int) =~= v@);
    out
}

/// A copy of a path.
pub(crate) fn copy_path(p: &Vec<NodeMatchResult>) -> (r: Vec<NodeMatchResult>)
    ensures
        path_view(r) == path_view(*p),
{
    let mut out: Vec<NodeMatchResult> = Vec::new();
    let mut j: usize = 0;
    while j < p.len()
        invariant
            j <= p@.len(),
            out@.len() == j,
            path_view(out) == path_view(*p).take(j as int),
        decreases p@.len() - j,
    {
        let sc = copy_scores(&p[j].1);
        let ghost before = out@;
        out.push((p[j].0, sc));
        assert(step_view(out@[j as int]) == step_view(p@[j as int]));
        assert forall|k: int| 0 <= k < j implies out@[k] == before[k] by {}
        assert(path_view(out) =~= path_view(*p).take(j as int + 1));
        j = j + 1;
    }
    assert(path_view(out) =~= path_view(*p));
    out
}

/// Every symbol a well-formed tree stores can be compared with each query
/// symbol, where no metric is incomparable with the query.
proof fn lemma_stored_comparable(t: CPT, mfs: Seq<SequenceMatchFunction>, s: Seq<DataTypes>, i: int, d: DataTypes)
    requires
        !query_incomparable(t, mfs, s),
        0 <= i < s.len(),
        t.inverted_index.has(d),
    ensures
        forall|j: int| 0 <= j < mfs.len() ==> comparable(#[trigger] mfs[j], d, s[i]),
{
    let keys = t.inverted_index.keys();
    let kk = choose|kk: int| 0 <= kk < keys.len() && keys[kk] == d;
    assert(!incomparable_with(keys, mfs, s[i]));
    assert forall|j: int| 0 <= j < mfs.len() implies comparable(#[trigger] mfs[j], d, s[i]) by {
        if !comparable(mfs[j], d, s[i]) {
            assert(!comparable(mfs[j], keys[kk], s[i]) && mfs[j] == mfs[j]);
        }
    }
}


/// A sum that is defined keeps the kind of its first operand.
proof fn lemma_fold_kind(
    acc: Result<SimilarityScores, ScoreError>,
    es: Seq<(SequenceMatchFunction, SimilarityScores)>,
    m: SequenceMatchFunction,
)
    ensures
        fold_entries(acc, es, m) matches Ok(y) ==> acc matches Ok(x) && (y == x || (y.same_kind(x)
            && x.same_kind(y))),
    decreases es.len(),
{
    if es.len() > 0 {
        lemma_fold_kind(acc, es.drop_last(), m);
    }
}

/// A defined total under `m` has the kind of `m`'s scores.
proof fn lemma_total_kind(p: Seq<StepView>, m: SequenceMatchFunction)
    ensures
        path_total(p, m) matches Ok(y) ==> y.same_kind(m.zero_of()) && m.zero_of().same_kind(y),
    decreases p.len(),
{
    if p.len() > 0 {
        lemma_total_kind(p.drop_last(), m);
        lemma_fold_kind(path_total(p.drop_last(), m), p.last().1, m);
    }
}

proof fn lemma_better_trans(
    a: Seq<(SequenceMatchFunction, SimilarityScores)>,
    b: Seq<(SequenceMatchFunction, SimilarityScores)>,
    c: Seq<(SequenceMatchFunction, SimilarityScores)>,
    n: int,
)
    ensures
        better(a, b, n) && better(b, c, n) ==> better(a, c, n),
        tied(a, b, n) && better(b, c, n) ==> better(a, c, n),
        better(a, b, n) && tied(b, c, n) ==> better(a, c, n),
    decreases n,
{
    if n > 0 {
        lemma_better_trans(a, b, c, n - 1);
        assert(tied(a, b, n) ==> tied(a, b, n - 1));
        assert(tied(b, c, n) ==> tied(b, c, n - 1));
    }
}

proof fn lemma_better_cases(
    a: Seq<(SequenceMatchFunction, SimilarityScores)>,
    b: Seq<(SequenceMatchFunction, SimilarityScores)>,
    n: int,
)
    ensures
        better(a, b, n) ==> !better(b, a, n) && !tied(a, b, n) && !tied(b, a, n),
        !better(a, b, n) && !better(b, a, n) ==> tied(a, b, n) && tied(b, a, n),
    decreases n,
{
    if n > 0 {
        lemma_better_cases(a, b, n - 1);
        assert(tied(a, b, n) ==> tied(a, b, n - 1));
        assert(tied(b, a, n) ==> tied(b, a, n - 1));
        if !better(a, b, n) && !better(b, a, n) {
            assert forall|j: int| 0 <= j < n implies (#[trigger] a[j]).1.merit() == b[j].1.merit() by {
                if j < n - 1 {
                    assert(tied(a, b, n - 1));
                }
            }
        }
    }
}

/// The sum under `m` of all step scores of `p`.
pub fn compute_total(p: &Vec<NodeMatchResult>, m: SequenceMatchFunction) -> (r: Result<
    SimilarityScores,
    ScoreError,
>)
    ensures
        r == path_total(path_view(*p), m),
{
    let ghost pv = path_view(*p);
    let mut acc: Result<SimilarityScores, ScoreError> = Ok(m.zero_score());
    let mut k: usize = 0;
    while k < p.len()
        invariant
            k <= p@.len(),
            pv == path_view(*p),
            acc == path_total(pv.take(k as int), m),
        decreases p@.len() - k,
    {
        let es = &p[k].1;
        let ghost start = acc;
        let mut e: usize = 0;
        while e < es.len()
            invariant
                e <= es@.len(),
                es@ == pv[k as int].1,
                acc == fold_entries(start, es@.take(e as int), m),
            decreases es@.len() - e,
        {
            assert(es@.take(e as int + 1).drop_last() =~= es@.take(e as int));
            let (em, es_score) = es[e];
            if em == m {
                acc = match acc {
                    Ok(x) => x.add(es_score),
                    Err(err) => Err(err),
                };
            }
            e = e + 1;
        }
        assert(es@.take(es@.len() as int) =~= es@);
        assert(pv.take(k as int + 1).drop_last() =~= pv.take(k as int));
        k = k + 1;
    }
    assert(pv.take(pv.len() as int) =~= pv);
    acc
}

/// Whether the totals `a` rank strictly above the totals `b` over the first `n` metrics.
fn is_better(a: &Scores, b: &Scores, n: usize) -> (r: bool)
    requires
        n <= a@.len(),
        n <= b@.len(),
        forall|j: int| 0 <= j < n ==> (#[trigger] a@[j]).1.same_kind(b@[j].1),
    ensures
        r == better(a@, b@, n as int),
{
    let mut j: usize = n;
    while j > 0
        invariant
            j <= n <= a@.len(),
            n <= b@.len(),
            forall|j2: int| 0 <= j2 < n ==> (#[trigger] a@[j2]).1.same_kind(b@[j2].1),
            better(a@, b@, n as int) == better(a@, b@, j as int),
        decreases j,
    {
        match a[j - 1].1.compare(&b[j - 1].1) {
            Ok(Ordering::Greater) => {
                return true;
            },
            Ok(Ordering::Less) => {
                return false;
            },
            _ => {},
        }
        j = j - 1;
    }
    false
}

/// The positions of `totals` in ascending rank, ties in their input order.
fn rank_order(totals: &Vec<Scores>, n: usize) -> (idx: Vec<usize>)
    requires
        forall|i: int| 0 <= i < totals@.len() ==> (#[trigger] totals@[i])@.len() == n,
        forall|i: int, i2: int, j: int|
            0 <= i < totals@.len() && 0 <= i2 < totals@.len() && 0 <= j < n ==> (
            #[trigger] totals@[i]@[j]).1.same_kind(#[trigger] totals@[i2]@[j].1),
    ensures
        idx@.len() == totals@.len(),
        forall|i: int| 0 <= i < idx@.len() ==> (#[trigger] idx@[i]) < totals@.len(),
        idx@.no_duplicates(),
        forall|a: int, b: int|
            0 <= a < b < idx@.len() ==> !better(
                #[trigger] totals@[idx@[a] as int]@,
                #[trigger] totals@[idx@[b] as int]@,
                n as int,
            ) && (tied(totals@[idx@[a] as int]@, totals@[idx@[b] as int]@, n as int) ==> idx@[a] < idx@[b]),
{
    let mut idx: Vec<usize> = Vec::new();
    let mut k: usize = 0;
    while k < totals.len()
        invariant
            k <= totals@.len(),
            forall|i: int| 0 <= i < totals@.len() ==> (#[trigger] totals@[i])@.len() == n,
            forall|i: int, i2: int, j: int|
                0 <= i < totals@.len() && 0 <= i2 < totals@.len() && 0 <= j < n ==> (
                #[trigger] totals@[i]@[j]).1.same_kind(#[trigger] totals@[i2]@[j].1),
            idx@.len() == k,
            forall|i: int| 0 <= i < idx@.len() ==> (#[trigger] idx@[i]) < k,
            idx@.no_duplicates(),
            forall|a: int, b: int|
                0 <= a < b < idx@.len() ==> !better(
                    #[trigger] totals@[idx@[a] as int]@,
                    #[trigger] totals@[idx@[b] as int]@,
                    n as int,
                ) && (tied(totals@[idx@[a] as int]@, totals@[idx@[b] as int]@, n as int) ==> idx@[a] < idx@[b]),
        decreases totals@.len() - k,
    {
        let ghost tv = totals@.map_values(|t: Scores| t@);
        let mut pos: usize = 0;
        while pos < idx.len() && !is_better(&totals[idx[pos]], &totals[k], n)
            invariant
                k < totals@.len(),
                pos <= idx@.len(),
                forall|i: int| 0 <= i < totals@.len() ==> (#[trigger] totals@[i])@.len() == n,
                forall|i: int, i2: int, j: int|
                    0 <= i < totals@.len() && 0 <= i2 < totals@.len() && 0 <= j < n ==> (
                    #[trigger] totals@[i]@[j]).1.same_kind(#[trigger] totals@[i2]@[j].1),
                forall|i: int| 0 <= i < idx@.len() ==> (#[trigger] idx@[i]) < k,
                forall|a: int| 0 <= a < pos ==> !better(#[trigger] totals@[idx@[a] as int]@, totals@[k as int]@, n as int),
            decreases idx@.len() - pos,
        {
            pos = pos + 1;
        }
        let ghost old_idx = idx@;
        idx.insert(pos, k);
        proof {
            let t = |i: int| totals@[i]@;
            assert(idx@ == old_idx.insert(pos as int, k));
            assert forall|i: int| 0 <= i < idx@.len() implies (#[trigger] idx@[i]) < k + 1 by {
                if i < pos {
                    assert(idx@[i] == old_idx[i]);
                } else if i > pos {
                    assert(idx@[i] == old_idx[i - 1]);
                }
            }
            assert forall|a: int, b: int| 0 <= a < b < idx@.len() implies idx@[a] != idx@[b] by {
                if a != pos && b != pos {
                    let a0 = if a < pos { a } else { a - 1 };
                    let b0 = if b < pos { b } else { b - 1 };
                    assert(idx@[a] == old_idx[a0]);
                    assert(idx@[b] == old_idx[b0]);
                } else if a == pos {
                    assert(idx@[b] == old_idx[b - 1]);
                } else {
                    assert(idx@[a] == old_idx[a]);
                }
            }
            assert forall|a: int, b: int|
                0 <= a < b < idx@.len() implies !better(
                    #[trigger] totals@[idx@[a] as int]@,
                    #[trigger] totals@[idx@[b] as int]@,
                    n as int,
                ) && (tied(totals@[idx@[a] as int]@, totals@[idx@[b] as int]@, n as int) ==> idx@[a] < idx@[b]) by {
                let kk = totals@[k as int]@;
                if a != pos && b != pos {
                    let a0 = if a < pos { a } else { a - 1 };
                    let b0 = if b < pos { b } else { b - 1 };
                    assert(idx@[a] == old_idx[a0]);
                    assert(idx@[b] == old_idx[b0]);
                } else if b == pos {
                    assert(idx@[a] == old_idx[a]);
                } else {
                    let x = totals@[old_idx[b - 1] as int]@;
                    let y = totals@[old_idx[pos as int] as int]@;
                    assert(idx@[b] == old_idx[b - 1]);
                    assert(better(y, kk, n as int));
                    lemma_better_cases(y, kk, n as int);
                    lemma_better_cases(kk, x, n as int);
                    lemma_better_cases(y, x, n as int);
                    lemma_better_trans(y, kk, x, n as int);
                    if b - 1 > pos {
                        assert(!better(y, x, n as int));
                    }
                }
            }
        }
        k = k + 1;
    }
    idx
}

impl CPT {
    /// Whether a node other than the root is denoted by `id`.
    pub open spec fn inner_id(&self, id: NodeId) -> bool {
        1 <= id.pos() < self.arena().len()
    }

    /// Whether every metric of `mfs` can compare every stored symbol with every symbol of `s`.
    fn query_comparable(&self, mfs: &[SequenceMatchFunction], s: &[DataTypes]) -> (r: bool)
        ensures
            r == !query_incomparable(*self, mfs@, s@),
    {
        let mut i: usize = 0;
        while i < s.len()
            invariant
                i <= s@.len(),
                forall|k: int| 0 <= k < i ==> !incomparable_with(self.inverted_index.keys(), mfs@, #[trigger] s@[k]),
            decreases s@.len() - i,
        {
            if !self.inverted_index.comparable_with_keys(mfs, s[i]) {
                return false;
            }
            i = i + 1;
        }
        true
    }

    /// One single-step path per node that the lookup of `q` finds.
    fn anchor_paths(&self, mfs: &[SequenceMatchFunction], q: DataTypes) -> (r: Result<
        Vec<Vec<NodeMatchResult>>,
        ScoreError,
    >)
        requires
            self.wf(),
        ensures
            match r {
                Ok(v) => {
                    &&& !incomparable_with(self.inverted_index.keys(), mfs@, q)
                    &&& paths_view(v) == self.inverted_index.similar(mfs@, q).map_values(
                        |x: StepView| seq![x],
                    )
                    &&& forall|k: int|
                        0 <= k < v@.len() ==> (#[trigger] v@[k])@.len() == 1 && self.inner_id(v@[k]@[0].0)
                },
                Err(e) => e == ScoreError::Incomparable && incomparable_with(
                    self.inverted_index.keys(),
                    mfs@,
                    q,
                ),
            },
    {
        let found = match self.inverted_index.get_similar_value_ids(mfs, q) {
            Ok(v) => v,
            Err(e) => {
                return Err(e);
            },
        };
        let ghost target = self.inverted_index.similar(mfs@, q).map_values(|x: StepView| seq![x]);
        proof {
            self.lemma_index_consistent();
        }
        let mut out: Vec<Vec<NodeMatchResult>> = Vec::new();
        let mut k: usize = 0;
        while k < found.len()
            invariant
                self.wf(),
                k <= found@.len(),
                path_view(found) == self.inverted_index.similar(mfs@, q),
                target == self.inverted_index.similar(mfs@, q).map_values(|x: StepView| seq![x]),
                forall|k2: int|
                    0 <= k2 < found@.len() ==> exists|i: int|
                        0 <= i < self.inverted_index.keys().len() && self.inverted_index.bag(
                            self.inverted_index.keys()[i],
                        ).contains((#[trigger] found@[k2]).0),
                forall|d: DataTypes, j: int|
                    0 <= j < self.inverted_index.bag(d).len() ==> {
                        &&& 1 <= (#[trigger] self.inverted_index.bag(d)[j]).pos() < self.arena().len()
                        &&& self.arena()[self.inverted_index.bag(d)[j].pos()].data == Some(d)
                    },
                out@.len() == k,
                paths_view(out) == target.take(k as int),
                forall|k2: int|
                    0 <= k2 < out@.len() ==> (#[trigger] out@[k2])@.len() == 1 && self.inner_id(out@[k2]@[0].0),
            decreases found@.len() - k,
        {
            let mut single: Vec<NodeMatchResult> = Vec::new();
            single.push((found[k].0, copy_scores(&found[k].1)));
            assert(path_view(single) =~= seq![step_view(found@[k as int])]);
            let ghost before = out@;
            let ghost pv = paths_view(out);
            out.push(single);
            proof {
                let i = choose|i: int|
                    0 <= i < self.inverted_index.keys().len() && self.inverted_index.bag(
                        self.inverted_index.keys()[i],
                    ).contains(found@[k as int].0);
                let d = self.inverted_index.keys()[i];
                let j = choose|j: int| 0 <= j < self.inverted_index.bag(d).len() && self.inverted_index.bag(d)[j] == found@[k as int].0;
                assert(self.inverted_index.bag(d)[j] == found@[k as int].0);
                assert forall|k2: int| 0 <= k2 < before.len() implies paths_view(out)[k2] == pv[k2] by {
                    assert(out@[k2] == before[k2]);
                }
                assert(path_view(found)[k as int] == step_view(found@[k as int]));
                assert(paths_view(out) =~= target.take(k as int + 1));
                assert forall|k2: int| 0 <= k2 < out@.len() implies (#[trigger] out@[k2])@.len() == 1 && self.inner_id(out@[k2]@[0].0) by {
                    if k2 < before.len() {
                        assert(out@[k2] == before[k2]);
                    }
                }
            }
            k = k + 1;
        }
        assert(target.take(found@.len() as int) =~= target);
        Ok(out)
    }

    /// Matches `sequence` from the root toward the leaves: starts from every
    /// node the lookup of its first symbol finds and, for each later symbol,
    /// extends each path by every child of its end, scored against that
    /// symbol. Refused where some metric cannot compare some stored symbol
    /// with some symbol of `sequence`.
    pub fn match_sequence_forward(&self, sequence: &[DataTypes], match_functions: &[SequenceMatchFunction]) -> (r:
        Result<Vec<Vec<NodeMatchResult>>, ScoreError>)
        requires
            self.wf(),
        ensures
            match r {
                Ok(v) => !query_incomparable(*self, match_functions@, sequence@) && paths_view(v)
                    == forward_paths(*self, match_functions@, sequence@),
                Err(e) => e == ScoreError::Incomparable && query_incomparable(
                    *self,
                    match_functions@,
                    sequence@,
                ),
            },
    {
        let ghost mfs = match_functions@;
        let ghost s = sequence@;
        if !self.query_comparable(match_functions, sequence) {
            return Err(ScoreError::Incomparable);
        }
        if sequence.len() == 0 {
            let empty: Vec<Vec<NodeMatchResult>> = Vec::new();
            assert(paths_view(empty) =~= Seq::<Seq<StepView>>::empty());
            return Ok(empty);
        }
        let mut current = match self.anchor_paths(match_functions, sequence[0]) {
            Ok(v) => v,
            Err(e) => {
                assert(incomparable_with(self.inverted_index.keys(), mfs, s[0]));
                return Err(e);
            },
        };
        assert(s.take(1).len() == 1 && s.take(1)[0] == s[0]);
        proof {
            self.lemma_index_consistent();
        }
        let mut i: usize = 1;
        while i < sequence.len()
            invariant
                self.wf(),
                mfs == match_functions@,
                s == sequence@,
                1 <= i <= s.len(),
                !query_incomparable(*self, mfs, s),
                forall|i2: int|
                    1 <= i2 < self.arena().len() ==> self.inverted_index.has(
                        (#[trigger] self.arena()[i2]).data.unwrap(),
                    ),
                paths_view(current) == forward_paths(*self, mfs, s.take(i as int)),
                forall|k: int|
                    0 <= k < current@.len() ==> (#[trigger] current@[k])@.len() >= 1 && self.inner_id(
                        current@[k]@.last().0,
                    ),
            decreases s.len() - i,
        {
            let q = sequence[i];
            let ghost cur = paths_view(current);
            let mut next: Vec<Vec<NodeMatchResult>> = Vec::new();
            let mut k: usize = 0;
            while k < current.len()
                invariant
                    self.wf(),
                    mfs == match_functions@,
                    s == sequence@,
                    1 <= i < s.len(),
                    q == s[i as int],
                    !query_incomparable(*self, mfs, s),
                    forall|i2: int|
                        1 <= i2 < self.arena().len() ==> self.inverted_index.has(
                            (#[trigger] self.arena()[i2]).data.unwrap(),
                        ),
                    cur == paths_view(current),
                    k <= current@.len(),
                    forall|k2: int|
                        0 <= k2 < current@.len() ==> (#[trigger] current@[k2])@.len() >= 1 && self.inner_id(
                            current@[k2]@.last().0,
                        ),
                    paths_view(next) == cur.take(k as int).map_values(
                        |p: Seq<StepView>| forward_extend(self.arena(), mfs, p, q),
                    ).flatten(),
                    forall|k2: int|
                        0 <= k2 < next@.len() ==> (#[trigger] next@[k2])@.len() >= 1 && self.inner_id(
                            next@[k2]@.last().0,
                        ),
                decreases current@.len() - k,
            {
                let p = &current[k];
                let last = p[p.len() - 1].0;
                let children = &self.nodes[last.index0()].children;
                let ghost pv = path_view(*p);
                let ghost ext = forward_extend(self.arena(), mfs, pv, q);
                let ghost base = paths_view(next);
                assert(pv.last().0 == last);
                assert(children@ == self.arena()[last.pos()].children);
                proof {
                    self.lemma_children_in_range(last.pos());
                }
                let mut c: usize = 0;
                while c < children.len()
                    invariant
                        self.wf(),
                        mfs == match_functions@,
                        s == sequence@,
                        1 <= i < s.len(),
                        q == s[i as int],
                        !query_incomparable(*self, mfs, s),
                        forall|i2: int|
                            1 <= i2 < self.arena().len() ==> self.inverted_index.has(
                                (#[trigger] self.arena()[i2]).data.unwrap(),
                            ),
                        pv == path_view(*p),
                        pv.len() >= 1,
                        pv.last().0 == last,
                        self.inner_id(last),
                        children@ == self.arena()[last.pos()].children,
                        forall|k3: int|
                            0 <= k3 < children@.len() ==> last.pos() < (#[trigger] children@[k3]).pos()
                                < self.arena().len(),
                        ext == forward_extend(self.arena(), mfs, pv, q),
                        c <= children@.len(),
                        next@.len() == base.len() + c,
                        paths_view(next) == base + ext.take(c as int),
                        forall|k2: int|
                            0 <= k2 < next@.len() ==> (#[trigger] next@[k2])@.len() >= 1 && self.inner_id(
                                next@[k2]@.last().0,
                            ),
                    decreases children@.len() - c,
                {
                    let cid = children[c];
                    assert(children@[c as int] == cid);
                    proof {
                        self.lemma_parent_in_range(cid.pos());
                    }
                    let d = match self.get_data(cid) {
                        Some(d) => d,
                        None => q,
                    };
                    proof {
                        lemma_stored_comparable(*self, mfs, s, i as int, d);
                    }
                    let sc = match scores_for(match_functions, d, q) {
                        Ok(v) => v,
                        Err(e) => {
                            return Err(e);
                        },
                    };
                    let mut np = copy_path(p);
                    let ghost npv0 = path_view(np);
                    np.push((cid, sc));
                    assert(path_view(np) =~= pv.push((cid, step_scores(mfs, d, q)))) by {
                        assert forall|j: int| 0 <= j < npv0.len() implies path_view(np)[j] == npv0[j] by {}
                    }
                    assert(ext[c as int] == path_view(np));
                    let ghost before = next@;
                    let ghost nv = paths_view(next);
                    next.push(np);
                    proof {
                        assert forall|k2: int| 0 <= k2 < before.len() implies paths_view(next)[k2] == nv[k2] by {
                            assert(next@[k2] == before[k2]);
                        }
                        assert(paths_view(next)[before.len() as int] == path_view(np));
                        assert(paths_view(next) =~= nv.push(path_view(np)));
                        assert(ext.take(c as int + 1) =~= ext.take(c as int).push(ext[c as int]));
                        assert(paths_view(next) =~= base + ext.take(c as int + 1));
                        assert forall|k2: int| 0 <= k2 < next@.len() implies (#[trigger] next@[k2])@.len() >= 1
                            && self.inner_id(next@[k2]@.last().0) by {
                            if k2 < before.len() {
                                assert(next@[k2] == before[k2]);
                            } else {
                                assert(next@[k2]@.last().0 == path_view(np).last().0);
                            }
                        }
                    }
                    c = c + 1;
                }
                proof {
                    assert(ext.take(children@.len() as int) =~= ext);
                    let f = |p: Seq<StepView>| forward_extend(self.arena(), mfs, p, q);
                    assert(cur.take(k as int + 1).map_values(f) =~= cur.take(k as int).map_values(f).push(f(cur[k as int])));
                    cur.take(k as int).map_values(f).lemma_flatten_push(f(cur[k as int]));
                    assert(cur[k as int] == pv);
                }
                k = k + 1;
            }
            proof {
                assert(cur.take(current@.len() as int) =~= cur);
                assert(s.take(i as int + 1).drop_last() =~= s.take(i as int));
                assert(s.take(i as int + 1).last() == q);
            }
            current = next;
            i = i + 1;
        }
        assert(s.take(s.len() as int) =~= s);
        Ok(current)
    }

    /// Matches `sequence` from the leaves toward the root: starts from every
    /// node the lookup of its last symbol finds and, for each earlier symbol
    /// from the end toward the start, puts the parent of each path's first
    /// node in front, scored against that symbol; a path that has reached a
    /// child of the root stays as it is. Refused where some metric cannot
    /// compare some stored symbol with some symbol of `sequence`.
    pub fn match_sequence_backward(&self, sequence: &[DataTypes], match_functions: &[SequenceMatchFunction]) -> (r:
        Result<Vec<Vec<NodeMatchResult>>, ScoreError>)
        requires
            self.wf(),
        ensures
            match r {
                Ok(v) => !query_incomparable(*self, match_functions@, sequence@) && paths_view(v)
                    == backward_paths(*self, match_functions@, sequence@),
                Err(e) => e == ScoreError::Incomparable && query_incomparable(
                    *self,
                    match_functions@,
                    sequence@,
                ),
            },
    {
        let ghost mfs = match_functions@;
        let ghost s = sequence@;
        if !self.query_comparable(match_functions, sequence) {
            return Err(ScoreError::Incomparable);
        }
        if sequence.len() == 0 {
            let empty: Vec<Vec<NodeMatchResult>> = Vec::new();
            assert(paths_view(empty) =~= Seq::<Seq<StepView>>::empty());
            return Ok(empty);
        }
        let n = sequence.len();
        let mut current = match self.anchor_paths(match_functions, sequence[n - 1]) {
            Ok(v) => v,
            Err(e) => {
                assert(incomparable_with(self.inverted_index.keys(), mfs, s[n - 1]));
                return Err(e);
            },
        };
        assert(s.subrange(n - 1, n as int).len() == 1 && s.subrange(n - 1, n as int)[0] == s[n - 1]);
        proof {
            self.lemma_index_consistent();
        }
        let mut i: usize = n - 1;
        while i > 0
            invariant
                self.wf(),
                mfs == match_functions@,
                s == sequence@,
                n == s.len(),
                0 <= i < n,
                !query_incomparable(*self, mfs, s),
                forall|i2: int|
                    1 <= i2 < self.arena().len() ==> self.inverted_index.has(
                        (#[trigger] self.arena()[i2]).data.unwrap(),
                    ),
                paths_view(current) == backward_paths(*self, mfs, s.subrange(i as int, n as int)),
                forall|k: int|
                    0 <= k < current@.len() ==> (#[trigger] current@[k])@.len() >= 1 && self.inner_id(
                        current@[k]@[0].0,
                    ),
            decreases i,
        {
            i = i - 1;
            let q = sequence[i];
            let ghost cur = paths_view(current);
            let ghost f = |p: Seq<StepView>| backward_extend(self.arena(), mfs, p, q);
            let mut next: Vec<Vec<NodeMatchResult>> = Vec::new();
            let mut k: usize = 0;
            while k < current.len()
                invariant
                    self.wf(),
                    mfs == match_functions@,
                    s == sequence@,
                    0 <= i < s.len(),
                    q == s[i as int],
                    !query_incomparable(*self, mfs, s),
                    forall|i2: int|
                        1 <= i2 < self.arena().len() ==> self.inverted_index.has(
                            (#[trigger] self.arena()[i2]).data.unwrap(),
                        ),
                    cur == paths_view(current),
                    f == (|p: Seq<StepView>| backward_extend(self.arena(), mfs, p, q)),
                    k <= current@.len(),
                    forall|k2: int|
                        0 <= k2 < current@.len() ==> (#[trigger] current@[k2])@.len() >= 1 && self.inner_id(
                            current@[k2]@[0].0,
                        ),
                    next@.len() == k,
                    paths_view(next) == cur.take(k as int).map_values(f),
                    forall|k2: int|
                        0 <= k2 < next@.len() ==> (#[trigger] next@[k2])@.len() >= 1 && self.inner_id(
                            next@[k2]@[0].0,
                        ),
                decreases current@.len() - k,
            {
                let p = &current[k];
                let first = p[0].0;
                let ghost pv = path_view(*p);
                assert(pv[0].0 == first);
                assert(cur[k as int] == pv);
                proof {
                    self.lemma_parent_in_range(first.pos());
                }
                let np = match self.nodes[first.index0()].parent {
                    Some(par) => {
                        match self.get_data(par) {
                            Some(d) => {
                                proof {
                                    lemma_stored_comparable(*self, mfs, s, i as int, d);
                                }
                                let sc = match scores_for(match_functions, d, q) {
                                    Ok(v) => v,
                                    Err(e) => {
                                        return Err(e);
                                    },
                                };
                                let mut np: Vec<NodeMatchResult> = Vec::new();
                                np.push((par, sc));
                                let mut rest = copy_path(p);
                                let ghost head = np@;
                                let ghost tail = rest@;
                                assert(tail.len() == pv.len());
                                assert(forall|j: int| 0 <= j < tail.len() ==> step_view(tail[j]) == pv[j]);
                                np.append(&mut rest);
                                assert(np@ == head + tail);
                                assert(path_view(np) =~= seq![(par, step_scores(mfs, d, q))] + pv) by {
                                    assert forall|j: int| 0 <= j < tail.len() implies path_view(np)[j + 1] == pv[j] by {
                                        assert(np@[j + 1] == tail[j]);
                                        assert(step_view(tail[j]) == pv[j]);
                                    }
                                }
                                assert(self.arena()[0].data.is_none());
                                np
                            },
                            None => copy_path(p),
                        }
                    },
                    None => copy_path(p),
                };
                assert(path_view(np) == f(pv));
                let ghost before = next@;
                let ghost nv = paths_view(next);
                next.push(np);
                proof {
                    assert forall|k2: int| 0 <= k2 < before.len() implies paths_view(next)[k2] == nv[k2] by {
                        assert(next@[k2] == before[k2]);
                    }
                    assert(paths_view(next)[before.len() as int] == path_view(np));
                    assert(cur.take(k as int + 1).map_values(f) =~= cur.take(k as int).map_values(f).push(f(pv)));
                    assert(paths_view(next) =~= cur.take(k as int + 1).map_values(f));
                    assert forall|k2: int| 0 <= k2 < next@.len() implies (#[trigger] next@[k2])@.len() >= 1
                        && self.inner_id(next@[k2]@[0].0) by {
                        if k2 < before.len() {
                            assert(next@[k2] == before[k2]);
                        }
                    }
                }
                k = k + 1;
            }
            proof {
                assert(cur.take(current@.len() as int) =~= cur);
                assert(s.subrange(i as int, n as int).drop_first() =~= s.subrange(i as int + 1, n as int));
                assert(s.subrange(i as int, n as int)[0] == q);
            }
            current = next;
        }
        assert(s.subrange(0, n as int) =~= s);
        Ok(current)
    }

    /// Matches `sequence` forward (from the root) or backward (from the
    /// leaves), sums each path's step scores per metric, and sorts the paths
    /// in ascending rank, so the best path comes last: by the last metric of
    /// `match_functions`, ties broken by the one before it and so on, paths
    /// of equal rank keeping their order. A distance ranks higher the
    /// smaller it is; the other scores rank higher the larger they are.
    pub fn match_sequence(
        &self,
        sequence: &[DataTypes],
        backwards: bool,
        match_functions: &[SequenceMatchFunction],
    ) -> (r: Result<Vec<SequenceMatchResult>, ScoreError>)
        requires
            self.wf(),
        ensures
            match r {
                Ok(v) => {
                    &&& !query_incomparable(*self, match_functions@, sequence@)
                    &&& totals_defined(
                        matched_paths(*self, sequence@, backwards, match_functions@),
                        match_functions@,
                    )
                    &&& ranked(
                        results_view(v),
                        scored(
                            matched_paths(*self, sequence@, backwards, match_functions@),
                            match_functions@,
                        ),
                        match_functions@.len() as int,
                    )
                },
                Err(e) => (query_incomparable(*self, match_functions@, sequence@) && e
                    == ScoreError::Incomparable) || (!query_incomparable(
                    *self,
                    match_functions@,
                    sequence@,
                ) && exists|k: int, j: int|
                    0 <= k < matched_paths(*self, sequence@, backwards, match_functions@).len() && 0 <= j
                        < match_functions@.len() && path_total(
                        #[trigger] matched_paths(*self, sequence@, backwards, match_functions@)[k],
                        #[trigger] match_functions@[j],
                    ) == Err::<SimilarityScores, ScoreError>(e)),
            },
    {
        let ghost mfs = match_functions@;
        let ghost s = sequence@;
        let paths = if backwards {
            match self.match_sequence_backward(sequence, match_functions) {
                Ok(v) => v,
                Err(e) => {
                    return Err(e);
                },
            }
        } else {
            match self.match_sequence_forward(sequence, match_functions) {
                Ok(v) => v,
                Err(e) => {
                    return Err(e);
                },
            }
        };
        let ghost pv = paths_view(paths);
        assert(pv == matched_paths(*self, s, backwards, mfs));
        let mut totals: Vec<Scores> = Vec::new();
        let mut k: usize = 0;
        while k < paths.len()
            invariant
                mfs == match_functions@,
                s == sequence@,
                pv == paths_view(paths),
                pv == matched_paths(*self, s, backwards, mfs),
                !query_incomparable(*self, mfs, s),
                k <= paths@.len(),
                totals@.len() == k,
                forall|i: int| 0 <= i < k ==> (#[trigger] totals@[i])@ == path_totals(pv[i], mfs),
                forall|i: int, j: int|
                    0 <= i < k && 0 <= j < mfs.len() ==> (#[trigger] path_total(pv[i], #[trigger] mfs[j])).is_ok(),
            decreases paths@.len() - k,
        {
            let mut t: Scores = Vec::new();
            let mut j: usize = 0;
            while j < match_functions.len()
                invariant
                    mfs == match_functions@,
                    s == sequence@,
                    pv == paths_view(paths),
                    k < paths@.len(),
                    pv.len() == paths@.len(),
                    pv == matched_paths(*self, s, backwards, mfs),
                    !query_incomparable(*self, mfs, s),
                    j <= mfs.len(),
                    t@ == path_totals(pv[k as int], mfs.take(j as int)),
                    forall|j2: int| 0 <= j2 < j ==> (#[trigger] path_total(pv[k as int], mfs[j2])).is_ok(),
                decreases mfs.len() - j,
            {
                let m = match_functions[j];
                assert(path_view(paths@[k as int]) == pv[k as int]);
                match compute_total(&paths[k], m) {
                    Ok(x) => {
                        t.push((m, x));
                    },
                    Err(e) => {
                        assert(path_total(pv[k as int], mfs[j as int]) == Err::<SimilarityScores, ScoreError>(e));
                        assert(path_total(
                            matched_paths(*self, s, backwards, mfs)[k as int],
                            match_functions@[j as int],
                        ) == Err::<SimilarityScores, ScoreError>(e));
                        assert(0 <= k < matched_paths(*self, s, backwards, mfs).len());
                        assert(exists|k2: int, j2: int|
                            0 <= k2 < matched_paths(*self, sequence@, backwards, match_functions@).len() && 0 <= j2
                                < match_functions@.len() && path_total(
                                #[trigger] matched_paths(*self, sequence@, backwards, match_functions@)[k2],
                                #[trigger] match_functions@[j2],
                            ) == Err::<SimilarityScores, ScoreError>(e));
                        return Err(e);
                    },
                }
                assert(path_totals(pv[k as int], mfs.take(j as int + 1)) =~= path_totals(pv[k as int], mfs.take(j as int)).push((m, path_total(pv[k as int], m).unwrap())));
                j = j + 1;
            }
            assert(mfs.take(mfs.len() as int) =~= mfs);
            totals.push(t);
            k = k + 1;
        }
        proof {
            assert forall|i: int, i2: int, j: int|
                0 <= i < totals@.len() && 0 <= i2 < totals@.len() && 0 <= j < mfs.len() implies (
                #[trigger] totals@[i]@[j]).1.same_kind(#[trigger] totals@[i2]@[j].1) by {
                lemma_total_kind(pv[i], mfs[j]);
                lemma_total_kind(pv[i2], mfs[j]);
                assert(path_total(pv[i], mfs[j]).is_ok());
                assert(path_total(pv[i2], mfs[j]).is_ok());
            }
        }
        let idx = rank_order(&totals, match_functions.len());
        let ghost sc = scored(pv, mfs);
        let mut out: Vec<SequenceMatchResult> = Vec::new();
        let mut i: usize = 0;
        while i < idx.len()
            invariant
                mfs == match_functions@,
                pv == paths_view(paths),
                sc == scored(pv, mfs),
                totals@.len() == paths@.len(),
                forall|i2: int| 0 <= i2 < totals@.len() ==> (#[trigger] totals@[i2])@ == path_totals(pv[i2], mfs),
                idx@.len() == totals@.len(),
                forall|i2: int| 0 <= i2 < idx@.len() ==> (#[trigger] idx@[i2]) < totals@.len(),
                i <= idx@.len(),
                out@.len() == i,
                forall|i2: int| 0 <= i2 < i ==> #[trigger] results_view(out)[i2] == sc[idx@[i2] as int],
            decreases idx@.len() - i,
        {
            let src = idx[i];
            let p = copy_path(&paths[src]);
            let t = copy_scores(&totals[src]);
            let ghost before = out@;
            let ghost rv = results_view(out);
            assert(path_view(paths@[src as int]) == pv[src as int]);
            out.push((p, t));
            proof {
                assert(results_view(out)[i as int] == (path_view(p), t@));
                assert(sc[src as int] == (pv[src as int], path_totals(pv[src as int], mfs)));
                assert forall|i2: int| 0 <= i2 < i + 1 implies #[trigger] results_view(out)[i2] == sc[idx@[i2] as int] by {
                    if i2 < i {
                        assert(out@[i2] == before[i2]);
                        assert(results_view(out)[i2] == rv[i2]);
                    }
                }
            }
            i = i + 1;
        }
        proof {
            let w = idx@.map_values(|x: usize| x as int);
            assert forall|a: int, b: int| 0 <= a < b < w.len() implies w[a] != w[b] by {
                assert(idx@[a] != idx@[b]);
            }
            assert forall|i2: int| 0 <= i2 < w.len() implies #[trigger] results_view(out)[i2] == sc[w[i2]] by {}
            assert forall|a: int, b: int| 0 <= a < b < results_view(out).len() implies !better(
                #[trigger] results_view(out)[a].1,
                #[trigger] results_view(out)[b].1,
                mfs.len() as int,
            ) && (tied(results_view(out)[a].1, results_view(out)[b].1, mfs.len() as int) ==> w[a] < w[b]) by {
                assert(results_view(out)[a] == sc[idx@[a] as int]);
                assert(results_view(out)[b] == sc[idx@[b] as int]);
                assert(sc[idx@[a] as int].1 == totals@[idx@[a] as int]@);
                assert(sc[idx@[b] as int].1 == totals@[idx@[b] as int]@);
                assert(!better(totals@[idx@[a] as int]@, totals@[idx@[b] as int]@, mfs.len() as int));
            }
            assert(ranked_by(results_view(out), sc, mfs.len() as int, w));
            assert(ranked(results_view(out), sc, mfs.len() as int));
            assert forall|k2: int, j: int|
                0 <= k2 < pv.len() && 0 <= j < mfs.len() implies (#[trigger] path_total(pv[k2], #[trigger] mfs[j])).is_ok() by {}
        }
        Ok(out)
    }
}

} // verus!
