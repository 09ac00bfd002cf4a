//! The tree: an append-only arena of nodes whose position 0 is the root,
//! the inverted index over their symbols, and the terminal node of each
//! trained sequence.

use crate::data_types::DataTypes;
use crate::inverted_index::InvertedIndex;
use crate::nodes::{Node, NodeId, NodeView};
use vstd::prelude::*;

verus! {

/// The last child in `ch` that holds `d`.
pub open spec fn last_match(a: Seq<NodeView>, ch: Seq<NodeId>, d: DataTypes) -> Option<NodeId>
    decreases ch.len(),
{
    if ch.len() == 0 {
        None
    } else if a[ch.last().pos()].data == Some(d) {
        Some(ch.last())
    } else {
        last_match(a, ch.drop_last(), d)
    }
}

/// The child of `n` that holds `d`; the last one added where several do.
pub open spec fn child_of(a: Seq<NodeView>, n: NodeId, d: DataTypes) -> Option<NodeId> {
    last_match(a, a[n.pos()].children, d)
}

/// The node reached from `n` by following, for each symbol of `s` in turn,
/// the child that holds it.
pub open spec fn walk(a: Seq<NodeView>, n: NodeId, s: Seq<DataTypes>) -> Option<NodeId>
    decreases s.len(),
{
    if s.len() == 0 {
        Some(n)
    } else {
        match walk(a, n, s.drop_last()) {
            Some(m) => child_of(a, m, s.last()),
            None => None,
        }
    }
}

/// The handle of the node at arena position `i`.
pub open spec fn id_at(i: int) -> NodeId {
    NodeId { index1: (i + 1) as usize }
}

/// The arena after descending from `n` into its child holding `d`, that
/// child being created at the end of the arena where `n` has none, and the
/// node descended into.
pub open spec fn child_step(a: Seq<NodeView>, n: NodeId, d: DataTypes) -> (Seq<NodeView>, NodeId) {
    match child_of(a, n, d) {
        Some(c) => (a, c),
        None => (
            a.update(n.pos(), NodeView { children: a[n.pos()].children.push(id_at(a.len() as int)), ..a[n.pos()] }).push(
                NodeView { parent: Some(n), children: Seq::empty(), data: Some(d) },
            ),
            id_at(a.len() as int),
        ),
    }
}

/// The arena after training `s` from `n`, one `child_step` per symbol, and
/// the node reached last.
pub open spec fn trained_arena(a: Seq<NodeView>, n: NodeId, s: Seq<DataTypes>) -> (Seq<NodeView>, NodeId)
    decreases s.len(),
{
    if s.len() == 0 {
        (a, n)
    } else {
        let prev = trained_arena(a, n, s.drop_last());
        child_step(prev.0, prev.1, s.last())
    }
}

/// The ids of the nodes at positions `lo` up to `hi` (exclusive) that hold
/// `d`, in arena order.
pub open spec fn holders(a: Seq<NodeView>, lo: int, hi: int, d: DataTypes) -> Seq<NodeId>
    decreases hi - lo,
{
    if hi <= lo {
        Seq::empty()
    } else {
        holders(a, lo, hi - 1, d) + if a[hi - 1].data == Some(d) {
            seq![id_at(hi - 1)]
        } else {
            Seq::<NodeId>::empty()
        }
    }
}

/// `new` starts with all of `old`.
pub open spec fn children_extend(old: Seq<NodeId>, new: Seq<NodeId>) -> bool {
    old.len() <= new.len() && forall|k: int| 0 <= k < old.len() ==> old[k] == #[trigger] new[k]
}

/// `holders` splits at any middle position.
pub proof fn lemma_holders_split(a: Seq<NodeView>, lo: int, mid: int, hi: int, d: DataTypes)
    requires
        lo <= mid <= hi,
    ensures
        holders(a, lo, hi, d) == holders(a, lo, mid, d) + holders(a, mid, hi, d),
    decreases hi - mid,
{
    if hi > mid {
        lemma_holders_split(a, lo, mid, hi - 1, d);
        assert(holders(a, lo, hi, d) =~= holders(a, lo, mid, d) + holders(a, mid, hi, d));
    } else {
        assert(holders(a, lo, hi, d) =~= holders(a, lo, mid, d) + holders(a, mid, hi, d));
    }
}

/// `holders` depends only on the symbols of the positions it covers.
pub proof fn lemma_holders_frame(a: Seq<NodeView>, b: Seq<NodeView>, lo: int, hi: int, d: DataTypes)
    requires
        forall|q: int| lo <= q < hi ==> (#[trigger] a[q]).data == b[q].data,
    ensures
        holders(a, lo, hi, d) == holders(b, lo, hi, d),
    decreases hi - lo,
{
    if hi > lo {
        lemma_holders_frame(a, b, lo, hi - 1, d);
        assert(a[hi - 1].data == b[hi - 1].data);
    }
}

/// Every child of every node lies in the arena.
pub open spec fn links_in_range(a: Seq<NodeView>) -> bool {
    forall|q: int, k: int|
        0 <= q < a.len() && 0 <= k < a[q].children.len() ==> 0 <= (#[trigger] a[q].children[k]).pos() < a.len()
}

proof fn lemma_last_match_member(a: Seq<NodeView>, ch: Seq<NodeId>, d: DataTypes)
    ensures
        last_match(a, ch, d) matches Some(c) ==> ch.contains(c) && a[c.pos()].data == Some(d),
    decreases ch.len(),
{
    if ch.len() > 0 {
        assert(ch[ch.len() - 1] == ch.last());
        if a[ch.last().pos()].data != Some(d) {
            lemma_last_match_member(a, ch.drop_last(), d);
            if let Some(c) = last_match(a, ch.drop_last(), d) {
                let k = choose|k: int| 0 <= k < ch.drop_last().len() && ch.drop_last()[k] == c;
                assert(ch[k] == c);
            }
        }
    }
}

/// One `child_step` keeps every child that a node already had for a symbol.
proof fn lemma_child_step_keeps(a: Seq<NodeView>, m: NodeId, d: DataTypes, x: NodeId, e: DataTypes)
    requires
        links_in_range(a),
        a.len() < usize::MAX,
        0 <= m.pos() < a.len(),
        0 <= x.pos() < a.len(),
        child_of(a, x, e).is_some(),
    ensures
        child_of(child_step(a, m, d).0, x, e) == child_of(a, x, e),
{
    let b = child_step(a, m, d).0;
    if child_of(a, m, d).is_none() {
        let c = id_at(a.len() as int);
        assert(c.pos() == a.len());
        let chx = a[x.pos()].children;
        assert forall|k: int| 0 <= k < chx.len() implies b[(#[trigger] chx[k]).pos()].data == a[chx[k].pos()].data by {
            assert(a[x.pos()].children[k] == chx[k]);
        }
        if x.pos() == m.pos() {
            assert(x == m);
            assert(b[x.pos()].children.last() == c);
            assert(b[x.pos()].children.drop_last() =~= chx);
            assert(b[c.pos()].data == Some(d));
        } else {
            assert(b[x.pos()] == a[x.pos()]);
        }
        lemma_last_match_frame(b, a, chx, e);
    }
}

/// Training keeps every child that a node of the arena already had for a symbol.
proof fn lemma_trained_keeps(a: Seq<NodeView>, n: NodeId, s: Seq<DataTypes>)
    requires
        links_in_range(a),
        a.len() + s.len() < usize::MAX,
        0 <= n.pos() < a.len(),
    ensures
        links_in_range(trained_arena(a, n, s).0),
        0 <= trained_arena(a, n, s).1.pos() < trained_arena(a, n, s).0.len(),
        a.len() <= trained_arena(a, n, s).0.len() <= a.len() + s.len(),
        forall|x: NodeId, e: DataTypes|
            0 <= x.pos() < a.len() && (#[trigger] child_of(a, x, e)).is_some() ==> child_of(
                trained_arena(a, n, s).0,
                x,
                e,
            ) == child_of(a, x, e),
    decreases s.len(),
{
    if s.len() > 0 {
        lemma_trained_keeps(a, n, s.drop_last());
        let prev = trained_arena(a, n, s.drop_last());
        assert forall|x: NodeId, e: DataTypes|
            0 <= x.pos() < a.len() && (#[trigger] child_of(a, x, e)).is_some() implies child_of(
                trained_arena(a, n, s).0,
                x,
                e,
            ) == child_of(a, x, e) by {
            lemma_child_step_keeps(prev.0, prev.1, s.last(), x, e);
        }
        lemma_child_step_keeps_shape(prev.0, prev.1, s.last());
    }
}

proof fn lemma_child_step_keeps_shape(a: Seq<NodeView>, m: NodeId, d: DataTypes)
    requires
        links_in_range(a),
        a.len() < usize::MAX,
        0 <= m.pos() < a.len(),
    ensures
        links_in_range(child_step(a, m, d).0),
        0 <= child_step(a, m, d).1.pos() < child_step(a, m, d).0.len(),
        a.len() <= child_step(a, m, d).0.len() <= a.len() + 1,
{
    let b = child_step(a, m, d).0;
    let ch = a[m.pos()].children;
    if child_of(a, m, d).is_some() {
        lemma_last_match_member(a, ch, d);
        let c = child_of(a, m, d).unwrap();
        let k = choose|k: int| 0 <= k < ch.len() && ch[k] == c;
        assert(a[m.pos()].children[k] == c);
    } else {
        let c = id_at(a.len() as int);
        assert forall|q: int, k: int|
            0 <= q < b.len() && 0 <= k < b[q].children.len() implies 0 <= (#[trigger] b[q].children[k]).pos()
                < b.len() by {
            if q == m.pos() && k == ch.len() {
                assert(b[q].children[k] == c);
            } else if q < a.len() {
                assert(b[q].children[k] == a[q].children[k]);
            }
        }
    }
}

/// A walk that keeps every step it takes leads to the same node.
proof fn lemma_walk_kept(a: Seq<NodeView>, b: Seq<NodeView>, n: NodeId, s: Seq<DataTypes>)
    requires
        links_in_range(a),
        0 <= n.pos() < a.len(),
        walk(a, n, s).is_some(),
        forall|x: NodeId, e: DataTypes|
            0 <= x.pos() < a.len() && (#[trigger] child_of(a, x, e)).is_some() ==> child_of(b, x, e) == child_of(
                a,
                x,
                e,
            ),
    ensures
        walk(b, n, s) == walk(a, n, s),
        0 <= walk(a, n, s).unwrap().pos() < a.len(),
    decreases s.len(),
{
    if s.len() > 0 {
        lemma_walk_kept(a, b, n, s.drop_last());
        let m = walk(a, n, s.drop_last()).unwrap();
        lemma_last_match_member(a, a[m.pos()].children, s.last());
        let c = child_of(a, m, s.last()).unwrap();
        let k = choose|k: int| 0 <= k < a[m.pos()].children.len() && a[m.pos()].children[k] == c;
        assert(a[m.pos()].children[k] == c);
    }
}

/// Training any sequence keeps where every walk of the tree leads. So a
/// sequence trained earlier, trained again after other sequences, is found
/// without adding a node and gets the terminal it was first given.
pub proof fn lemma_training_keeps_walks(
    pre: CPT,
    post: CPT,
    n2: NodeId,
    s2: Seq<DataTypes>,
    n: NodeId,
    s: Seq<DataTypes>,
)
    requires
        pre.wf(),
        pre.valid_id(n2),
        pre.valid_id(n),
        pre.arena().len() + s2.len() < usize::MAX,
        sequence_added(pre, post, n2, s2),
        walk(pre.arena(), n, s).is_some(),
    ensures
        walk(post.arena(), n, s) == walk(pre.arena(), n, s),
{
    pre.lemma_all_children_in_range();
    lemma_trained_keeps(pre.arena(), n2, s2);
    lemma_walk_kept(pre.arena(), post.arena(), n, s);
}

/// `post` has the arena and index of `pre` grown by new nodes only: each
/// bag gains the new nodes holding its symbol, in order, and each old
/// children list is kept as a prefix.
#[verifier::opaque]
spec fn grown_from(pre: CPT, post: CPT) -> bool {
    &&& forall|e: DataTypes|
        #[trigger] post.inverted_index.bag(e) == pre.inverted_index.bag(e) + holders(
            post.arena(),
            pre.arena().len() as int,
            post.arena().len() as int,
            e,
        )
    &&& forall|q: int|
        0 <= q < pre.arena().len() ==> children_extend(pre.arena()[q].children, #[trigger] post.arena()[q].children)
}

proof fn lemma_grown_from_self(t: CPT)
    ensures
        grown_from(t, t),
{
    reveal(grown_from);
    assert forall|e: DataTypes| #[trigger] t.inverted_index.bag(e) == t.inverted_index.bag(e) + holders(
        t.arena(),
        t.arena().len() as int,
        t.arena().len() as int,
        e,
    ) by {
        assert(t.inverted_index.bag(e) + Seq::<NodeId>::empty() =~= t.inverted_index.bag(e));
    }
}

proof fn lemma_grown_from_step(pre: CPT, mid: CPT, post: CPT)
    requires
        grown_from(pre, mid),
        pre.arena().len() <= mid.arena().len() <= post.arena().len(),
        forall|e: DataTypes|
            #[trigger] post.inverted_index.bag(e) == mid.inverted_index.bag(e) + holders(
                post.arena(),
                mid.arena().len() as int,
                post.arena().len() as int,
                e,
            ),
        forall|q: int|
            0 <= q < mid.arena().len() ==> (#[trigger] post.arena()[q]).data == mid.arena()[q].data,
        forall|q: int|
            0 <= q < mid.arena().len() ==> children_extend(mid.arena()[q].children, #[trigger] post.arena()[q].children),
    ensures
        grown_from(pre, post),
{
    reveal(grown_from);
    let l0 = pre.arena().len() as int;
    let lm = mid.arena().len() as int;
    let l1 = post.arena().len() as int;
    assert forall|e: DataTypes| #[trigger] post.inverted_index.bag(e) == pre.inverted_index.bag(e) + holders(
        post.arena(),
        l0,
        l1,
        e,
    ) by {
        assert(mid.inverted_index.bag(e) == pre.inverted_index.bag(e) + holders(mid.arena(), l0, lm, e));
        assert forall|q: int| l0 <= q < lm implies (#[trigger] mid.arena()[q]).data == post.arena()[q].data by {
            assert(post.arena()[q].data == mid.arena()[q].data);
        }
        lemma_holders_frame(mid.arena(), post.arena(), l0, lm, e);
        lemma_holders_split(post.arena(), l0, lm, l1, e);
        assert(pre.inverted_index.bag(e) + holders(mid.arena(), l0, lm, e) + holders(post.arena(), lm, l1, e)
            =~= pre.inverted_index.bag(e) + holders(post.arena(), l0, l1, e));
    }
    assert forall|q: int| 0 <= q < l0 implies children_extend(
        pre.arena()[q].children,
        #[trigger] post.arena()[q].children,
    ) by {
        assert(children_extend(pre.arena()[q].children, mid.arena()[q].children));
        assert(children_extend(mid.arena()[q].children, post.arena()[q].children));
    }
}

/// Training `s` from `n` turns arena `a0` into `a`, ending at `cur`.
#[verifier::opaque]
spec fn reached_by(a0: Seq<NodeView>, n: NodeId, s: Seq<DataTypes>, a: Seq<NodeView>, cur: NodeId) -> bool {
    trained_arena(a0, n, s) == (a, cur)
}

proof fn lemma_reached_step(
    a0: Seq<NodeView>,
    n: NodeId,
    s: Seq<DataTypes>,
    i: int,
    a: Seq<NodeView>,
    cur: NodeId,
    a1: Seq<NodeView>,
    next: NodeId,
)
    requires
        0 <= i < s.len(),
        reached_by(a0, n, s.take(i), a, cur),
        a1 == child_step(a, cur, s[i]).0,
        next == child_step(a, cur, s[i]).1,
    ensures
        reached_by(a0, n, s.take(i + 1), a1, next),
{
    reveal(reached_by);
    assert(s.take(i + 1).drop_last() =~= s.take(i));
    assert(s.take(i + 1).last() == s[i]);
}

/// What training `s` from node `n` does to a tree: the arena becomes
/// `trained_arena` (for each symbol, the existing child holding it is
/// reused and a missing one is appended) and its last node is recorded as
/// the terminal; each new node is appended to the bag of its symbol; so the
/// symbols of `s` lead from `n` to that terminal, at most one node per
/// symbol is added, existing nodes keep their symbol and parent and only
/// gain children, and a sequence already present changes nothing but the
/// table.
pub open spec fn sequence_added(pre: CPT, post: CPT, n: NodeId, s: Seq<DataTypes>) -> bool {
    &&& post.wf()
    &&& post.sequences_lookup_table@.len() == pre.sequences_lookup_table@.len() + 1
    &&& post.sequences_lookup_table@.drop_last() == pre.sequences_lookup_table@
    &&& walk(post.arena(), n, s) == Some(post.sequences_lookup_table@.last())
    &&& pre.arena().len() <= post.arena().len() <= pre.arena().len() + s.len()
    &&& forall|i: int|
        0 <= i < pre.arena().len() ==> (#[trigger] post.arena()[i]).data == pre.arena()[i].data
            && post.arena()[i].parent == pre.arena()[i].parent
    &&& walk(pre.arena(), n, s).is_some() ==> post.arena() == pre.arena() && post.inverted_index
        == pre.inverted_index
    &&& post.arena() == trained_arena(pre.arena(), n, s).0
    &&& post.sequences_lookup_table@.last() == trained_arena(pre.arena(), n, s).1
    &&& forall|e: DataTypes|
        #[trigger] post.inverted_index.bag(e) == pre.inverted_index.bag(e) + holders(
            post.arena(),
            pre.arena().len() as int,
            post.arena().len() as int,
            e,
        )
    &&& forall|i: int|
        0 <= i < pre.arena().len() ==> children_extend(pre.arena()[i].children, #[trigger] post.arena()[i].children)
}

/// Training a sequence a second time from the same node adds no node.
pub proof fn lemma_retraining_adds_no_node(
    before: CPT,
    once: CPT,
    twice: CPT,
    n: NodeId,
    s: Seq<DataTypes>,
)
    requires
        sequence_added(before, once, n, s),
        sequence_added(once, twice, n, s),
    ensures
        twice.arena() == once.arena(),
        twice.arena().len() == once.arena().len(),
        twice.inverted_index == once.inverted_index,
{
}

/// A match of `last_match` depends only on the symbols of the children given.
pub proof fn lemma_last_match_frame(a: Seq<NodeView>, b: Seq<NodeView>, ch: Seq<NodeId>, d: DataTypes)
    requires
        forall|k: int| 0 <= k < ch.len() ==> a[(#[trigger] ch[k]).pos()].data == b[ch[k].pos()].data,
    ensures
        last_match(a, ch, d) == last_match(b, ch, d),
    decreases ch.len(),
{
    if ch.len() > 0 {
        assert(ch[ch.len() - 1] == ch.last());
        assert forall|k: int| 0 <= k < ch.drop_last().len() implies a[(#[trigger] ch.drop_last()[k]).pos()].data
            == b[ch.drop_last()[k].pos()].data by {
            assert(ch.drop_last()[k] == ch[k]);
        }
        lemma_last_match_frame(a, b, ch.drop_last(), d);
    }
}

/// A path whose every step goes to the child holding the next symbol is the walk.
pub proof fn lemma_chain_walk(a: Seq<NodeView>, path: Seq<NodeId>, s: Seq<DataTypes>, k: int)
    requires
        path.len() == s.len() + 1,
        0 <= k <= s.len(),
        forall|j: int| 0 <= j < s.len() ==> child_of(a, #[trigger] path[j], s[j]) == Some(path[j + 1]),
    ensures
        walk(a, path[0], s.take(k)) == Some(path[k]),
    decreases k,
{
    if k > 0 {
        lemma_chain_walk(a, path, s, k - 1);
        assert(s.take(k).drop_last() =~= s.take(k - 1));
        assert(s.take(k).last() == s[k - 1]);
    }
}

/// Growing the arena at node `cur` keeps every step of a path that leads to `cur`.
proof fn lemma_chain_step(
    a0: Seq<NodeView>,
    a1: Seq<NodeView>,
    path: Seq<NodeId>,
    s: Seq<DataTypes>,
    i: int,
    cur: NodeId,
)
    requires
        0 <= i < s.len(),
        path.len() == i + 1,
        path[i] == cur,
        forall|j: int| 0 <= j < i ==> child_of(a0, #[trigger] path[j], s[j]) == Some(path[j + 1]),
        forall|j: int| 0 <= j < i ==> (#[trigger] path[j]).pos() < path[j + 1].pos(),
        forall|j: int| 0 <= j <= i ==> 0 <= #[trigger] path[j].pos() <= cur.pos(),
        0 <= cur.pos() < a0.len(),
        forall|q: int, k: int|
            0 <= q < a0.len() && 0 <= k < a0[q].children.len() ==> 0 <= (#[trigger] a0[q].children[k]).pos()
                < a0.len(),
        a0.len() <= a1.len(),
        forall|q: int| 0 <= q < a0.len() && q != cur.pos() ==> #[trigger] a1[q] == a0[q],
        forall|q: int| 0 <= q < a0.len() ==> (#[trigger] a1[q]).data == a0[q].data,
    ensures
        forall|j: int| 0 <= j < i ==> child_of(a1, #[trigger] path[j], s[j]) == Some(path[j + 1]),
{
    assert forall|j: int| 0 <= j < i implies child_of(a1, #[trigger] path[j], s[j]) == Some(path[j + 1]) by {
        let p = path[j];
        assert(p.pos() < path[j + 1].pos());
        assert(path[j + 1].pos() <= cur.pos());
        assert(0 <= p.pos());
        assert(a1[p.pos()] == a0[p.pos()]);
        let ch = a0[p.pos()].children;
        assert forall|k: int| 0 <= k < ch.len() implies a1[(#[trigger] ch[k]).pos()].data == a0[ch[k].pos()].data by {
            assert(a0[p.pos()].children[k].pos() < a0.len());
        }
        lemma_last_match_frame(a1, a0, ch, s[j]);
    }
}

/// Along a sequence that walks from `n`, the node reached after `i` symbols
/// has a child holding the next one.
proof fn lemma_next_step_exists(a: Seq<NodeView>, path: Seq<NodeId>, s: Seq<DataTypes>, i: int, n: NodeId)
    requires
        0 <= i < s.len(),
        path.len() == i + 1,
        path[0] == n,
        forall|j: int| 0 <= j < i ==> child_of(a, #[trigger] path[j], s[j]) == Some(path[j + 1]),
        walk(a, n, s).is_some(),
    ensures
        child_of(a, path[i], s[i]).is_some(),
{
    assert forall|j: int| 0 <= j < i implies child_of(a, #[trigger] path[j], s.take(i)[j]) == Some(path[j + 1]) by {
        assert(s.take(i)[j] == s[j]);
    }
    lemma_chain_walk(a, path, s.take(i), i);
    assert(s.take(i).take(i) =~= s.take(i));
    lemma_walk_prefix(a, n, s, i);
    lemma_walk_prefix(a, n, s, i + 1);
}

/// Every prefix of a sequence that walks from `n` walks from `n` too.
pub proof fn lemma_walk_prefix(a: Seq<NodeView>, n: NodeId, s: Seq<DataTypes>, k: int)
    requires
        walk(a, n, s).is_some(),
        0 <= k <= s.len(),
    ensures
        walk(a, n, s.take(k)).is_some(),
        k < s.len() ==> walk(a, n, s.take(k + 1)) == child_of(a, walk(a, n, s.take(k)).unwrap(), s[k]),
    decreases s.len() - k,
{
    if k == s.len() {
        assert(s.take(k) =~= s);
    } else {
        lemma_walk_prefix(a, n, s, k + 1);
        assert(s.take(k + 1).drop_last() =~= s.take(k));
        assert(s.take(k + 1).last() == s[k]);
    }
}

/// The tree, its inverted index, and the terminal node of each trained
/// sequence in training order.
#[derive(Debug)]
pub struct CPT {
    pub inverted_index: InvertedIndex,
    pub nodes: Vec<Node>,
    pub sequences_lookup_table: Vec<NodeId>,
}

impl Default for CPT {
    fn default() -> (r: CPT)
        ensures
            r.wf(),
            r.arena().len() == 1,
            r.sequences_lookup_table@.len() == 0,
    {
        CPT::new()
    }
}

impl CPT {
    /// The nodes as mathematical values.
    pub open spec fn arena(&self) -> Seq<NodeView> {
        self.nodes@.map_values(|n: Node| n@)
    }

    /// Whether `id` denotes a node of the arena.
    pub open spec fn valid_id(&self, id: NodeId) -> bool {
        1 <= id.index1 <= self.nodes@.len()
    }

    /// The root sits at position 0 with no symbol and no parent.
    pub open spec fn root_ok(&self) -> bool {
        &&& self.arena().len() >= 1
        &&& self.arena()[0].parent.is_none()
        &&& self.arena()[0].data.is_none()
    }

    /// Every other node holds a symbol and has an earlier parent that lists it.
    #[verifier::opaque]
    pub open spec fn parents_ok(&self) -> bool {
        forall|i: int|
            1 <= i < self.arena().len() ==> {
                &&& (#[trigger] self.arena()[i]).data.is_some()
                &&& self.arena()[i].parent.is_some()
                &&& 0 <= self.arena()[i].parent.unwrap().pos() < i
                &&& self.arena()[self.arena()[i].parent.unwrap().pos()].children.contains(id_at(i))
            }
    }

    /// Every child is a later node whose parent is this one, listed once.
    #[verifier::opaque]
    pub open spec fn children_ok(&self) -> bool {
        &&& forall|i: int, k: int|
            0 <= i < self.arena().len() && 0 <= k < self.arena()[i].children.len() ==> {
                let c = #[trigger] self.arena()[i].children[k];
                &&& i < c.pos() < self.arena().len()
                &&& self.arena()[c.pos()].parent == Some(id_at(i))
            }
        &&& forall|i: int| 0 <= i < self.arena().len() ==> (#[trigger] self.arena()[i]).children.no_duplicates()
    }

    /// The index lists each non-root node under its symbol, and nothing else.
    #[verifier::opaque]
    pub open spec fn index_ok(&self) -> bool {
        &&& forall|i: int|
            1 <= i < self.arena().len() ==> self.inverted_index.bag(
                (#[trigger] self.arena()[i]).data.unwrap(),
            ).contains(id_at(i))
        &&& forall|d: DataTypes, k: int|
            0 <= k < self.inverted_index.bag(d).len() ==> {
                &&& 1 <= (#[trigger] self.inverted_index.bag(d)[k]).pos() < self.arena().len()
                &&& self.arena()[self.inverted_index.bag(d)[k].pos()].data == Some(d)
            }
        &&& forall|d: DataTypes| (#[trigger] self.inverted_index.bag(d)).no_duplicates()
    }

    /// The structural invariant of the tree.
    pub open spec fn wf(&self) -> bool {
        &&& self.root_ok()
        &&& self.parents_ok()
        &&& self.children_ok()
        &&& self.inverted_index.wf()
        &&& self.index_ok()
        &&& forall|k: int|
            0 <= k < self.sequences_lookup_table@.len() ==> self.valid_id(
                #[trigger] self.sequences_lookup_table@[k],
            )
    }

    /// A tree holding the root alone.
    pub fn new() -> (r: CPT)
        ensures
            r.wf(),
            r.arena().len() == 1,
            r.sequences_lookup_table@.len() == 0,
            r.inverted_index.keys().len() == 0,
    {
        let mut nodes: Vec<Node> = Vec::new();
        nodes.push(Node { children: Vec::new(), parent: None, data: None });
        let r = CPT {
            nodes,
            inverted_index: InvertedIndex::new(),
            sequences_lookup_table: Vec::new(),
        };
        assert(r.arena().len() == 1);
        assert(r.arena()[0].children.len() == 0);
        assert(r.parents_ok()) by {
            reveal(CPT::parents_ok);
        }
        assert(r.children_ok()) by {
            reveal(CPT::children_ok);
        }
        assert(r.index_ok()) by {
            reveal(CPT::index_ok);
        }
        r
    }

    /// The handle of the root.
    pub fn get_root_id() -> (r: NodeId)
        ensures
            r.index1 == 1,
    {
        NodeId::new()
    }

    /// Appends `new_node` to the arena and records its symbol in the index.
    pub fn new_node(&mut self, new_node: Node) -> (r: NodeId)
        requires
            old(self).inverted_index.wf(),
            old(self).nodes@.len() < usize::MAX,
            new_node.data.is_some(),
        ensures
            r == id_at(old(self).arena().len() as int),
            final(self).arena() == old(self).arena().push(new_node@),
            final(self).sequences_lookup_table@ == old(self).sequences_lookup_table@,
            final(self).inverted_index.wf(),
            forall|d: DataTypes| #[trigger]
                final(self).inverted_index.has(d) <==> (old(self).inverted_index.has(d) || d
                    == new_node.data.unwrap()),
            final(self).inverted_index.bag(new_node.data.unwrap()) == old(self).inverted_index.bag(
                new_node.data.unwrap(),
            ).push(r),
            forall|d: DataTypes|
                d != new_node.data.unwrap() ==> #[trigger] final(self).inverted_index.bag(d)
                    == old(self).inverted_index.bag(d),
    {
        let next_index1 = self.nodes.len() + 1;
        let data = match new_node.data {
            Some(d) => d,
            None => DataTypes::Integer(0),
        };
        self.nodes.push(new_node);
        let new_node_id = NodeId::from_non_zero_usize(next_index1);
        self.inverted_index.insert_value(data, new_node_id);
        assert(self.arena() =~= old(self).arena().push(new_node@));
        new_node_id
    }

    /// The node `id` denotes, or `None` where it denotes none.
    pub fn get(&self, id: NodeId) -> (r: Option<&Node>)
        ensures
            match r {
                Some(n) => self.valid_id(id) && *n == self.nodes@[id.pos()],
                None => !self.valid_id(id),
            },
    {
        if id.index1 == 0 {
            None
        } else {
            self.nodes.get(id.index0())
        }
    }

    /// Replaces the node `id` denotes.
    pub fn update_node(&mut self, id: NodeId, new_node: Node)
        requires
            old(self).valid_id(id),
        ensures
            final(self).arena() == old(self).arena().update(id.pos(), new_node@),
            final(self).inverted_index == old(self).inverted_index,
            final(self).sequences_lookup_table@ == old(self).sequences_lookup_table@,
    {
        let i = id.index0();
        self.nodes.set(i, new_node);
        assert(self.arena() =~= old(self).arena().update(id.pos(), new_node@));
    }

    /// The symbol of node `id`.
    pub fn get_data(&self, id: NodeId) -> (r: Option<DataTypes>)
        requires
            self.valid_id(id),
        ensures
            r == self.arena()[id.pos()].data,
    {
        self.nodes[id.index0()].data
    }

    /// Descends from `node_id` into its child holding `new_data`, creating
    /// that child first where there is none.
    pub fn add_child(&mut self, new_data: DataTypes, node_id: NodeId) -> (r: NodeId)
        requires
            old(self).wf(),
            old(self).valid_id(node_id),
            old(self).nodes@.len() < usize::MAX,
        ensures
            final(self).wf(),
            final(self).valid_id(r),
            r.pos() > node_id.pos(),
            child_of(final(self).arena(), node_id, new_data) == Some(r),
            final(self).arena().len() <= old(self).arena().len() + 1,
            forall|q: int|
                0 <= q < old(self).arena().len() && q != node_id.pos() ==> #[trigger] final(self).arena()[q]
                    == old(self).arena()[q],
            forall|q: int|
                0 <= q < old(self).arena().len() ==> (#[trigger] final(self).arena()[q]).data == old(
                    self,
                ).arena()[q].data && final(self).arena()[q].parent == old(self).arena()[q].parent,
            final(self).sequences_lookup_table@ == old(self).sequences_lookup_table@,
            final(self).arena() == child_step(old(self).arena(), node_id, new_data).0,
            r == child_step(old(self).arena(), node_id, new_data).1,
            forall|e: DataTypes|
                #[trigger] final(self).inverted_index.bag(e) == old(self).inverted_index.bag(e) + holders(
                    final(self).arena(),
                    old(self).arena().len() as int,
                    final(self).arena().len() as int,
                    e,
                ),
            forall|q: int|
                0 <= q < old(self).arena().len() ==> children_extend(
                    old(self).arena()[q].children,
                    #[trigger] final(self).arena()[q].children,
                ),
            match child_of(old(self).arena(), node_id, new_data) {
                Some(c) => {
                    &&& r == c
                    &&& final(self).arena() == old(self).arena()
                    &&& final(self).inverted_index == old(self).inverted_index
                },
                None => {
                    &&& r == id_at(old(self).arena().len() as int)
                    &&& final(self).arena() == old(self).arena().update(
                        node_id.pos(),
                        NodeView {
                            children: old(self).arena()[node_id.pos()].children.push(r),
                            ..old(self).arena()[node_id.pos()]
                        },
                    ).push(NodeView { parent: Some(node_id), children: Seq::empty(), data: Some(new_data) })
                },
            },
    {
        assert(self.nodes@.len() == self.arena().len());
        match self.child_exists(new_data, node_id) {
            None => {
                let new_node = Node { data: Some(new_data), parent: Some(node_id), children: Vec::new() };
                let new_node_id = self.new_node(new_node);
                let ghost mid = self.arena();
                assert(self.nodes@.len() == self.arena().len());
                let i = node_id.index0();
                self.nodes[i].children.push(new_node_id);
                proof {
                    assert(self.arena() =~= mid.update(
                        node_id.pos(),
                        NodeView { children: mid[node_id.pos()].children.push(new_node_id), ..mid[node_id.pos()] },
                    ));
                    self.lemma_add_child_wf(*old(self), mid, node_id, new_data, new_node_id);
                    let l = old(self).arena().len() as int;
                    assert forall|e: DataTypes|
                        #[trigger] self.inverted_index.bag(e) == old(self).inverted_index.bag(e) + holders(
                            self.arena(),
                            l,
                            l + 1,
                            e,
                        ) by {
                        assert(holders(self.arena(), l, l, e) =~= Seq::<NodeId>::empty());
                        if e == new_data {
                            assert(holders(self.arena(), l, l + 1, e) =~= seq![new_node_id]);
                        } else {
                            assert(holders(self.arena(), l, l + 1, e) =~= Seq::<NodeId>::empty());
                        }
                    }
                    assert forall|q: int| 0 <= q < l implies children_extend(
                        old(self).arena()[q].children,
                        #[trigger] self.arena()[q].children,
                    ) by {
                        if q == node_id.pos() {
                            assert(self.arena()[q].children =~= old(self).arena()[q].children.push(new_node_id));
                        }
                    }
                }
                new_node_id
            },
            Some(matched_id) => {
                proof {
                    self.lemma_last_match_in(self.arena(), self.arena()[node_id.pos()].children, new_data);
                    self.lemma_children_in_range(node_id.pos());
                    assert forall|e: DataTypes|
                        #[trigger] self.inverted_index.bag(e) == old(self).inverted_index.bag(e) + holders(
                            self.arena(),
                            self.arena().len() as int,
                            self.arena().len() as int,
                            e,
                        ) by {
                        assert(self.inverted_index.bag(e) + Seq::<NodeId>::empty() =~= self.inverted_index.bag(e));
                    }
                }
                matched_id
            },
        }
    }

    /// In a well-formed tree every node's id is listed under its symbol in the
    /// index, the index lists only nodes holding that symbol, and the index's
    /// symbols are strictly ascending.
    pub proof fn lemma_index_consistent(&self)
        requires
            self.wf(),
        ensures
            forall|i: int|
                1 <= i < self.arena().len() ==> {
                    &&& self.inverted_index.has((#[trigger] self.arena()[i]).data.unwrap())
                    &&& self.inverted_index.bag(self.arena()[i].data.unwrap()).contains(id_at(i))
                },
            forall|d: DataTypes, k: int|
                0 <= k < self.inverted_index.bag(d).len() ==> {
                    &&& 1 <= (#[trigger] self.inverted_index.bag(d)[k]).pos() < self.arena().len()
                    &&& self.arena()[self.inverted_index.bag(d)[k].pos()].data == Some(d)
                },
            forall|i: int, j: int|
                0 <= i < j < self.inverted_index.keys().len() ==> (
                #[trigger] self.inverted_index.keys()[i]).precedes(#[trigger] self.inverted_index.keys()[j]),
    {
        reveal(CPT::index_ok);
        assert forall|i: int| 1 <= i < self.arena().len() implies self.inverted_index.has(
            (#[trigger] self.arena()[i]).data.unwrap()) by {
            let d = self.arena()[i].data.unwrap();
            assert(self.inverted_index.bag(d).contains(id_at(i)));
        }
    }

    /// A node other than the root holds a symbol and has an earlier parent.
    pub proof fn lemma_parent_in_range(&self, i: int)
        requires
            self.wf(),
            1 <= i < self.arena().len(),
        ensures
            self.arena()[i].data.is_some(),
            self.arena()[i].parent.is_some(),
            0 <= self.arena()[i].parent.unwrap().pos() < i,
    {
        reveal(CPT::parents_ok);
    }

    /// Every child lies in the arena.
    pub proof fn lemma_all_children_in_range(&self)
        requires
            self.wf(),
        ensures
            forall|q: int, k: int|
                0 <= q < self.arena().len() && 0 <= k < self.arena()[q].children.len() ==> 0 <= (
                #[trigger] self.arena()[q].children[k]).pos() < self.arena().len(),
    {
        reveal(CPT::children_ok);
    }

    /// A child's parent is the node that lists it.
    pub proof fn lemma_child_parent(&self, i: int, k: int)
        requires
            self.wf(),
            0 <= i < self.arena().len(),
            0 <= k < self.arena()[i].children.len(),
        ensures
            self.arena()[self.arena()[i].children[k].pos()].parent == Some(id_at(i)),
    {
        reveal(CPT::children_ok);
    }

    /// The children of a node come after it in the arena.
    pub proof fn lemma_children_in_range(&self, i: int)
        requires
            self.wf(),
            0 <= i < self.arena().len(),
        ensures
            forall|k: int|
                0 <= k < self.arena()[i].children.len() ==> i < (#[trigger] self.arena()[i].children[k]).pos()
                    < self.arena().len(),
    {
        reveal(CPT::children_ok);
    }

    /// A match of `last_match` is one of the children given, and holds `d`.
    proof fn lemma_last_match_in(&self, a: Seq<NodeView>, ch: Seq<NodeId>, d: DataTypes)
        ensures
            last_match(a, ch, d) matches Some(c) ==> ch.contains(c) && a[c.pos()].data == Some(d),
        decreases ch.len(),
    {
        if ch.len() > 0 && a[ch.last().pos()].data != Some(d) {
            self.lemma_last_match_in(a, ch.drop_last(), d);
            if let Some(c) = last_match(a, ch.drop_last(), d) {
                let k = choose|k: int| 0 <= k < ch.drop_last().len() && ch.drop_last()[k] == c;
                assert(ch[k] == c);
            }
        }
        if ch.len() > 0 {
            assert(ch[ch.len() - 1] == ch.last());
        }
    }

    proof fn lemma_add_child_wf(
        &self,
        pre: CPT,
        mid: Seq<NodeView>,
        node_id: NodeId,
        d: DataTypes,
        c: NodeId,
    )
        requires
            pre.wf(),
            pre.valid_id(node_id),
            pre.arena().len() < usize::MAX,
            child_of(pre.arena(), node_id, d).is_none(),
            c == id_at(pre.arena().len() as int),
            mid == pre.arena().push(NodeView { parent: Some(node_id), children: Seq::empty(), data: Some(d) }),
            self.arena() == mid.update(
                node_id.pos(),
                NodeView { children: mid[node_id.pos()].children.push(c), ..mid[node_id.pos()] },
            ),
            self.sequences_lookup_table@ == pre.sequences_lookup_table@,
            self.inverted_index.wf(),
            forall|e: DataTypes| #[trigger] self.inverted_index.has(e) <==> (pre.inverted_index.has(e) || e == d),
            self.inverted_index.bag(d) == pre.inverted_index.bag(d).push(c),
            forall|e: DataTypes| e != d ==> #[trigger] self.inverted_index.bag(e) == pre.inverted_index.bag(e),
        ensures
            self.wf(),
            child_of(self.arena(), node_id, d) == Some(c),
    {
        reveal(CPT::parents_ok);
        reveal(CPT::children_ok);
        reveal(CPT::index_ok);
        let a0 = pre.arena();
        let a1 = self.arena();
        let n = node_id.pos();
        let m = a0.len() as int;
        assert(node_id == id_at(n));
        assert(a1.len() == m + 1);
        assert(a1[m].data == Some(d));
        assert(a1[n].children.last() == c);
        assert(a1[n].children.drop_last() =~= a0[n].children);
        assert forall|i: int| 1 <= i < a1.len() implies {
            &&& (#[trigger] a1[i]).data.is_some()
            &&& a1[i].parent.is_some()
            &&& 0 <= a1[i].parent.unwrap().pos() < i
            &&& a1[a1[i].parent.unwrap().pos()].children.contains(id_at(i))
        } by {
            if i < m {
                let p = a0[i].parent.unwrap().pos();
                assert(a0[p].children.contains(id_at(i)));
                if p == n {
                    let k = choose|k: int| 0 <= k < a0[p].children.len() && a0[p].children[k] == id_at(i);
                    assert(a1[p].children[k] == id_at(i));
                }
            } else {
                assert(a1[n].children[a1[n].children.len() - 1] == c);
            }
        }
        assert forall|i: int, k: int|
            0 <= i < a1.len() && 0 <= k < a1[i].children.len() implies {
                let ch = #[trigger] a1[i].children[k];
                &&& i < ch.pos() < a1.len()
                &&& a1[ch.pos()].parent == Some(id_at(i))
            } by {
            if i == n && k == a0[n].children.len() {
                assert(a1[i].children[k] == c);
                assert(a1[m].parent == Some(node_id));
            } else {
                let ch = a0[i].children[k];
                assert(a1[i].children[k] == ch);
                assert(i < ch.pos() < m);
                assert(a1[ch.pos()].parent == a0[ch.pos()].parent);
            }
        }
        assert forall|i: int| 0 <= i < a1.len() implies (#[trigger] a1[i]).children.no_duplicates() by {
            if i == n {
                assert forall|x: int, y: int|
                    0 <= x < y < a1[n].children.len() implies a1[n].children[x] != a1[n].children[y] by {
                    if y == a0[n].children.len() {
                        assert(a0[n].children[x].pos() < m);
                    } else {
                        assert(a1[n].children[x] == a0[n].children[x]);
                        assert(a1[n].children[y] == a0[n].children[y]);
                    }
                }
            }
        }
        assert forall|i: int|
            1 <= i < a1.len() implies self.inverted_index.bag((#[trigger] a1[i]).data.unwrap()).contains(
            id_at(i)) by {
            if i < m {
                let e = a0[i].data.unwrap();
                assert(pre.inverted_index.bag(e).contains(id_at(i)));
                if e == d {
                    let k = choose|k: int|
                        0 <= k < pre.inverted_index.bag(e).len() && pre.inverted_index.bag(e)[k] == id_at(i);
                    assert(self.inverted_index.bag(e)[k] == id_at(i));
                }
            } else {
                assert(self.inverted_index.bag(d)[self.inverted_index.bag(d).len() - 1] == c);
            }
        }
        assert forall|e: DataTypes, k: int| 0 <= k < self.inverted_index.bag(e).len() implies {
            &&& 1 <= (#[trigger] self.inverted_index.bag(e)[k]).pos() < a1.len()
            &&& a1[self.inverted_index.bag(e)[k].pos()].data == Some(e)
        } by {
            if e == d && k == pre.inverted_index.bag(d).len() {
            } else {
                assert(self.inverted_index.bag(e)[k] == pre.inverted_index.bag(e)[k]);
            }
        }
        assert forall|e: DataTypes| (#[trigger] self.inverted_index.bag(e)).no_duplicates() by {
            if e == d {
                assert forall|x: int, y: int|
                    0 <= x < y < self.inverted_index.bag(d).len() implies self.inverted_index.bag(d)[x]
                    != self.inverted_index.bag(d)[y] by {
                    if y == pre.inverted_index.bag(d).len() {
                        assert(pre.inverted_index.bag(d)[x].pos() < m);
                    }
                }
            }
        }
        assert forall|k: int| 0 <= k < self.sequences_lookup_table@.len() implies self.valid_id(
            #[trigger] self.sequences_lookup_table@[k]) by {
            assert(pre.valid_id(pre.sequences_lookup_table@[k]));
        }
    }

    /// Trains `sequence` from the root.
    pub fn add_sequence_to_root(&mut self, sequence: Vec<DataTypes>)
        requires
            old(self).wf(),
            old(self).nodes@.len() + sequence@.len() < usize::MAX,
        ensures
            sequence_added(*old(self), *final(self), id_at(0), sequence@),
    {
        self.add_sequence(sequence, CPT::get_root_id())
    }

    /// Trains `sequence` from `node_id`: for each symbol in turn, descends
    /// into the child holding it, creating it where needed, and records the
    /// node reached last as the sequence's terminal.
        pub fn add_sequence(&mut self, sequence: Vec<DataTypes>, node_id: NodeId)
        requires
            old(self).wf(),
            old(self).valid_id(node_id),
            old(self).nodes@.len() + sequence@.len() < usize::MAX,
        ensures
            sequence_added(*old(self), *final(self), node_id, sequence@),
    {
        let ghost s = sequence@;
        let ghost pre = *self;
        let ghost old_trained = walk(pre.arena(), node_id, s).is_some();
        let mut current_node_id = node_id;
        let ghost mut path: Seq<NodeId> = seq![node_id];
        let mut i: usize = 0;
        proof {
            assert(s.take(0) =~= Seq::<DataTypes>::empty());
            lemma_grown_from_self(pre);
            reveal(reached_by);
        }
        while i < sequence.len()
            invariant
                self.wf(),
                s == sequence@,
                0 <= i <= s.len(),
                self.valid_id(current_node_id),
                pre.arena().len() <= self.arena().len() <= pre.arena().len() + i,
                forall|q: int|
                    0 <= q < pre.arena().len() ==> (#[trigger] self.arena()[q]).data == pre.arena()[q].data
                        && self.arena()[q].parent == pre.arena()[q].parent,
                self.arena().len() == self.nodes@.len(),
                pre.nodes@.len() + s.len() < usize::MAX,
                self.sequences_lookup_table@ == pre.sequences_lookup_table@,
                path.len() == i + 1,
                path[0] == node_id,
                path[i as int] == current_node_id,
                forall|j: int| 0 <= j < i ==> child_of(self.arena(), #[trigger] path[j], s[j]) == Some(path[j + 1]),
                forall|j: int| 0 <= j < i ==> (#[trigger] path[j]).pos() < path[j + 1].pos(),
                forall|j: int| 0 <= j <= i ==> 0 <= #[trigger] path[j].pos() <= current_node_id.pos(),
                old_trained ==> self.arena() == pre.arena() && self.inverted_index == pre.inverted_index,
                reached_by(pre.arena(), node_id, s.take(i as int), self.arena(), current_node_id),
                grown_from(pre, *self),
                old_trained ==> walk(pre.arena(), node_id, s) is Some,
            decreases s.len() - i,
        {
            let ghost a0 = self.arena();
            let ghost cur = current_node_id;
            proof {
                if old_trained {
                    lemma_next_step_exists(a0, path, s, i as int, node_id);
                }
                self.lemma_all_children_in_range();
            }
            let ghost mid = *self;
            let next = self.add_child(sequence[i], current_node_id);
            proof {
                lemma_chain_step(a0, self.arena(), path, s, i as int, cur);
                path = path.push(next);
                lemma_reached_step(pre.arena(), node_id, s, i as int, mid.arena(), cur, self.arena(), next);
                lemma_grown_from_step(pre, mid, *self);
            }
            current_node_id = next;
            i = i + 1;
        }
        proof {
            assert forall|j: int| 0 <= j < s.len() implies child_of(self.arena(), #[trigger] path[j], s[j]) == Some(path[j + 1]) by {}
            lemma_chain_walk(self.arena(), path, s, s.len() as int);
            assert(s.take(s.len() as int) =~= s);
        }
        self.sequences_lookup_table.push(current_node_id);
        proof {
            assert(self.sequences_lookup_table@.drop_last() =~= pre.sequences_lookup_table@);
            assert forall|k: int| 0 <= k < self.sequences_lookup_table@.len() implies self.valid_id(
                #[trigger] self.sequences_lookup_table@[k]) by {
                if k < pre.sequences_lookup_table@.len() {
                    assert(self.sequences_lookup_table@[k] == pre.sequences_lookup_table@[k]);
                }
            }
            assert(self.wf()) by {
                reveal(CPT::parents_ok);
                reveal(CPT::children_ok);
                reveal(CPT::index_ok);
            }
            assert(self.sequences_lookup_table@.last() == current_node_id);
            reveal(grown_from);
            reveal(reached_by);
            assert(walk(self.arena(), node_id, s) == Some(current_node_id));
            assert(pre.arena().len() <= self.arena().len() <= pre.arena().len() + s.len());
        }
    }

    /// The child of `node_id` that holds `new_data`, if there is one.
    pub fn child_exists(&self, new_data: DataTypes, node_id: NodeId) -> (r: Option<NodeId>)
        requires
            self.wf(),
        ensures
            r == (if self.valid_id(node_id) {
                child_of(self.arena(), node_id, new_data)
            } else {
                None
            }),
    {
        let mut matched_node_id: Option<NodeId> = None;
        match self.get(node_id) {
            Some(parent_node) => {
                let ghost ch = self.arena()[node_id.pos()].children;
                assert(parent_node@ == self.arena()[node_id.pos()]);
                let mut k: usize = 0;
                while k < parent_node.children.len()
                    invariant
                        self.wf(),
                        self.valid_id(node_id),
                        parent_node@ == self.arena()[node_id.pos()],
                        ch == self.arena()[node_id.pos()].children,
                        k <= ch.len(),
                        matched_node_id == last_match(self.arena(), ch.take(k as int), new_data),
                    decreases ch.len() - k,
                {
                    let child_id = parent_node.children[k];
                    assert(self.valid_id(child_id)) by {
                        reveal(CPT::children_ok);
                        assert(ch[k as int] == child_id);
                    }
                    assert(ch.take(k as int + 1).drop_last() =~= ch.take(k as int));
                    match self.get_data(child_id) {
                        Some(d) => {
                            if InvertedIndex::insert_element_matching(d, new_data) {
                                matched_node_id = Some(child_id);
                            }
                        },
                        None => {},
                    }
                    k = k + 1;
                }
                assert(ch.take(ch.len() as int) =~= ch);
            },
            None => {},
        }
        matched_node_id
    }
}

/// Whether `x` occurs in `v`.
fn contains_id(v: &Vec<NodeId>, x: NodeId) -> (r: bool)
    ensures
        r == v@.contains(x),
{
    let mut i: usize = 0;
    while i < v.len()
        invariant
            i <= v@.len(),
            forall|k: int| 0 <= k < i ==> v@[k] != x,
        decreases v@.len() - i,
    {
        if v[i] == x {
            return true;
        }
        i = i + 1;
    }
    false
}

impl CPT {
    /// Whether the tree is well formed: the root in place, every parent and
    /// child link consistent, the index listing exactly the nodes holding
    /// each symbol, and every terminal a node of the tree.
    pub fn is_well_formed(&self) -> (r: bool)
        ensures
            r == self.wf(),
    {
        assert(self.arena().len() == self.nodes@.len());
        if self.nodes.len() == 0 {
            return false;
        }
        assert(self.nodes@[0]@ == self.arena()[0]);
        if self.nodes[0].parent.is_some() || self.nodes[0].data.is_some() {
            return false;
        }
        if !self.inverted_index.is_well_formed() {
            return false;
        }
        if !self.parent_links_hold() {
            return false;
        }
        if !self.child_links_hold() {
            return false;
        }
        if !self.index_entries_hold() {
            return false;
        }
        let mut k: usize = 0;
        while k < self.sequences_lookup_table.len()
            invariant
                k <= self.sequences_lookup_table@.len(),
                forall|k2: int| 0 <= k2 < k ==> self.valid_id(#[trigger] self.sequences_lookup_table@[k2]),
            decreases self.sequences_lookup_table@.len() - k,
        {
            let id = self.sequences_lookup_table[k];
            if id.index1 < 1 || id.index1 > self.nodes.len() {
                return false;
            }
            k = k + 1;
        }
        true
    }

    fn parent_links_hold(&self) -> (r: bool)
        requires
            self.arena().len() >= 1,
        ensures
            r == self.parents_ok(),
    {
        reveal(CPT::parents_ok);
        assert(self.arena().len() == self.nodes@.len());
        let mut i: usize = 1;
        while i < self.nodes.len()
            invariant
                1 <= i <= self.arena().len(),
                self.arena().len() == self.nodes@.len(),
                forall|i2: int|
                    1 <= i2 < i ==> {
                        &&& (#[trigger] self.arena()[i2]).data.is_some()
                        &&& self.arena()[i2].parent.is_some()
                        &&& 0 <= self.arena()[i2].parent.unwrap().pos() < i2
                        &&& self.arena()[self.arena()[i2].parent.unwrap().pos()].children.contains(id_at(i2))
                    },
            decreases self.arena().len() - i,
        {
            reveal(CPT::parents_ok);
            let node = &self.nodes[i];
            assert(node@ == self.arena()[i as int]);
            match node.parent {
                Some(p) => {
                    if node.data.is_none() || p.index1 < 1 || p.index1 > i {
                        assert(!(self.arena()[i as int].data.is_some() && 0 <= self.arena()[i as int].parent.unwrap().pos() < i));
                        return false;
                    }
                    let siblings = &self.nodes[p.index1 - 1].children;
                    assert(siblings@ == self.arena()[p.pos()].children);
                    assert(id_at(i as int) == NodeId { index1: (i + 1) as usize });
                    if !contains_id(siblings, NodeId { index1: i + 1 }) {
                        assert(!self.arena()[self.arena()[i as int].parent.unwrap().pos()].children.contains(id_at(i as int)));
                        return false;
                    }
                },
                None => {
                    assert(!self.arena()[i as int].parent.is_some());
                    return false;
                },
            }
            i = i + 1;
        }
        true
    }

    fn child_links_hold(&self) -> (r: bool)
        ensures
            r == self.children_ok(),
    {
        reveal(CPT::children_ok);
        assert(self.arena().len() == self.nodes@.len());
        let mut i: usize = 0;
        while i < self.nodes.len()
            invariant
                i <= self.arena().len(),
                self.arena().len() == self.nodes@.len(),
                forall|i2: int, k: int|
                    0 <= i2 < i && 0 <= k < self.arena()[i2].children.len() ==> {
                        let c = #[trigger] self.arena()[i2].children[k];
                        &&& i2 < c.pos() < self.arena().len()
                        &&& self.arena()[c.pos()].parent == Some(id_at(i2))
                    },
                forall|i2: int| 0 <= i2 < i ==> (#[trigger] self.arena()[i2]).children.no_duplicates(),
            decreases self.arena().len() - i,
        {
            reveal(CPT::children_ok);
            let ch = &self.nodes[i].children;
            let ghost cv = self.arena()[i as int].children;
            assert(ch@ == cv);
            let mut k: usize = 0;
            while k < ch.len()
                invariant
                    i < self.arena().len(),
                    self.arena().len() == self.nodes@.len(),
                    ch@ == cv,
                    cv == self.arena()[i as int].children,
                    k <= cv.len(),
                    forall|k2: int|
                        0 <= k2 < k ==> {
                            let c = #[trigger] cv[k2];
                            &&& i < c.pos() < self.arena().len()
                            &&& self.arena()[c.pos()].parent == Some(id_at(i as int))
                        },
                    forall|x: int, y: int| 0 <= x < y < k ==> cv[x] != cv[y],
                decreases cv.len() - k,
            {
                reveal(CPT::children_ok);
                let c = ch[k];
                assert(self.arena()[i as int].children[k as int] == c);
                if c.index1 == 0 || c.index1 - 1 <= i || c.index1 > self.nodes.len() {
                    assert(!(i < c.pos() < self.arena().len()));
                    return false;
                }
                let up = self.nodes[c.index1 - 1].parent;
                assert(up == self.arena()[c.pos()].parent);
                match up {
                    Some(q) => {
                        if q.index1 != i + 1 {
                            assert(self.arena()[c.pos()].parent != Some(id_at(i as int)));
                            return false;
                        }
                    },
                    None => {
                        assert(self.arena()[c.pos()].parent != Some(id_at(i as int)));
                        return false;
                    },
                }
                let mut k2: usize = 0;
                while k2 < k
                    invariant
                        ch@ == cv,
                        i < self.arena().len(),
                        cv == self.arena()[i as int].children,
                        k < cv.len(),
                        c == cv[k as int],
                        k2 <= k,
                        forall|x: int| 0 <= x < k2 ==> cv[x] != c,
                    decreases k - k2,
                {
                    if ch[k2] == c {
                        reveal(CPT::children_ok);
                        assert(!self.arena()[i as int].children.no_duplicates()) by {
                            assert(cv[k2 as int] == cv[k as int]);
                        }
                        return false;
                    }
                    k2 = k2 + 1;
                }
                k = k + 1;
            }
            i = i + 1;
        }
        true
    }

    fn index_entries_hold(&self) -> (r: bool)
        requires
            self.arena().len() >= 1,
            self.inverted_index.wf(),
            self.parents_ok(),
        ensures
            r == self.index_ok(),
    {
        reveal(CPT::index_ok);
        reveal(CPT::parents_ok);
        assert(self.arena().len() == self.nodes@.len());
        let mut i: usize = 1;
        while i < self.nodes.len()
            invariant
                1 <= i <= self.arena().len(),
                self.arena().len() == self.nodes@.len(),
                self.inverted_index.wf(),
                self.parents_ok(),
                forall|i2: int|
                    1 <= i2 < i ==> self.inverted_index.bag((#[trigger] self.arena()[i2]).data.unwrap()).contains(
                        id_at(i2),
                    ),
            decreases self.arena().len() - i,
        {
            reveal(CPT::index_ok);
            reveal(CPT::parents_ok);
            assert(self.nodes@[i as int]@ == self.arena()[i as int]);
            assert(self.arena()[i as int].data.is_some());
            let d = match self.nodes[i].data {
                Some(d) => d,
                None => DataTypes::Integer(0),
            };
            assert(id_at(i as int) == NodeId { index1: (i + 1) as usize });
            match self.inverted_index.get_value_ids(d) {
                Some(b) => {
                    if !contains_id(b, NodeId { index1: i + 1 }) {
                        assert(!self.inverted_index.bag(self.arena()[i as int].data.unwrap()).contains(id_at(i as int)));
                        return false;
                    }
                },
                None => {
                    assert(!self.inverted_index.bag(self.arena()[i as int].data.unwrap()).contains(id_at(i as int)));
                    return false;
                },
            }
            i = i + 1;
        }
        let listed = self.inverted_index.lists_only_holders(&self.nodes);
        proof {
            assert forall|q: int| 0 <= q < self.nodes@.len() implies #[trigger] self.nodes@[q]@ == self.arena()[q] by {}
        }
        listed
    }
}

} // verus!
