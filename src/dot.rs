//! A Graphviz description of the tree, for display.

use crate::cpt::CPT;
use crate::data_types::DataTypes;
use crate::nodes::{NodeId, NodeView};
use vstd::prelude::*;

verus! {

/// The decimal digit `d`, where `d < 10`.
pub open spec fn digit_text(d: nat) -> Seq<char> {
    if d == 0 {
        "0"@
    } else if d == 1 {
        "1"@
    } else if d == 2 {
        "2"@
    } else if d == 3 {
        "3"@
    } else if d == 4 {
        "4"@
    } else if d == 5 {
        "5"@
    } else if d == 6 {
        "6"@
    } else if d == 7 {
        "7"@
    } else if d == 8 {
        "8"@
    } else {
        "9"@
    }
}

/// `n` in decimal, without leading zeros.
pub open spec fn decimal(n: nat) -> Seq<char>
    decreases n,
{
    if n < 10 {
        digit_text(n)
    } else {
        decimal(n / 10) + digit_text(n % 10)
    }
}

/// A node's symbol as Rust's debug format writes it.
pub open spec fn data_text(d: Option<DataTypes>) -> Seq<char> {
    match d {
        None => "None"@,
        Some(DataTypes::Integer(x)) => "Some(Integer("@ + decimal(x as nat) + "))"@,
        Some(DataTypes::U8(x)) => "Some(U8("@ + decimal(x as nat) + "))"@,
    }
}

/// One edge line per child of the node at position `i`.
pub open spec fn edges_text(i: nat, ch: Seq<NodeId>) -> Seq<char>
    decreases ch.len(),
{
    if ch.len() == 0 {
        Seq::empty()
    } else {
        edges_text(i, ch.drop_last()) + decimal(i) + " -> "@ + decimal(ch.last().pos() as nat) + ";\n"@
    }
}

/// The declaration of the node at position `i`, then its edges.
pub open spec fn node_text(i: nat, n: NodeView) -> Seq<char> {
    decimal(i) + "[label=\"ID="@ + decimal(i + 1) + ", "@ + data_text(n.data) + "\"];\n"@ + edges_text(
        i,
        n.children,
    )
}

/// The text of each node in arena order.
pub open spec fn nodes_text(a: Seq<NodeView>) -> Seq<char>
    decreases a.len(),
{
    if a.len() == 0 {
        Seq::empty()
    } else {
        nodes_text(a.drop_last()) + node_text((a.len() - 1) as nat, a.last())
    }
}

/// A box for the `i`-th trained sequence and an edge to its terminal node.
pub open spec fn seq_text(i: nat, last: NodeId) -> Seq<char> {
    "seq"@ + decimal(i) + "[label=\"Seq "@ + decimal(i) + "\"; shape=\"rectangle\"];\n"@ + "seq"@ + decimal(i)
        + " -> "@ + decimal(last.pos() as nat) + ";\n"@
}

/// The text of each trained sequence in training order.
pub open spec fn seqs_text(tab: Seq<NodeId>) -> Seq<char>
    decreases tab.len(),
{
    if tab.len() == 0 {
        Seq::empty()
    } else {
        seqs_text(tab.drop_last()) + seq_text((tab.len() - 1) as nat, tab.last())
    }
}

/// The whole description: the tree in one cluster, the sequences in another.
pub open spec fn dot_text(a: Seq<NodeView>, tab: Seq<NodeId>) -> Seq<char> {
    "digraph  Result { \n"@ + "subgraph cluster_cpt {"@ + nodes_text(a) + "}\n"@ + "subgraph cluster_seq {"@
        + seqs_text(tab) + "}"@ + "}"@
}

fn digit_str(d: usize) -> (r: &'static str)
    requires
        d < 10,
    ensures
        r@ == digit_text(d as nat),
{
    if d == 0 {
        "0"
    } else if d == 1 {
        "1"
    } else if d == 2 {
        "2"
    } else if d == 3 {
        "3"
    } else if d == 4 {
        "4"
    } else if d == 5 {
        "5"
    } else if d == 6 {
        "6"
    } else if d == 7 {
        "7"
    } else if d == 8 {
        "8"
    } else {
        "9"
    }
}

/// Appends `n` in decimal.
fn push_decimal(out: &mut String, n: usize)
    ensures
        final(out)@ == old(out)@ + decimal(n as nat),
    decreases n,
{
    if n >= 10 {
        push_decimal(out, n / 10);
    }
    out.append(digit_str(n % 10));
}

fn push_data(out: &mut String, d: Option<DataTypes>)
    ensures
        final(out)@ == old(out)@ + data_text(d),
{
    match d {
        None => out.append("None"),
        Some(DataTypes::Integer(x)) => {
            out.append("Some(Integer(");
            push_decimal(out, x);
            out.append("))");
        },
        Some(DataTypes::U8(x)) => {
            out.append("Some(U8(");
            push_decimal(out, x as usize);
            out.append("))");
        },
    }
}

/// Appends the declaration of the node at position `id`.
fn push_node_decl(out: &mut String, id: usize, data: Option<DataTypes>)
    requires
        id < usize::MAX,
    ensures
        final(out)@ == old(out)@ + decimal(id as nat) + "[label=\"ID="@ + decimal(id as nat + 1) + ", "@
            + data_text(data) + "\"];\n"@,
{
    let ghost start = out@;
    push_decimal(out, id);
    out.append("[label=\"ID=");
    push_decimal(out, id + 1);
    out.append(", ");
    push_data(out, data);
    out.append("\"];\n");
    assert(out@ =~= start + decimal(id as nat) + "[label=\"ID="@ + decimal(id as nat + 1) + ", "@ + data_text(data)
        + "\"];\n"@);
}

/// Appends the edge from the node at position `id` to `child`.
fn push_edge(out: &mut String, id: usize, child: NodeId)
    requires
        child.index1 >= 1,
    ensures
        final(out)@ == old(out)@ + decimal(id as nat) + " -> "@ + decimal(child.pos() as nat) + ";\n"@,
{
    let ghost start = out@;
    push_decimal(out, id);
    out.append(" -> ");
    push_decimal(out, child.index0());
    out.append(";\n");
    assert(out@ =~= start + decimal(id as nat) + " -> "@ + decimal(child.pos() as nat) + ";\n"@);
}

/// Appends the box of the `i`-th trained sequence and its edge.
fn push_seq(out: &mut String, i: usize, last: NodeId)
    requires
        last.index1 >= 1,
    ensures
        final(out)@ == old(out)@ + seq_text(i as nat, last),
{
    let ghost start = out@;
    out.append("seq");
    push_decimal(out, i);
    out.append("[label=\"Seq ");
    push_decimal(out, i);
    out.append("\"; shape=\"rectangle\"];\n");
    out.append("seq");
    push_decimal(out, i);
    out.append(" -> ");
    push_decimal(out, last.index0());
    out.append(";\n");
    assert(out@ =~= start + seq_text(i as nat, last));
}

impl CPT {
    /// The tree as a Graphviz digraph: each node with its 1-based id and its
    /// symbol, an edge to each child, and a box per trained sequence with an
    /// edge to its terminal node. Nodes are named by their 0-based position.
    pub fn to_dot(&self) -> (r: String)
        requires
            self.wf(),
        ensures
            r@ == dot_text(self.arena(), self.sequences_lookup_table@),
    {
        let mut out = String::new();
        out.append("digraph  Result { \n");
        out.append("subgraph cluster_cpt {");
        let ghost head = out@;
        proof {
            self.lemma_all_children_in_range();
        }
        let mut id: usize = 0;
        while id < self.nodes.len()
            invariant
                self.wf(),
                id <= self.arena().len(),
                self.arena().len() == self.nodes@.len(),
                forall|q: int, k: int|
                    0 <= q < self.arena().len() && 0 <= k < self.arena()[q].children.len() ==> 0 <= (
                    #[trigger] self.arena()[q].children[k]).pos() < self.arena().len(),
                out@ == head + nodes_text(self.arena().take(id as int)),
            decreases self.arena().len() - id,
        {
            let node = &self.nodes[id];
            assert(node@ == self.arena()[id as int]);
            assert(self.arena().take(id as int + 1).drop_last() =~= self.arena().take(id as int));
            let ghost before = out@;
            push_node_decl(&mut out, id, node.data);
            let ghost decl = out@;
            assert forall|k: int| 0 <= k < node.children@.len() implies 0 <= (#[trigger] node.children@[k]).pos()
                < self.arena().len() by {
                assert(node.children@[k] == self.arena()[id as int].children[k]);
            }
            let mut c: usize = 0;
            while c < node.children.len()
                invariant
                    node@ == self.arena()[id as int],
                    id < self.arena().len(),
                    forall|k: int|
                        0 <= k < node.children@.len() ==> 0 <= (#[trigger] node.children@[k]).pos() < self.arena().len(),
                    c <= node.children@.len(),
                    out@ == decl + edges_text(id as nat, node.children@.take(c as int)),
                decreases node.children@.len() - c,
            {
                let child = node.children[c];
                assert(node.children@[c as int] == child);
                assert(node.children@.take(c as int + 1).drop_last() =~= node.children@.take(c as int));
                push_edge(&mut out, id, child);
                c = c + 1;
            }
            assert(node.children@.take(node.children@.len() as int) =~= node.children@);
            assert(out@ =~= head + nodes_text(self.arena().take(id as int + 1)));
            id = id + 1;
        }
        assert(self.arena().take(self.arena().len() as int) =~= self.arena());
        out.append("}\n");
        out.append("subgraph cluster_seq {");
        let ghost mid = out@;
        let mut i: usize = 0;
        while i < self.sequences_lookup_table.len()
            invariant
                self.wf(),
                i <= self.sequences_lookup_table@.len(),
                out@ == mid + seqs_text(self.sequences_lookup_table@.take(i as int)),
            decreases self.sequences_lookup_table@.len() - i,
        {
            let last = self.sequences_lookup_table[i];
            assert(self.valid_id(self.sequences_lookup_table@[i as int]));
            assert(self.sequences_lookup_table@.take(i as int + 1).drop_last() =~= self.sequences_lookup_table@.take(
                i as int,
            ));
            push_seq(&mut out, i, last);
            i = i + 1;
        }
        assert(self.sequences_lookup_table@.take(self.sequences_lookup_table@.len() as int)
            =~= self.sequences_lookup_table@);
        out.append("}");
        out.append("}");
        out
    }
}

} // verus!
