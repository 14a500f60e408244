//! What holds of every pipeline and of every graph written out from one.

use vstd::prelude::*;
use crate::builder::{arrives, edges_of, holds, incoming, relative, FluentGraphBuilder};
use crate::decimal::decimal;
use crate::node::FluentNode;
use crate::operations::{Edge, EdgeKind, Graph, Node};

verus! {

/// In a chain, each node but the last has the next node as its input and
/// a larger identifier than the next node; the last node has no input.
pub proof fn lemma_chain_shape(n: &FluentNode)
    requires
        n.wf(),
        n.is_chain(),
    ensures
        n.chain().len() >= 1,
        n.chain()[0] == n,
        forall|k: int|
            0 <= k < n.chain().len() ==> (#[trigger] n.chain()[k]).canvas() is None && n.reaches(
                n.chain()[k],
            ),
        forall|k: int|
            0 <= k < n.chain().len() - 1 ==> (#[trigger] n.chain()[k]).input() == Some(
                n.chain()[k + 1],
            ),
        n.chain().last().input() is None,
        forall|k: int, l: int|
            0 <= k < l < n.chain().len() ==> (#[trigger] n.chain()[k]).uid() > (
            #[trigger] n.chain()[l]).uid(),
        forall|m: &FluentNode| n.reaches(m) ==> holds(n.chain(), m),
    decreases n.size(),
{
    let whole = n.chain();
    n.lemma_reaches_near();
    match n.input() {
        Some(i) => {
            let tail = i.chain();
            lemma_chain_shape(i);
            assert(whole =~= seq![n] + tail);
            assert forall|k: int| 0 <= k < whole.len() implies (#[trigger] whole[k]).canvas()
                is None && n.reaches(whole[k]) by {
                if k > 0 {
                    assert(whole[k] == tail[k - 1]);
                    n.lemma_reaches_trans(i, tail[k - 1]);
                }
            }
            assert forall|k: int| 0 <= k < whole.len() - 1 implies (#[trigger] whole[k]).input()
                == Some(whole[k + 1]) by {
                assert(whole[k + 1] == tail[k]);
                if k > 0 {
                    assert(whole[k] == tail[k - 1]);
                }
            }
            assert(whole.last() == tail.last());
            assert forall|k: int, l: int| 0 <= k < l < whole.len() implies (
            #[trigger] whole[k]).uid() > (#[trigger] whole[l]).uid() by {
                assert(whole[l] == tail[l - 1]);
                if k > 0 {
                    assert(whole[k] == tail[k - 1]);
                } else {
                    assert(tail[0] == i);
                    if l > 1 {
                        assert(tail[0].uid() > tail[l - 1].uid());
                    }
                }
            }
            assert forall|m: &FluentNode| n.reaches(m) implies holds(whole, m) by {
                if m == n {
                    assert(whole[0] == m);
                } else {
                    assert(i.reaches(m));
                    let k = choose|k: int| 0 <= k < tail.len() && #[trigger] tail[k] == m;
                    assert(whole[k + 1] == m);
                }
            }
        },
        None => {
            assert(whole =~= seq![n]);
            assert forall|m: &FluentNode| n.reaches(m) implies holds(whole, m) by {
                assert(whole[0] == m);
            }
        },
    }
}

proof fn lemma_chain_link(n: &FluentNode, j: int)
    requires
        n.wf(),
        n.is_chain(),
        0 <= j < n.chain().len(),
    ensures
        n.chain()[0] == n,
        n.chain()[j].canvas() is None,
        j < n.chain().len() - 1 ==> n.chain()[j].input() == Some(n.chain()[j + 1]),
        j == n.chain().len() - 1 ==> n.chain()[j].input() is None,
{
    lemma_chain_shape(n);
}

proof fn lemma_chain_walk_at(
    b: &FluentGraphBuilder,
    n: &FluentNode,
    unique: Seq<&FluentNode>,
    i: int,
)
    requires
        b.sinks() == seq![*n],
        n.wf(),
        n.is_chain(),
        b.collects(unique),
        0 <= i < unique.len(),
    ensures
        i < n.chain().len(),
        unique[i] == n.chain()[i],
    decreases i,
{
    let whole = n.chain();
    assert(whole.len() >= 1 && whole[0] == n) by {
        lemma_chain_shape(n);
    }
    assert(b.introduced(unique, i, unique[i]));
    if b.is_sink(unique[i]) {
        assert(unique[i] == n);
        if i > 0 {
            lemma_chain_walk_at(b, n, unique, 0);
            assert(unique[0].uid() != unique[i].uid());
        }
    } else {
        let j = choose|j: int|
            0 <= j < i && j < unique.len() && (#[trigger] unique[j]).depends_on(unique[i]);
        lemma_chain_walk_at(b, n, unique, j);
        lemma_chain_link(n, j);
        assert(unique[j] == whole[j]);
        assert(whole[j].input() == Some(unique[i]));
        assert(whole[j].input() == Some(whole[j + 1]));
        if j + 1 < i {
            lemma_chain_walk_at(b, n, unique, j + 1);
            assert(unique[j + 1].uid() != unique[i].uid());
        }
    }
}

/// A pipeline that was built as one chain, with no canvas anywhere, is
/// walked from its sink back to its start: the walk over the reachable
/// nodes is exactly the chain.
pub proof fn lemma_chain_walk(b: &FluentGraphBuilder, n: &FluentNode, unique: Seq<&FluentNode>)
    requires
        b.sinks() == seq![*n],
        n.wf(),
        n.is_chain(),
        b.collects(unique),
    ensures
        unique == n.chain(),
{
    let whole = n.chain();
    lemma_chain_shape(n);
    assert(b.sinks()[0].reaches(whole.last()));
    assert(b.reachable(whole.last()));
    assert(holds(unique, whole.last()));
    let k = choose|k: int| 0 <= k < unique.len() && #[trigger] unique[k] == whole.last();
    lemma_chain_walk_at(b, n, unique, k);
    if k < whole.len() - 1 {
        assert(whole[k].uid() > whole[whole.len() - 1].uid());
    }
    lemma_chain_walk_at(b, n, unique, unique.len() - 1);
    assert forall|i: int| 0 <= i < unique.len() implies unique[i] == whole[i] by {
        lemma_chain_walk_at(b, n, unique, i);
    }
    assert(unique =~= whole);
}

proof fn lemma_chain_edges_prefix(n: &FluentNode, m: int)
    requires
        n.wf(),
        n.is_chain(),
        0 <= m <= n.chain().len() - 1,
    ensures
        edges_of(n.chain().take(m)).len() == m,
        forall|k: int|
            0 <= k < m ==> #[trigger] edges_of(n.chain().take(m))[k] == (
                n.chain()[k + 1].uid(),
                n.chain()[k].uid(),
                EdgeKind::Input,
            ),
    decreases m,
{
    let whole = n.chain();
    lemma_chain_shape(n);
    if m > 0 {
        lemma_chain_edges_prefix(n, m - 1);
        assert(whole.take(m).drop_last() =~= whole.take(m - 1));
        assert(whole.take(m).last() == whole[m - 1]);
        assert(whole[m - 1].canvas() is None);
        assert(whole[m - 1].input() == Some(whole[m]));
        assert(incoming(whole[m - 1]) =~= seq![
            (whole[m].uid(), whole[m - 1].uid(), EdgeKind::Input),
        ]);
    }
}

/// In a chain every node but the first one built has exactly one edge
/// arriving: an input edge from the node built just before it. Nothing
/// arrives at the first node.
pub proof fn lemma_chain_edges(n: &FluentNode)
    requires
        n.wf(),
        n.is_chain(),
    ensures
        edges_of(n.chain()).len() == n.chain().len() - 1,
        forall|k: int|
            0 <= k < n.chain().len() - 1 ==> #[trigger] edges_of(n.chain())[k] == (
                n.chain()[k + 1].uid(),
                n.chain()[k].uid(),
                EdgeKind::Input,
            ),
{
    let whole = n.chain();
    lemma_chain_shape(n);
    lemma_chain_edges_prefix(n, whole.len() - 1);
    assert(whole.drop_last() =~= whole.take(whole.len() - 1));
    assert(whole.last().canvas() is None);
    assert(incoming(whole.last()) =~= Seq::empty());
    assert(edges_of(whole) =~= edges_of(whole.take(whole.len() - 1)));
}

/// Two nodes built onto two handles of one node share that node: the walk
/// holds it once, the graph's table holds it under one key, and an input
/// edge leads from its index to the index of each of the two.
pub proof fn lemma_shared_ancestor(
    b: &FluentGraphBuilder,
    a: &FluentNode,
    x: &FluentNode,
    y: &FluentNode,
    unique: Seq<&FluentNode>,
    g: &Graph,
)
    requires
        b.wf(),
        b.no_empty_sink(),
        b.sinks() == seq![*x, *y],
        x.input() == Some(a),
        y.input() == Some(a),
        x != y,
        b.collects(unique),
        b.emits(g),
    ensures
        exists|i: int|
            0 <= i < unique.len() && #[trigger] unique[i] == a && forall|j: int|
                0 <= j < unique.len() && (#[trigger] unique[j]).uid() == a.uid() ==> j == i,
        b.lowest() <= a.uid() < x.uid(),
        a.uid() < y.uid(),
        x.uid() != y.uid(),
        g.has_node(decimal((a.uid() - b.lowest()) as nat), *a.operation().unwrap()),
        g.edges@.contains(relative((a.uid(), x.uid(), EdgeKind::Input), b.lowest())),
        g.edges@.contains(relative((a.uid(), y.uid(), EdgeKind::Input), b.lowest())),
{
    x.lemma_reaches_near();
    y.lemma_reaches_near();
    assert(b.sinks()[0] == *x);
    assert(b.sinks()[1] == *y);
    assert(b.sinks()[0].reaches(x));
    assert(b.sinks()[1].reaches(y));
    assert(b.sinks()[0].reaches(a));
    assert(b.reachable(x));
    assert(b.reachable(y));
    assert(b.reachable(a));
    assert(b.sinks()[0].wf());
    assert(b.sinks()[1].wf());
    b.lemma_reachable_not_empty(a);
    b.lemma_lowest_exists(a);
    assert(holds(unique, a));
    let i = choose|i: int| 0 <= i < unique.len() && #[trigger] unique[i] == a;
    assert forall|j: int|
        0 <= j < unique.len() && (#[trigger] unique[j]).uid() == a.uid() implies j == i by {
        if j < i {
            assert(unique[j].uid() != unique[i].uid());
        }
        if i < j {
            assert(unique[i].uid() != unique[j].uid());
        }
    }
    assert(b.emits_node(decimal((a.uid() - b.lowest()) as nat), *a.operation().unwrap()));
    let to_x = relative((a.uid(), x.uid(), EdgeKind::Input), b.lowest());
    let to_y = relative((a.uid(), y.uid(), EdgeKind::Input), b.lowest());
    assert(arrives(x, b.lowest(), to_x));
    assert(arrives(y, b.lowest(), to_y));
    assert(b.emits_edge(to_x));
    assert(b.emits_edge(to_y));
}

/// A node with a canvas and an input has exactly two edges arriving in the
/// graph: a canvas edge from its canvas and an input edge from its input.
/// A node that copies a rectangle onto a canvas is such a node: its canvas
/// is the node it was called on, its input the node it copies from.
pub proof fn lemma_two_incoming(
    b: &FluentGraphBuilder,
    r: &FluentNode,
    receiver: &FluentNode,
    donor: &FluentNode,
    g: &Graph,
)
    requires
        b.wf(),
        b.reachable(r),
        r.canvas() == Some(receiver),
        r.input() == Some(donor),
        b.emits(g),
    ensures
        incoming(r) == seq![
            (receiver.uid(), r.uid(), EdgeKind::Canvas),
            (donor.uid(), r.uid(), EdgeKind::Input),
        ],
        b.lowest() <= receiver.uid() < r.uid(),
        b.lowest() <= donor.uid() < r.uid(),
        forall|e: Edge|
            g.edges@.contains(e) && e.to == r.uid() - b.lowest() <==> e == relative(
                (receiver.uid(), r.uid(), EdgeKind::Canvas),
                b.lowest(),
            ) || e == relative((donor.uid(), r.uid(), EdgeKind::Input), b.lowest()),
{
    let low = b.lowest();
    assert(incoming(r) =~= seq![
        (receiver.uid(), r.uid(), EdgeKind::Canvas),
        (donor.uid(), r.uid(), EdgeKind::Input),
    ]);
    r.lemma_reaches_near();
    b.lemma_reachable_step(r, receiver);
    b.lemma_reachable_step(r, donor);
    b.lemma_lowest_exists(r);
    let s = choose|i: int| 0 <= i < b.sinks().len() && (#[trigger] b.sinks()[i]).reaches(r);
    b.sinks()[s].lemma_reaches_smaller(r);
    assert(r.links_ok());
    assert forall|e: Edge|
        g.edges@.contains(e) && e.to == r.uid() - low <==> e == relative(
            (receiver.uid(), r.uid(), EdgeKind::Canvas),
            low,
        ) || e == relative((donor.uid(), r.uid(), EdgeKind::Input), low) by {
        if g.edges@.contains(e) && e.to == r.uid() - low {
            assert(b.emits_edge(e));
            let n = choose|n: &FluentNode| #[trigger] b.reachable(n) && arrives(n, low, e);
            assert(low <= n.uid());
            assert(n.uid() == r.uid());
            assert(n == r);
        }
        if e == relative((receiver.uid(), r.uid(), EdgeKind::Canvas), low) || e == relative(
            (donor.uid(), r.uid(), EdgeKind::Input),
            low,
        ) {
            assert(arrives(r, low, e));
            assert(b.emits_edge(e));
        }
    }
}

/// Indices start at zero: a graph that holds a node at all holds one under
/// the key "0", whatever identifiers the nodes were given.
pub proof fn lemma_lowest_index_is_zero(b: &FluentGraphBuilder, g: &Graph)
    requires
        b.wf(),
        b.no_empty_sink(),
        b.emits(g),
        g.nodes@.len() > 0,
    ensures
        exists|op: Node| g.has_node(decimal(0), op),
        forall|n: &FluentNode| b.reachable(n) ==> n.uid() - b.lowest() >= 0,
{
    let first = g.nodes@[0];
    assert(g.has_node(first.0@, first.1));
    assert(b.emits_node(first.0@, first.1));
    let n = choose|n: &FluentNode|
        #[trigger] b.reachable(n) && n.operation() == Some(&first.1) && first.0@ == decimal(
            (n.uid() - b.lowest()) as nat,
        );
    b.lemma_lowest_exists(n);
    let least = choose|m: &FluentNode| #[trigger] b.reachable(m) && m.uid() == b.lowest();
    b.lemma_reachable_not_empty(least);
    let op = *least.operation().unwrap();
    assert(b.emits_node(decimal(0), op));
    assert(g.has_node(decimal(0), op));
    assert forall|m: &FluentNode| b.reachable(m) implies m.uid() - b.lowest() >= 0 by {}
}

proof fn lemma_table_size(g: &Graph)
    requires
        g.keys_distinct(),
    ensures
        g.node_set().len() == g.nodes@.len(),
{
    let pairs = Seq::new(g.nodes@.len(), |i: int| (g.nodes@[i].0@, g.nodes@[i].1));
    assert forall|i: int, j: int| 0 <= i < pairs.len() && 0 <= j < pairs.len() && i != j implies pairs[i]
        != pairs[j] by {
        if i < j {
            assert(g.nodes@[i].0@ != g.nodes@[j].0@);
        } else {
            assert(g.nodes@[j].0@ != g.nodes@[i].0@);
        }
    }
    pairs.unique_seq_to_set();
    assert forall|p: (Seq<char>, Node)| pairs.to_set().contains(p) == g.node_set().contains(
        p,
    ) by {
        if pairs.contains(p) {
            let i = choose|i: int| 0 <= i < pairs.len() && pairs[i] == p;
            assert(g.nodes@[i].0@ == p.0 && g.nodes@[i].1 == p.1);
        }
        if g.has_node(p.0, p.1) {
            let i = choose|i: int|
                0 <= i < g.nodes@.len() && (#[trigger] g.nodes@[i]).0@ == p.0 && g.nodes@[i].1
                    == p.1;
            assert(pairs[i] == p);
        }
    }
    assert(pairs.to_set() =~= g.node_set());
}

/// Writing the graph out does not change the assembler, and what is written
/// depends on the sinks alone: two graphs of one assembler hold the same
/// table entries and the same edges, in whatever order.
pub proof fn lemma_same_graph(b: &FluentGraphBuilder, g1: &Graph, g2: &Graph)
    requires
        b.emits(g1),
        b.emits(g2),
    ensures
        g1.node_set() == g2.node_set(),
        g1.edge_set() == g2.edge_set(),
        g1.nodes@.len() == g2.nodes@.len(),
        g1.edges@.len() == g2.edges@.len(),
{
    assert forall|p: (Seq<char>, Node)| g1.node_set().contains(p) == g2.node_set().contains(
        p,
    ) by {
        assert(g1.has_node(p.0, p.1) <==> b.emits_node(p.0, p.1));
        assert(g2.has_node(p.0, p.1) <==> b.emits_node(p.0, p.1));
    }
    assert(g1.node_set() =~= g2.node_set());
    assert forall|e: Edge| g1.edge_set().contains(e) == g2.edge_set().contains(e) by {
        assert(g1.edges@.contains(e) <==> b.emits_edge(e));
        assert(g2.edges@.contains(e) <==> b.emits_edge(e));
    }
    assert(g1.edge_set() =~= g2.edge_set());
    g1.edges@.unique_seq_to_set();
    g2.edges@.unique_seq_to_set();
    lemma_table_size(g1);
    lemma_table_size(g2);
}

/// Written out twice, the graph is the same entry for entry and edge for
/// edge.
pub proof fn lemma_same_order(b: &FluentGraphBuilder, g1: &Graph, g2: &Graph)
    requires
        b.writes(g1),
        b.writes(g2),
    ensures
        g1.edges@ == g2.edges@,
        g1.nodes@.len() == g2.nodes@.len(),
        forall|j: int|
            0 <= j < g1.nodes@.len() ==> (#[trigger] g1.nodes@[j]).0@ == g2.nodes@[j].0@
                && g1.nodes@[j].1 == g2.nodes@[j].1,
{
    assert(g1.edges@ =~= g2.edges@);
    assert forall|j: int| 0 <= j < g1.nodes@.len() implies (#[trigger] g1.nodes@[j]).0@
        == g2.nodes@[j].0@ && g1.nodes@[j].1 == g2.nodes@[j].1 by {
        let _ = g2.nodes@[j];
    }
}

/// Every edge of a graph leads from a smaller index to a larger one,
/// because a node's ancestors were built before the node.
pub proof fn lemma_edges_ascend(b: &FluentGraphBuilder, g: &Graph, e: Edge)
    requires
        b.wf(),
        b.emits(g),
        g.edges@.contains(e),
    ensures
        e.from < e.to,
{
    assert(b.emits_edge(e));
    let n = choose|n: &FluentNode| #[trigger] b.reachable(n) && arrives(n, b.lowest(), e);
    let s = choose|i: int| 0 <= i < b.sinks().len() && (#[trigger] b.sinks()[i]).reaches(n);
    b.sinks()[s].lemma_reaches_smaller(n);
    n.lemma_reaches_near();
    b.lemma_lowest_exists(n);
    if n.canvas() is Some {
        b.lemma_reachable_step(n, n.canvas().unwrap());
    }
    if n.input() is Some {
        b.lemma_reachable_step(n, n.input().unwrap());
    }
}

/// `path` follows edges of `g`: each of its edges starts where the one
/// before it ends.
pub open spec fn is_path(g: &Graph, path: Seq<Edge>) -> bool {
    &&& forall|k: int| 0 <= k < path.len() ==> g.edges@.contains(#[trigger] path[k])
    &&& forall|k: int| 0 <= k < path.len() - 1 ==> (#[trigger] path[k]).to == path[k + 1].from
}

/// `path` is a path of `g` that ends where it starts.
pub open spec fn is_cycle(g: &Graph, path: Seq<Edge>) -> bool {
    &&& path.len() > 0
    &&& is_path(g, path)
    &&& path.last().to == path[0].from
}

proof fn lemma_path_ascends(b: &FluentGraphBuilder, g: &Graph, path: Seq<Edge>, k: int)
    requires
        b.wf(),
        b.emits(g),
        is_path(g, path),
        0 <= k < path.len(),
    ensures
        path[0].from < path[k].to,
    decreases k,
{
    lemma_edges_ascend(b, g, path[k]);
    if k > 0 {
        lemma_path_ascends(b, g, path, k - 1);
        assert(path[k - 1].to == path[k].from);
    }
}

/// No graph holds a cycle.
pub proof fn lemma_acyclic(b: &FluentGraphBuilder, g: &Graph, path: Seq<Edge>)
    requires
        b.wf(),
        b.emits(g),
    ensures
        !is_cycle(g, path),
{
    if is_cycle(g, path) {
        lemma_path_ascends(b, g, path, path.len() - 1);
    }
}

} // verus!
