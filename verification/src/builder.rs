//! The assembler: gathers sink nodes and writes out the graph they span.

use std::collections::HashSet;
use vstd::prelude::*;
use crate::decimal::{decimal, decimal_string, lemma_decimal_injective};
use crate::node::{FluentNode, IdSource};
use crate::operations::{Edge, EdgeKind, Framewise, Graph, Node};

verus! {

/// Gathers the nodes at which a pipeline ends.
///
/// Sinks are kept in the order in which they were added, and a node may be
/// added more than once. The assembler can be asked for its graph any number
/// of times.
pub struct FluentGraphBuilder {
    output_nodes: Vec<FluentNode>,
}

/// Some entry of `list` is the node `n`.
pub open spec fn holds(list: Seq<&FluentNode>, n: &FluentNode) -> bool {
    exists|i: int| 0 <= i < list.len() && #[trigger] list[i] == n
}

/// Some entry of `list` carries the identifier `uid`.
pub open spec fn has_uid(list: Seq<&FluentNode>, uid: u64) -> bool {
    exists|i: int| 0 <= i < list.len() && (#[trigger] list[i]).uid() == uid
}

/// The edges that arrive at `n`: from its canvas, then from its input.
pub open spec fn incoming(n: &FluentNode) -> Seq<(u64, u64, EdgeKind)> {
    let from_canvas = match n.canvas() {
        Some(c) => seq![(c.uid(), n.uid(), EdgeKind::Canvas)],
        None => Seq::empty(),
    };
    let from_input = match n.input() {
        Some(i) => seq![(i.uid(), n.uid(), EdgeKind::Input)],
        None => Seq::empty(),
    };
    from_canvas + from_input
}

/// The edges that arrive at the nodes of `list`, node by node.
pub open spec fn edges_of(list: Seq<&FluentNode>) -> Seq<(u64, u64, EdgeKind)>
    decreases list.len(),
{
    if list.len() == 0 {
        Seq::empty()
    } else {
        edges_of(list.drop_last()) + incoming(list.last())
    }
}

/// `low` is the smallest identifier among the nodes of `list`.
pub open spec fn is_lowest(list: Seq<&FluentNode>, low: u64) -> bool {
    &&& has_uid(list, low)
    &&& forall|i: int| 0 <= i < list.len() ==> low <= (#[trigger] list[i]).uid()
}

/// The edge `t` between identifiers, as an edge between indices that count
/// from `low`.
pub open spec fn relative(t: (u64, u64, EdgeKind), low: u64) -> Edge {
    Edge { from: (t.0 - low) as u64, to: (t.1 - low) as u64, kind: t.2 }
}

/// `e` is an edge that arrives at `n`, with indices that count from `low`.
pub open spec fn arrives(n: &FluentNode, low: u64, e: Edge) -> bool {
    ||| n.canvas() matches Some(c) && e == relative((c.uid(), n.uid(), EdgeKind::Canvas), low)
    ||| n.input() matches Some(i) && e == relative((i.uid(), n.uid(), EdgeKind::Input), low)
}

/// The number of nodes in the trees of `list`, taken together.
pub open spec fn total_size(list: Seq<&FluentNode>) -> nat
    decreases list.len(),
{
    if list.len() == 0 {
        0
    } else {
        total_size(list.drop_last()) + list.last().size()
    }
}

proof fn lemma_total_size_push(list: Seq<&FluentNode>, n: &FluentNode)
    ensures
        total_size(list.push(n)) == total_size(list) + n.size(),
{
    assert(list.push(n).drop_last() =~= list);
}

/// `stack` with the ancestors of `n` on top: its canvas, then its input.
pub open spec fn with_ancestors<'a>(stack: Seq<&'a FluentNode>, n: &'a FluentNode) -> Seq<
    &'a FluentNode,
> {
    let with_canvas = match n.canvas() {
        Some(c) => stack.push(c),
        None => stack,
    };
    match n.input() {
        Some(i) => with_canvas.push(i),
        None => with_canvas,
    }
}

proof fn lemma_with_ancestors_size(stack: Seq<&FluentNode>, n: &FluentNode)
    ensures
        total_size(with_ancestors(stack, n)) + 1 == total_size(stack) + n.size(),
{
    let with_canvas = match n.canvas() {
        Some(c) => stack.push(c),
        None => stack,
    };
    if let Some(c) = n.canvas() {
        lemma_total_size_push(stack, c);
    }
    if let Some(i) = n.input() {
        lemma_total_size_push(with_canvas, i);
    }
}

/// The walk that is still to come when the nodes of `todo` wait on a stack
/// and the identifiers in `seen` have been met. The node on top of the stack
/// is taken off. If its identifier has been met, it is passed over. If not,
/// it is the next node of the walk, and its ancestors go on the stack.
pub open spec fn walk_from(todo: Seq<&FluentNode>, seen: Set<u64>) -> Seq<&FluentNode>
    decreases total_size(todo),
    via walk_from_ends
{
    if todo.len() == 0 {
        Seq::empty()
    } else {
        let next = todo.last();
        let rest = todo.drop_last();
        if seen.contains(next.uid()) {
            walk_from(rest, seen)
        } else {
            seq![next] + walk_from(with_ancestors(rest, next), seen.insert(next.uid()))
        }
    }
}

#[via_fn]
proof fn walk_from_ends(todo: Seq<&FluentNode>, seen: Set<u64>) {
    if todo.len() > 0 {
        lemma_with_ancestors_size(todo.drop_last(), todo.last());
    }
}

proof fn lemma_holds_push(list: Seq<&FluentNode>, n: &FluentNode, x: &FluentNode)
    ensures
        holds(list.push(n), x) <==> holds(list, x) || x == n,
{
    let longer = list.push(n);
    if holds(list, x) {
        let i = choose|i: int| 0 <= i < list.len() && #[trigger] list[i] == x;
        assert(longer[i] == x);
    }
    if x == n {
        assert(longer[list.len() as int] == x);
    }
    if holds(longer, x) {
        let i = choose|i: int| 0 <= i < longer.len() && #[trigger] longer[i] == x;
        if i < list.len() {
            assert(list[i] == x);
        }
    }
}

proof fn lemma_holds_drop_last(list: Seq<&FluentNode>, x: &FluentNode)
    requires
        list.len() > 0,
        holds(list, x),
    ensures
        holds(list.drop_last(), x) || x == list.last(),
{
    let i = choose|i: int| 0 <= i < list.len() && #[trigger] list[i] == x;
    if i < list.len() - 1 {
        assert(list.drop_last()[i] == x);
    }
}

proof fn lemma_has_uid_push(list: Seq<&FluentNode>, n: &FluentNode, uid: u64)
    ensures
        has_uid(list.push(n), uid) <==> has_uid(list, uid) || uid == n.uid(),
{
    let longer = list.push(n);
    if has_uid(list, uid) {
        let i = choose|i: int| 0 <= i < list.len() && (#[trigger] list[i]).uid() == uid;
        assert(longer[i].uid() == uid);
    }
    if uid == n.uid() {
        assert(longer[list.len() as int].uid() == uid);
    }
    if has_uid(longer, uid) {
        let i = choose|i: int| 0 <= i < longer.len() && (#[trigger] longer[i]).uid() == uid;
        if i < list.len() {
            assert(list[i].uid() == uid);
        }
    }
}

proof fn lemma_edge_origin(list: Seq<&FluentNode>, j: int) -> (i: int)
    requires
        0 <= j < edges_of(list).len(),
    ensures
        0 <= i < list.len(),
        incoming(list[i]).contains(edges_of(list)[j]),
    decreases list.len(),
{
    let shorter = list.drop_last();
    if j < edges_of(shorter).len() {
        lemma_edge_origin(shorter, j)
    } else {
        let at = j - edges_of(shorter).len();
        assert(incoming(list.last())[at] == edges_of(list)[j]);
        list.len() - 1
    }
}

proof fn lemma_edge_listed(list: Seq<&FluentNode>, i: int, t: (u64, u64, EdgeKind))
    requires
        0 <= i < list.len(),
        incoming(list[i]).contains(t),
    ensures
        edges_of(list).contains(t),
    decreases list.len(),
{
    let shorter = list.drop_last();
    if i < list.len() - 1 {
        lemma_edge_listed(shorter, i, t);
        let j = choose|j: int| 0 <= j < edges_of(shorter).len() && edges_of(shorter)[j] == t;
        assert(edges_of(list)[j] == t);
    } else {
        let at = choose|at: int| 0 <= at < incoming(list[i]).len() && incoming(list[i])[at] == t;
        assert(edges_of(list)[edges_of(shorter).len() + at] == t);
    }
}

proof fn lemma_edges_differ(list: Seq<&FluentNode>, p: int, q: int)
    requires
        forall|i: int, j: int|
            0 <= i < j < list.len() ==> (#[trigger] list[i]).uid() != (#[trigger] list[j]).uid(),
        0 <= p < q < edges_of(list).len(),
    ensures
        edges_of(list)[p].1 != edges_of(list)[q].1 || edges_of(list)[p].2 != edges_of(list)[q].2,
    decreases list.len(),
{
    let shorter = list.drop_last();
    let split = edges_of(shorter).len();
    if q < split {
        assert forall|i: int, j: int| 0 <= i < j < shorter.len() implies (
        #[trigger] shorter[i]).uid() != (#[trigger] shorter[j]).uid() by {
            assert(shorter[i] == list[i]);
            assert(shorter[j] == list[j]);
        }
        lemma_edges_differ(shorter, p, q);
    } else if p < split {
        let i = lemma_edge_origin(shorter, p);
        assert(shorter[i] == list[i]);
        assert(edges_of(list)[p] == edges_of(shorter)[p]);
        assert(edges_of(list)[q] == incoming(list.last())[q - split]);
        assert(edges_of(shorter)[p].1 == list[i].uid());
        assert(list[list.len() - 1].uid() != list[i].uid());
    } else {
        assert(edges_of(list)[p] == incoming(list.last())[p - split]);
        assert(edges_of(list)[q] == incoming(list.last())[q - split]);
    }
}

proof fn lemma_incoming(n: &FluentNode, t: (u64, u64, EdgeKind))
    ensures
        incoming(n).contains(t) <==> {
            ||| n.canvas() matches Some(c) && t == (c.uid(), n.uid(), EdgeKind::Canvas)
            ||| n.input() matches Some(i) && t == (i.uid(), n.uid(), EdgeKind::Input)
        },
{
    let all = incoming(n);
    if let Some(c) = n.canvas() {
        assert(all[0] == (c.uid(), n.uid(), EdgeKind::Canvas));
    }
    if let Some(i) = n.input() {
        assert(all[all.len() - 1] == (i.uid(), n.uid(), EdgeKind::Input));
    }
    if all.contains(t) {
        let at = choose|at: int| 0 <= at < all.len() && all[at] == t;
        assert(all[at] == t);
    }
}

impl FluentGraphBuilder {
    /// The sinks, in the order in which they were added.
    pub closed spec fn sinks(&self) -> Seq<FluentNode> {
        self.output_nodes@
    }

    /// The walk over the reachable nodes: it starts with the sinks on the
    /// stack, the last sink on top, and has met no identifier yet.
    pub open spec fn walk(&self) -> Seq<&FluentNode> {
        walk_from(Seq::new(self.sinks().len(), |i: int| &self.sinks()[i]), Set::empty())
    }

    /// `n` is one of the sinks.
    pub open spec fn is_sink(&self, n: &FluentNode) -> bool {
        exists|i: int| 0 <= i < self.sinks().len() && #[trigger] self.sinks()[i] == *n
    }

    /// `n` is a sink, or a node that a sink depends on, directly or not.
    pub open spec fn reachable(&self, n: &FluentNode) -> bool {
        exists|i: int| 0 <= i < self.sinks().len() && (#[trigger] self.sinks()[i]).reaches(n)
    }

    /// Among the reachable nodes an identifier names one node only.
    pub open spec fn coherent(&self) -> bool {
        forall|a: &FluentNode, b: &FluentNode|
            #![trigger self.reachable(a), self.reachable(b)]
            self.reachable(a) && self.reachable(b) && a.uid() == b.uid() ==> a == b
    }

    /// Every sink is well formed, and among the reachable nodes an identifier
    /// names one node only. This holds of sinks that one source of
    /// identifiers knows.
    pub open spec fn wf(&self) -> bool {
        &&& forall|i: int| 0 <= i < self.sinks().len() ==> (#[trigger] self.sinks()[i]).wf()
        &&& self.coherent()
    }

    /// `n` was brought into the walk by a sink or by one of the first `bound`
    /// entries of `list`.
    pub open spec fn introduced(&self, list: Seq<&FluentNode>, bound: int, n: &FluentNode) -> bool {
        self.is_sink(n) || exists|j: int|
            0 <= j < bound && j < list.len() && (#[trigger] list[j]).depends_on(n)
    }

    /// `unique` lists reachable nodes, no identifier twice, and every entry
    /// is a sink or a direct ancestor of an earlier entry.
    pub open spec fn visits(&self, unique: Seq<&FluentNode>) -> bool {
        &&& forall|i: int| 0 <= i < unique.len() ==> self.reachable(#[trigger] unique[i])
        &&& forall|i: int, j: int|
            0 <= i < j < unique.len() ==> (#[trigger] unique[i]).uid() != (#[trigger] unique[j]).uid()
        &&& forall|i: int|
            0 <= i < unique.len() ==> self.introduced(unique, i, #[trigger] unique[i])
    }

    /// `unique` lists the reachable nodes: every reachable node, each once,
    /// and nothing else; and every entry is a sink or a direct ancestor of an
    /// earlier entry.
    pub open spec fn collects(&self, unique: Seq<&FluentNode>) -> bool {
        &&& self.visits(unique)
        &&& forall|n: &FluentNode| #[trigger] self.reachable(n) ==> holds(unique, n)
    }

    /// No sink is the empty node.
    pub open spec fn no_empty_sink(&self) -> bool {
        forall|i: int| 0 <= i < self.sinks().len() ==> !(#[trigger] self.sinks()[i]).is_empty()
    }

    /// `low` is the smallest identifier among the reachable nodes.
    pub open spec fn is_lowest_uid(&self, low: u64) -> bool {
        &&& exists|n: &FluentNode| #[trigger] self.reachable(n) && n.uid() == low
        &&& forall|n: &FluentNode| #[trigger] self.reachable(n) ==> low <= n.uid()
    }

    /// The smallest identifier among the reachable nodes; 0 if there is none.
    pub open spec fn lowest(&self) -> u64 {
        if exists|low: u64| self.is_lowest_uid(low) {
            choose|low: u64| self.is_lowest_uid(low)
        } else {
            0
        }
    }

    /// The graph's table holds `op` under `key`: `op` is the operation of a
    /// reachable node and `key` the decimal text of the node's index, which
    /// is its identifier less the smallest one.
    pub open spec fn emits_node(&self, key: Seq<char>, op: Node) -> bool {
        exists|n: &FluentNode|
            #[trigger] self.reachable(n) && n.operation() == Some(&op) && key == decimal(
                (n.uid() - self.lowest()) as nat,
            )
    }

    /// The graph holds the edge `e`: it arrives at a reachable node.
    pub open spec fn emits_edge(&self, e: Edge) -> bool {
        exists|n: &FluentNode| #[trigger] self.reachable(n) && arrives(n, self.lowest(), e)
    }

    /// `g` is the graph as it is written: the table lists the nodes of the
    /// walk in their order, each under the decimal text of its index with
    /// its operation, and the edges are those that arrive at the nodes of the
    /// walk, node by node, between indices.
    pub open spec fn writes(&self, g: &Graph) -> bool {
        let list = self.walk();
        let low = self.lowest();
        &&& g.nodes@.len() == list.len()
        &&& forall|j: int|
            0 <= j < list.len() ==> (#[trigger] g.nodes@[j]).0@ == decimal(
                (list[j].uid() - low) as nat,
            ) && list[j].operation() == Some(&g.nodes@[j].1)
        &&& g.edges@.len() == edges_of(list).len()
        &&& forall|j: int|
            0 <= j < g.edges@.len() ==> #[trigger] g.edges@[j] == relative(
                edges_of(list)[j],
                low,
            )
    }

    /// `g` holds the graph of this assembler: one table entry for each
    /// reachable node, one edge for each link of a reachable node, and
    /// nothing twice.
    pub open spec fn emits(&self, g: &Graph) -> bool {
        &&& g.keys_distinct()
        &&& g.edges@.no_duplicates()
        &&& forall|key: Seq<char>, op: Node| #[trigger]
            g.has_node(key, op) <==> self.emits_node(key, op)
        &&& forall|e: Edge| #[trigger] g.edges@.contains(e) <==> self.emits_edge(e)
    }

    /// What a reachable node depends on is reachable.
    pub proof fn lemma_reachable_step(&self, n: &FluentNode, m: &FluentNode)
        requires
            self.reachable(n),
            n.reaches(m),
        ensures
            self.reachable(m),
    {
        let i = choose|i: int| 0 <= i < self.sinks().len() && (#[trigger] self.sinks()[i]).reaches(n);
        self.sinks()[i].lemma_reaches_trans(n, m);
    }

    proof fn lemma_closed_covers(&self, unique: Seq<&FluentNode>, s: &FluentNode, n: &FluentNode)
        requires
            self.coherent(),
            forall|i: int| 0 <= i < unique.len() ==> self.reachable(#[trigger] unique[i]),
            forall|i: int|
                0 <= i < unique.len() ==> ((#[trigger] unique[i]).input() matches Some(a)
                    ==> has_uid(unique, a.uid())),
            forall|i: int|
                0 <= i < unique.len() ==> ((#[trigger] unique[i]).canvas() matches Some(a)
                    ==> has_uid(unique, a.uid())),
            holds(unique, s),
            s.reaches(n),
        ensures
            holds(unique, n),
        decreases s.size(),
    {
        if s != n {
            let at = choose|i: int| 0 <= i < unique.len() && #[trigger] unique[i] == s;
            let a = if s.input() is Some && s.input().unwrap().reaches(n) {
                s.input().unwrap()
            } else {
                s.canvas().unwrap()
            };
            s.lemma_reaches_near();
            assert(has_uid(unique, a.uid()));
            let j = choose|j: int| 0 <= j < unique.len() && (#[trigger] unique[j]).uid() == a.uid();
            assert(self.reachable(unique[at]));
            self.lemma_reachable_step(s, a);
            assert(self.reachable(unique[j]));
            assert(unique[j] == a);
            self.lemma_closed_covers(unique, a, n);
        }
    }

    /// Sinks that one source of identifiers knows make a well-formed
    /// assembler.
    pub proof fn lemma_known_sinks(&self, ids: &IdSource)
        requires
            ids.wf(),
            forall|i: int| 0 <= i < self.sinks().len() ==> ids.knows(&#[trigger] self.sinks()[i]),
        ensures
            self.wf(),
    {
        assert forall|i: int| 0 <= i < self.sinks().len() implies (
        #[trigger] self.sinks()[i]).wf() by {
            ids.lemma_known_closed(&self.sinks()[i]);
        }
        assert forall|a: &FluentNode, b: &FluentNode|
            #![trigger self.reachable(a), self.reachable(b)]
            self.reachable(a) && self.reachable(b) && a.uid() == b.uid() implies a == b by {
            let i = choose|i: int|
                0 <= i < self.sinks().len() && (#[trigger] self.sinks()[i]).reaches(a);
            let j = choose|j: int|
                0 <= j < self.sinks().len() && (#[trigger] self.sinks()[j]).reaches(b);
            ids.lemma_known_closed(&self.sinks()[i]);
            ids.lemma_known_closed(&self.sinks()[j]);
        }
    }

    /// An assembler without sinks.
    pub fn new() -> (r: FluentGraphBuilder)
        ensures
            r.sinks() == Seq::<FluentNode>::empty(),
            r.wf(),
    {
        FluentGraphBuilder { output_nodes: Vec::new() }
    }

    /// An assembler whose only sink is `n`.
    pub fn new_with(n: FluentNode) -> (r: FluentGraphBuilder)
        ensures
            r.sinks() == seq![n],
    {
        let mut v = Vec::new();
        v.push(n);
        let r = FluentGraphBuilder { output_nodes: v };
        assert(r.sinks() =~= seq![n]);
        r
    }

    /// The assembler with `n` added as its last sink.
    pub fn with(self, n: FluentNode) -> (r: FluentGraphBuilder)
        ensures
            r.sinks() == self.sinks().push(n),
    {
        let mut new_vec = self.output_nodes;
        new_vec.push(n);
        FluentGraphBuilder { output_nodes: new_vec }
    }

    /// Whether one of the sinks is the empty node. Such an assembler has no
    /// graph.
    pub fn has_empty_sink(&self) -> (r: bool)
        ensures
            r == !self.no_empty_sink(),
    {
        let mut k: usize = 0;
        while k < self.output_nodes.len()
            invariant
                k <= self.output_nodes.len(),
                forall|i: int| 0 <= i < k ==> !(#[trigger] self.sinks()[i]).is_empty(),
            decreases self.output_nodes.len() - k,
        {
            if self.output_nodes[k].is_empty() {
                assert(self.sinks()[k as int].is_empty());
                return true;
            }
            k += 1;
        }
        false
    }

    /// Walks back from the sinks and returns every reachable node once.
    ///
    /// The walk keeps a stack, which starts as the sinks. It takes the node
    /// on top; if the node's identifier is new, it records the node and puts
    /// the node's canvas and then its input on the stack. Where an identifier
    /// names one node only, nothing reachable is left out.
    pub fn collect_unique(&self) -> (unique: Vec<&FluentNode>)
        ensures
            unique@ == self.walk(),
            self.visits(unique@),
            self.coherent() ==> self.collects(unique@),
    {
        broadcast use vstd::std_specs::hash::group_hash_axioms;

        let mut set: HashSet<u64> = HashSet::new();
        let mut todo: Vec<&FluentNode> = Vec::new();
        let mut unique: Vec<&FluentNode> = Vec::new();
        let mut k: usize = 0;
        while k < self.output_nodes.len()
            invariant
                k <= self.output_nodes.len(),
                todo@.len() == k,
                forall|j: int| 0 <= j < k ==> *(#[trigger] todo@[j]) == self.sinks()[j],
            decreases self.output_nodes.len() - k,
        {
            todo.push(&self.output_nodes[k]);
            k += 1;
        }
        proof {
            assert(todo@ =~= Seq::new(self.sinks().len(), |i: int| &self.sinks()[i]));
            assert(unique@ + walk_from(todo@, set@) =~= self.walk());
            assert forall|i: int| 0 <= i < self.sinks().len() implies holds(
                todo@,
                &#[trigger] self.sinks()[i],
            ) by {
                assert(*todo@[i] == self.sinks()[i]);
            }
            assert forall|j: int| 0 <= j < todo@.len() implies self.reachable(
                #[trigger] todo@[j],
            ) && self.introduced(unique@, 0, todo@[j]) by {
                assert(self.sinks()[j].reaches(todo@[j]));
                assert(self.sinks()[j] == *todo@[j]);
            }
        }
        while todo.len() > 0
            invariant
                unique@ + walk_from(todo@, set@) == self.walk(),
                forall|u: u64| set@.contains(u) <==> has_uid(unique@, u),
                forall|i: int| 0 <= i < unique@.len() ==> self.reachable(#[trigger] unique@[i]),
                forall|i: int, j: int|
                    0 <= i < j < unique@.len() ==> (#[trigger] unique@[i]).uid() != (
                    #[trigger] unique@[j]).uid(),
                forall|j: int| 0 <= j < todo@.len() ==> self.reachable(#[trigger] todo@[j]),
                forall|i: int|
                    0 <= i < self.sinks().len() ==> set@.contains(
                        (#[trigger] self.sinks()[i]).uid(),
                    ) || holds(todo@, &self.sinks()[i]),
                forall|i: int|
                    0 <= i < unique@.len() ==> ((#[trigger] unique@[i]).input() matches Some(a)
                        ==> set@.contains(a.uid()) || holds(todo@, a)),
                forall|i: int|
                    0 <= i < unique@.len() ==> ((#[trigger] unique@[i]).canvas() matches Some(a)
                        ==> set@.contains(a.uid()) || holds(todo@, a)),
                forall|j: int|
                    0 <= j < todo@.len() ==> self.introduced(
                        unique@,
                        unique@.len() as int,
                        #[trigger] todo@[j],
                    ),
                forall|i: int|
                    0 <= i < unique@.len() ==> self.introduced(unique@, i, #[trigger] unique@[i]),
            decreases total_size(todo@),
        {
            let ghost before = todo@;
            let ghost recorded = unique@;
            let ghost seen = set@;
            let next = todo.pop().unwrap();
            let ghost rest = todo@;
            assert(rest =~= before.drop_last());
            assert(next == before.last());
            assert(self.reachable(before[before.len() - 1]));
            assert(self.introduced(recorded, recorded.len() as int, before[before.len() - 1]));
            let uid = next.uid();
            if !set.contains(&uid) {
                set.insert(uid);
                unique.push(next);
                let ghost after_canvas = rest;
                if let Some(c) = next.canvas() {
                    todo.push(c);
                    proof {
                        after_canvas = rest.push(c);
                        lemma_total_size_push(rest, c);
                    }
                }
                assert(todo@ =~= after_canvas);
                if let Some(c) = next.input() {
                    todo.push(c);
                    proof {
                        lemma_total_size_push(after_canvas, c);
                    }
                }
                proof {
                    let now = todo@;
                    let grown = unique@;
                    assert(grown =~= recorded.push(next));
                    assert(now =~= with_ancestors(rest, next));
                    assert(grown + walk_from(now, set@) =~= recorded + walk_from(before, seen));
                    assert forall|x: &FluentNode| holds(before, x) implies holds(now, x) || x
                        == next by {
                        lemma_holds_drop_last(before, x);
                        if holds(rest, x) {
                            if next.canvas() is Some {
                                lemma_holds_push(rest, next.canvas().unwrap(), x);
                            }
                            if next.input() is Some {
                                lemma_holds_push(after_canvas, next.input().unwrap(), x);
                            }
                        }
                    }
                    assert forall|u: u64| set@.contains(u) <==> has_uid(grown, u) by {
                        lemma_has_uid_push(recorded, next, u);
                    }
                    assert forall|i: int| 0 <= i < grown.len() implies self.reachable(
                        #[trigger] grown[i],
                    ) by {
                        if i < recorded.len() {
                            assert(grown[i] == recorded[i]);
                        }
                    }
                    assert forall|i: int, j: int| 0 <= i < j < grown.len() implies (
                    #[trigger] grown[i]).uid() != (#[trigger] grown[j]).uid() by {
                        if j == recorded.len() {
                            assert(grown[i] == recorded[i]);
                            if recorded[i].uid() == uid {
                                assert(has_uid(recorded, uid));
                            }
                        } else {
                            assert(grown[i] == recorded[i]);
                            assert(grown[j] == recorded[j]);
                        }
                    }
                    next.lemma_reaches_near();
                    if next.canvas() is Some {
                        let c = next.canvas().unwrap();
                        self.lemma_reachable_step(next, c);
                        lemma_holds_push(rest, c, c);
                        if next.input() is Some {
                            lemma_holds_push(after_canvas, next.input().unwrap(), c);
                        }
                        assert(holds(now, c));
                    }
                    if next.input() is Some {
                        let c = next.input().unwrap();
                        self.lemma_reachable_step(next, c);
                        lemma_holds_push(after_canvas, c, c);
                        assert(holds(now, c));
                    }
                    assert forall|j: int| 0 <= j < now.len() implies self.reachable(
                        #[trigger] now[j],
                    ) && self.introduced(grown, grown.len() as int, now[j]) by {
                        if j < rest.len() {
                            assert(now[j] == before[j]);
                            assert(self.introduced(recorded, recorded.len() as int, before[j]));
                            if !self.is_sink(before[j]) {
                                let w = choose|w: int|
                                    0 <= w < recorded.len() && (#[trigger] recorded[w]).depends_on(
                                        before[j],
                                    );
                                assert(grown[w].depends_on(now[j]));
                            }
                        } else {
                            assert(next.depends_on(now[j]));
                            assert(grown[recorded.len() as int].depends_on(now[j]));
                        }
                    }
                    assert forall|i: int| 0 <= i < grown.len() implies self.introduced(
                        grown,
                        i,
                        #[trigger] grown[i],
                    ) by {
                        if i < recorded.len() {
                            assert(grown[i] == recorded[i]);
                            assert(self.introduced(recorded, i, recorded[i]));
                            if !self.is_sink(recorded[i]) {
                                let w = choose|w: int|
                                    0 <= w < i && w < recorded.len() && (
                                    #[trigger] recorded[w]).depends_on(recorded[i]);
                                assert(grown[w].depends_on(grown[i]));
                            }
                        } else {
                            if !self.is_sink(next) {
                                let w = choose|w: int|
                                    0 <= w < recorded.len() && (#[trigger] recorded[w]).depends_on(
                                        next,
                                    );
                                assert(grown[w].depends_on(grown[i]));
                            }
                        }
                    }
                    assert forall|i: int| 0 <= i < self.sinks().len() implies set@.contains(
                        (#[trigger] self.sinks()[i]).uid(),
                    ) || holds(now, &self.sinks()[i]) by {}
                    assert forall|i: int| 0 <= i < grown.len() implies ((
                    #[trigger] grown[i]).input() matches Some(a) ==> set@.contains(a.uid())
                        || holds(now, a)) by {
                        if i < recorded.len() {
                            assert(grown[i] == recorded[i]);
                        }
                    }
                    assert forall|i: int| 0 <= i < grown.len() implies ((
                    #[trigger] grown[i]).canvas() matches Some(a) ==> set@.contains(a.uid())
                        || holds(now, a)) by {
                        if i < recorded.len() {
                            assert(grown[i] == recorded[i]);
                        }
                    }
                }
            } else {
                proof {
                    assert forall|x: &FluentNode| holds(before, x) implies holds(rest, x) || x
                        == next by {
                        lemma_holds_drop_last(before, x);
                    }
                    assert forall|j: int| 0 <= j < rest.len() implies self.reachable(
                        #[trigger] rest[j],
                    ) && self.introduced(recorded, recorded.len() as int, rest[j]) by {
                        assert(rest[j] == before[j]);
                    }
                }
            }
        }
        proof {
            let list = unique@;
            assert forall|n: &FluentNode|
                self.coherent() && #[trigger] self.reachable(n) implies holds(list, n) by {
                let i = choose|i: int|
                    0 <= i < self.sinks().len() && (#[trigger] self.sinks()[i]).reaches(n);
                let s = &self.sinks()[i];
                assert(!holds(todo@, s));
                assert(has_uid(list, s.uid()));
                let j = choose|j: int| 0 <= j < list.len() && (#[trigger] list[j]).uid() == s.uid();
                assert(s.reaches(s));
                assert(self.reachable(s));
                assert(self.reachable(list[j]));
                assert(list[j] == s);
                self.lemma_closed_covers(list, s, n);
            }
        }
        unique
    }

    /// The edges that arrive at the nodes of `for_nodes`, as pairs of
    /// identifiers: node by node, the edge from the canvas before the edge
    /// from the input.
    pub fn collect_edges(&self, for_nodes: &[&FluentNode]) -> (edges: Vec<(u64, u64, EdgeKind)>)
        ensures
            edges@ == edges_of(for_nodes@),
    {
        let mut edges: Vec<(u64, u64, EdgeKind)> = Vec::new();
        let mut k: usize = 0;
        while k < for_nodes.len()
            invariant
                k <= for_nodes@.len(),
                edges@ == edges_of(for_nodes@.take(k as int)),
            decreases for_nodes@.len() - k,
        {
            let n = for_nodes[k];
            let ghost before = edges@;
            if let Some(parent) = n.canvas() {
                edges.push((parent.uid(), n.uid(), EdgeKind::Canvas));
            }
            if let Some(parent) = n.input() {
                edges.push((parent.uid(), n.uid(), EdgeKind::Input));
            }
            proof {
                assert(for_nodes@.take(k + 1).drop_last() =~= for_nodes@.take(k as int));
                assert(for_nodes@.take(k + 1).last() == n);
                assert(edges@ =~= before + incoming(n));
            }
            k += 1;
        }
        assert(for_nodes@.take(k as int) =~= for_nodes@);
        edges
    }

    /// The smallest identifier among the nodes of `for_nodes`; `None` if
    /// there is no node.
    pub fn lowest_uid(for_nodes: &[&FluentNode]) -> (r: Option<u64>)
        ensures
            match r {
                Some(low) => is_lowest(for_nodes@, low),
                None => for_nodes@.len() == 0,
            },
    {
        if for_nodes.len() == 0 {
            return None;
        }
        let mut low: u64 = for_nodes[0].uid();
        let mut k: usize = 1;
        while k < for_nodes.len()
            invariant
                1 <= k <= for_nodes@.len(),
                has_uid(for_nodes@, low),
                forall|i: int| 0 <= i < k ==> low <= (#[trigger] for_nodes@[i]).uid(),
            decreases for_nodes@.len() - k,
        {
            let uid = for_nodes[k].uid();
            if uid < low {
                low = uid;
            }
            k += 1;
        }
        Some(low)
    }

    /// In an assembler without an empty sink, every reachable node carries
    /// an operation.
    pub proof fn lemma_reachable_not_empty(&self, n: &FluentNode)
        requires
            self.wf(),
            self.no_empty_sink(),
            self.reachable(n),
        ensures
            !n.is_empty(),
            n.wf(),
    {
        let i = choose|i: int| 0 <= i < self.sinks().len() && (#[trigger] self.sinks()[i]).reaches(n);
        self.sinks()[i].lemma_reaches_smaller(n);
    }

    /// Where a node is reachable, some reachable node has the smallest
    /// identifier.
    pub proof fn lemma_lowest_exists(&self, n: &FluentNode)
        requires
            self.reachable(n),
        ensures
            self.is_lowest_uid(self.lowest()),
        decreases n.uid(),
    {
        if forall|m: &FluentNode| #[trigger] self.reachable(m) ==> n.uid() <= m.uid() {
            assert(self.is_lowest_uid(n.uid()));
        } else {
            let m = choose|m: &FluentNode| #[trigger] self.reachable(m) && m.uid() < n.uid();
            self.lemma_lowest_exists(m);
        }
    }

    /// The smallest identifier of a walk over the reachable nodes is the
    /// smallest identifier among the reachable nodes.
    pub proof fn lemma_lowest_of_walk(&self, list: Seq<&FluentNode>, low: u64)
        requires
            self.collects(list),
            list.len() == 0 ==> low == 0,
            list.len() > 0 ==> is_lowest(list, low),
        ensures
            self.lowest() == low,
            list.len() > 0 ==> self.is_lowest_uid(low),
    {
        if list.len() > 0 {
            let i = choose|i: int| 0 <= i < list.len() && (#[trigger] list[i]).uid() == low;
            assert(self.reachable(list[i]));
            assert forall|n: &FluentNode| #[trigger] self.reachable(n) implies low <= n.uid() by {
                let j = choose|j: int| 0 <= j < list.len() && #[trigger] list[j] == n;
                assert(list[j] == n);
            }
            assert(self.is_lowest_uid(low));
            let other = self.lowest();
            assert(self.is_lowest_uid(other));
        } else {
            if exists|other: u64| self.is_lowest_uid(other) {
                let other = choose|other: u64| self.is_lowest_uid(other);
                let n = choose|n: &FluentNode| #[trigger] self.reachable(n) && n.uid() == other;
                assert(holds(list, n));
            }
        }
    }

    proof fn lemma_edge_bounds(&self, list: Seq<&FluentNode>, low: u64, j: int)
        requires
            self.collects(list),
            is_lowest(list, low),
            0 <= j < edges_of(list).len(),
        ensures
            low <= edges_of(list)[j].0,
            low <= edges_of(list)[j].1,
    {
        let i = lemma_edge_origin(list, j);
        let t = edges_of(list)[j];
        let n = list[i];
        lemma_incoming(n, t);
        n.lemma_reaches_near();
        assert(self.reachable(n));
        let a = if n.canvas() is Some && t == (n.canvas().unwrap().uid(), n.uid(), EdgeKind::Canvas) {
            n.canvas().unwrap()
        } else {
            n.input().unwrap()
        };
        self.lemma_reachable_step(n, a);
        assert(holds(list, a));
        let at = choose|at: int| 0 <= at < list.len() && #[trigger] list[at] == a;
        assert(low <= list[at].uid());
    }

    proof fn lemma_written(&self, list: Seq<&FluentNode>, low: u64, g: &Graph)
        requires
            self.collects(list),
            list.len() == 0 ==> low == 0,
            list.len() > 0 ==> is_lowest(list, low),
            g.edges@.len() == edges_of(list).len(),
            forall|j: int|
                0 <= j < g.edges@.len() ==> #[trigger] g.edges@[j] == relative(
                    edges_of(list)[j],
                    low,
                ),
            g.nodes@.len() == list.len(),
            forall|j: int|
                0 <= j < list.len() ==> (#[trigger] g.nodes@[j]).0@ == decimal(
                    (list[j].uid() - low) as nat,
                ) && list[j].operation() == Some(&g.nodes@[j].1),
        ensures
            self.emits(g),
    {
        self.lemma_lowest_of_walk(list, low);
        let all = edges_of(list);
        assert forall|i: int, j: int| 0 <= i < j < g.nodes@.len() implies (
        #[trigger] g.nodes@[i]).0@ != (#[trigger] g.nodes@[j]).0@ by {
            if g.nodes@[i].0@ == g.nodes@[j].0@ {
                assert(low <= list[i].uid());
                assert(low <= list[j].uid());
                lemma_decimal_injective(
                    (list[i].uid() - low) as nat,
                    (list[j].uid() - low) as nat,
                );
            }
        }
        assert forall|p: int, q: int|
            0 <= p < g.edges@.len() && 0 <= q < g.edges@.len() && p != q implies g.edges@[p]
            != g.edges@[q] by {
            self.lemma_edge_bounds(list, low, p);
            self.lemma_edge_bounds(list, low, q);
            if p < q {
                lemma_edges_differ(list, p, q);
            } else {
                lemma_edges_differ(list, q, p);
            }
            assert(g.edges@[p] == relative(all[p], low));
            assert(g.edges@[q] == relative(all[q], low));
        }
        assert forall|key: Seq<char>, op: Node| #[trigger]
            g.has_node(key, op) <==> self.emits_node(key, op) by {
            if g.has_node(key, op) {
                let i = choose|i: int|
                    0 <= i < g.nodes@.len() && (#[trigger] g.nodes@[i]).0@ == key && g.nodes@[i].1
                        == op;
                assert(self.reachable(list[i]));
            }
            if self.emits_node(key, op) {
                let n = choose|n: &FluentNode|
                    #[trigger] self.reachable(n) && n.operation() == Some(&op) && key == decimal(
                        (n.uid() - self.lowest()) as nat,
                    );
                assert(holds(list, n));
                let i = choose|i: int| 0 <= i < list.len() && #[trigger] list[i] == n;
                assert(g.nodes@[i].0@ == key);
                assert(g.nodes@[i].1 == op);
            }
        }
        assert forall|e: Edge| #[trigger] g.edges@.contains(e) <==> self.emits_edge(e) by {
            if g.edges@.contains(e) {
                let j = choose|j: int| 0 <= j < g.edges@.len() && g.edges@[j] == e;
                let i = lemma_edge_origin(list, j);
                lemma_incoming(list[i], all[j]);
                assert(g.edges@[j] == relative(all[j], low));
                assert(self.reachable(list[i]));
                assert(arrives(list[i], low, e));
            }
            if self.emits_edge(e) {
                let n = choose|n: &FluentNode|
                    #[trigger] self.reachable(n) && arrives(n, self.lowest(), e);
                assert(holds(list, n));
                let i = choose|i: int| 0 <= i < list.len() && #[trigger] list[i] == n;
                let t = if n.canvas() is Some && e == relative(
                    (n.canvas().unwrap().uid(), n.uid(), EdgeKind::Canvas),
                    low,
                ) {
                    (n.canvas().unwrap().uid(), n.uid(), EdgeKind::Canvas)
                } else {
                    (n.input().unwrap().uid(), n.uid(), EdgeKind::Input)
                };
                lemma_incoming(n, t);
                lemma_edge_listed(list, i, t);
                let j = choose|j: int| 0 <= j < all.len() && all[j] == t;
                assert(g.edges@[j] == relative(all[j], low));
            }
        }
    }

    /// Writes out the graph: a table entry for every reachable node, under
    /// the decimal text of its index, and an edge for every link of a
    /// reachable node. The index of a node is its identifier less the
    /// smallest identifier among the reachable nodes, so indices start at 0
    /// whatever identifiers the nodes were given. Without sinks the graph is
    /// empty. Entries and edges stand in the order of the walk; a reader of
    /// the graph should go by what it holds, not by that order.
    pub fn to_framewise(&self) -> (r: Framewise)
        requires
            self.wf(),
            self.no_empty_sink(),
        ensures
            r is Graph,
            self.writes(&r->Graph_0),
            self.emits(&r->Graph_0),
    {
        let nodes = self.collect_unique();
        let lowest_uid = match FluentGraphBuilder::lowest_uid(nodes.as_slice()) {
            Some(low) => low,
            None => 0,
        };
        let edges = self.collect_edges(nodes.as_slice());
        let mut framewise_edges: Vec<Edge> = Vec::new();
        let mut k: usize = 0;
        while k < edges.len()
            invariant
                self.collects(nodes@),
                nodes@.len() > 0 ==> is_lowest(nodes@, lowest_uid),
                edges@ == edges_of(nodes@),
                k <= edges@.len(),
                framewise_edges@.len() == k,
                forall|j: int|
                    0 <= j < k ==> #[trigger] framewise_edges@[j] == relative(edges@[j], lowest_uid),
            decreases edges@.len() - k,
        {
            let (from, to, kind) = edges[k];
            proof {
                let i = lemma_edge_origin(nodes@, k as int);
                self.lemma_edge_bounds(nodes@, lowest_uid, k as int);
            }
            framewise_edges.push(Edge { from: from - lowest_uid, to: to - lowest_uid, kind: kind });
            k += 1;
        }
        let mut framewise_nodes: Vec<(String, Node)> = Vec::new();
        let mut k: usize = 0;
        while k < nodes.len()
            invariant
                self.wf(),
                self.no_empty_sink(),
                self.collects(nodes@),
                nodes@.len() > 0 ==> is_lowest(nodes@, lowest_uid),
                k <= nodes@.len(),
                framewise_nodes@.len() == k,
                forall|j: int|
                    0 <= j < k ==> (#[trigger] framewise_nodes@[j]).0@ == decimal(
                        (nodes@[j].uid() - lowest_uid) as nat,
                    ) && nodes@[j].operation() == Some(&framewise_nodes@[j].1),
            decreases nodes@.len() - k,
        {
            let n = nodes[k];
            proof {
                assert(self.reachable(nodes@[k as int]));
                self.lemma_reachable_not_empty(n);
                assert(lowest_uid <= nodes@[k as int].uid());
            }
            let key = decimal_string(n.uid() - lowest_uid);
            let op = n.operation().unwrap().clone();
            framewise_nodes.push((key, op));
            k += 1;
        }
        let g = Graph { edges: framewise_edges, nodes: framewise_nodes };
        proof {
            self.lemma_lowest_of_walk(nodes@, lowest_uid);
            self.lemma_written(nodes@, lowest_uid, &g);
        }
        Framewise::Graph(g)
    }
}

} // verus!
