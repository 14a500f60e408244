//! Pipeline nodes and the source of their identifiers.
//!
//! A node is built once and never changed. It owns the nodes it depends on: at
//! most one that supplies its pixels (its input) and at most one that it draws
//! onto (its canvas). Every node carries an identifier from an [`IdSource`].
//! The source hands out each identifier once, in increasing order, and keeps
//! (in ghost state) the node that each identifier was given to. So two nodes
//! that the same source knows are the same node exactly if their identifiers
//! are the same, and a node's ancestors always have smaller identifiers than
//! the node itself.

use vstd::prelude::*;
use crate::builder::FluentGraphBuilder;
use crate::operations::{Color, EncoderPreset, Filter, Node, PixelFormat, ResampleHints};

verus! {

/// One operation of a pipeline, with the nodes it depends on.
///
/// A node without an operation is the empty node that a chain of builder
/// calls starts from. It is never attached as an ancestor.
#[derive(Debug)]
pub struct FluentNode {
    input: Option<Box<FluentNode>>,
    canvas: Option<Box<FluentNode>>,
    data: Option<Node>,
    uid: u64,
}

/// Hands out identifiers for nodes: 0, 1, 2 and so on, each exactly once.
///
/// Identifiers are never taken back. A source that has reached `u64::MAX` is
/// exhausted and can name no further node. Builder calls borrow the source
/// for themselves, so two of them never run at once on one source; a program
/// that builds on several threads keeps its source behind a lock.
pub struct IdSource {
    next: u64,
    issued: Ghost<Map<u64, FluentNode>>,
}

/// Starts a chain of builder calls: a new empty node.
pub fn fluently(ids: &mut IdSource) -> (r: FluentNode)
    requires
        old(ids).wf(),
        !old(ids).is_exhausted(),
    ensures
        old(ids).issues(final(ids), &r),
        r.is_empty(),
        r.input() is None,
        r.canvas() is None,
{
    FluentNode::empty(ids)
}

impl IdSource {
    /// The identifier that the next node will get.
    pub closed spec fn spec_next_value(&self) -> u64 {
        self.next
    }

    /// The node that each identifier handed out so far was given to.
    pub closed spec fn issued(&self) -> Map<u64, FluentNode> {
        self.issued@
    }

    /// No identifier is left.
    pub open spec fn spec_is_exhausted(&self) -> bool {
        self.next_value() == u64::MAX
    }

    /// `n` is a node that this source gave an identifier to.
    pub open spec fn knows(&self, n: &FluentNode) -> bool {
        self.issued().contains_key(n.uid()) && self.issued()[n.uid()] == *n
    }

    /// Each identifier handed out is below the next one and belongs to a node
    /// that carries it, whose ancestors the source knows as well.
    pub open spec fn wf(&self) -> bool {
        forall|id: u64| #[trigger]
            self.issued().contains_key(id) ==> {
                &&& id < self.next_value()
                &&& self.issued()[id].uid() == id
                &&& self.issued()[id].links_ok()
                &&& (self.issued()[id].input() matches Some(i) ==> self.knows(i))
                &&& (self.issued()[id].canvas() matches Some(c) ==> self.knows(c))
            }
    }

    /// `after` is this source once it has given its next identifier to `r`:
    /// nothing else has changed, and every node known before is still known.
    pub open spec fn issues(&self, after: &IdSource, r: &FluentNode) -> bool {
        &&& after.wf()
        &&& after.next_value() == self.next_value() + 1
        &&& after.issued() == self.issued().insert(self.next_value(), *r)
        &&& r.uid() == self.next_value()
        &&& r.wf()
        &&& after.knows(r)
        &&& forall|n: &FluentNode| #[trigger] self.knows(n) ==> after.knows(n)
    }

    /// A source that has handed out nothing yet. Its first identifier is 0.
    pub fn new() -> (r: IdSource)
        ensures
            r.wf(),
            r.next_value() == 0,
            r.issued() == Map::<u64, FluentNode>::empty(),
    {
        IdSource { next: 0, issued: Ghost(Map::empty()) }
    }

    /// A source whose first identifier is `first`, as if `first` nodes had
    /// been named before.
    pub fn starting_at(first: u64) -> (r: IdSource)
        ensures
            r.wf(),
            r.next_value() == first,
            r.issued() == Map::<u64, FluentNode>::empty(),
    {
        IdSource { next: first, issued: Ghost(Map::empty()) }
    }

    /// The identifier that the next node will get.
    #[verifier::when_used_as_spec(spec_next_value)]
    pub fn next_value(&self) -> (r: u64)
        ensures
            r == self.spec_next_value(),
    {
        self.next
    }

    /// Whether the source has run out of identifiers.
    #[verifier::when_used_as_spec(spec_is_exhausted)]
    pub fn is_exhausted(&self) -> (r: bool)
        ensures
            r == self.spec_is_exhausted(),
    {
        self.next == u64::MAX
    }

    /// A node that the source knows is well formed, and the source knows
    /// every node that it depends on, directly or not.
    pub proof fn lemma_known_closed(&self, n: &FluentNode)
        requires
            self.wf(),
            self.knows(n),
        ensures
            n.wf(),
            forall|m: &FluentNode| n.reaches(m) ==> self.knows(m),
        decreases n,
    {
        assert(self.issued().contains_key(n.uid()));
        if let Some(i) = n.input() {
            self.lemma_known_closed(i);
        }
        if let Some(c) = n.canvas() {
            self.lemma_known_closed(c);
        }
        assert forall|m: &FluentNode| n.reaches(m) implies self.knows(m) by {}
    }

    /// Two nodes that the source knows are the same node exactly if they
    /// carry the same identifier.
    pub proof fn lemma_known_identity(&self, a: &FluentNode, b: &FluentNode)
        requires
            self.knows(a),
            self.knows(b),
        ensures
            a.uid() == b.uid() <==> *a == *b,
    {
    }
}

impl FluentNode {
    /// The node's identifier.
    pub closed spec fn spec_uid(&self) -> u64 {
        self.uid
    }

    /// The node's operation; `None` for the empty node.
    pub closed spec fn spec_operation(&self) -> Option<&Node> {
        match &self.data {
            Some(d) => Some(d),
            None => None,
        }
    }

    /// The ancestor that supplies the node's pixels.
    pub closed spec fn spec_input(&self) -> Option<&FluentNode> {
        match &self.input {
            Some(b) => Some(&**b),
            None => None,
        }
    }

    /// The ancestor that the node draws onto.
    pub closed spec fn spec_canvas(&self) -> Option<&FluentNode> {
        match &self.canvas {
            Some(b) => Some(&**b),
            None => None,
        }
    }

    /// The node carries no operation.
    pub open spec fn spec_is_empty(&self) -> bool {
        self.operation() is None
    }

    /// What a new node gets as its ancestor when it is built onto this one:
    /// the node itself, or nothing if the node is empty.
    pub open spec fn as_ancestor(&self) -> Option<&FluentNode> {
        if self.is_empty() {
            None
        } else {
            Some(self)
        }
    }

    /// The node's own links are in order: an empty node has no ancestors, and
    /// an ancestor is not empty and has a smaller identifier.
    pub open spec fn links_ok(&self) -> bool {
        &&& self.is_empty() ==> self.input() is None && self.canvas() is None
        &&& self.input() matches Some(i) ==> !i.is_empty() && i.uid() < self.uid()
        &&& self.canvas() matches Some(c) ==> !c.is_empty() && c.uid() < self.uid()
    }

    /// The links of the node and of all its ancestors are in order.
    pub open spec fn wf(&self) -> bool
        decreases self,
    {
        &&& self.links_ok()
        &&& match self.input() {
            Some(i) => i.wf(),
            None => true,
        }
        &&& match self.canvas() {
            Some(c) => c.wf(),
            None => true,
        }
    }

    /// `m` is this node or one that it depends on, directly or not.
    pub open spec fn reaches(&self, m: &FluentNode) -> bool
        decreases self,
    {
        ||| *self == *m
        ||| match self.input() {
            Some(i) => i.reaches(m),
            None => false,
        }
        ||| match self.canvas() {
            Some(c) => c.reaches(m),
            None => false,
        }
    }

    /// `m` is a direct ancestor of this node.
    pub open spec fn depends_on(&self, m: &FluentNode) -> bool {
        self.input() == Some(m) || self.canvas() == Some(m)
    }

    /// The number of nodes in the tree that this node owns, itself included.
    pub open spec fn size(&self) -> nat
        decreases self,
    {
        1 + match self.input() {
            Some(i) => i.size(),
            None => 0,
        } + match self.canvas() {
            Some(c) => c.size(),
            None => 0,
        }
    }

    /// The node and its ancestors form a chain: none of them has a canvas.
    pub open spec fn is_chain(&self) -> bool
        decreases self,
    {
        &&& self.canvas() is None
        &&& match self.input() {
            Some(i) => i.is_chain(),
            None => true,
        }
    }

    /// The node, then its input, then the input of that, and so on.
    pub open spec fn chain(&self) -> Seq<&FluentNode>
        decreases self,
    {
        match self.input() {
            Some(i) => seq![self] + i.chain(),
            None => seq![self],
        }
    }

    /// Whatever a well-formed node reaches is well formed, and is the node
    /// itself or has a smaller identifier.
    pub proof fn lemma_reaches_smaller(&self, m: &FluentNode)
        requires
            self.wf(),
            self.reaches(m),
        ensures
            m.wf(),
            *m == *self || m.uid() < self.uid(),
            *m != *self ==> !m.is_empty(),
        decreases self,
    {
        if *m != *self {
            if self.input() is Some && self.input().unwrap().reaches(m) {
                self.input().unwrap().lemma_reaches_smaller(m);
            } else {
                self.canvas().unwrap().lemma_reaches_smaller(m);
            }
        }
    }

    /// A node reaches itself and its direct ancestors.
    pub proof fn lemma_reaches_near(&self)
        ensures
            self.reaches(self),
            self.input() matches Some(i) ==> self.reaches(i),
            self.canvas() matches Some(c) ==> self.reaches(c),
    {
        if let Some(i) = self.input() {
            assert(i.reaches(i));
        }
        if let Some(c) = self.canvas() {
            assert(c.reaches(c));
        }
    }

    /// Reaching is transitive.
    pub proof fn lemma_reaches_trans(&self, m: &FluentNode, k: &FluentNode)
        requires
            self.reaches(m),
            m.reaches(k),
        ensures
            self.reaches(k),
        decreases self,
    {
        if *m != *self {
            if self.input() is Some && self.input().unwrap().reaches(m) {
                self.input().unwrap().lemma_reaches_trans(m, k);
            } else {
                self.canvas().unwrap().lemma_reaches_trans(m, k);
            }
        }
    }

    fn next_uid(ids: &mut IdSource) -> (r: u64)
        requires
            old(ids).wf(),
            !old(ids).is_exhausted(),
        ensures
            r == old(ids).next_value(),
            final(ids).next_value() == r + 1,
            final(ids).issued() == old(ids).issued(),
            final(ids).wf(),
    {
        let r = ids.next;
        ids.next = r + 1;
        r
    }

    fn new(
        ids: &mut IdSource,
        node: Node,
        input_node: Option<FluentNode>,
        canvas_node: Option<FluentNode>,
    ) -> (r: FluentNode)
        requires
            old(ids).wf(),
            !old(ids).is_exhausted(),
            input_node matches Some(i) ==> old(ids).knows(&i),
            canvas_node matches Some(c) ==> old(ids).knows(&c),
        ensures
            old(ids).issues(final(ids), &r),
            r.operation() == Some(&node),
            r.input() == match input_node {
                Some(i) => i.as_ancestor(),
                None => None,
            },
            r.canvas() == match canvas_node {
                Some(c) => c.as_ancestor(),
                None => None,
            },
    {
        proof {
            if input_node is Some {
                ids.lemma_known_closed(&input_node.unwrap());
            }
            if canvas_node is Some {
                ids.lemma_known_closed(&canvas_node.unwrap());
            }
        }
        let input = match input_node {
            Some(v) => if v.is_empty() {
                None
            } else {
                Some(Box::new(v))
            },
            None => None,
        };
        let canvas = match canvas_node {
            Some(v) => if v.is_empty() {
                None
            } else {
                Some(Box::new(v))
            },
            None => None,
        };
        let uid = FluentNode::next_uid(ids);
        let r = FluentNode { input, canvas, data: Some(node), uid };
        ids.issued = Ghost(ids.issued@.insert(uid, r));
        proof {
            assert(!old(ids).issued().contains_key(uid));
            assert(r.links_ok());
            assert(r.wf());
            assert forall|n: &FluentNode| #[trigger] old(ids).knows(n) implies ids.knows(n) by {}
            assert(ids.issued()[uid] == r);
        }
        r
    }

    /// A new empty node: no operation, no ancestors, a fresh identifier.
    pub fn empty(ids: &mut IdSource) -> (r: FluentNode)
        requires
            old(ids).wf(),
            !old(ids).is_exhausted(),
        ensures
            old(ids).issues(final(ids), &r),
            r.is_empty(),
            r.input() is None,
            r.canvas() is None,
    {
        let uid = FluentNode::next_uid(ids);
        let r = FluentNode { input: None, canvas: None, data: None, uid };
        ids.issued = Ghost(ids.issued@.insert(uid, r));
        proof {
            assert(!old(ids).issued().contains_key(uid));
            assert forall|n: &FluentNode| #[trigger] old(ids).knows(n) implies ids.knows(n) by {}
            assert(ids.issued()[uid] == r);
        }
        r
    }

    /// The node's identifier.
    #[verifier::when_used_as_spec(spec_uid)]
    pub fn uid(&self) -> (r: u64)
        ensures
            r == self.spec_uid(),
    {
        self.uid
    }

    /// The node's operation; `None` for the empty node.
    #[verifier::when_used_as_spec(spec_operation)]
    pub fn operation(&self) -> (r: Option<&Node>)
        ensures
            r == self.spec_operation(),
    {
        match &self.data {
            Some(d) => Some(d),
            None => None,
        }
    }

    /// The ancestor that supplies the node's pixels.
    #[verifier::when_used_as_spec(spec_input)]
    pub fn input(&self) -> (r: Option<&FluentNode>)
        ensures
            r == self.spec_input(),
    {
        match &self.input {
            Some(b) => Some(&**b),
            None => None,
        }
    }

    /// The ancestor that the node draws onto.
    #[verifier::when_used_as_spec(spec_canvas)]
    pub fn canvas(&self) -> (r: Option<&FluentNode>)
        ensures
            r == self.spec_canvas(),
    {
        match &self.canvas {
            Some(b) => Some(&**b),
            None => None,
        }
    }

    /// Whether the node carries no operation.
    #[verifier::when_used_as_spec(spec_is_empty)]
    pub fn is_empty(&self) -> (r: bool)
        ensures
            r == self.spec_is_empty(),
    {
        self.data.is_none()
    }

    /// A new node for `v` that takes its pixels from this node. Built onto
    /// the empty node, the new node has no ancestor.
    pub fn to(self, ids: &mut IdSource, v: Node) -> (r: FluentNode)
        requires
            old(ids).wf(),
            !old(ids).is_exhausted(),
            old(ids).knows(&self),
        ensures
            old(ids).issues(final(ids), &r),
            r.operation() == Some(&v),
            r.input() == self.as_ancestor(),
            r.canvas() is None,
    {
        FluentNode::new(ids, v, Some(self), None)
    }

    /// A new node for `v` that takes its pixels from this node and draws
    /// onto `canvas`. An empty node on either side is left out.
    pub fn to_canvas(self, ids: &mut IdSource, canvas: FluentNode, v: Node) -> (r: FluentNode)
        requires
            old(ids).wf(),
            !old(ids).is_exhausted(),
            old(ids).knows(&self),
            old(ids).knows(&canvas),
        ensures
            old(ids).issues(final(ids), &r),
            r.operation() == Some(&v),
            r.input() == self.as_ancestor(),
            r.canvas() == canvas.as_ancestor(),
    {
        FluentNode::new(ids, v, Some(self), Some(canvas))
    }

    /// A second handle on the same node: the same identifier, and a copy of
    /// everything the node owns. Chains built onto the two handles share the
    /// node.
    pub fn branch(&self) -> (r: FluentNode)
        ensures
            r == *self,
    {
        self.clone()
    }

    /// An assembler whose only sink is this node.
    pub fn builder(self) -> (r: FluentGraphBuilder)
        ensures
            r.sinks() == seq![self],
    {
        FluentGraphBuilder::new_with(self)
    }

    /// A new canvas of `w` by `h` pixels in the BGRA layout, filled with
    /// `color`.
    pub fn canvas_bgra32(self, ids: &mut IdSource, w: usize, h: usize, color: Color) -> (r:
        FluentNode)
        requires
            old(ids).wf(),
            !old(ids).is_exhausted(),
            old(ids).knows(&self),
        ensures
            old(ids).issues(final(ids), &r),
            r.operation() == Some(
                &(Node::CreateCanvas { format: PixelFormat::Bgra32, w: w, h: h, color: color }),
            ),
            r.input() == self.as_ancestor(),
            r.canvas() is None,
    {
        self.to(ids, Node::CreateCanvas { w: w, h: h, format: PixelFormat::Bgra32, color: color })
    }

    /// A new canvas of `w` by `h` pixels in the layout `format`, filled with
    /// `color`.
    pub fn create_canvas(
        self,
        ids: &mut IdSource,
        w: usize,
        h: usize,
        format: PixelFormat,
        color: Color,
    ) -> (r: FluentNode)
        requires
            old(ids).wf(),
            !old(ids).is_exhausted(),
            old(ids).knows(&self),
        ensures
            old(ids).issues(final(ids), &r),
            r.operation() == Some(
                &(Node::CreateCanvas { format: format, w: w, h: h, color: color }),
            ),
            r.input() == self.as_ancestor(),
            r.canvas() is None,
    {
        self.to(ids, Node::CreateCanvas { w: w, h: h, format: format, color: color })
    }

    /// Decodes the image that is bound to `io_id`.
    pub fn decode(self, ids: &mut IdSource, io_id: i32) -> (r: FluentNode)
        requires
            old(ids).wf(),
            !old(ids).is_exhausted(),
            old(ids).knows(&self),
        ensures
            old(ids).issues(final(ids), &r),
            r.operation() == Some(&(Node::Decode { io_id: io_id })),
            r.input() == self.as_ancestor(),
            r.canvas() is None,
    {
        self.to(ids, Node::Decode { io_id: io_id })
    }

    /// Flips the image top to bottom.
    pub fn flip_vertical(self, ids: &mut IdSource) -> (r: FluentNode)
        requires
            old(ids).wf(),
            !old(ids).is_exhausted(),
            old(ids).knows(&self),
        ensures
            old(ids).issues(final(ids), &r),
            r.operation() == Some(&Node::FlipV),
            r.input() == self.as_ancestor(),
            r.canvas() is None,
    {
        self.to(ids, Node::FlipV)
    }

    /// Flips the image left to right.
    pub fn flip_horizontal(self, ids: &mut IdSource) -> (r: FluentNode)
        requires
            old(ids).wf(),
            !old(ids).is_exhausted(),
            old(ids).knows(&self),
        ensures
            old(ids).issues(final(ids), &r),
            r.operation() == Some(&Node::FlipH),
            r.input() == self.as_ancestor(),
            r.canvas() is None,
    {
        self.to(ids, Node::FlipH)
    }

    /// Turns the image by a quarter turn.
    pub fn rotate_90(self, ids: &mut IdSource) -> (r: FluentNode)
        requires
            old(ids).wf(),
            !old(ids).is_exhausted(),
            old(ids).knows(&self),
        ensures
            old(ids).issues(final(ids), &r),
            r.operation() == Some(&Node::Rotate90),
            r.input() == self.as_ancestor(),
            r.canvas() is None,
    {
        self.to(ids, Node::Rotate90)
    }

    /// Turns the image by a half turn.
    pub fn rotate_180(self, ids: &mut IdSource) -> (r: FluentNode)
        requires
            old(ids).wf(),
            !old(ids).is_exhausted(),
            old(ids).knows(&self),
        ensures
            old(ids).issues(final(ids), &r),
            r.operation() == Some(&Node::Rotate180),
            r.input() == self.as_ancestor(),
            r.canvas() is None,
    {
        self.to(ids, Node::Rotate180)
    }

    /// Turns the image by three quarter turns.
    pub fn rotate_270(self, ids: &mut IdSource) -> (r: FluentNode)
        requires
            old(ids).wf(),
            !old(ids).is_exhausted(),
            old(ids).knows(&self),
        ensures
            old(ids).issues(final(ids), &r),
            r.operation() == Some(&Node::Rotate270),
            r.input() == self.as_ancestor(),
            r.canvas() is None,
    {
        self.to(ids, Node::Rotate270)
    }

    /// Swaps the rows and columns of the image.
    pub fn transpose(self, ids: &mut IdSource) -> (r: FluentNode)
        requires
            old(ids).wf(),
            !old(ids).is_exhausted(),
            old(ids).knows(&self),
        ensures
            old(ids).issues(final(ids), &r),
            r.operation() == Some(&Node::Transpose),
            r.input() == self.as_ancestor(),
            r.canvas() is None,
    {
        self.to(ids, Node::Transpose)
    }

    /// Scales the image to `w` by `h` pixels.
    pub fn resample_2d(
        self,
        ids: &mut IdSource,
        w: usize,
        h: usize,
        down_filter: Option<Filter>,
        up_filter: Option<Filter>,
        hints: Option<ResampleHints>,
    ) -> (r: FluentNode)
        requires
            old(ids).wf(),
            !old(ids).is_exhausted(),
            old(ids).knows(&self),
        ensures
            old(ids).issues(final(ids), &r),
            r.operation() == Some(
                &(Node::Resample2D {
                    w: w,
                    h: h,
                    down_filter: down_filter,
                    up_filter: up_filter,
                    hints: hints,
                }),
            ),
            r.input() == self.as_ancestor(),
            r.canvas() is None,
    {
        self.to(
            ids,
            Node::Resample2D {
                w: w,
                h: h,
                down_filter: down_filter,
                up_filter: up_filter,
                hints: hints,
            },
        )
    }

    /// Copies a rectangle of `from` onto this node: `width` by `height`
    /// pixels at (`from_x`, `from_y`) go to (`x`, `y`). This node is the
    /// canvas of the new node, and `from` is its input.
    pub fn copy_rect_from(
        self,
        ids: &mut IdSource,
        from: FluentNode,
        from_x: u32,
        from_y: u32,
        width: u32,
        height: u32,
        x: u32,
        y: u32,
    ) -> (r: FluentNode)
        requires
            old(ids).wf(),
            !old(ids).is_exhausted(),
            old(ids).knows(&self),
            old(ids).knows(&from),
        ensures
            old(ids).issues(final(ids), &r),
            r.operation() == Some(
                &(Node::CopyRectToCanvas {
                    from_x: from_x,
                    from_y: from_y,
                    width: width,
                    height: height,
                    x: x,
                    y: y,
                }),
            ),
            r.input() == from.as_ancestor(),
            r.canvas() == self.as_ancestor(),
    {
        from.to_canvas(
            ids,
            self,
            Node::CopyRectToCanvas {
                from_x: from_x,
                from_y: from_y,
                width: width,
                height: height,
                x: x,
                y: y,
            },
        )
    }

    /// Encodes the image with `preset` and writes it to what is bound to
    /// `io_id`.
    pub fn encode(self, ids: &mut IdSource, io_id: i32, preset: EncoderPreset) -> (r: FluentNode)
        requires
            old(ids).wf(),
            !old(ids).is_exhausted(),
            old(ids).knows(&self),
        ensures
            old(ids).issues(final(ids), &r),
            r.operation() == Some(&(Node::Encode { preset: preset, io_id: io_id })),
            r.input() == self.as_ancestor(),
            r.canvas() is None,
    {
        self.to(ids, Node::Encode { preset: preset, io_id: io_id })
    }
}

impl Clone for FluentNode {
    fn clone(&self) -> (r: Self)
        ensures
            r == *self,
        decreases self,
    {
        FluentNode {
            input: match &self.input {
                Some(b) => Some(Box::new((&**b).clone())),
                None => None,
            },
            canvas: match &self.canvas {
                Some(b) => Some(Box::new((&**b).clone())),
                None => None,
            },
            data: match &self.data {
                Some(d) => Some(d.clone()),
                None => None,
            },
            uid: self.uid,
        }
    }
}

/// Two handles are equal if they carry the same identifier, whatever they own.
impl PartialEq for FluentNode {
    fn eq(&self, other: &FluentNode) -> (r: bool) {
        self.uid == other.uid
    }
}

impl vstd::std_specs::cmp::PartialEqSpecImpl for FluentNode {
    open spec fn obeys_eq_spec() -> bool {
        true
    }

    open spec fn eq_spec(&self, other: &FluentNode) -> bool {
        self.uid() == other.uid()
    }
}

} // verus!
