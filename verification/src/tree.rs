//! The binary prefix tree.
//!
//! Every node is either internal (exactly two children, no payload) or a
//! leaf (no children, one byte value).  The encoder builds the tree by
//! inserting one code/byte pair at a time; the tree serializes level-order
//! into a bit buffer and is rebuilt from one on the decoder side.

use vstd::prelude::*;
use crate::DecodeError;
use crate::bits::{BitVector, byte_bits, byte_of_bits, lemma_byte_bits_injective};
use crate::codes::{spec_codes, split_of, lemma_codes_shape, is_prefix_of};

verus! {

/// A prefix-tree node: an internal node has two children and no payload; a
/// leaf holds exactly one byte value and no children.
pub struct Node {
    pub byte: Option<u8>,
    pub left_child: Option<Box<Node>>,
    pub right_child: Option<Box<Node>>,
}

/// Number of nodes in the subtree rooted here.
pub open spec fn node_size(n: Node) -> nat
    decreases n,
{
    1 + opt_size(n.left_child) + opt_size(n.right_child)
}

/// Number of nodes below an optional child.
pub open spec fn opt_size(c: Option<Box<Node>>) -> nat
    decreases c,
{
    match c {
        None => 0,
        Some(b) => node_size(*b),
    }
}

/// A full binary tree: every internal node has exactly two children and no
/// byte; every leaf has no children and exactly one byte.
pub open spec fn is_full(n: Node) -> bool
    decreases n,
{
    match (n.left_child, n.right_child) {
        (Option::None, Option::None) => n.byte is Some,
        (Option::Some(l), Option::Some(r)) => n.byte is None && is_full(*l) && is_full(*r),
        _ => false,
    }
}

/// The node an optional child stands for: a fresh empty node when absent.
pub open spec fn child_of(c: Option<Box<Node>>) -> Node {
    match c {
        None => Node { byte: None, left_child: None, right_child: None },
        Some(b) => *b,
    }
}

/// The tree after inserting `value` at the end of the path `code`,
/// creating empty nodes along the way on demand.
pub open spec fn spec_insert(n: Node, code: Seq<bool>, value: u8) -> Node
    decreases code.len(),
{
    if code.len() == 0 {
        Node { byte: Some(value), ..n }
    } else if code[0] {
        Node {
            right_child: Some(
                Box::new(spec_insert(child_of(n.right_child), code.drop_first(), value)),
            ),
            ..n
        }
    } else {
        Node {
            left_child: Some(
                Box::new(spec_insert(child_of(n.left_child), code.drop_first(), value)),
            ),
            ..n
        }
    }
}

impl Node {
    /// A fresh node with no payload and no children.
    pub fn new() -> (r: Node)
        ensures
            r == (Node { byte: None, left_child: None, right_child: None }),
    {
        Node { byte: None, left_child: None, right_child: None }
    }

    /// A fresh childless node holding the given payload.
    pub fn with_value(value: Option<u8>) -> (r: Node)
        ensures
            r == (Node { byte: value, left_child: None, right_child: None }),
    {
        Node { byte: value, left_child: None, right_child: None }
    }

    /// Whether the node has at least one child.
    pub fn has_children(&self) -> (r: bool)
        ensures
            r == (self.left_child is Some || self.right_child is Some),
    {
        self.left_child.is_some() || self.right_child.is_some()
    }

    /// Creates a fresh empty right child.
    pub fn create_right(&mut self)
        ensures
            final(self).byte == old(self).byte,
            final(self).left_child == old(self).left_child,
            final(self).right_child == Some(
                Box::new(Node { byte: None, left_child: None, right_child: None }),
            ),
    {
        self.right_child = Some(Box::new(Node::new()))
    }

    /// Creates a fresh empty left child.
    pub fn create_left(&mut self)
        ensures
            final(self).byte == old(self).byte,
            final(self).right_child == old(self).right_child,
            final(self).left_child == Some(
                Box::new(Node { byte: None, left_child: None, right_child: None }),
            ),
    {
        self.left_child = Some(Box::new(Node::new()))
    }

    /// Stores a byte value at this node.
    pub fn insert_byte(&mut self, value: u8)
        ensures
            final(self).byte == Some(value),
            final(self).left_child == old(self).left_child,
            final(self).right_child == old(self).right_child,
    {
        self.byte = Some(value);
    }

    /// Whether the subtree rooted here is a full binary tree: every
    /// internal node has exactly two children, every leaf a byte value.
    pub fn is_full_binary(&self) -> (r: bool)
        ensures
            r == is_full(*self),
        decreases *self,
    {
        match (&self.left_child, &self.right_child) {
            (None, None) => self.byte.is_some(),
            (Some(l), Some(r)) => self.byte.is_none() && l.is_full_binary()
                && r.is_full_binary(),
            _ => false,
        }
    }
}

/// The binary prefix tree; the root is absent only in a tree still being
/// rebuilt or for an empty input.
pub struct CodeTree {
    pub root: Option<Box<Node>>,
}

/// The root node a tree holds, unboxed.
pub open spec fn root_view(t: CodeTree) -> Option<Node> {
    match t.root {
        None => None,
        Some(b) => Some(*b),
    }
}

/// Walks `bit_vec` from `node`, creating nodes on demand, and stores
/// `value` at the node the path ends on.
fn insert_node(node: &mut Node, bit_vec: &BitVector, i: usize, value: u8)
    requires
        bit_vec.wf(),
        i <= bit_vec@.len(),
    ensures
        *final(node) == spec_insert(*old(node), bit_vec@.skip(i as int), value),
    decreases bit_vec@.len() - i,
{
    let ghost code = bit_vec@.skip(i as int);
    if i == bit_vec.bit_size() {
        node.insert_byte(value);
        proof {
            assert(code.len() == 0);
        }
    } else {
        let bit = match bit_vec.get_bit(i) {
            Some(b) => b,
            None => false,
        };
        proof {
            assert(code[0] == bit_vec@[i as int]);
            assert(code.drop_first() =~= bit_vec@.skip(i + 1));
        }
        if bit {
            let mut child = match take_child(&mut node.right_child) {
                Some(c) => c,
                None => Box::new(Node::new()),
            };
            insert_node(&mut *child, bit_vec, i + 1, value);
            node.right_child = Some(child);
        } else {
            let mut child = match take_child(&mut node.left_child) {
                Some(c) => c,
                None => Box::new(Node::new()),
            };
            insert_node(&mut *child, bit_vec, i + 1, value);
            node.left_child = Some(child);
        }
    }
}

/// The byte a leaf holds, or zero for a node without one.
pub open spec fn byte_or_zero(b: Option<u8>) -> u8 {
    match b {
        Some(x) => x,
        None => 0,
    }
}

/// Total node count across a queue of subtrees.
pub open spec fn queue_size(q: Seq<Node>) -> nat
    decreases q.len(),
{
    if q.len() == 0 {
        0
    } else {
        node_size(q[0]) + queue_size(q.drop_first())
    }
}

proof fn lemma_queue_size_push(q: Seq<Node>, x: Node)
    ensures
        queue_size(q.push(x)) == queue_size(q) + node_size(x),
    decreases q.len(),
{
    assert(queue_size(Seq::<Node>::empty()) == 0);
    if q.len() == 0 {
        assert(q.push(x).drop_first() =~= Seq::<Node>::empty());
        assert(q.push(x)[0] == x);
    } else {
        assert(q.push(x).drop_first() =~= q.drop_first().push(x));
        assert(q.push(x)[0] == q[0]);
        lemma_queue_size_push(q.drop_first(), x);
    }
}

/// Level-order serialization of a queue of subtrees, front first: an
/// internal node emits bit 0 and queues its two children; a leaf emits
/// bit 1 followed by its byte value.
pub open spec fn ser(q: Seq<Node>) -> Seq<bool>
    decreases queue_size(q), q.len(),
    via ser_decreases
{
    if q.len() == 0 {
        Seq::empty()
    } else {
        let n = q[0];
        match (n.left_child, n.right_child) {
            (Option::Some(l), Option::Some(r)) => seq![false] + ser(
                q.drop_first().push(*l).push(*r),
            ),
            _ => seq![true] + byte_bits(byte_or_zero(n.byte)) + ser(q.drop_first()),
        }
    }
}

#[via_fn]
proof fn ser_decreases(q: Seq<Node>) {
    if q.len() > 0 {
        let n = q[0];
        match (n.left_child, n.right_child) {
            (Option::Some(l), Option::Some(r)) => {
                lemma_queue_size_push(q.drop_first(), *l);
                lemma_queue_size_push(q.drop_first().push(*l), *r);
            },
            _ => {},
        }
    }
}

/// Each node contributes at most 9 bits to the serialization.
pub proof fn lemma_ser_len(q: Seq<Node>)
    ensures
        ser(q).len() <= 9 * queue_size(q),
    decreases queue_size(q), q.len(),
{
    if q.len() > 0 {
        let n = q[0];
        match (n.left_child, n.right_child) {
            (Option::Some(l), Option::Some(r)) => {
                lemma_queue_size_push(q.drop_first(), *l);
                lemma_queue_size_push(q.drop_first().push(*l), *r);
                lemma_ser_len(q.drop_first().push(*l).push(*r));
            },
            _ => {
                lemma_ser_len(q.drop_first());
            },
        }
    }
}

/// The nodes a queue of references stands for.
pub open spec fn views_of(q: Seq<&Node>) -> Seq<Node> {
    Seq::new(q.len(), |i: int| *q[i])
}

/// Total node count across a queue of path/subtree pairs.
pub open spec fn pqueue_size(q: Seq<(Seq<bool>, Node)>) -> nat
    decreases q.len(),
{
    if q.len() == 0 {
        0
    } else {
        node_size(q[0].1) + pqueue_size(q.drop_first())
    }
}

proof fn lemma_pqueue_size_push(q: Seq<(Seq<bool>, Node)>, x: (Seq<bool>, Node))
    ensures
        pqueue_size(q.push(x)) == pqueue_size(q) + node_size(x.1),
    decreases q.len(),
{
    assert(pqueue_size(Seq::<(Seq<bool>, Node)>::empty()) == 0);
    if q.len() == 0 {
        assert(q.push(x).drop_first() =~= Seq::<(Seq<bool>, Node)>::empty());
        assert(q.push(x)[0] == x);
    } else {
        assert(q.push(x).drop_first() =~= q.drop_first().push(x));
        assert(q.push(x)[0] == q[0]);
        lemma_pqueue_size_push(q.drop_first(), x);
    }
}

/// The path to the first open child slot in breadth-first order over the
/// queued subtrees.  A node holding a byte is skipped outright; an open
/// slot is a missing child of a node without a byte.
pub open spec fn find_slot(q: Seq<(Seq<bool>, Node)>) -> Option<Seq<bool>>
    decreases pqueue_size(q), q.len(),
    via find_slot_decreases
{
    if q.len() == 0 {
        None
    } else {
        let p = q[0].0;
        let n = q[0].1;
        if n.byte is Some {
            find_slot(q.drop_first())
        } else if n.left_child is None {
            Some(p.push(false))
        } else if n.right_child is None {
            Some(p.push(true))
        } else {
            find_slot(
                q.drop_first().push((p.push(false), *n.left_child->0)).push(
                    (p.push(true), *n.right_child->0),
                ),
            )
        }
    }
}

#[via_fn]
proof fn find_slot_decreases(q: Seq<(Seq<bool>, Node)>) {
    if q.len() > 0 {
        let p = q[0].0;
        let n = q[0].1;
        if n.byte is None && n.left_child is Some && n.right_child is Some {
            lemma_pqueue_size_push(q.drop_first(), (p.push(false), *n.left_child->0));
            lemma_pqueue_size_push(
                q.drop_first().push((p.push(false), *n.left_child->0)),
                (p.push(true), *n.right_child->0),
            );
        }
    }
}

/// A found slot path always holds at least the bit that selects the slot.
proof fn lemma_find_slot_some_len(q: Seq<(Seq<bool>, Node)>)
    ensures
        find_slot(q) is Some ==> find_slot(q)->0.len() >= 1,
    decreases pqueue_size(q), q.len(),
{
    if q.len() > 0 {
        let p = q[0].0;
        let n = q[0].1;
        if n.byte is Some {
            lemma_find_slot_some_len(q.drop_first());
        } else if n.left_child is Some && n.right_child is Some {
            lemma_pqueue_size_push(q.drop_first(), (p.push(false), *n.left_child->0));
            lemma_pqueue_size_push(
                q.drop_first().push((p.push(false), *n.left_child->0)),
                (p.push(true), *n.right_child->0),
            );
            lemma_find_slot_some_len(
                q.drop_first().push((p.push(false), *n.left_child->0)).push(
                    (p.push(true), *n.right_child->0),
                ),
            );
        }
    }
}

/// The tree after placing a fresh node holding `value` at the end of
/// `path`; the last bit of the path selects the child slot filled.
pub open spec fn spec_place(n: Node, path: Seq<bool>, value: Option<u8>) -> Node
    decreases path.len(),
{
    if path.len() == 0 {
        n
    } else if path.len() == 1 {
        if path[0] {
            Node {
                right_child: Some(
                    Box::new(Node { byte: value, left_child: None, right_child: None }),
                ),
                ..n
            }
        } else {
            Node {
                left_child: Some(
                    Box::new(Node { byte: value, left_child: None, right_child: None }),
                ),
                ..n
            }
        }
    } else if path[0] {
        Node {
            right_child: Some(
                Box::new(spec_place(child_of(n.right_child), path.drop_first(), value)),
            ),
            ..n
        }
    } else {
        Node {
            left_child: Some(
                Box::new(spec_place(child_of(n.left_child), path.drop_first(), value)),
            ),
            ..n
        }
    }
}

/// One level-order insertion step of the decoder: an absent root becomes a
/// fresh node; otherwise the value fills the first open slot in
/// breadth-first order, or is dropped when the tree has no open slot.
pub open spec fn push_tree(root: Option<Node>, value: Option<u8>) -> Option<Node> {
    match root {
        None => Some(Node { byte: value, left_child: None, right_child: None }),
        Some(n) => match find_slot(seq![(Seq::<bool>::empty(), n)]) {
            Some(p) => Some(spec_place(n, p, value)),
            None => Some(n),
        },
    }
}

/// The level-order token stream a tree bitstream parses to: `None` for an
/// internal node, `Some(byte)` for a leaf; no stream when a leaf's byte
/// value is cut short.
pub open spec fn spec_tokens(bits: Seq<bool>) -> Option<Seq<Option<u8>>>
    decreases bits.len(),
{
    if bits.len() == 0 {
        Some(Seq::empty())
    } else if !bits[0] {
        match spec_tokens(bits.drop_first()) {
            Some(t) => Some(seq![None::<u8>] + t),
            None => None,
        }
    } else if bits.len() >= 9 {
        match spec_tokens(bits.skip(9)) {
            Some(t) => Some(seq![Some(byte_of_bits(bits.subrange(1, 9)))] + t),
            None => None,
        }
    } else {
        None
    }
}

/// The tree the decoder holds after pushing a token stream in order.
pub open spec fn tree_of_tokens(tokens: Seq<Option<u8>>) -> Option<Node>
    decreases tokens.len(),
{
    if tokens.len() == 0 {
        None
    } else {
        push_tree(tree_of_tokens(tokens.drop_last()), tokens.last())
    }
}

/// The path/node pairs two parallel queues stand for, from `head` on.
pub open spec fn pviews(paths: Seq<Vec<bool>>, nodes: Seq<&Node>, head: int) -> Seq<
    (Seq<bool>, Node),
> {
    Seq::new((nodes.len() - head) as nat, |i: int| (paths[head + i]@, *nodes[head + i]))
}

/// A copy of `path` with one more bit.
fn extend_path(path: &Vec<bool>, bit: bool) -> (r: Vec<bool>)
    ensures
        r@ == path@.push(bit),
{
    let mut out: Vec<bool> = Vec::new();
    let mut k: usize = 0;
    while k < path.len()
        invariant
            k <= path@.len(),
            out@ == path@.take(k as int),
        decreases path@.len() - k,
    {
        let b = path[k];
        out.push(b);
        proof {
            assert(out@ =~= path@.take(k + 1));
        }
        k = k + 1;
    }
    proof {
        assert(path@.take(path@.len() as int) =~= path@);
    }
    out.push(bit);
    out
}

/// Finds the first open child slot in breadth-first order, as the path
/// that reaches it from the given root.
fn find_open_slot(root: &Node) -> (r: Option<Vec<bool>>)
    ensures
        match r {
            Some(path) => find_slot(seq![(Seq::<bool>::empty(), *root)]) == Some(path@),
            None => find_slot(seq![(Seq::<bool>::empty(), *root)]) is None,
        },
{
    let ghost target = find_slot(seq![(Seq::<bool>::empty(), *root)]);
    let mut paths: Vec<Vec<bool>> = Vec::new();
    let mut nodes: Vec<&Node> = Vec::new();
    let empty_path: Vec<bool> = Vec::new();
    paths.push(empty_path);
    nodes.push(root);
    proof {
        assert(pviews(paths@, nodes@, 0) =~= seq![(Seq::<bool>::empty(), *root)]);
    }
    let mut head: usize = 0;
    while head < nodes.len()
        invariant
            head <= nodes@.len(),
            paths@.len() == nodes@.len(),
            find_slot(pviews(paths@, nodes@, head as int)) == target,
            target == find_slot(seq![(Seq::<bool>::empty(), *root)]),
        decreases pqueue_size(pviews(paths@, nodes@, head as int)),
    {
        let ghost pending = pviews(paths@, nodes@, head as int);
        proof {
            assert(pending[0] == (paths@[head as int]@, *nodes@[head as int]));
        }
        let node = nodes[head];
        if node.byte.is_some() {
            proof {
                assert(pviews(paths@, nodes@, head + 1) =~= pending.drop_first());
            }
            head = head + 1;
        } else if node.left_child.is_none() {
            let r = extend_path(&paths[head], false);
            proof {
                assert(find_slot(pending) == Some(pending[0].0.push(false)));
            }
            return Some(r);
        } else if node.right_child.is_none() {
            let r = extend_path(&paths[head], true);
            proof {
                assert(find_slot(pending) == Some(pending[0].0.push(true)));
            }
            return Some(r);
        } else {
            let lp = extend_path(&paths[head], false);
            let rp = extend_path(&paths[head], true);
            paths.push(lp);
            paths.push(rp);
            match (&node.left_child, &node.right_child) {
                (Some(l), Some(r)) => {
                    nodes.push(&**l);
                    nodes.push(&**r);
                },
                _ => {
                    proof {
                        assert(false);
                    }
                },
            }
            proof {
                let p = pending[0].0;
                let n = pending[0].1;
                assert(pviews(paths@, nodes@, head + 1) =~= pending.drop_first().push(
                    (p.push(false), *n.left_child->0),
                ).push((p.push(true), *n.right_child->0)));
                lemma_pqueue_size_push(pending.drop_first(), (p.push(false), *n.left_child->0));
                lemma_pqueue_size_push(
                    pending.drop_first().push((p.push(false), *n.left_child->0)),
                    (p.push(true), *n.right_child->0),
                );
            }
            head = head + 1;
        }
    }
    proof {
        assert(pviews(paths@, nodes@, head as int).len() == 0);
    }
    None
}

/// Places a fresh node holding `value` at the end of `path[i..]`.
fn place_at(node: &mut Node, path: &Vec<bool>, i: usize, value: Option<u8>)
    requires
        i < path@.len(),
    ensures
        *final(node) == spec_place(*old(node), path@.skip(i as int), value),
    decreases path@.len() - i,
{
    let ghost tail = path@.skip(i as int);
    let bit = path[i];
    proof {
        assert(tail[0] == path@[i as int]);
        assert(tail.drop_first() =~= path@.skip(i + 1));
    }
    let last = path.len() - 1;
    if i == last {
        if bit {
            node.right_child = Some(Box::new(Node::with_value(value)));
        } else {
            node.left_child = Some(Box::new(Node::with_value(value)));
        }
    } else {
        if bit {
            let mut child = match take_child(&mut node.right_child) {
                Some(c) => c,
                None => Box::new(Node::new()),
            };
            place_at(&mut *child, path, i + 1, value);
            node.right_child = Some(child);
        } else {
            let mut child = match take_child(&mut node.left_child) {
                Some(c) => c,
                None => Box::new(Node::new()),
            };
            place_at(&mut *child, path, i + 1, value);
            node.left_child = Some(child);
        }
    }
}

/// Takes the value out of an optional child, leaving `None` behind.
fn take_child(c: &mut Option<Box<Node>>) -> (r: Option<Box<Node>>)
    ensures
        r == *old(c),
        *final(c) is None,
{
    c.take()
}

impl CodeTree {
    /// A tree holding a single fresh empty root.
    pub fn new() -> (r: CodeTree)
        ensures
            root_view(r) == Some(Node { byte: None, left_child: None, right_child: None }),
    {
        CodeTree { root: Some(Box::new(Node::new())) }
    }

    /// Inserts one code/byte pair: walks the code's bits from the root
    /// (0 left, 1 right), creating nodes on demand, and stores `value` at
    /// the node the code ends on.
    pub fn insert(&mut self, bit_vec: &BitVector, value: u8)
        requires
            old(self).root is Some,
            bit_vec.wf(),
        ensures
            root_view(*final(self)) == Some(
                spec_insert(root_view(*old(self))->0, bit_vec@, value),
            ),
    {
        match take_child(&mut self.root) {
            Some(mut r) => {
                insert_node(&mut *r, bit_vec, 0, value);
                self.root = Some(r);
                proof {
                    assert(bit_vec@.skip(0) =~= bit_vec@);
                }
            },
            None => {
                proof {
                    assert(false);
                }
            },
        }
    }

    /// The root node.
    pub fn get_root(&self) -> (r: &Node)
        requires
            self.root is Some,
        ensures
            *r == root_view(*self)->0,
    {
        match &self.root {
            Some(b) => &**b,
            None => vstd::pervasive::unreached(),
        }
    }

    /// The child of `node` reached by one bit: 1 selects the right child,
    /// 0 the left; `None` when that child does not exist.
    pub fn move_node(node: &Node, bit: bool) -> (r: Option<&Node>)
        ensures
            bit ==> (match node.right_child {
                Some(c) => r == Some(&*c),
                None => r is None,
            }),
            !bit ==> (match node.left_child {
                Some(c) => r == Some(&*c),
                None => r is None,
            }),
    {
        if bit {
            match &node.right_child {
                Some(c) => Some(&**c),
                None => None,
            }
        } else {
            match &node.left_child {
                Some(c) => Some(&**c),
                None => None,
            }
        }
    }

    /// Serializes the tree level-order into a bit buffer: bit 0 for an
    /// internal node (its children follow later in the stream), bit 1 and
    /// the byte value for a leaf.
    pub fn to_bitvector(&self) -> (r: BitVector)
        requires
            self.root is Some,
            is_full(root_view(*self)->0),
            18 * node_size(root_view(*self)->0) + 64 <= usize::MAX,
        ensures
            r.wf(),
            r@ == ser(seq![root_view(*self)->0]),
    {
        let ghost root_node = root_view(*self)->0;
        let ghost total = ser(seq![root_node]);
        proof {
            assert(seq![root_node].drop_first() =~= Seq::<Node>::empty());
            assert(queue_size(Seq::<Node>::empty()) == 0);
            assert(queue_size(seq![root_node]) == node_size(root_node));
            lemma_ser_len(seq![root_node]);
        }
        let mut bit_vector = BitVector::with_capacity(10);
        let mut queue: Vec<&Node> = Vec::new();
        queue.push(self.get_root());
        proof {
            assert(views_of(queue@.skip(0)) =~= seq![root_node]);
        }
        let mut head: usize = 0;
        while head < queue.len()
            invariant
                head <= queue@.len(),
                forall|k: int| head <= k < queue@.len() ==> is_full(*(#[trigger] queue@[k])),
                bit_vector.wf(),
                bit_vector@ + ser(views_of(queue@.skip(head as int))) == total,
                total == ser(seq![root_node]),
                total.len() <= 9 * node_size(root_node),
                18 * node_size(root_node) + 64 <= usize::MAX,
            decreases queue_size(views_of(queue@.skip(head as int))),
        {
            let node = queue[head];
            let ghost pending = views_of(queue@.skip(head as int));
            proof {
                assert(pending[0] == *node);
                assert(bit_vector@.len() + ser(pending).len() == total.len());
            }
            match (&node.left_child, &node.right_child) {
                (Some(l), Some(r)) => {
                    queue.push(&**l);
                    queue.push(&**r);
                    bit_vector.add_zero();
                    proof {
                        let pending2 = views_of(queue@.skip(head + 1));
                        assert(pending2 =~= pending.drop_first().push(**l).push(**r));
                        assert(ser(pending) =~= seq![false] + ser(pending2));
                        assert(bit_vector@ + ser(pending2) =~= total);
                        lemma_queue_size_push(pending.drop_first(), **l);
                        lemma_queue_size_push(pending.drop_first().push(**l), **r);
                    }
                },
                _ => {
                    bit_vector.add_one();
                    let b = match node.byte {
                        Some(x) => x,
                        None => 0,
                    };
                    bit_vector.append_byte(b);
                    proof {
                        let pending2 = views_of(queue@.skip(head + 1));
                        assert(pending2 =~= pending.drop_first());
                        assert(ser(pending) =~= seq![true] + byte_bits(b) + ser(pending2));
                        assert(bit_vector@ + ser(pending2) =~= total);
                    }
                },
            }
            head = head + 1;
        }
        proof {
            assert(views_of(queue@.skip(head as int)).len() == 0);
            assert(ser(views_of(queue@.skip(head as int))) =~= Seq::<bool>::empty());
            assert(bit_vector@ =~= total);
        }
        bit_vector
    }

    /// Places `value` as a fresh node in the first open child slot found in
    /// breadth-first order; with no root yet the value becomes the root, and
    /// with no open slot the tree is left unchanged.
    pub fn push_value(&mut self, value: Option<u8>)
        ensures
            root_view(*final(self)) == push_tree(root_view(*old(self)), value),
    {
        if self.root.is_none() {
            self.root = Some(Box::new(Node::with_value(value)));
            return ;
        }
        let path_found = match &self.root {
            Some(b) => find_open_slot(&**b),
            None => vstd::pervasive::unreached(),
        };
        match path_found {
            Some(path) => {
                proof {
                    lemma_find_slot_some_len(
                        seq![(Seq::<bool>::empty(), root_view(*old(self))->0)],
                    );
                }
                let mut r = match take_child(&mut self.root) {
                    Some(c) => c,
                    None => vstd::pervasive::unreached(),
                };
                place_at(&mut *r, &path, 0, value);
                self.root = Some(r);
                proof {
                    assert(path@.skip(0) =~= path@);
                }
            },
            None => {},
        }
    }

    /// Rebuilds a tree from its level-order serialization: bit 0 appends an
    /// internal placeholder into the first open slot in breadth-first order,
    /// bit 1 and the 8 bits after it append a leaf.  Fails when a leaf's
    /// byte value is cut short by the end of the bitstream.
    pub fn from_bit_vector(bit_vector: &BitVector) -> (r: Result<CodeTree, DecodeError>)
        requires
            bit_vector.wf(),
        ensures
            match spec_tokens(bit_vector@) {
                Some(tokens) => r is Ok && root_view(r->Ok_0) == tree_of_tokens(tokens),
                None => r == Err::<CodeTree, DecodeError>(DecodeError::MalformedHeader),
            },
    {
        let ghost bits = bit_vector@;
        let mut tree = CodeTree { root: None };
        let ghost mut done: Seq<Option<u8>> = Seq::empty();
        proof {
            assert(bits.skip(0) =~= bits);
            if spec_tokens(bits) is Some {
                let t = spec_tokens(bits)->0;
                assert(Seq::<Option<u8>>::empty() + t =~= t);
            }
        }
        let mut i: usize = 0;
        while i < bit_vector.bit_size()
            invariant
                bit_vector.wf(),
                bits == bit_vector@,
                i <= bits.len(),
                root_view(tree) == tree_of_tokens(done),
                spec_tokens(bits) == (match spec_tokens(bits.skip(i as int)) {
                    Some(t) => Some(done + t),
                    None => None::<Seq<Option<u8>>>,
                }),
            decreases bits.len() - i,
        {
            let ghost rest = bits.skip(i as int);
            let bit = match bit_vector.get_bit(i) {
                Some(b) => b,
                None => false,
            };
            proof {
                assert(rest[0] == bits[i as int]);
            }
            if bit {
                if bit_vector.bit_size() - i <= 8 {
                    proof {
                        assert(rest.len() < 9);
                    }
                    return Err(DecodeError::MalformedHeader);
                }
                let b = bit_vector.get_byte(i + 1);
                tree.push_value(Some(b));
                proof {
                    assert(rest.subrange(1, 9) =~= bits.subrange(i + 1, i + 9));
                    assert(rest.skip(9) =~= bits.skip(i + 9));
                    let tok = Some(byte_of_bits(bits.subrange(i + 1, i + 9)));
                    assert((done + seq![tok]).drop_last() =~= done);
                    if spec_tokens(bits.skip(i + 9)) is Some {
                        let t = spec_tokens(bits.skip(i + 9))->0;
                        assert(done + (seq![tok] + t) =~= (done + seq![tok]) + t);
                    }
                    done = done + seq![tok];
                }
                i = i + 9;
            } else {
                tree.push_value(None);
                proof {
                    assert(rest.drop_first() =~= bits.skip(i + 1));
                    let tok = None::<u8>;
                    assert((done + seq![tok]).drop_last() =~= done);
                    if spec_tokens(bits.skip(i + 1)) is Some {
                        let t = spec_tokens(bits.skip(i + 1))->0;
                        assert(done + (seq![tok] + t) =~= (done + seq![tok]) + t);
                    }
                    done = done + seq![tok];
                }
                i = i + 1;
            }
        }
        proof {
            assert(bits.skip(i as int).len() == 0);
            assert(spec_tokens(bits.skip(i as int)) == Some(Seq::<Option<u8>>::empty()));
            assert(done + Seq::<Option<u8>>::empty() =~= done);
        }
        Ok(tree)
    }
}

/// The tree grown from `n` by inserting each code with its byte value, in
/// order.
pub open spec fn insert_seq(n: Node, codes: Seq<Seq<bool>>, values: Seq<u8>) -> Node
    recommends
        codes.len() == values.len(),
    decreases codes.len(),
{
    if codes.len() == 0 {
        n
    } else {
        spec_insert(
            insert_seq(n, codes.drop_last(), values.drop_last()),
            codes.last(),
            values.last(),
        )
    }
}

/// Each code with its first bit removed.
pub open spec fn strip_first(codes: Seq<Seq<bool>>) -> Seq<Seq<bool>> {
    codes.map_values(|c: Seq<bool>| c.drop_first())
}

/// Inserting codes that all start with the same bit grows only the child
/// that bit selects, by the codes with that bit removed.
proof fn lemma_insert_seq_prepend(n: Node, codes: Seq<Seq<bool>>, values: Seq<u8>, bit: bool)
    requires
        codes.len() == values.len(),
        codes.len() >= 1,
        forall|k: int|
            0 <= k < codes.len() ==> (#[trigger] codes[k]).len() >= 1 && codes[k][0] == bit,
    ensures
        bit ==> insert_seq(n, codes, values) == (Node {
            right_child: Some(
                Box::new(insert_seq(child_of(n.right_child), strip_first(codes), values)),
            ),
            ..n
        }),
        !bit ==> insert_seq(n, codes, values) == (Node {
            left_child: Some(
                Box::new(insert_seq(child_of(n.left_child), strip_first(codes), values)),
            ),
            ..n
        }),
    decreases codes.len(),
{
    assert(strip_first(codes).last() == codes.last().drop_first());
    assert(strip_first(codes).drop_last() =~= strip_first(codes.drop_last()));
    if codes.len() == 1 {
        assert(insert_seq(n, codes.drop_last(), values.drop_last()) == n);
        assert(insert_seq(
            child_of(if bit {
                n.right_child
            } else {
                n.left_child
            }),
            strip_first(codes).drop_last(),
            values.drop_last(),
        ) == child_of(
            if bit {
                n.right_child
            } else {
                n.left_child
            },
        ));
    } else {
        lemma_insert_seq_prepend(n, codes.drop_last(), values.drop_last(), bit);
    }
}

/// The starting prefix only prepends: each assigned code is the shared
/// prefix followed by the code assigned under an empty prefix.
proof fn lemma_codes_linear(counts: Seq<u64>, s: int, e: int, prefix: Seq<bool>)
    requires
        s < e,
    ensures
        forall|k: int|
            0 <= k < e - s ==> #[trigger] spec_codes(counts, s, e, prefix)[k] == prefix
                + spec_codes(counts, s, e, Seq::empty())[k],
    decreases e - s,
{
    lemma_codes_shape(counts, s, e, prefix);
    lemma_codes_shape(counts, s, e, Seq::<bool>::empty());
    let codes = spec_codes(counts, s, e, prefix);
    let rel = spec_codes(counts, s, e, Seq::<bool>::empty());
    if e - s == 1 {
        assert(prefix + Seq::<bool>::empty() =~= prefix);
    } else {
        let m0 = split_of(counts, s, e);
        let m = if s < m0 < e {
            m0
        } else {
            s + 1
        };
        lemma_codes_shape(counts, s, m, prefix.push(false));
        lemma_codes_shape(counts, m, e, prefix.push(true));
        lemma_codes_shape(counts, s, m, Seq::<bool>::empty().push(false));
        lemma_codes_shape(counts, m, e, Seq::<bool>::empty().push(true));
        lemma_codes_linear(counts, s, m, prefix.push(false));
        lemma_codes_linear(counts, m, e, prefix.push(true));
        lemma_codes_linear(counts, s, m, Seq::<bool>::empty().push(false));
        lemma_codes_linear(counts, m, e, Seq::<bool>::empty().push(true));
        let el = spec_codes(counts, s, m, Seq::<bool>::empty());
        let er = spec_codes(counts, m, e, Seq::<bool>::empty());
        assert forall|k: int| 0 <= k < e - s implies #[trigger] codes[k] == prefix + rel[k] by {
            if k < m - s {
                assert(codes[k] == prefix.push(false) + el[k]);
                assert(rel[k] == Seq::<bool>::empty().push(false) + el[k]);
                assert(prefix + (Seq::<bool>::empty().push(false) + el[k]) =~= prefix.push(false)
                    + el[k]);
            } else {
                assert(codes[k] == prefix.push(true) + er[k - (m - s)]);
                assert(rel[k] == Seq::<bool>::empty().push(true) + er[k - (m - s)]);
                assert(prefix + (Seq::<bool>::empty().push(true) + er[k - (m - s)])
                    =~= prefix.push(true) + er[k - (m - s)]);
            }
        }
    }
}

/// Inserting two code lists one after the other is inserting their
/// concatenation.
proof fn lemma_insert_seq_concat(
    n: Node,
    a: Seq<Seq<bool>>,
    va: Seq<u8>,
    b: Seq<Seq<bool>>,
    vb: Seq<u8>,
)
    requires
        a.len() == va.len(),
        b.len() == vb.len(),
    ensures
        insert_seq(n, a + b, va + vb) == insert_seq(insert_seq(n, a, va), b, vb),
    decreases b.len(),
{
    if b.len() == 0 {
        assert(a + b =~= a);
        assert(va + vb =~= va);
    } else {
        assert((a + b).drop_last() =~= a + b.drop_last());
        assert((va + vb).drop_last() =~= va + vb.drop_last());
        assert((a + b).last() == b.last());
        assert((va + vb).last() == vb.last());
        lemma_insert_seq_concat(n, a, va, b.drop_last(), vb.drop_last());
    }
}

/// A whole greedy assignment inserted into a fresh node yields a full
/// binary tree: every internal node has exactly two children and every
/// leaf exactly none.
pub proof fn lemma_code_tree_full(counts: Seq<u64>, s: int, e: int, values: Seq<u8>)
    requires
        s < e,
        values.len() == e - s,
    ensures
        is_full(
            insert_seq(
                Node { byte: None, left_child: None, right_child: None },
                spec_codes(counts, s, e, Seq::empty()),
                values,
            ),
        ),
        node_size(
            insert_seq(
                Node { byte: None, left_child: None, right_child: None },
                spec_codes(counts, s, e, Seq::empty()),
                values,
            ),
        ) == 2 * (e - s) - 1,
    decreases e - s,
{
    let n0 = Node { byte: None, left_child: None, right_child: None };
    let codes = spec_codes(counts, s, e, Seq::<bool>::empty());
    lemma_codes_shape(counts, s, e, Seq::<bool>::empty());
    if e - s == 1 {
        assert(codes.last() == Seq::<bool>::empty());
        assert(insert_seq(n0, codes.drop_last(), values.drop_last()) == n0);
        assert(insert_seq(n0, codes, values) == (Node {
            byte: Some(values.last()),
            left_child: None,
            right_child: None,
        }));
    } else {
        let m0 = split_of(counts, s, e);
        let m = if s < m0 < e {
            m0
        } else {
            s + 1
        };
        let p0 = Seq::<bool>::empty().push(false);
        let p1 = Seq::<bool>::empty().push(true);
        let lc = spec_codes(counts, s, m, p0);
        let rc = spec_codes(counts, m, e, p1);
        assert(codes == lc + rc);
        lemma_codes_shape(counts, s, m, p0);
        lemma_codes_shape(counts, m, e, p1);
        let lv = values.take(m - s);
        let rv = values.skip(m - s);
        assert(values =~= lv + rv);
        lemma_insert_seq_concat(n0, lc, lv, rc, rv);
        assert forall|k: int| 0 <= k < lc.len() implies (#[trigger] lc[k]).len() >= 1 && lc[k][0]
            == false by {
            assert(is_prefix_of(p0, lc[k]));
            assert(lc[k].take(1)[0] == p0[0]);
        }
        assert forall|k: int| 0 <= k < rc.len() implies (#[trigger] rc[k]).len() >= 1 && rc[k][0]
            == true by {
            assert(is_prefix_of(p1, rc[k]));
            assert(rc[k].take(1)[0] == p1[0]);
        }
        let el = spec_codes(counts, s, m, Seq::<bool>::empty());
        let er = spec_codes(counts, m, e, Seq::<bool>::empty());
        lemma_codes_shape(counts, s, m, Seq::<bool>::empty());
        lemma_codes_shape(counts, m, e, Seq::<bool>::empty());
        lemma_codes_linear(counts, s, m, p0);
        lemma_codes_linear(counts, m, e, p1);
        assert(strip_first(lc) =~~= el) by {
            assert forall|k: int| 0 <= k < lc.len() implies strip_first(lc)[k] =~= el[k] by {
                assert(lc[k] == p0 + el[k]);
                assert(lc[k].drop_first() =~= el[k]);
            }
        }
        assert(strip_first(rc) =~~= er) by {
            assert forall|k: int| 0 <= k < rc.len() implies strip_first(rc)[k] =~= er[k] by {
                assert(rc[k] == p1 + er[k]);
                assert(rc[k].drop_first() =~= er[k]);
            }
        }
        lemma_insert_seq_prepend(n0, lc, lv, false);
        let t1 = insert_seq(n0, lc, lv);
        lemma_code_tree_full(counts, s, m, lv);
        assert(t1.left_child == Some(Box::new(insert_seq(n0, el, lv))));
        lemma_insert_seq_prepend(t1, rc, rv, true);
        let t2 = insert_seq(t1, rc, rv);
        lemma_code_tree_full(counts, m, e, rv);
        assert(t2.right_child == Some(Box::new(insert_seq(n0, er, rv))));
        assert(t2.left_child == t1.left_child);
        assert(t2.byte is None);
        assert(is_full(insert_seq(n0, codes, values)));
    }
}

/// Inserting one code grows the tree by at most the code's length.
pub proof fn lemma_insert_size(n: Node, code: Seq<bool>, value: u8)
    ensures
        node_size(spec_insert(n, code, value)) <= node_size(n) + code.len(),
    decreases code.len(),
{
    if code.len() > 0 {
        if code[0] {
            lemma_insert_size(child_of(n.right_child), code.drop_first(), value);
        } else {
            lemma_insert_size(child_of(n.left_child), code.drop_first(), value);
        }
    }
}

/// Inserting a list of codes of bounded length grows the tree by at most
/// the list length times the bound.
pub proof fn lemma_insert_seq_size(n: Node, codes: Seq<Seq<bool>>, values: Seq<u8>, bound: int)
    requires
        forall|k: int| 0 <= k < codes.len() ==> (#[trigger] codes[k]).len() <= bound,
    ensures
        node_size(insert_seq(n, codes, values)) <= node_size(n) + codes.len() * bound,
    decreases codes.len(),
{
    let m = codes.len() as int;
    if codes.len() == 0 {
        assert(m * bound == 0) by (nonlinear_arith)
            requires
                m == 0,
        ;
    } else {
        lemma_insert_seq_size(n, codes.drop_last(), values.drop_last(), bound);
        lemma_insert_size(
            insert_seq(n, codes.drop_last(), values.drop_last()),
            codes.last(),
            values.last(),
        );
        let t1 = node_size(insert_seq(n, codes.drop_last(), values.drop_last())) as int;
        let t2 = node_size(insert_seq(n, codes, values)) as int;
        let len_last = codes.last().len() as int;
        let base = node_size(n) as int;
        assert(t2 <= base + m * bound) by (nonlinear_arith)
            requires
                t1 <= base + (m - 1) * bound,
                t2 <= t1 + len_last,
                len_last <= bound,
                m >= 1,
        ;
    }
}

/// The degenerate one-statistic tree: both one-bit codes inserted for the
/// same byte give an internal root with two leaves.
pub proof fn lemma_degenerate_tree_full(b: u8)
    ensures
        is_full(
            insert_seq(
                Node { byte: None, left_child: None, right_child: None },
                seq![seq![false], seq![true]],
                seq![b, b],
            ),
        ),
        insert_seq(
            Node { byte: None, left_child: None, right_child: None },
            seq![seq![false], seq![true]],
            seq![b, b],
        ) == (Node {
            byte: None,
            left_child: Some(Box::new(Node { byte: Some(b), left_child: None, right_child: None })),
            right_child: Some(
                Box::new(Node { byte: Some(b), left_child: None, right_child: None }),
            ),
        }),
{
    let n0 = Node { byte: None, left_child: None, right_child: None };
    let codes = seq![seq![false], seq![true]];
    let values = seq![b, b];
    let leaf = Node { byte: Some(b), left_child: None, right_child: None };
    assert(codes.drop_last() =~= seq![seq![false]]);
    assert(values.drop_last() =~= seq![b]);
    assert(seq![seq![false]].drop_last() =~= Seq::<Seq<bool>>::empty());
    assert(seq![b].drop_last() =~= Seq::<u8>::empty());
    assert(seq![false].drop_first() =~= Seq::<bool>::empty());
    assert(seq![true].drop_first() =~= Seq::<bool>::empty());
    assert(insert_seq(n0, Seq::<Seq<bool>>::empty(), Seq::<u8>::empty()) == n0);
    let t1 = spec_insert(n0, seq![false], b);
    assert(seq![false][0] == false);
    assert(child_of(n0.left_child) == n0);
    assert(child_of(n0.right_child) == n0);
    assert(spec_insert(n0, Seq::<bool>::empty(), b) == leaf);
    assert(t1 == (Node { byte: None, left_child: Some(Box::new(leaf)), right_child: None }));
    assert(insert_seq(n0, seq![seq![false]], seq![b]) == t1);
    let t2 = spec_insert(t1, seq![true], b);
    assert(seq![true][0] == true);
    assert(child_of(t1.right_child) == n0);
    assert(t2 == (Node {
        byte: None,
        left_child: Some(Box::new(leaf)),
        right_child: Some(Box::new(leaf)),
    }));
    assert(insert_seq(n0, codes, values) == t2);
    assert(is_full(leaf));
}

/// The two-leaf degenerate tree serializes to one internal bit and two
/// leaf records, and the tokens of that stream rebuild exactly the same
/// tree.
pub proof fn lemma_degenerate_tree_stream(b: u8)
    ensures
        ({
            let leaf = Node { byte: Some(b), left_child: None, right_child: None };
            let t = Node {
                byte: None,
                left_child: Some(Box::new(leaf)),
                right_child: Some(Box::new(leaf)),
            };
            &&& ser(seq![t]) == seq![false, true] + byte_bits(b) + seq![true] + byte_bits(b)
            &&& spec_tokens(ser(seq![t])) == Some(seq![None::<u8>, Some(b), Some(b)])
            &&& tree_of_tokens(seq![None::<u8>, Some(b), Some(b)]) == Some(t)
        }),
{
    let leaf = Node { byte: Some(b), left_child: None, right_child: None };
    let t = Node {
        byte: None,
        left_child: Some(Box::new(leaf)),
        right_child: Some(Box::new(leaf)),
    };
    // serialization: the internal root, then its two leaves in level order
    let q0 = seq![t];
    let q1 = q0.drop_first().push(leaf).push(leaf);
    assert(q1 =~= seq![leaf, leaf]);
    assert(ser(q0) == seq![false] + ser(q1));
    let q2 = q1.drop_first();
    assert(q2 =~= seq![leaf]);
    assert(ser(q1) == seq![true] + byte_bits(b) + ser(q2));
    let q3 = q2.drop_first();
    assert(q3.len() == 0);
    assert(ser(q3) == Seq::<bool>::empty());
    assert(ser(q2) == seq![true] + byte_bits(b) + ser(q3));
    let bits = seq![false, true] + byte_bits(b) + seq![true] + byte_bits(b);
    assert(ser(q0) =~= bits);
    // the token stream: internal, leaf b, leaf b
    lemma_byte_bits_injective(b, byte_bits(b));
    assert(bits.len() == 19);
    assert(bits[0] == false);
    let r1 = bits.drop_first();
    assert(r1.len() == 18 && r1[0] == true);
    assert(r1.subrange(1, 9) =~= byte_bits(b));
    let r2 = r1.skip(9);
    assert(r2 =~= seq![true] + byte_bits(b));
    assert(r2.len() == 9 && r2[0] == true);
    assert(r2.subrange(1, 9) =~= byte_bits(b));
    let r3 = r2.skip(9);
    assert(r3.len() == 0);
    assert(spec_tokens(r3) == Some(Seq::<Option<u8>>::empty()));
    assert(spec_tokens(r2) == Some(seq![Some(b)] + Seq::<Option<u8>>::empty()));
    assert(spec_tokens(r1) == Some(
        seq![Some(b)] + (seq![Some(b)] + Seq::<Option<u8>>::empty()),
    ));
    let toks = seq![None::<u8>, Some(b), Some(b)];
    assert(seq![None::<u8>] + (seq![Some(b)] + (seq![Some(b)] + Seq::<Option<u8>>::empty()))
        =~= toks);
    assert(spec_tokens(bits) == Some(toks));
    // reconstruction: each token fills the first open slot in level order
    let root0 = Node { byte: None, left_child: None, right_child: None };
    assert(toks.drop_last() =~= seq![None::<u8>, Some(b)]);
    assert(seq![None::<u8>, Some(b)].drop_last() =~= seq![None::<u8>]);
    assert(seq![None::<u8>].drop_last() =~= Seq::<Option<u8>>::empty());
    assert(tree_of_tokens(Seq::<Option<u8>>::empty()) == None::<Node>);
    assert(seq![None::<u8>].last() == None::<u8>);
    assert(push_tree(None::<Node>, None::<u8>) == Some(root0));
    assert(tree_of_tokens(seq![None::<u8>]) == Some(root0));
    let q_a = seq![(Seq::<bool>::empty(), root0)];
    assert(find_slot(q_a) == Some(Seq::<bool>::empty().push(false)));
    assert(Seq::<bool>::empty().push(false) =~= seq![false]);
    assert(seq![false].drop_first() =~= Seq::<bool>::empty());
    let t1 = Node { byte: None, left_child: Some(Box::new(leaf)), right_child: None };
    assert(spec_place(root0, seq![false], Some(b)) == t1);
    assert(tree_of_tokens(seq![None::<u8>, Some(b)]) == Some(t1));
    let q_b = seq![(Seq::<bool>::empty(), t1)];
    assert(find_slot(q_b) == Some(Seq::<bool>::empty().push(true)));
    assert(Seq::<bool>::empty().push(true) =~= seq![true]);
    assert(spec_place(t1, seq![true], Some(b)) == t);
    assert(tree_of_tokens(toks) == Some(t));
}

} // verus!
