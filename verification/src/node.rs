//! Tree nodes and the ranges that shape them.
//!
//! A `NodeRange` is a closed interval of key scalars together with its
//! midpoint; partitioning a non-unit range at the midpoint is the sole rule
//! that decides tree shape. A `Node` is either a leaf holding the digest of
//! the rows mapped to a unit range, or an inner node owning the two subtrees
//! of its range's halves; an inner node's digest is always derived from its
//! children, never stored.

use vstd::prelude::*;

use crate::digestible::{
    combine_of, concat_digest, hash_of, vector_digest, DIGEST_LEN, MAX_DIGEST_INPUT,
};
use crate::error::MerkleError;
use crate::token::{IntegerToken, Token};

verus! {

/// Where a key falls relative to a range: outside it, in its lower half, or
/// in its upper half.
pub enum Pos {
    Out,
    Left,
    Right,
}

/// How a search range relates to a node's range: it contains it entirely,
/// misses it entirely, or overlaps it in part.
pub enum Cover {
    Full,
    Partial,
    Disjoint,
}

/// A closed interval `[start, end]` of key scalars, with its midpoint.
#[derive(Clone, Copy, PartialEq, Eq, Structural, PartialOrd, Debug)]
pub struct NodeRange {
    pub start: u64,
    pub end: u64,
    pub mid: u64,
}

impl NodeRange {
    /// A valid range: ordered endpoints and the midpoint derived from them.
    pub open spec fn wf(self) -> bool {
        self.start <= self.end && self.mid == (self.start + self.end) / 2
    }

    /// Number of partition steps left: 0 marks a unit range.
    pub open spec fn spec_size(self) -> int {
        self.end - self.start
    }

    /// Number of keys the range covers.
    pub open spec fn key_count(self) -> int {
        self.spec_size() + 1
    }

    pub open spec fn spec_contains(self, v: u64) -> bool {
        self.start <= v && v <= self.end
    }

    /// `other` lies entirely inside `self`.
    pub open spec fn spec_covers(self, other: NodeRange) -> bool {
        self.start <= other.start && other.end <= self.end
    }

    /// `self` and `other` share no key.
    pub open spec fn spec_disjoint(self, other: NodeRange) -> bool {
        self.end < other.start || other.end < self.start
    }

    /// The lower half `[start, mid]` produced by partitioning.
    pub open spec fn left_half(self) -> NodeRange {
        NodeRange { start: self.start, end: self.mid, mid: ((self.start + self.mid) / 2) as u64 }
    }

    /// The upper half `[mid + 1, end]` produced by partitioning.
    pub open spec fn right_half(self) -> NodeRange {
        NodeRange {
            start: (self.mid + 1) as u64,
            end: self.end,
            mid: ((self.mid + 1 + self.end) / 2) as u64,
        }
    }

    pub open spec fn spec_partition(self) -> Option<(NodeRange, NodeRange)> {
        if self.spec_size() == 0 {
            None
        } else {
            Some((self.left_half(), self.right_half()))
        }
    }

    pub open spec fn spec_position(self, v: u64) -> Pos {
        if self.start <= v && v <= self.end {
            if v <= self.mid {
                Pos::Left
            } else {
                Pos::Right
            }
        } else {
            Pos::Out
        }
    }

    pub open spec fn spec_cover(self, other: NodeRange) -> Cover {
        if self.spec_covers(other) {
            Cover::Full
        } else if self.spec_disjoint(other) {
            Cover::Disjoint
        } else {
            Cover::Partial
        }
    }

    pub fn new(start: u64, end: u64) -> (r: Self)
        requires
            start <= end,
        ensures
            r.wf(),
            r.start == start,
            r.end == end,
    {
        let mid: u64 = start + (end - start) / 2;
        proof {
            assert(mid == (start + end) / 2) by (nonlinear_arith)
                requires
                    start <= end,
                    mid == start + (end - start) / 2,
            ;
        }
        NodeRange { mid, start, end }
    }

    pub fn from_token<T: Token>(st: T, et: T) -> (r: Self)
        requires
            st.spec_value() <= et.spec_value(),
        ensures
            r.wf(),
            r.start == st.spec_value(),
            r.end == et.spec_value(),
    {
        NodeRange::new(st.value(), et.value())
    }

    pub fn midpoint(&self) -> (t: IntegerToken)
        ensures
            t.spec_value() == self.mid,
    {
        IntegerToken::new(self.mid)
    }

    pub fn position<T: Token>(&self, token: &T) -> (p: Pos)
        ensures
            p == self.spec_position(token.spec_value()),
    {
        let v: u64 = token.value();
        if self.start <= v && v <= self.end {
            if v <= self.mid {
                Pos::Left
            } else {
                Pos::Right
            }
        } else {
            Pos::Out
        }
    }

    pub fn is_contain<T: Token>(&self, token: &T) -> (b: bool)
        ensures
            b == self.spec_contains(token.spec_value()),
    {
        match self.position(token) {
            Pos::Out => false,
            _ => true,
        }
    }

    pub fn size(&self) -> (s: u64)
        requires
            self.wf(),
        ensures
            s == self.spec_size(),
    {
        self.end - self.start
    }

    /// Bisect a non-unit range into its two halves; a unit range yields
    /// nothing and becomes a leaf.
    pub fn partition_by_mid(&self) -> (p: Option<(NodeRange, NodeRange)>)
        requires
            self.wf(),
        ensures
            p == self.spec_partition(),
    {
        if self.size() == 0 {
            None
        } else {
            proof {
                lemma_halves(*self);
            }
            Some((NodeRange::new(self.start, self.mid), NodeRange::new(self.mid + 1, self.end)))
        }
    }

    /// Classify how `self`, a search range, relates to a node's range.
    pub fn cover(&self, other: &NodeRange) -> (c: Cover)
        ensures
            c == self.spec_cover(*other),
    {
        if self.start <= other.start && other.end <= self.end {
            Cover::Full
        } else if self.end < other.start || other.end < self.start {
            Cover::Disjoint
        } else {
            Cover::Partial
        }
    }
}

/// A tree node: a leaf carrying the digest of the rows mapped to its unit
/// range, or an inner node owning the subtrees of its range's two halves.
#[derive(Debug)]
pub enum Node {
    Leaf { hash: Vec<u8> },
    Inner { range: NodeRange, left: Box<Node>, right: Box<Node> },
}

impl Node {
    /// The digests of the leaves, left to right. This sequence is the
    /// mathematical content of a tree: every digest above it is derived.
    pub open spec fn leaves_of(self) -> Seq<Seq<u8>>
        decreases self,
    {
        match self {
            Node::Leaf { hash } => seq![hash@],
            Node::Inner { left, right, .. } => left.leaves_of() + right.leaves_of(),
        }
    }

    /// The digest of a node: stored at a leaf, derived at an inner node by
    /// combining the children's digests in order.
    pub open spec fn digest_spec(self) -> Seq<u8>
        decreases self,
    {
        match self {
            Node::Leaf { hash } => hash@,
            Node::Inner { left, right, .. } => combine_of(left.digest_spec(), right.digest_spec()),
        }
    }

    /// The node is exactly the tree that recursive bisection of `r` builds:
    /// unit ranges are leaves holding a digest-sized hash, and every inner
    /// node carries its range and owns the trees of that range's halves.
    pub open spec fn is_tree_for(self, r: NodeRange) -> bool
        decreases self,
    {
        match self {
            Node::Leaf { hash } => r.wf() && r.spec_size() == 0 && hash@.len() == DIGEST_LEN,
            Node::Inner { range, left, right } => r.wf() && range == r && r.spec_size() > 0
                && left.is_tree_for(r.left_half()) && right.is_tree_for(r.right_half()),
        }
    }

    /// Well-formed as a free-standing node: an inner node is the tree of its
    /// own range, a leaf holds a digest-sized hash.
    pub open spec fn wf_node(self) -> bool {
        match self {
            Node::Leaf { hash } => hash@.len() == DIGEST_LEN,
            Node::Inner { range, .. } => self.is_tree_for(range),
        }
    }

    pub open spec fn is_leaf(self) -> bool {
        self is Leaf
    }

    pub open spec fn child_l(self) -> Node {
        match self {
            Node::Inner { left, .. } => *left,
            _ => self,
        }
    }

    pub open spec fn child_r(self) -> Node {
        match self {
            Node::Inner { right, .. } => *right,
            _ => self,
        }
    }

    pub fn empty_leaf() -> (t: Self)
        ensures
            t.is_leaf(),
            t.wf_node(),
            t.leaves_of() == seq![hash_of(Seq::<u8>::empty())],
            t.digest_spec() == hash_of(Seq::<u8>::empty()),
    {
        let value: Vec<u8> = Vec::new();
        Node::Leaf { hash: vector_digest(&value) }
    }

    pub fn new_leaf(value: &Vec<u8>) -> (t: Self)
        requires
            value@.len() <= MAX_DIGEST_INPUT,
        ensures
            t.is_leaf(),
            t.wf_node(),
            t.leaves_of() == seq![hash_of(value@)],
            t.digest_spec() == hash_of(value@),
    {
        Node::Leaf { hash: vector_digest(value) }
    }

    pub fn new_node(range: NodeRange, left: Self, right: Self) -> (t: Self)
        requires
            range.wf(),
            range.spec_size() > 0,
            left.is_tree_for(range.left_half()),
            right.is_tree_for(range.right_half()),
        ensures
            t.is_tree_for(range),
            t.child_l() == left,
            t.child_r() == right,
            t.leaves_of() == left.leaves_of() + right.leaves_of(),
            t.digest_spec() == combine_of(left.digest_spec(), right.digest_spec()),
    {
        Node::Inner { range, left: Box::new(left), right: Box::new(right) }
    }
}

/// What midpoint bisection does to a valid non-unit range: both halves are
/// valid, strictly smaller, adjacent, and together they cover the parent.
pub proof fn lemma_halves(r: NodeRange)
    requires
        r.wf(),
        r.spec_size() > 0,
    ensures
        r.left_half().wf(),
        r.right_half().wf(),
        r.left_half().start == r.start,
        r.left_half().end == r.mid,
        r.right_half().start == r.mid + 1,
        r.right_half().end == r.end,
        r.start <= r.mid < r.end,
        0 <= r.left_half().spec_size() < r.spec_size(),
        0 <= r.right_half().spec_size() < r.spec_size(),
        r.left_half().key_count() + r.right_half().key_count() == r.key_count(),
{
    assert(r.start <= r.mid < r.end) by (nonlinear_arith)
        requires
            r.start <= r.end,
            r.spec_size() > 0,
            r.mid == (r.start + r.end) / 2,
    ;
}

/// Byte-for-byte copy of a digest.
fn copy_bytes(v: &Vec<u8>) -> (r: Vec<u8>)
    ensures
        r@ == v@,
{
    let mut r: Vec<u8> = Vec::new();
    let mut i: usize = 0;
    while i < v.len()
        invariant
            i <= v@.len(),
            r@ == v@.take(i as int),
        decreases v@.len() - i,
    {
        r.push(v[i]);
        proof {
            assert(v@.take(i as int).push(v@[i as int]) =~= v@.take(i as int + 1));
        }
        i = i + 1;
    }
    proof {
        assert(v@.take(v@.len() as int) =~= v@);
    }
    r
}

/// Byte-for-byte comparison of two digests.
fn eq_bytes(a: &Vec<u8>, b: &Vec<u8>) -> (r: bool)
    ensures
        r <==> a@ == b@,
{
    if a.len() != b.len() {
        return false;
    }
    let mut i: usize = 0;
    while i < a.len()
        invariant
            i <= a@.len(),
            a@.len() == b@.len(),
            forall|j: int| 0 <= j < i ==> a@[j] == b@[j],
        decreases a@.len() - i,
    {
        if a[i] != b[i] {
            return false;
        }
        i = i + 1;
    }
    proof {
        assert(a@ =~= b@);
    }
    true
}

impl Node {
    /// The digest summarizing this node, recomputed from the leaves up: a
    /// leaf's stored hash, or the ordered combination of the children's
    /// digests.
    pub fn digest(&self) -> (r: Vec<u8>)
        requires
            self.wf_node(),
        ensures
            r@ == self.digest_spec(),
            r@.len() == DIGEST_LEN,
        decreases *self,
    {
        match self {
            Node::Leaf { hash } => copy_bytes(hash),
            Node::Inner { range, left, right } => {
                proof {
                    lemma_tree_children_wf(*self, *range);
                }
                let dl = left.digest();
                let dr = right.digest();
                concat_digest(&dl, &dr)
            },
        }
    }

    /// Digest-as-identity equality: two nodes are considered the same exactly
    /// when their digests are byte-equal (equality of content only up to the
    /// primitive's collision resistance).
    pub fn is_same_digest(&self, other: &Node) -> (r: bool)
        requires
            self.wf_node(),
            other.wf_node(),
        ensures
            r <==> self.digest_spec() == other.digest_spec(),
    {
        let d1 = self.digest();
        let d2 = other.digest();
        eq_bytes(&d1, &d2)
    }
}

impl Node {
    /// Install `hash(value)` at the leaf owning `token`'s key, leaving every
    /// other leaf untouched; a key outside an inner node's range is reported
    /// as `OutOfRange` and the tree is left as it was. A free-standing leaf
    /// owns every key, so it is always rewritten.
    pub fn update<T: Token>(&mut self, token: &T, value: &Vec<u8>) -> (res: Result<
        (),
        MerkleError,
    >)
        requires
            old(self).wf_node(),
            value@.len() <= MAX_DIGEST_INPUT,
        ensures
            final(self).wf_node(),
            (match *old(self) {
                Node::Leaf { .. } => res is Ok && final(self).leaves_of() == seq![
                    hash_of(value@),
                ] && final(self).is_leaf(),
                Node::Inner { range, .. } => {
                    if range.spec_contains(token.spec_value()) {
                        res is Ok && final(self).is_tree_for(range) && final(self).leaves_of()
                            == old(self).leaves_of().update(
                            token.spec_value() - range.start,
                            hash_of(value@),
                        )
                    } else {
                        res == Err::<(), MerkleError>(MerkleError::OutOfRange) && *final(self)
                            == *old(self)
                    }
                },
            }),
        decreases *old(self),
    {
        if self.leaf_here() {
            *self = Node::Leaf { hash: vector_digest(value) };
            return Ok(());
        }
        match self {
            Node::Leaf { .. } => {
                // Provably unreachable: the leaf case returned above.
                proof {
                    assert(false);
                }
                Err(MerkleError::OutOfRange)
            },
            Node::Inner { range, left, right } => {
                let ghost r = *range;
                let ghost old_left = **left;
                let ghost old_right = **right;
                proof {
                    lemma_halves(r);
                    lemma_tree_children_wf(*old(self), r);
                    lemma_leaves_len(old_left, r.left_half());
                    lemma_leaves_len(old_right, r.right_half());
                }
                match range.position(token) {
                    Pos::Left => {
                        let res = (&mut **left).update(token, value);
                        proof {
                            let v = token.spec_value();
                            let h = hash_of(value@);
                            if old_left is Leaf {
                                assert(r.left_half().spec_size() == 0);
                                assert(final(self).leaves_of() =~= old(self).leaves_of().update(
                                    v - r.start,
                                    h,
                                ));
                            } else {
                                assert(r.left_half().spec_contains(v));
                                assert(final(self).leaves_of() =~= old(self).leaves_of().update(
                                    v - r.start,
                                    h,
                                ));
                            }
                            assert(final(self).is_tree_for(r)) by {
                                match *final(self) {
                                    Node::Inner { range: rr, left: ll, right: lr } => {
                                        assert(rr == r);
                                        assert(ll.is_tree_for(r.left_half()));
                                        assert(lr.is_tree_for(r.right_half()));
                                    },
                                    Node::Leaf { .. } => {
                                        assert(false);
                                    },
                                }
                            }
                            lemma_tree_wf_node(*final(self), r);
                        }
                        res
                    },
                    Pos::Right => {
                        let res = (&mut **right).update(token, value);
                        proof {
                            let v = token.spec_value();
                            let h = hash_of(value@);
                            if old_right is Leaf {
                                assert(r.right_half().spec_size() == 0);
                                assert(final(self).leaves_of() =~= old(self).leaves_of().update(
                                    v - r.start,
                                    h,
                                ));
                            } else {
                                assert(r.right_half().spec_contains(v));
                                assert(final(self).leaves_of() =~= old(self).leaves_of().update(
                                    v - r.start,
                                    h,
                                ));
                            }
                            assert(final(self).is_tree_for(r)) by {
                                match *final(self) {
                                    Node::Inner { range: rr, left: ll, right: lr } => {
                                        assert(rr == r);
                                        assert(ll.is_tree_for(r.left_half()));
                                        assert(lr.is_tree_for(r.right_half()));
                                    },
                                    Node::Leaf { .. } => {
                                        assert(false);
                                    },
                                }
                            }
                            lemma_tree_wf_node(*final(self), r);
                        }
                        res
                    },
                    Pos::Out => Err(MerkleError::OutOfRange),
                }
            },
        }
    }

    /// The range stored at an inner node (a leaf stores none).
    pub open spec fn node_range(self) -> NodeRange {
        match self {
            Node::Inner { range, .. } => range,
            Node::Leaf { .. } => NodeRange { start: 0, end: 0, mid: 0 },
        }
    }

    /// What `search_in` finds: the first inner node, in top-down
    /// left-to-right order, whose range lies entirely inside the search
    /// range.
    pub open spec fn spec_search_in(self, search_range: NodeRange) -> Option<Node>
        decreases self,
    {
        match self {
            Node::Leaf { .. } => None,
            Node::Inner { range, left, right } => match search_range.spec_cover(range) {
                Cover::Full => Some(self),
                Cover::Disjoint => None,
                Cover::Partial => if left.spec_search_in(search_range) is Some {
                    left.spec_search_in(search_range)
                } else {
                    right.spec_search_in(search_range)
                },
            },
        }
    }

    /// Locate a node covered by `search_range`: the structural lookup the
    /// difference protocol leans on. Leaves are anonymous, so a unit search
    /// range finds nothing.
    pub fn search_in(&self, search_range: &NodeRange) -> (found: Option<&Node>)
        ensures
            (match found {
                Some(n) => self.spec_search_in(*search_range) == Some(*n),
                None => self.spec_search_in(*search_range) is None,
            }),
        decreases *self,
    {
        match self {
            Node::Leaf { .. } => None,
            Node::Inner { range, left, right } => {
                match search_range.cover(range) {
                    Cover::Full => Some(self),
                    Cover::Disjoint => None,
                    Cover::Partial => {
                        let l = left.search_in(search_range);
                        if l.is_some() {
                            return l;
                        }
                        let r = right.search_in(search_range);
                        if r.is_some() {
                            return r;
                        }
                        None
                    },
                }
            },
        }
    }

    /// Number of nodes below and including this one.
    pub open spec fn node_count(self) -> nat
        decreases self,
    {
        match self {
            Node::Leaf { .. } => 1,
            Node::Inner { left, right, .. } => (1 + left.node_count() + right.node_count()) as nat,
        }
    }

    /// Length of the longest downward path from this node.
    pub open spec fn depth(self) -> nat
        decreases self,
    {
        match self {
            Node::Leaf { .. } => 0,
            Node::Inner { left, right, .. } => (1 + if left.depth() >= right.depth() {
                left.depth()
            } else {
                right.depth()
            }) as nat,
        }
    }

    /// Runtime test for leafness.
    fn leaf_here(&self) -> (b: bool)
        ensures
            b == self.is_leaf(),
    {
        match self {
            Node::Leaf { .. } => true,
            Node::Inner { .. } => false,
        }
    }

    /// Overwrite a leaf's digest with the digest of `value`.
    pub fn update_leaf(&mut self, value: &Vec<u8>)
        requires
            old(self).is_leaf(),
            value@.len() <= MAX_DIGEST_INPUT,
        ensures
            final(self).is_leaf(),
            final(self).wf_node(),
            final(self).leaves_of() == seq![hash_of(value@)],
            final(self).digest_spec() == hash_of(value@),
    {
        *self = Node::Leaf { hash: vector_digest(value) };
    }
}

/// The children of the tree of a non-unit range are themselves well-formed
/// free-standing nodes, each the tree of its half.
pub proof fn lemma_tree_children_wf(n: Node, r: NodeRange)
    requires
        n.is_tree_for(r),
        n is Inner,
    ensures
        r.spec_size() > 0,
        n.child_l().is_tree_for(r.left_half()),
        n.child_r().is_tree_for(r.right_half()),
        n.child_l().wf_node(),
        n.child_r().wf_node(),
{
    lemma_tree_wf_node(n.child_l(), r.left_half());
    lemma_tree_wf_node(n.child_r(), r.right_half());
}

/// The tree of any range is a well-formed free-standing node.
pub proof fn lemma_tree_wf_node(n: Node, r: NodeRange)
    requires
        n.is_tree_for(r),
    ensures
        n.wf_node(),
{
    match n {
        Node::Leaf { hash } => {},
        Node::Inner { range, left, right } => {
            assert(range == r);
        },
    }
}

/// A tree over a range has exactly one leaf per key of the range.
pub proof fn lemma_leaves_len(n: Node, r: NodeRange)
    requires
        n.is_tree_for(r),
    ensures
        n.leaves_of().len() == r.key_count(),
    decreases n,
{
    match n {
        Node::Leaf { hash } => {},
        Node::Inner { range, left, right } => {
            lemma_halves(r);
            lemma_leaves_len(*left, r.left_half());
            lemma_leaves_len(*right, r.right_half());
        },
    }
}

/// The digest of a tree is a function of its range and its leaf digests
/// alone: two trees of the same range with equal leaves have equal digests.
pub proof fn lemma_digest_from_leaves(a: Node, b: Node, r: NodeRange)
    requires
        a.is_tree_for(r),
        b.is_tree_for(r),
        a.leaves_of() == b.leaves_of(),
    ensures
        a.digest_spec() == b.digest_spec(),
    decreases r.spec_size(),
{
    if r.spec_size() == 0 {
        assert(a.leaves_of()[0] == b.leaves_of()[0]);
    } else {
        lemma_halves(r);
        let (al, ar) = (a.child_l(), a.child_r());
        let (bl, br) = (b.child_l(), b.child_r());
        lemma_leaves_len(al, r.left_half());
        lemma_leaves_len(bl, r.left_half());
        lemma_leaves_len(ar, r.right_half());
        lemma_leaves_len(br, r.right_half());
        assert(al.leaves_of() =~= bl.leaves_of()) by {
            assert(forall|i: int| 0 <= i < al.leaves_of().len() ==> al.leaves_of()[i]
                == #[trigger] bl.leaves_of()[i]) by {
                assert(forall|i: int| 0 <= i < al.leaves_of().len()
                    ==> #[trigger] al.leaves_of()[i] == a.leaves_of()[i]
                        && bl.leaves_of()[i] == b.leaves_of()[i]);
            }
        }
        assert(ar.leaves_of() =~= br.leaves_of()) by {
            let off = al.leaves_of().len() as int;
            assert(forall|i: int| 0 <= i < ar.leaves_of().len()
                ==> #[trigger] ar.leaves_of()[i] == a.leaves_of()[off + i]
                    && br.leaves_of()[i] == b.leaves_of()[off + i]);
        }
        lemma_digest_from_leaves(al, bl, r.left_half());
        lemma_digest_from_leaves(ar, br, r.right_half());
    }
}

/// Number of nodes in the tree that recursive bisection of `r` builds.
pub open spec fn range_node_count(r: NodeRange) -> nat
    decreases r.spec_size(),
    when r.wf()
    via range_node_count_dec
{
    if r.spec_size() == 0 {
        1
    } else {
        (1 + range_node_count(r.left_half()) + range_node_count(r.right_half())) as nat
    }
}

#[via_fn]
proof fn range_node_count_dec(r: NodeRange) {
    if r.wf() && r.spec_size() != 0 {
        lemma_halves(r);
    }
}

/// Depth of the tree that recursive bisection of `r` builds.
pub open spec fn range_depth(r: NodeRange) -> nat
    decreases r.spec_size(),
    when r.wf()
    via range_depth_dec
{
    if r.spec_size() == 0 {
        0
    } else {
        (1 + if range_depth(r.left_half()) >= range_depth(r.right_half()) {
            range_depth(r.left_half())
        } else {
            range_depth(r.right_half())
        }) as nat
    }
}

#[via_fn]
proof fn range_depth_dec(r: NodeRange) {
    if r.wf() && r.spec_size() != 0 {
        lemma_halves(r);
    }
}

/// Structural purity: the shape of a tree (node count and depth) is a pure
/// function of the range it was built over and the partition rule, never of
/// which rows were inserted.
pub proof fn lemma_structural_purity(n: Node, r: NodeRange)
    requires
        n.is_tree_for(r),
    ensures
        n.node_count() == range_node_count(r),
        n.depth() == range_depth(r),
    decreases n,
{
    match n {
        Node::Leaf { .. } => {},
        Node::Inner { range, left, right } => {
            lemma_halves(r);
            lemma_structural_purity(*left, r.left_half());
            lemma_structural_purity(*right, r.right_half());
        },
    }
}

/// What a found node is: any node `search_in` returns out of a well-formed
/// tree is an inner node, is the tree of its own stored range, and that
/// range lies inside the search range.
pub proof fn lemma_search_in_tree(n: Node, r: NodeRange, search_range: NodeRange)
    requires
        n.is_tree_for(r),
    ensures
        (match n.spec_search_in(search_range) {
            Some(m) => m is Inner && m.is_tree_for(m.node_range()) && search_range.spec_covers(
                m.node_range(),
            ),
            None => true,
        }),
    decreases n,
{
    match n {
        Node::Leaf { .. } => {},
        Node::Inner { range, left, right } => {
            lemma_halves(r);
            lemma_search_in_tree(*left, r.left_half(), search_range);
            lemma_search_in_tree(*right, r.right_half(), search_range);
        },
    }
}

} // verus!
