//! The tree that owns a root node and the range it was built over.

use vstd::prelude::*;

use crate::digestible::{hash_of, DIGEST_LEN, MAX_DIGEST_INPUT};
use crate::error::MerkleError;
use crate::node::{
    lemma_halves, lemma_leaves_len, lemma_tree_wf_node, Node, NodeRange,
};
use crate::row_hash::{rowhash_views, RowHash};
use crate::token::Token;

verus! {

/// The digests of a freshly built tree over `r`: one empty-input digest per
/// key of the range.
pub open spec fn empty_leaves(r: NodeRange) -> Seq<Seq<u8>> {
    Seq::new(r.key_count() as nat, |i: int| hash_of(Seq::<u8>::empty()))
}

/// The rows of a build call as the contracts see them: key scalar and value
/// bytes.
pub open spec fn row_views<T: Token>(rows: Seq<(T, Vec<u8>)>) -> Seq<(u64, Seq<u8>)> {
    rows.map_values(|row: (T, Vec<u8>)| (row.0.spec_value(), row.1@))
}

/// Every row's key lies inside `r`.
pub open spec fn rows_in_range(rows: Seq<(u64, Seq<u8>)>, r: NodeRange) -> bool {
    forall|i: int| 0 <= i < rows.len() ==> r.spec_contains(#[trigger] rows[i].0)
}

/// Every row's value is small enough for the digest primitive.
pub open spec fn rows_fit(rows: Seq<(u64, Seq<u8>)>) -> bool {
    forall|i: int| 0 <= i < rows.len() ==> (#[trigger] rows[i].1).len() <= MAX_DIGEST_INPUT
}

/// What a sequence of row insertions does to the leaf digests: each row in
/// turn overwrites the leaf of its key with the digest of its value.
pub open spec fn apply_rows(
    leaves: Seq<Seq<u8>>,
    r: NodeRange,
    rows: Seq<(u64, Seq<u8>)>,
) -> Seq<Seq<u8>>
    decreases rows.len(),
{
    if rows.len() == 0 {
        leaves
    } else {
        apply_rows(leaves.update(rows[0].0 - r.start, hash_of(rows[0].1)), r, rows.drop_first())
    }
}

/// One step of `apply_rows`, unrolled from the front.
pub proof fn lemma_apply_rows_step(
    leaves: Seq<Seq<u8>>,
    r: NodeRange,
    rows: Seq<(u64, Seq<u8>)>,
    i: int,
)
    requires
        0 <= i < rows.len(),
    ensures
        apply_rows(leaves, r, rows.skip(i)) == apply_rows(
            leaves.update(rows[i].0 - r.start, hash_of(rows[i].1)),
            r,
            rows.skip(i + 1),
        ),
{
    assert(rows.skip(i)[0] == rows[i]);
    assert(rows.skip(i).drop_first() =~= rows.skip(i + 1));
}

/// The value of the latest row written for key `k`, if any row was.
pub open spec fn last_row_for(rows: Seq<(u64, Seq<u8>)>, k: u64) -> Option<Seq<u8>>
    decreases rows.len(),
{
    if rows.len() == 0 {
        None
    } else if rows.last().0 == k {
        Some(rows.last().1)
    } else {
        last_row_for(rows.drop_last(), k)
    }
}

/// Looking for the latest row from the front: the tail's answer wins, and
/// the head row only counts when the tail holds no row for the key.
proof fn lemma_last_row_front(rows: Seq<(u64, Seq<u8>)>, k: u64)
    requires
        rows.len() > 0,
    ensures
        last_row_for(rows, k) == (if last_row_for(rows.drop_first(), k) is Some {
            last_row_for(rows.drop_first(), k)
        } else if rows[0].0 == k {
            Some(rows[0].1)
        } else {
            None
        }),
    decreases rows.len(),
{
    if rows.len() == 1 {
        assert(rows.drop_first().len() == 0);
        assert(rows.last() == rows[0]);
    } else {
        lemma_last_row_front(rows.drop_last(), k);
        assert(rows.drop_last().drop_first() =~= rows.drop_first().drop_last());
        assert(rows.drop_first().last() == rows.last());
        assert(rows.drop_last()[0] == rows[0]);
    }
}

/// Last write wins: after a batch of insertions, each leaf holds the digest
/// of the latest value written for its key, and a leaf no row addressed
/// keeps what it held.
pub proof fn lemma_apply_rows_last_write(
    leaves: Seq<Seq<u8>>,
    r: NodeRange,
    rows: Seq<(u64, Seq<u8>)>,
)
    requires
        r.wf(),
        leaves.len() == r.key_count(),
        rows_in_range(rows, r),
    ensures
        apply_rows(leaves, r, rows).len() == leaves.len(),
        forall|i: int| 0 <= i < leaves.len() ==> apply_rows(leaves, r, rows)[i] == (
        match last_row_for(rows, (r.start + i) as u64) {
            Some(v) => hash_of(v),
            None => leaves[i],
        }),
    decreases rows.len(),
{
    if rows.len() == 0 {
    } else {
        let k0 = rows[0].0;
        let l1 = leaves.update(k0 - r.start, hash_of(rows[0].1));
        let tail = rows.drop_first();
        assert(rows_in_range(tail, r)) by {
            assert(forall|j: int| 0 <= j < tail.len() ==> r.spec_contains(
                (#[trigger] tail[j]).0,
            ));
        }
        lemma_apply_rows_last_write(l1, r, tail);
        assert forall|i: int| 0 <= i < leaves.len() implies apply_rows(leaves, r, rows)[i] == (
        match last_row_for(rows, (r.start + i) as u64) {
            Some(v) => hash_of(v),
            None => leaves[i],
        }) by {
            let ki = (r.start + i) as u64;
            lemma_last_row_front(rows, ki);
            assert(apply_rows(leaves, r, rows) == apply_rows(l1, r, tail));
            if last_row_for(tail, ki) is None {
                if k0 == ki {
                    assert(k0 - r.start == i);
                    assert(l1[i] == hash_of(rows[0].1));
                } else {
                    assert(k0 - r.start != i);
                    assert(l1[i] == leaves[i]);
                }
            }
        }
    }
}

/// A tree built over a range: no root until `build`, afterwards the full
/// skeleton of the range with the digests the inserted rows induced.
#[derive(Debug)]
pub struct MerkleTree {
    root: Option<Node>,
    tree_range: NodeRange,
}

impl MerkleTree {
    pub closed spec fn spec_root(self) -> Option<Node> {
        self.root
    }

    pub closed spec fn spec_range(self) -> NodeRange {
        self.tree_range
    }

    /// `build` has given the tree its root.
    pub open spec fn built(self) -> bool {
        self.spec_root() is Some
    }

    /// The tree's invariant: a valid range, and once built, a root that is
    /// exactly the tree of that range.
    pub open spec fn wf(self) -> bool {
        self.spec_range().wf() && (self.built() ==> self.spec_root().unwrap().is_tree_for(
            self.spec_range(),
        ))
    }

    /// The leaf digests, left to right: the tree's mathematical content.
    pub open spec fn leaves(self) -> Seq<Seq<u8>> {
        self.spec_root().unwrap().leaves_of()
    }

    /// The digest at the root, as derived from the leaves.
    pub open spec fn root_digest_spec(self) -> Seq<u8> {
        self.spec_root().unwrap().digest_spec()
    }

    /// An unbuilt tree over `range`: the skeleton appears once `build` is
    /// called.
    pub fn new(range: NodeRange) -> (t: Self)
        requires
            range.wf(),
        ensures
            t.wf(),
            !t.built(),
            t.spec_range() == range,
    {
        MerkleTree { root: None, tree_range: range }
    }

    /// Read access to the root node.
    pub fn root(&self) -> (r: &Option<Node>)
        ensures
            *r == self.spec_root(),
    {
        &self.root
    }

    /// The range the tree was created over.
    pub fn range(&self) -> (r: NodeRange)
        ensures
            r == self.spec_range(),
    {
        self.tree_range
    }

    /// The whole skeleton of `range`: bisection down to unit leaves, every
    /// leaf holding the empty-input digest.
    fn build_node(&self, range: &NodeRange) -> (n: Node)
        requires
            range.wf(),
        ensures
            n.is_tree_for(*range),
            n.leaves_of() == empty_leaves(*range),
        decreases range.spec_size(),
    {
        match range.partition_by_mid() {
            None => {
                let n = Node::empty_leaf();
                proof {
                    assert(n.is_tree_for(*range));
                    assert(n.leaves_of() =~= empty_leaves(*range));
                }
                n
            },
            Some((l, r)) => {
                proof {
                    lemma_halves(*range);
                }
                let ll = self.build_node(&l);
                let rr = self.build_node(&r);
                let n = Node::new_node(*range, ll, rr);
                proof {
                    assert(n.leaves_of() =~= empty_leaves(*range));
                }
                n
            },
        }
    }

    /// Materialize the skeleton if it is missing, then install every row.
    /// A row with a key outside the tree's range is refused as a whole: the
    /// tree is left exactly as it was and `OutOfRange` comes back.
    pub fn build<T: Token>(&mut self, rows: &Vec<(T, Vec<u8>)>) -> (res: Result<(), MerkleError>)
        requires
            old(self).wf(),
            rows_fit(row_views(rows@)),
        ensures
            final(self).wf(),
            final(self).spec_range() == old(self).spec_range(),
            (if rows_in_range(row_views(rows@), old(self).spec_range()) {
                res is Ok && final(self).built() && final(self).leaves() == apply_rows(
                    if old(self).built() {
                        old(self).leaves()
                    } else {
                        empty_leaves(old(self).spec_range())
                    },
                    old(self).spec_range(),
                    row_views(rows@),
                )
            } else {
                res == Err::<(), MerkleError>(MerkleError::OutOfRange) && *final(self) == *old(
                    self,
                )
            }),
    {
        let ghost rv = row_views(rows@);
        let mut i: usize = 0;
        while i < rows.len()
            invariant
                i <= rows@.len(),
                rv == row_views(rows@),
                *self == *old(self),
                old(self).wf(),
                forall|j: int| 0 <= j < i ==> old(self).spec_range().spec_contains(
                    #[trigger] rv[j].0,
                ),
            decreases rows@.len() - i,
        {
            let row = &rows[i];
            if !self.tree_range.is_contain(&row.0) {
                proof {
                    assert(!old(self).spec_range().spec_contains(rv[i as int].0));
                }
                return Err(MerkleError::OutOfRange);
            }
            i = i + 1;
        }
        if self.root.is_none() {
            let range = self.tree_range;
            let n = self.build_node(&range);
            self.root = Some(n);
        }
        self.insert_nodes(rows);
        Ok(())
    }

    /// Install every row into the built skeleton.
    fn insert_nodes<T: Token>(&mut self, rows: &Vec<(T, Vec<u8>)>)
        requires
            old(self).wf(),
            old(self).built(),
            rows_fit(row_views(rows@)),
            rows_in_range(row_views(rows@), old(self).spec_range()),
        ensures
            final(self).wf(),
            final(self).built(),
            final(self).spec_range() == old(self).spec_range(),
            final(self).leaves() == apply_rows(
                old(self).leaves(),
                old(self).spec_range(),
                row_views(rows@),
            ),
    {
        let ghost rv = row_views(rows@);
        let ghost r = old(self).spec_range();
        let ghost leaves0 = old(self).leaves();
        let mut i: usize = 0;
        proof {
            assert(rv.skip(0) =~= rv);
        }
        while i < rows.len()
            invariant
                i <= rows@.len(),
                rv == row_views(rows@),
                rows_fit(rv),
                rows_in_range(rv, r),
                self.wf(),
                self.built(),
                self.spec_range() == r,
                apply_rows(leaves0, r, rv) == apply_rows(self.leaves(), r, rv.skip(i as int)),
            decreases rows@.len() - i,
        {
            let row = &rows[i];
            let ghost cur = self.leaves();
            proof {
                lemma_leaves_len(self.spec_root().unwrap(), r);
                lemma_tree_wf_node(self.spec_root().unwrap(), r);
            }
            match &mut self.root {
                Some(root) => {
                    let _ = root.update(&row.0, &row.1);
                },
                None => {
                    proof {
                        assert(false);
                    }
                },
            }
            proof {
                let v = rv[i as int].0;
                let h = hash_of(rv[i as int].1);
                let root_now = self.spec_root().unwrap();
                if r.spec_size() == 0 {
                    assert(v == r.start);
                    assert(root_now.is_tree_for(r));
                    assert(self.leaves() =~= cur.update(v - r.start, h));
                } else {
                    assert(root_now.is_tree_for(r));
                    assert(self.leaves() == cur.update(v - r.start, h));
                }
                lemma_apply_rows_step(cur, r, rv, i as int);
            }
            i = i + 1;
        }
        proof {
            assert(rv.skip(rv.len() as int) =~= Seq::<(u64, Seq<u8>)>::empty());
        }
    }
    /// Install one row. The tree must be built, and the key must lie in its
    /// range; each failure is reported and leaves the tree untouched.
    pub fn insert<T: Token>(&mut self, key: &T, value: &Vec<u8>) -> (res: Result<
        (),
        MerkleError,
    >)
        requires
            old(self).wf(),
            value@.len() <= MAX_DIGEST_INPUT,
        ensures
            final(self).wf(),
            final(self).spec_range() == old(self).spec_range(),
            final(self).built() == old(self).built(),
            (if !old(self).built() {
                res == Err::<(), MerkleError>(MerkleError::UnbuiltTree) && *final(self) == *old(
                    self,
                )
            } else if old(self).spec_range().spec_contains(key.spec_value()) {
                res is Ok && final(self).leaves() == old(self).leaves().update(
                    key.spec_value() - old(self).spec_range().start,
                    hash_of(value@),
                )
            } else {
                res == Err::<(), MerkleError>(MerkleError::OutOfRange) && *final(self) == *old(
                    self,
                )
            }),
    {
        let ghost r = old(self).spec_range();
        let ghost cur = old(self).leaves();
        if self.root.is_none() {
            return Err(MerkleError::UnbuiltTree);
        }
        if !self.tree_range.is_contain(key) {
            return Err(MerkleError::OutOfRange);
        }
        proof {
            lemma_tree_wf_node(self.spec_root().unwrap(), r);
            lemma_leaves_len(self.spec_root().unwrap(), r);
        }
        match &mut self.root {
            Some(root) => {
                let _ = root.update(key, value);
            },
            None => {
                proof {
                    assert(false);
                }
            },
        }
        proof {
            let v = key.spec_value();
            let h = hash_of(value@);
            let root_now = self.spec_root().unwrap();
            if r.spec_size() == 0 {
                assert(v == r.start);
                assert(root_now.is_tree_for(r));
                assert(self.leaves() =~= cur.update(v - r.start, h));
            } else {
                assert(root_now.is_tree_for(r));
            }
        }
        Ok(())
    }

    /// Install a batch of rows. The batch is refused as a whole when the
    /// tree is unbuilt or some key falls outside its range.
    pub fn insert_all<T: Token>(&mut self, rows: &Vec<RowHash<T>>) -> (res: Result<
        (),
        MerkleError,
    >)
        requires
            old(self).wf(),
            rows_fit(rowhash_views(rows@)),
        ensures
            final(self).wf(),
            final(self).spec_range() == old(self).spec_range(),
            (if !old(self).built() {
                res == Err::<(), MerkleError>(MerkleError::UnbuiltTree) && *final(self) == *old(
                    self,
                )
            } else if rows_in_range(rowhash_views(rows@), old(self).spec_range()) {
                res is Ok && final(self).built() && final(self).leaves() == apply_rows(
                    old(self).leaves(),
                    old(self).spec_range(),
                    rowhash_views(rows@),
                )
            } else {
                res == Err::<(), MerkleError>(MerkleError::OutOfRange) && *final(self) == *old(
                    self,
                )
            }),
    {
        let ghost rv = rowhash_views(rows@);
        let ghost r = old(self).spec_range();
        let ghost leaves0 = old(self).leaves();
        if self.root.is_none() {
            return Err(MerkleError::UnbuiltTree);
        }
        let mut i: usize = 0;
        while i < rows.len()
            invariant
                i <= rows@.len(),
                rv == rowhash_views(rows@),
                r == old(self).spec_range(),
                *self == *old(self),
                old(self).wf(),
                old(self).built(),
                forall|j: int| 0 <= j < i ==> old(self).spec_range().spec_contains(
                    #[trigger] rv[j].0,
                ),
            decreases rows@.len() - i,
        {
            let row = &rows[i];
            if !self.tree_range.is_contain(&row.key) {
                proof {
                    assert(rv.len() == rows@.len());
                    assert(rv[i as int] == (rows@[i as int].key.spec_value(), rows@[i as int].value@));
                    assert(!rows_in_range(rv, r)) by {
                        assert(!r.spec_contains(rv[i as int].0));
                    }
                }
                return Err(MerkleError::OutOfRange);
            }
            i = i + 1;
        }
        proof {
            assert(rv.skip(0) =~= rv);
        }
        let mut k: usize = 0;
        while k < rows.len()
            invariant
                k <= rows@.len(),
                rv == rowhash_views(rows@),
                rows_fit(rv),
                rows_in_range(rv, r),
                self.wf(),
                self.built(),
                self.spec_range() == r,
                apply_rows(leaves0, r, rv) == apply_rows(self.leaves(), r, rv.skip(k as int)),
            decreases rows@.len() - k,
        {
            let row = &rows[k];
            let ghost cur = self.leaves();
            let res = self.insert(&row.key, &row.value);
            proof {
                lemma_apply_rows_step(cur, r, rv, k as int);
            }
            k = k + 1;
        }
        proof {
            assert(rv.skip(rv.len() as int) =~= Seq::<(u64, Seq<u8>)>::empty());
        }
        Ok(())
    }

    /// Compare this tree against another built over the same range (or one
    /// whose structure this call can locate inside the other), returning the
    /// minimal covering set of ranges whose content differs.
    pub fn difference(&self, other: &MerkleTree) -> (res: Result<Vec<NodeRange>, MerkleError>)
        requires
            self.wf(),
            other.wf(),
        ensures
            crate::difference::difference_result(*self, *other, res),
    {
        crate::difference::build(self, other, &crate::partitioner::IPartitioner {  })
    }

    /// The digest summarizing the whole tree, recomputed from the leaves up.
    pub fn root_digest(&self) -> (res: Result<Vec<u8>, MerkleError>)
        requires
            self.wf(),
        ensures
            (match res {
                Ok(d) => self.built() && d@ == self.root_digest_spec() && d@.len() == DIGEST_LEN,
                Err(e) => e == MerkleError::UnbuiltTree && !self.built(),
            }),
    {
        match &self.root {
            Some(n) => {
                proof {
                    lemma_tree_wf_node(self.spec_root().unwrap(), self.spec_range());
                }
                Ok(n.digest())
            },
            None => Err(MerkleError::UnbuiltTree),
        }
    }
}

/// Determinism of construction: two built trees over the same range holding
/// the same leaf digests have the same root digest, however those leaves
/// came about.
pub proof fn lemma_build_deterministic(a: MerkleTree, b: MerkleTree)
    requires
        a.wf(),
        b.wf(),
        a.built(),
        b.built(),
        a.spec_range() == b.spec_range(),
        a.leaves() == b.leaves(),
    ensures
        a.root_digest_spec() == b.root_digest_spec(),
{
    crate::node::lemma_digest_from_leaves(
        a.spec_root().unwrap(),
        b.spec_root().unwrap(),
        a.spec_range(),
    );
}

/// Insertion order is irrelevant across distinct keys: swapping two adjacent
/// rows whose keys differ leaves the final leaf digests unchanged.
pub proof fn lemma_insert_order_irrelevant(
    leaves: Seq<Seq<u8>>,
    r: NodeRange,
    rows: Seq<(u64, Seq<u8>)>,
    i: int,
)
    requires
        r.wf(),
        leaves.len() == r.key_count(),
        rows_in_range(rows, r),
        0 <= i,
        i + 1 < rows.len(),
        rows[i].0 != rows[i + 1].0,
    ensures
        apply_rows(leaves, r, rows.update(i, rows[i + 1]).update(i + 1, rows[i])) == apply_rows(
            leaves,
            r,
            rows,
        ),
    decreases i,
{
    let swapped = rows.update(i, rows[i + 1]).update(i + 1, rows[i]);
    if i == 0 {
        let a0 = leaves.update(rows[0].0 - r.start, hash_of(rows[0].1));
        let l1 = a0.update(rows[1].0 - r.start, hash_of(rows[1].1));
        let b0 = leaves.update(rows[1].0 - r.start, hash_of(rows[1].1));
        let l2 = b0.update(rows[0].0 - r.start, hash_of(rows[0].1));
        assert(l1 =~= l2);
        let tail = rows.drop_first().drop_first();
        assert(rows.drop_first()[0] == rows[1]);
        assert(apply_rows(leaves, r, rows) == apply_rows(a0, r, rows.drop_first()));
        assert(apply_rows(a0, r, rows.drop_first()) == apply_rows(l1, r, tail));
        assert(swapped[0] == rows[1]);
        assert(swapped.drop_first()[0] == rows[0]);
        assert(swapped.drop_first().drop_first() =~= tail);
        assert(apply_rows(leaves, r, swapped) == apply_rows(b0, r, swapped.drop_first()));
        assert(apply_rows(b0, r, swapped.drop_first()) == apply_rows(
            l2,
            r,
            swapped.drop_first().drop_first(),
        ));
    } else {
        let head_applied = leaves.update(rows[0].0 - r.start, hash_of(rows[0].1));
        assert(swapped[0] == rows[0]);
        assert(swapped.drop_first() =~= rows.drop_first().update(i - 1, rows.drop_first()[i]).update(
            i,
            rows.drop_first()[i - 1],
        ));
        assert(rows_in_range(rows.drop_first(), r)) by {
            assert(forall|j: int| 0 <= j < rows.drop_first().len() ==> r.spec_contains(
                (#[trigger] rows.drop_first()[j]).0,
            ));
        }
        lemma_insert_order_irrelevant(head_applied, r, rows.drop_first(), i - 1);
    }
}

/// Determinism across insertion orders: two batches that agree on the
/// latest value written for every key of the range install identical leaf
/// digests — whatever order the rows arrived in.
pub proof fn lemma_rows_order_independent(
    leaves: Seq<Seq<u8>>,
    r: NodeRange,
    rows1: Seq<(u64, Seq<u8>)>,
    rows2: Seq<(u64, Seq<u8>)>,
)
    requires
        r.wf(),
        leaves.len() == r.key_count(),
        rows_in_range(rows1, r),
        rows_in_range(rows2, r),
        forall|k: u64| r.spec_contains(k) ==> last_row_for(rows1, k) == last_row_for(rows2, k),
    ensures
        apply_rows(leaves, r, rows1) == apply_rows(leaves, r, rows2),
{
    lemma_apply_rows_last_write(leaves, r, rows1);
    lemma_apply_rows_last_write(leaves, r, rows2);
    assert forall|i: int| 0 <= i < leaves.len() implies apply_rows(leaves, r, rows1)[i]
        == apply_rows(leaves, r, rows2)[i] by {
        let ki = (r.start + i) as u64;
        assert(r.spec_contains(ki));
    }
    assert(apply_rows(leaves, r, rows1) =~= apply_rows(leaves, r, rows2));
}

/// Idempotent insertion: writing the same row a second time changes neither
/// the leaves nor, by `lemma_build_deterministic`, the root digest.
pub proof fn lemma_idempotent_insert(
    leaves: Seq<Seq<u8>>,
    r: NodeRange,
    row: (u64, Seq<u8>),
)
    requires
        r.wf(),
        leaves.len() == r.key_count(),
        r.spec_contains(row.0),
    ensures
        apply_rows(leaves, r, seq![row, row]) == apply_rows(leaves, r, seq![row]),
{
    let once = leaves.update(row.0 - r.start, hash_of(row.1));
    let twice = once.update(row.0 - r.start, hash_of(row.1));
    assert(twice =~= once);
    assert(seq![row, row][0] == row);
    assert(seq![row, row].drop_first() =~= seq![row]);
    assert(seq![row].drop_first() =~= Seq::<(u64, Seq<u8>)>::empty());
    assert(apply_rows(leaves, r, seq![row, row]) == apply_rows(once, r, seq![row]));
    assert(apply_rows(once, r, seq![row]) == apply_rows(
        twice,
        r,
        Seq::<(u64, Seq<u8>)>::empty(),
    ));
    assert(apply_rows(leaves, r, seq![row]) == apply_rows(
        once,
        r,
        Seq::<(u64, Seq<u8>)>::empty(),
    ));
}

} // verus!
