//! The tree-difference protocol: compare two trees over a range and report
//! the minimal covering set of sub-ranges whose content diverges.
//!
//! Every recursive step classifies a range as `Complete` (digests agree),
//! `Partial` (part of the bisection was resolved), or `Non` (nothing below
//! this range could be resolved); unresolved sub-ranges are pushed into the
//! result set as they are found, and a fully divergent tree is reported as
//! its whole top-level range.

use vstd::prelude::*;

use crate::error::MerkleError;
use crate::merkle_tree::MerkleTree;
use crate::node::{
    lemma_halves, lemma_search_in_tree, lemma_tree_children_wf, lemma_tree_wf_node, Node,
    NodeRange,
};
use crate::partitioner::Partitioner;

verus! {

/// The tri-state outcome of comparing one range across two trees.
#[derive(PartialEq, Eq, Structural, PartialOrd, Debug)]
pub enum Consistency {
    Complete,
    Partial,
    Non,
}

/// The classification `difference` computes for a range: a unit range is
/// judged by its digests; a non-unit range combines the judgments of its two
/// halves, where a half with agreeing digests is `Complete` without further
/// work and a half with differing digests is judged recursively.
pub open spec fn spec_consistency(a: Node, b: Node, r: NodeRange) -> Consistency
    decreases r.spec_size(),
    when r.wf()
    via spec_consistency_dec
{
    if r.spec_size() == 0 {
        if a.digest_spec() == b.digest_spec() {
            Consistency::Complete
        } else {
            Consistency::Non
        }
    } else {
        let lc = if a.child_l().digest_spec() == b.child_l().digest_spec() {
            Consistency::Complete
        } else {
            spec_consistency(a.child_l(), b.child_l(), r.left_half())
        };
        let rc = if a.child_r().digest_spec() == b.child_r().digest_spec() {
            Consistency::Complete
        } else {
            spec_consistency(a.child_r(), b.child_r(), r.right_half())
        };
        if lc == Consistency::Complete && rc == Consistency::Complete {
            Consistency::Complete
        } else if lc == Consistency::Non && rc == Consistency::Non {
            Consistency::Non
        } else {
            Consistency::Partial
        }
    }
}

#[via_fn]
proof fn spec_consistency_dec(a: Node, b: Node, r: NodeRange) {
    if r.wf() && r.spec_size() != 0 {
        lemma_halves(r);
    }
}

/// The ranges `difference` pushes while classifying `r`, in push order: what
/// the recursion into the left half reported, then the right half's report,
/// then whichever half was itself left unresolved beside a resolved sibling.
pub open spec fn spec_difference_set(a: Node, b: Node, r: NodeRange) -> Seq<NodeRange>
    decreases r.spec_size(),
    when r.wf()
    via spec_difference_set_dec
{
    if r.spec_size() == 0 {
        Seq::empty()
    } else {
        let lc = if a.child_l().digest_spec() == b.child_l().digest_spec() {
            Consistency::Complete
        } else {
            spec_consistency(a.child_l(), b.child_l(), r.left_half())
        };
        let rc = if a.child_r().digest_spec() == b.child_r().digest_spec() {
            Consistency::Complete
        } else {
            spec_consistency(a.child_r(), b.child_r(), r.right_half())
        };
        let dl = if a.child_l().digest_spec() == b.child_l().digest_spec() {
            Seq::<NodeRange>::empty()
        } else {
            spec_difference_set(a.child_l(), b.child_l(), r.left_half())
        };
        let dr = if a.child_r().digest_spec() == b.child_r().digest_spec() {
            Seq::<NodeRange>::empty()
        } else {
            spec_difference_set(a.child_r(), b.child_r(), r.right_half())
        };
        let tail = if lc == Consistency::Non && rc == Consistency::Non {
            Seq::<NodeRange>::empty()
        } else if lc == Consistency::Non {
            seq![r.left_half()]
        } else if rc == Consistency::Non {
            seq![r.right_half()]
        } else {
            Seq::<NodeRange>::empty()
        };
        dl + dr + tail
    }
}

#[via_fn]
proof fn spec_difference_set_dec(a: Node, b: Node, r: NodeRange) {
    if r.wf() && r.spec_size() != 0 {
        lemma_halves(r);
    }
}

/// Everything a difference run reports for `r`: nothing when the digests
/// already agree, the pushed set otherwise, and the whole range on top when
/// the comparison resolved nothing below it.
pub open spec fn full_difference(a: Node, b: Node, r: NodeRange) -> Seq<NodeRange> {
    if a.digest_spec() == b.digest_spec() {
        Seq::empty()
    } else if spec_consistency(a, b, r) == Consistency::Non {
        spec_difference_set(a, b, r).push(r)
    } else {
        spec_difference_set(a, b, r)
    }
}

/// Judge one sub-range: digests that agree settle it as `Complete`; digests
/// that differ send the comparison one level down.
fn inner_difference<P: Partitioner>(
    origin: &Node,
    replica: &Node,
    range: &NodeRange,
    diff: &mut Vec<NodeRange>,
    p: &P,
) -> (c: Consistency)
    requires
        origin.is_tree_for(*range),
        replica.is_tree_for(*range),
    ensures
        c == (if origin.digest_spec() == replica.digest_spec() {
            Consistency::Complete
        } else {
            spec_consistency(*origin, *replica, *range)
        }),
        final(diff)@ == old(diff)@ + (if origin.digest_spec() == replica.digest_spec() {
            Seq::<NodeRange>::empty()
        } else {
            spec_difference_set(*origin, *replica, *range)
        }),
    decreases range.spec_size(), 1int,
{
    proof {
        lemma_tree_wf_node(*origin, *range);
        lemma_tree_wf_node(*replica, *range);
    }
    if origin.is_same_digest(replica) {
        proof {
            assert(diff@ =~= old(diff)@ + Seq::<NodeRange>::empty());
        }
        Consistency::Complete
    } else {
        difference(origin, replica, range, diff, p)
    }
}

/// Classify `range` across two trees of identical shape over it, pushing
/// every unresolved sub-range into `diff` as it is found.
fn difference<P: Partitioner>(
    origin: &Node,
    replica: &Node,
    range: &NodeRange,
    diff: &mut Vec<NodeRange>,
    p: &P,
) -> (c: Consistency)
    requires
        origin.is_tree_for(*range),
        replica.is_tree_for(*range),
    ensures
        c == spec_consistency(*origin, *replica, *range),
        final(diff)@ == old(diff)@ + spec_difference_set(*origin, *replica, *range),
    decreases range.spec_size(), 0int,
{
    proof {
        lemma_tree_wf_node(*origin, *range);
        lemma_tree_wf_node(*replica, *range);
    }
    match p.call(range) {
        None => {
            proof {
                assert(diff@ =~= old(diff)@ + Seq::<NodeRange>::empty());
            }
            if origin.is_same_digest(replica) {
                Consistency::Complete
            } else {
                Consistency::Non
            }
        },
        Some((l, r)) => {
            proof {
                lemma_halves(*range);
                lemma_tree_children_wf(*origin, *range);
                lemma_tree_children_wf(*replica, *range);
            }
            match (origin, replica) {
                (
                    Node::Inner { left: la, right: ra, .. },
                    Node::Inner { left: lb, right: rb, .. },
                ) => {
                    let lc = inner_difference(la, lb, &l, diff, p);
                    let rc = inner_difference(ra, rb, &r, diff, p);
                    let c = match (lc, rc) {
                        (Consistency::Complete, Consistency::Complete) => Consistency::Complete,
                        (Consistency::Non, Consistency::Non) => Consistency::Non,
                        (Consistency::Non, _) => {
                            diff.push(l);
                            Consistency::Partial
                        },
                        (_, Consistency::Non) => {
                            diff.push(r);
                            Consistency::Partial
                        },
                        (_, _) => Consistency::Partial,
                    };
                    proof {
                        assert(diff@ =~= old(diff)@ + spec_difference_set(
                            *origin,
                            *replica,
                            *range,
                        ));
                    }
                    c
                },
                _ => {
                    // Provably unreachable: the tree of a non-unit range is
                    // an inner node.
                    proof {
                        assert(false);
                    }
                    Consistency::Non
                },
            }
        },
    }
}

/// What `build` answers for a given pair of trees: the errors of an unbuilt
/// pair, of incomparable top-level ranges, and of a failed structural
/// lookup, and otherwise the full difference report over the origin's range.
pub open spec fn difference_result(
    origin: MerkleTree,
    replica: MerkleTree,
    res: Result<Vec<NodeRange>, MerkleError>,
) -> bool {
    let cr = origin.spec_range();
    let rr = replica.spec_range();
    if !origin.built() || !replica.built() {
        res == Err::<Vec<NodeRange>, MerkleError>(MerkleError::UnbuiltTree)
    } else if rr == cr {
        res matches Ok(v) && v@ == full_difference(
            origin.spec_root().unwrap(),
            replica.spec_root().unwrap(),
            cr,
        )
    } else if !rr.spec_covers(cr) {
        res == Err::<Vec<NodeRange>, MerkleError>(MerkleError::IncompatibleTrees)
    } else {
        let found = replica.spec_root().unwrap().spec_search_in(cr);
        if found is Some && found.unwrap().node_range() == cr {
            res matches Ok(v) && v@ == full_difference(
                origin.spec_root().unwrap(),
                found.unwrap(),
                cr,
            )
        } else {
            res == Err::<Vec<NodeRange>, MerkleError>(MerkleError::RangeNotFound)
        }
    }
}

/// Compare two built trees. The comparison range is the origin's top-level
/// range; the replica must either share it or structurally contain a node
/// built over exactly that range.
pub fn build<P: Partitioner>(origin: &MerkleTree, replica: &MerkleTree, p: &P) -> (res: Result<
    Vec<NodeRange>,
    MerkleError,
>)
    requires
        origin.wf(),
        replica.wf(),
    ensures
        difference_result(*origin, *replica, res),
{
    let cr = origin.range();
    let rr = replica.range();
    match (origin.root(), replica.root()) {
        (Some(o), Some(rep)) => {
            if rr == cr {
                Ok(run_difference(o, rep, &cr, p))
            } else if rr.start <= cr.start && cr.end <= rr.end {
                match rep.search_in(&cr) {
                    Some(m) => {
                        proof {
                            lemma_search_in_tree(*rep, rr, cr);
                        }
                        match m {
                            Node::Inner { range: mr, .. } => {
                                if *mr == cr {
                                    Ok(run_difference(o, m, &cr, p))
                                } else {
                                    Err(MerkleError::RangeNotFound)
                                }
                            },
                            Node::Leaf { .. } => {
                                // Provably unreachable: a found node is
                                // always an inner node.
                                proof {
                                    assert(false);
                                }
                                Err(MerkleError::RangeNotFound)
                            },
                        }
                    },
                    None => Err(MerkleError::RangeNotFound),
                }
            } else {
                Err(MerkleError::IncompatibleTrees)
            }
        },
        _ => Err(MerkleError::UnbuiltTree),
    }
}

/// Run the protocol over two nodes built over exactly `range`, reporting the
/// whole range when nothing below it could be resolved.
fn run_difference<P: Partitioner>(
    origin: &Node,
    replica: &Node,
    range: &NodeRange,
    p: &P,
) -> (v: Vec<NodeRange>)
    requires
        origin.is_tree_for(*range),
        replica.is_tree_for(*range),
    ensures
        v@ == full_difference(*origin, *replica, *range),
{
    proof {
        lemma_tree_wf_node(*origin, *range);
        lemma_tree_wf_node(*replica, *range);
    }
    let mut diff: Vec<NodeRange> = Vec::new();
    if origin.is_same_digest(replica) {
        return diff;
    }
    let c = difference(origin, replica, range, &mut diff, p);
    match c {
        Consistency::Non => {
            diff.push(*range);
        },
        _ => {},
    }
    proof {
        assert(diff@ =~= full_difference(*origin, *replica, *range));
    }
    diff
}

/// The leaf digests of the two trees disagree at leaf index `i`.
pub open spec fn leaf_differs(a: Node, b: Node, i: int) -> bool {
    a.leaves_of()[i] != b.leaves_of()[i]
}

/// A reported range is honest for the pair compared over `r`: it is a valid
/// range inside `r` and some key it covers has differing leaf digests.
pub open spec fn range_reports_divergence(a: Node, b: Node, r: NodeRange, rng: NodeRange) -> bool {
    rng.wf() && r.spec_covers(rng) && exists|i: int|
        0 <= i < r.key_count() && rng.start <= r.start + i <= rng.end && #[trigger] leaf_differs(
            a,
            b,
            i,
        )
}

/// Some range of the set covers `key`.
pub open spec fn covered(rs: Seq<NodeRange>, key: int) -> bool {
    exists|j: int| 0 <= j < rs.len() && (#[trigger] rs[j]).start <= key <= rs[j].end
}

/// An honest report about the left half is an honest report about the whole
/// range.
proof fn lemma_lift_left(a: Node, b: Node, r: NodeRange, rng: NodeRange)
    requires
        a.is_tree_for(r),
        b.is_tree_for(r),
        r.spec_size() > 0,
        range_reports_divergence(a.child_l(), b.child_l(), r.left_half(), rng),
    ensures
        range_reports_divergence(a, b, r, rng),
{
    lemma_halves(r);
    lemma_tree_children_wf(a, r);
    lemma_tree_children_wf(b, r);
    crate::node::lemma_leaves_len(a.child_l(), r.left_half());
    crate::node::lemma_leaves_len(b.child_l(), r.left_half());
    let lh = r.left_half();
    let i = choose|i: int|
        0 <= i < lh.key_count() && rng.start <= lh.start + i <= rng.end && #[trigger] leaf_differs(
            a.child_l(),
            b.child_l(),
            i,
        );
    assert(a.leaves_of() == a.child_l().leaves_of() + a.child_r().leaves_of());
    assert(a.leaves_of()[i] == a.child_l().leaves_of()[i]);
    assert(b.leaves_of()[i] == b.child_l().leaves_of()[i]);
    assert(leaf_differs(a, b, i));
    assert(0 <= i < r.key_count());
    assert(rng.start <= r.start + i <= rng.end);
}

/// An honest report about the right half is an honest report about the
/// whole range.
proof fn lemma_lift_right(a: Node, b: Node, r: NodeRange, rng: NodeRange)
    requires
        a.is_tree_for(r),
        b.is_tree_for(r),
        r.spec_size() > 0,
        range_reports_divergence(a.child_r(), b.child_r(), r.right_half(), rng),
    ensures
        range_reports_divergence(a, b, r, rng),
{
    lemma_halves(r);
    lemma_tree_children_wf(a, r);
    lemma_tree_children_wf(b, r);
    crate::node::lemma_leaves_len(a.child_l(), r.left_half());
    crate::node::lemma_leaves_len(b.child_l(), r.left_half());
    crate::node::lemma_leaves_len(a.child_r(), r.right_half());
    crate::node::lemma_leaves_len(b.child_r(), r.right_half());
    let lh = r.left_half();
    let rh = r.right_half();
    let lc = lh.key_count();
    let i = choose|i: int|
        0 <= i < rh.key_count() && rng.start <= rh.start + i <= rng.end && #[trigger] leaf_differs(
            a.child_r(),
            b.child_r(),
            i,
        );
    assert(a.leaves_of() == a.child_l().leaves_of() + a.child_r().leaves_of());
    assert(a.leaves_of()[lc + i] == a.child_r().leaves_of()[i]);
    assert(b.leaves_of()[lc + i] == b.child_r().leaves_of()[i]);
    assert(leaf_differs(a, b, lc + i));
    assert(rh.start == r.start + lc);
    assert(rng.start <= r.start + (lc + i) <= rng.end);
    assert(0 <= lc + i < r.key_count());
}

/// Soundness of the report: every range the protocol pushes covers at least
/// one key whose leaf digests really differ, and a range judged wholly
/// unresolved holds at least one differing key.
pub proof fn lemma_difference_set_sound(a: Node, b: Node, r: NodeRange)
    requires
        a.is_tree_for(r),
        b.is_tree_for(r),
    ensures
        forall|j: int| 0 <= j < spec_difference_set(a, b, r).len()
            ==> range_reports_divergence(a, b, r, #[trigger] spec_difference_set(a, b, r)[j]),
        (spec_consistency(a, b, r) == Consistency::Non && a.digest_spec() != b.digest_spec())
            ==> exists|i: int| 0 <= i < r.key_count() && #[trigger] leaf_differs(a, b, i),
    decreases r.spec_size(),
{
    crate::node::lemma_leaves_len(a, r);
    crate::node::lemma_leaves_len(b, r);
    if r.spec_size() == 0 {
        if a.digest_spec() != b.digest_spec() {
            assert(leaf_differs(a, b, 0));
        }
    } else {
        lemma_halves(r);
        lemma_tree_children_wf(a, r);
        lemma_tree_children_wf(b, r);
        let lh = r.left_half();
        let rh = r.right_half();
        let al = a.child_l();
        let bl = b.child_l();
        let ar = a.child_r();
        let br = b.child_r();
        crate::node::lemma_leaves_len(al, lh);
        crate::node::lemma_leaves_len(bl, lh);
        crate::node::lemma_leaves_len(ar, rh);
        crate::node::lemma_leaves_len(br, rh);
        lemma_difference_set_sound(al, bl, lh);
        lemma_difference_set_sound(ar, br, rh);
        let lc = if al.digest_spec() == bl.digest_spec() {
            Consistency::Complete
        } else {
            spec_consistency(al, bl, lh)
        };
        let rc = if ar.digest_spec() == br.digest_spec() {
            Consistency::Complete
        } else {
            spec_consistency(ar, br, rh)
        };
        let dl = if al.digest_spec() == bl.digest_spec() {
            Seq::<NodeRange>::empty()
        } else {
            spec_difference_set(al, bl, lh)
        };
        let dr = if ar.digest_spec() == br.digest_spec() {
            Seq::<NodeRange>::empty()
        } else {
            spec_difference_set(ar, br, rh)
        };
        let tail = if lc == Consistency::Non && rc == Consistency::Non {
            Seq::<NodeRange>::empty()
        } else if lc == Consistency::Non {
            seq![lh]
        } else if rc == Consistency::Non {
            seq![rh]
        } else {
            Seq::<NodeRange>::empty()
        };
        let s = spec_difference_set(a, b, r);
        assert(s == dl + dr + tail);
        if lc == Consistency::Non {
            let i = choose|i: int|
                0 <= i < lh.key_count() && #[trigger] leaf_differs(al, bl, i);
            assert(leaf_differs(al, bl, i));
            assert(range_reports_divergence(al, bl, lh, lh));
            lemma_lift_left(a, b, r, lh);
        }
        if rc == Consistency::Non {
            let i = choose|i: int|
                0 <= i < rh.key_count() && #[trigger] leaf_differs(ar, br, i);
            assert(leaf_differs(ar, br, i));
            assert(range_reports_divergence(ar, br, rh, rh));
            lemma_lift_right(a, b, r, rh);
        }
        assert forall|j: int| 0 <= j < s.len() implies range_reports_divergence(
            a,
            b,
            r,
            #[trigger] s[j],
        ) by {
            if j < dl.len() {
                assert(s[j] == dl[j]);
                assert(range_reports_divergence(al, bl, lh, dl[j]));
                lemma_lift_left(a, b, r, dl[j]);
            } else if j < dl.len() + dr.len() {
                assert(s[j] == dr[j - dl.len()]);
                assert(range_reports_divergence(ar, br, rh, dr[j - dl.len()]));
                lemma_lift_right(a, b, r, dr[j - dl.len()]);
            } else {
                assert(tail.len() > 0 && s[j] == tail[0]);
                if lc == Consistency::Non {
                    assert(s[j] == lh);
                } else {
                    assert(rc == Consistency::Non && s[j] == rh);
                }
            }
        }
        if spec_consistency(a, b, r) == Consistency::Non && a.digest_spec() != b.digest_spec() {
            assert(lc == Consistency::Non);
            let i = choose|i: int|
                0 <= i < lh.key_count() && #[trigger] leaf_differs(al, bl, i);
            assert(a.leaves_of()[i] == al.leaves_of()[i]);
            assert(b.leaves_of()[i] == bl.leaves_of()[i]);
            assert(leaf_differs(a, b, i));
            assert(0 <= i < r.key_count());
        }
    }
}

/// Two trees whose digests differ are never judged `Complete`: the digest
/// of an inner node is a function of its children's digests, so differing
/// digests always show up in at least one half.
pub proof fn lemma_consistency_not_complete(a: Node, b: Node, r: NodeRange)
    requires
        a.is_tree_for(r),
        b.is_tree_for(r),
        a.digest_spec() != b.digest_spec(),
    ensures
        spec_consistency(a, b, r) != Consistency::Complete,
    decreases r.spec_size(),
{
    if r.spec_size() == 0 {
    } else {
        lemma_halves(r);
        lemma_tree_children_wf(a, r);
        lemma_tree_children_wf(b, r);
        let al = a.child_l();
        let bl = b.child_l();
        let ar = a.child_r();
        let br = b.child_r();
        if al.digest_spec() == bl.digest_spec() && ar.digest_spec() == br.digest_spec() {
            assert(a.digest_spec() == b.digest_spec());
        } else if al.digest_spec() != bl.digest_spec() {
            lemma_consistency_not_complete(al, bl, r.left_half());
        } else {
            lemma_consistency_not_complete(ar, br, r.right_half());
        }
    }
}

/// Divergence is never reported silently: when the digests differ, the
/// report is non-empty.
pub proof fn lemma_difference_nonempty(a: Node, b: Node, r: NodeRange)
    requires
        a.is_tree_for(r),
        b.is_tree_for(r),
        a.digest_spec() != b.digest_spec(),
    ensures
        full_difference(a, b, r).len() > 0,
        spec_consistency(a, b, r) == Consistency::Partial ==> spec_difference_set(a, b, r).len()
            > 0,
    decreases r.spec_size(),
{
    lemma_consistency_not_complete(a, b, r);
    if spec_consistency(a, b, r) == Consistency::Non {
    } else {
        assert(spec_consistency(a, b, r) == Consistency::Partial);
        assert(r.spec_size() > 0);
        lemma_halves(r);
        lemma_tree_children_wf(a, r);
        lemma_tree_children_wf(b, r);
        let al = a.child_l();
        let bl = b.child_l();
        let ar = a.child_r();
        let br = b.child_r();
        let lc = if al.digest_spec() == bl.digest_spec() {
            Consistency::Complete
        } else {
            spec_consistency(al, bl, r.left_half())
        };
        let rc = if ar.digest_spec() == br.digest_spec() {
            Consistency::Complete
        } else {
            spec_consistency(ar, br, r.right_half())
        };
        let dl = if al.digest_spec() == bl.digest_spec() {
            Seq::<NodeRange>::empty()
        } else {
            spec_difference_set(al, bl, r.left_half())
        };
        let dr = if ar.digest_spec() == br.digest_spec() {
            Seq::<NodeRange>::empty()
        } else {
            spec_difference_set(ar, br, r.right_half())
        };
        if lc == Consistency::Non || rc == Consistency::Non {
            assert(spec_difference_set(a, b, r).len() > 0);
        } else if lc == Consistency::Partial {
            lemma_difference_nonempty(al, bl, r.left_half());
            assert(dl.len() > 0);
            assert(spec_difference_set(a, b, r).len() > 0);
        } else {
            assert(rc == Consistency::Partial);
            lemma_difference_nonempty(ar, br, r.right_half());
            assert(dr.len() > 0);
            assert(spec_difference_set(a, b, r).len() > 0);
        }
    }
}

/// Self-equality: comparing any built tree with itself answers the empty
/// set of divergent ranges.
pub proof fn lemma_self_difference(t: MerkleTree, res: Result<Vec<NodeRange>, MerkleError>)
    requires
        t.wf(),
        t.built(),
        difference_result(t, t, res),
    ensures
        res matches Ok(v) && v@ == Seq::<NodeRange>::empty(),
{
}

/// Single-key sensitivity: when the two trees differ in exactly one leaf
/// and their root digests differ, every reported range covers that one key,
/// and the whole report stays inside the bisection half holding it — the
/// other half's keys are never implicated.
pub proof fn lemma_single_key_sensitivity(a: Node, b: Node, r: NodeRange, i: int)
    requires
        a.is_tree_for(r),
        b.is_tree_for(r),
        r.spec_size() > 0,
        a.digest_spec() != b.digest_spec(),
        0 <= i < r.key_count(),
        leaf_differs(a, b, i),
        forall|j: int| 0 <= j < r.key_count() && j != i ==> !(#[trigger] leaf_differs(a, b, j)),
    ensures
        full_difference(a, b, r).len() > 0,
        forall|j: int| 0 <= j < full_difference(a, b, r).len() ==> {
            let rng = #[trigger] full_difference(a, b, r)[j];
            rng.start <= r.start + i <= rng.end
        },
        r.start + i <= r.mid ==> forall|j: int| 0 <= j < full_difference(a, b, r).len() ==> (
        #[trigger] full_difference(a, b, r)[j]).end <= r.mid,
        r.start + i > r.mid ==> forall|j: int| 0 <= j < full_difference(a, b, r).len() ==> (
        #[trigger] full_difference(a, b, r)[j]).start > r.mid,
{
    lemma_halves(r);
    lemma_tree_children_wf(a, r);
    lemma_tree_children_wf(b, r);
    crate::node::lemma_leaves_len(a, r);
    crate::node::lemma_leaves_len(b, r);
    let lh = r.left_half();
    let rh = r.right_half();
    let al = a.child_l();
    let bl = b.child_l();
    let ar = a.child_r();
    let br = b.child_r();
    crate::node::lemma_leaves_len(al, lh);
    crate::node::lemma_leaves_len(bl, lh);
    crate::node::lemma_leaves_len(ar, rh);
    crate::node::lemma_leaves_len(br, rh);
    let lcount = lh.key_count();
    assert(a.leaves_of() == al.leaves_of() + ar.leaves_of());
    assert(b.leaves_of() == bl.leaves_of() + br.leaves_of());
    lemma_difference_set_sound(al, bl, lh);
    lemma_difference_set_sound(ar, br, rh);
    lemma_difference_nonempty(a, b, r);
    if i < lcount {
        // The differing key lives in the left half; the right halves hold
        // equal leaves, so their digests agree and the right side is pruned.
        assert(ar.leaves_of() =~= br.leaves_of()) by {
            assert(forall|k: int| 0 <= k < rh.key_count() ==> a.leaves_of()[lcount + k] == (
            #[trigger] ar.leaves_of()[k]) && b.leaves_of()[lcount + k] == br.leaves_of()[k]);
            assert(forall|k: int| 0 <= k < rh.key_count() ==> !leaf_differs(a, b, lcount + k)
                && (#[trigger] ar.leaves_of()[k]) == br.leaves_of()[k]);
        }
        crate::node::lemma_digest_from_leaves(ar, br, rh);
        assert(al.digest_spec() != bl.digest_spec()) by {
            if al.digest_spec() == bl.digest_spec() {
                assert(a.digest_spec() == b.digest_spec());
            }
        }
        lemma_consistency_not_complete(al, bl, lh);
        let lc = spec_consistency(al, bl, lh);
        let dl = spec_difference_set(al, bl, lh);
        let s = spec_difference_set(a, b, r);
        let tail = if lc == Consistency::Non {
            seq![lh]
        } else {
            Seq::<NodeRange>::empty()
        };
        assert(s == dl + Seq::<NodeRange>::empty() + tail);
        assert(spec_consistency(a, b, r) == Consistency::Partial);
        assert(full_difference(a, b, r) == s);
        assert forall|j: int| 0 <= j < s.len() implies {
            let rng = #[trigger] s[j];
            rng.start <= r.start + i <= rng.end && rng.end <= r.mid
        } by {
            if j < dl.len() {
                assert(s[j] == dl[j]);
                assert(range_reports_divergence(al, bl, lh, dl[j]));
                let k = choose|k: int|
                    0 <= k < lh.key_count() && dl[j].start <= lh.start + k <= dl[j].end
                        && #[trigger] leaf_differs(al, bl, k);
                assert(a.leaves_of()[k] == al.leaves_of()[k]);
                assert(b.leaves_of()[k] == bl.leaves_of()[k]);
                assert(leaf_differs(a, b, k));
                assert(k == i);
                assert(dl[j].end <= lh.end);
            } else {
                assert(s[j] == lh);
            }
        }
    } else {
        // Mirror case: the differing key lives in the right half.
        assert(al.leaves_of() =~= bl.leaves_of()) by {
            assert(forall|k: int| 0 <= k < lh.key_count() ==> a.leaves_of()[k] == (
            #[trigger] al.leaves_of()[k]) && b.leaves_of()[k] == bl.leaves_of()[k]);
            assert(forall|k: int| 0 <= k < lh.key_count() ==> !leaf_differs(a, b, k) && (
            #[trigger] al.leaves_of()[k]) == bl.leaves_of()[k]);
        }
        crate::node::lemma_digest_from_leaves(al, bl, lh);
        assert(ar.digest_spec() != br.digest_spec()) by {
            if ar.digest_spec() == br.digest_spec() {
                assert(a.digest_spec() == b.digest_spec());
            }
        }
        lemma_consistency_not_complete(ar, br, rh);
        let rc = spec_consistency(ar, br, rh);
        let dr = spec_difference_set(ar, br, rh);
        let s = spec_difference_set(a, b, r);
        let tail = if rc == Consistency::Non {
            seq![rh]
        } else {
            Seq::<NodeRange>::empty()
        };
        assert(s == Seq::<NodeRange>::empty() + dr + tail);
        assert(spec_consistency(a, b, r) == Consistency::Partial);
        assert(full_difference(a, b, r) == s);
        assert forall|j: int| 0 <= j < s.len() implies {
            let rng = #[trigger] s[j];
            rng.start <= r.start + i <= rng.end && rng.start > r.mid
        } by {
            if j < dr.len() {
                assert(s[j] == dr[j]);
                assert(range_reports_divergence(ar, br, rh, dr[j]));
                let k = choose|k: int|
                    0 <= k < rh.key_count() && dr[j].start <= rh.start + k <= dr[j].end
                        && #[trigger] leaf_differs(ar, br, k);
                assert(a.leaves_of()[lcount + k] == ar.leaves_of()[k]);
                assert(b.leaves_of()[lcount + k] == br.leaves_of()[k]);
                assert(leaf_differs(a, b, lcount + k));
                assert(lcount + k == i);
                assert(rh.start + k == r.start + i);
                assert(dr[j].start >= rh.start);
            } else {
                assert(s[j] == rh);
                assert(rh.start <= r.start + i <= rh.end);
            }
        }
    }
}

/// No digest collision hides a divergence anywhere between this pair of
/// trees: whenever two sub-trees compared by the protocol have equal
/// digests, their leaves really are equal. Digest equality only means
/// content equality up to the hash primitive's collision resistance, so
/// statements about what the report covers hold under this hypothesis.
pub open spec fn collision_free(a: Node, b: Node, r: NodeRange) -> bool
    decreases r.spec_size(),
    when r.wf()
    via collision_free_dec
{
    (a.digest_spec() == b.digest_spec() ==> a.leaves_of() == b.leaves_of()) && (r.spec_size() > 0
        ==> collision_free(a.child_l(), b.child_l(), r.left_half()) && collision_free(
        a.child_r(),
        b.child_r(),
        r.right_half(),
    ))
}

#[via_fn]
proof fn collision_free_dec(a: Node, b: Node, r: NodeRange) {
    if r.wf() && r.spec_size() != 0 {
        lemma_halves(r);
    }
}

/// Completeness of the report: absent digest collisions, every key whose
/// leaf digests differ is covered by some reported range.
pub proof fn lemma_difference_complete(a: Node, b: Node, r: NodeRange)
    requires
        a.is_tree_for(r),
        b.is_tree_for(r),
        collision_free(a, b, r),
    ensures
        forall|i: int| 0 <= i < r.key_count() && #[trigger] leaf_differs(a, b, i) ==> covered(
            full_difference(a, b, r),
            r.start + i,
        ),
    decreases r.spec_size(),
{
    crate::node::lemma_leaves_len(a, r);
    crate::node::lemma_leaves_len(b, r);
    let full = full_difference(a, b, r);
    if a.digest_spec() == b.digest_spec() {
        assert(forall|i: int| 0 <= i < r.key_count() ==> !(#[trigger] leaf_differs(a, b, i)));
    } else if r.spec_size() == 0 {
        assert(full == spec_difference_set(a, b, r).push(r));
        assert(full[0] == r);
        assert forall|i: int| 0 <= i < r.key_count() && #[trigger] leaf_differs(a, b, i)
            implies covered(full, r.start + i) by {
            assert(0 <= 0 < full.len() && full[0].start <= r.start + i <= full[0].end);
        }
    } else {
        lemma_halves(r);
        lemma_tree_children_wf(a, r);
        lemma_tree_children_wf(b, r);
        let lh = r.left_half();
        let rh = r.right_half();
        let al = a.child_l();
        let bl = b.child_l();
        let ar = a.child_r();
        let br = b.child_r();
        crate::node::lemma_leaves_len(al, lh);
        crate::node::lemma_leaves_len(bl, lh);
        crate::node::lemma_leaves_len(ar, rh);
        crate::node::lemma_leaves_len(br, rh);
        let lcount = lh.key_count();
        assert(a.leaves_of() == al.leaves_of() + ar.leaves_of());
        assert(b.leaves_of() == bl.leaves_of() + br.leaves_of());
        lemma_difference_complete(al, bl, lh);
        lemma_difference_complete(ar, br, rh);
        let lc = if al.digest_spec() == bl.digest_spec() {
            Consistency::Complete
        } else {
            spec_consistency(al, bl, lh)
        };
        let rc = if ar.digest_spec() == br.digest_spec() {
            Consistency::Complete
        } else {
            spec_consistency(ar, br, rh)
        };
        let dl = if al.digest_spec() == bl.digest_spec() {
            Seq::<NodeRange>::empty()
        } else {
            spec_difference_set(al, bl, lh)
        };
        let dr = if ar.digest_spec() == br.digest_spec() {
            Seq::<NodeRange>::empty()
        } else {
            spec_difference_set(ar, br, rh)
        };
        let tail = if lc == Consistency::Non && rc == Consistency::Non {
            Seq::<NodeRange>::empty()
        } else if lc == Consistency::Non {
            seq![lh]
        } else if rc == Consistency::Non {
            seq![rh]
        } else {
            Seq::<NodeRange>::empty()
        };
        let s = spec_difference_set(a, b, r);
        assert(s == dl + dr + tail);
        assert forall|i: int| 0 <= i < r.key_count() && #[trigger] leaf_differs(a, b, i)
            implies covered(full, r.start + i) by {
            if spec_consistency(a, b, r) == Consistency::Non {
                assert(full == s.push(r));
                let last = full.len() - 1;
                assert(0 <= last < full.len() && full[last].start <= r.start + i
                    <= full[last].end);
            } else {
                assert(full == s);
                if i < lcount {
                    assert(a.leaves_of()[i] == al.leaves_of()[i]);
                    assert(b.leaves_of()[i] == bl.leaves_of()[i]);
                    assert(leaf_differs(al, bl, i));
                    assert(al.digest_spec() != bl.digest_spec());
                    assert(covered(full_difference(al, bl, lh), lh.start + i));
                    if lc == Consistency::Non {
                        // The parent pushed the left half itself.
                        assert(tail == seq![lh]);
                        let jj: int = dl.len() as int + dr.len() as int;
                        assert(s[jj] == lh);
                        assert(lh.start <= r.start + i <= lh.end);
                        assert(0 <= jj < s.len() && s[jj].start <= r.start + i <= s[jj].end);
                    } else {
                        // The left half's own report is a prefix of the
                        // parent's.
                        assert(full_difference(al, bl, lh) == dl);
                        let j = choose|j: int|
                            0 <= j < dl.len() && (#[trigger] dl[j]).start <= lh.start + i
                                <= dl[j].end;
                        assert(s[j] == dl[j]);
                        assert(0 <= j < s.len() && s[j].start <= r.start + i <= s[j].end);
                    }
                } else {
                    let k = i - lcount;
                    assert(a.leaves_of()[lcount + k] == ar.leaves_of()[k]);
                    assert(b.leaves_of()[lcount + k] == br.leaves_of()[k]);
                    assert(leaf_differs(ar, br, k));
                    assert(ar.digest_spec() != br.digest_spec());
                    assert(covered(full_difference(ar, br, rh), rh.start + k));
                    assert(rh.start + k == r.start + i);
                    if rc == Consistency::Non {
                        assert(tail == seq![rh]);
                        let jj: int = dl.len() as int + dr.len() as int;
                        assert(s[jj] == rh);
                        assert(rh.start <= r.start + i <= rh.end);
                        assert(0 <= jj < s.len() && s[jj].start <= r.start + i <= s[jj].end);
                    } else {
                        assert(full_difference(ar, br, rh) == dr);
                        let j = choose|j: int|
                            0 <= j < dr.len() && (#[trigger] dr[j]).start <= rh.start + k
                                <= dr[j].end;
                        assert(s[dl.len() + j] == dr[j]);
                        assert(0 <= dl.len() + j < s.len() && s[dl.len() + j].start <= r.start
                            + i <= s[dl.len() + j].end);
                    }
                }
            }
        }
    }
}

/// Monotonic convergence: take the report of one difference run and repair
/// the replica by copying the origin's leaf digest for every covered key.
/// Absent digest collisions between the compared trees, the repaired
/// replica equals the origin leaf for leaf, and a further difference run
/// reports nothing.
pub proof fn lemma_monotonic_convergence(a: Node, b: Node, repaired: Node, r: NodeRange)
    requires
        a.is_tree_for(r),
        b.is_tree_for(r),
        repaired.is_tree_for(r),
        collision_free(a, b, r),
        forall|i: int| 0 <= i < r.key_count() ==> #[trigger] repaired.leaves_of()[i] == (
        if covered(full_difference(a, b, r), r.start + i) {
            a.leaves_of()[i]
        } else {
            b.leaves_of()[i]
        }),
    ensures
        full_difference(a, repaired, r) == Seq::<NodeRange>::empty(),
{
    lemma_difference_complete(a, b, r);
    crate::node::lemma_leaves_len(a, r);
    crate::node::lemma_leaves_len(b, r);
    crate::node::lemma_leaves_len(repaired, r);
    assert(repaired.leaves_of() =~= a.leaves_of()) by {
        assert forall|i: int| 0 <= i < r.key_count() implies #[trigger] repaired.leaves_of()[i]
            == a.leaves_of()[i] by {
            if !covered(full_difference(a, b, r), r.start + i) {
                assert(!leaf_differs(a, b, i));
            }
        }
    }
    crate::node::lemma_digest_from_leaves(a, repaired, r);
}


} // verus!
