//! VPTree: a metric-ball partition around randomly chosen vantage points,
//! searched depth-first with triangle-inequality pruning. A branch is
//! descended whenever the current radius of uncertainty can still reach it,
//! with the square-root bounds rounded outward, so the search is exact: it
//! returns the `min(k, n)` closest identifiers, ordered by distance. The
//! pruning argument rests on the metric's triangle inequality, which the
//! integer squared distances satisfy in polynomial form.

use vstd::prelude::*;
use vstd::multiset::Multiset;
use vstd::seq_lib::lemma_multiset_commutative;
use crate::heap::{min_nat, score_dominates, LimitedHeap, OrdItem};
use crate::model::{
    bounded, dataset_error, isqrt_u128, spec_dist_sq, valid_data, valid_vector, validate_dataset,
    view_of, LoadError, MAX_COORD, MAX_DIM,
};
use crate::rng::{entropy_seed, new_rng, rng_below};
use crate::topk::{
    cands, lemma_cands_no_dup, lemma_map_permutation, lemma_pair_cand_fits,
    lemma_sorted_heap_topk, pair_cand, pair_cand_fn,
};
use crate::tree::{BinaryTree, Node};
use crate::VectorID;

verus! {

broadcast use {vstd::multiset::group_multiset_axioms, vstd::seq_lib::group_to_multiset_ensures};

/// One indexed point during construction.
struct VpPoint {
    point: Vec<i64>,
    id: VectorID,
}

/// A vantage node: its point, identifier, and the squared boundary radius
/// that split the remaining points, or `None` for a node built from a single
/// point.
struct VpItem {
    point: Vec<i64>,
    id: VectorID,
    radius: Option<i64>,
}

/// A point scored by its squared distance to the vantage.
struct DistItem {
    d: i64,
    point: Vec<i64>,
    id: VectorID,
}

/// The (identifier, vector) pairs of a build sequence.
spec fn points_view(s: Seq<VpPoint>) -> Seq<(usize, Seq<i64>)> {
    s.map_values(|it: VpPoint| (it.id, it.point@))
}

/// The (identifier, vector) pairs of a scored sequence.
spec fn dist_view(s: Seq<DistItem>) -> Seq<(usize, Seq<i64>)> {
    s.map_values(|it: DistItem| (it.id, it.point@))
}

/// The (identifier, vector) pairs held by a subtree, in symmetric order.
spec fn tree_seq(t: BinaryTree<VpItem>) -> Seq<(usize, Seq<i64>)>
    decreases t,
{
    match t.0 {
        None => Seq::empty(),
        Some(node) => tree_seq(node.left) + seq![(node.value.id, node.value.point@)] + tree_seq(
            node.right,
        ),
    }
}

/// The candidates a subtree offers for a query.
spec fn tree_cands(t: BinaryTree<VpItem>, q: Seq<i64>) -> Multiset<OrdItem> {
    tree_seq(t).map_values(pair_cand_fn(q)).to_multiset()
}

/// Well-formed vantage tree: every point is valid, a missing radius means a
/// single-point subtree, and a present radius is a non-negative squared
/// boundary that the left subtree lies strictly inside and the right
/// subtree lies at or beyond.
spec fn wf_vp(t: BinaryTree<VpItem>, dim: nat) -> bool
    decreases t,
{
    match t.0 {
        None => true,
        Some(node) => {
            &&& valid_vector(node.value.point@, dim)
            &&& (node.value.radius is None ==> node.left.0 is None && node.right.0 is None)
            &&& (node.value.radius is Some ==> node.value.radius->0 >= 0 && (forall|i: int|
                0 <= i < tree_seq(node.left).len() ==> spec_dist_sq(
                    node.value.point@,
                    (#[trigger] tree_seq(node.left)[i]).1,
                ) < node.value.radius->0) && (forall|i: int|
                0 <= i < tree_seq(node.right).len() ==> spec_dist_sq(
                    node.value.point@,
                    (#[trigger] tree_seq(node.right)[i]).1,
                ) >= node.value.radius->0))
            &&& wf_vp(node.left, dim)
            &&& wf_vp(node.right, dim)
        },
    }
}

/// Splitting a node's candidates into the left part, the node itself, and
/// the right part.
proof fn lemma_vp_cands_node(t: BinaryTree<VpItem>, q: Seq<i64>)
    requires
        t.0 is Some,
    ensures
        tree_cands(t, q) == tree_cands(t.0->0.left, q).add(tree_cands(t.0->0.right, q)).insert(
            pair_cand(q, (t.0->0.value.id, t.0->0.value.point@)),
        ),
{
    let node = t.0->0;
    let l = tree_seq(node.left);
    let m = seq![(node.value.id, node.value.point@)];
    let r = tree_seq(node.right);
    let f = pair_cand_fn(q);
    assert((l + m + r).map_values(f) =~= l.map_values(f) + m.map_values(f) + r.map_values(f));
    lemma_multiset_commutative(l.map_values(f) + m.map_values(f), r.map_values(f));
    lemma_multiset_commutative(l.map_values(f), m.map_values(f));
    assert(m.map_values(f) =~= seq![pair_cand(q, (node.value.id, node.value.point@))]);
    assert(m.map_values(f).to_multiset() =~= Multiset::empty().insert(
        pair_cand(q, (node.value.id, node.value.point@)),
    )) by {
        assert(m.map_values(f).drop_first() =~= Seq::empty());
    }
    assert(tree_cands(t, q) =~= tree_cands(node.left, q).add(tree_cands(node.right, q)).insert(
        pair_cand(q, (node.value.id, node.value.point@)),
    ));
}

/// Sort scored points by distance to the vantage, ties by identifier.
fn sort_dist_items(v: Vec<DistItem>, dim: Ghost<nat>, vp: Ghost<Seq<i64>>) -> (r: Vec<DistItem>)
    requires
        forall|i: int|
            0 <= i < v@.len() ==> valid_vector((#[trigger] v@[i]).point@, dim@) && 0 <= v@[i].d
                <= MAX_DIM * (4 * MAX_COORD * MAX_COORD) && v@[i].d == spec_dist_sq(
                vp@,
                v@[i].point@,
            ),
    ensures
        r@.len() == v@.len(),
        dist_view(r@).to_multiset() == dist_view(v@).to_multiset(),
        forall|i: int|
            0 <= i < r@.len() ==> valid_vector((#[trigger] r@[i]).point@, dim@) && 0 <= r@[i].d
                <= MAX_DIM * (4 * MAX_COORD * MAX_COORD) && r@[i].d == spec_dist_sq(
                vp@,
                r@[i].point@,
            ),
        forall|i: int, j: int| 0 <= i < j < r@.len() ==> (#[trigger] r@[i]).d <= (#[trigger] r@[j]).d,
{
    let ghost orig = dist_view(v@).to_multiset();
    let mut rest = v;
    let mut out: Vec<DistItem> = Vec::new();
    proof {
        assert(dist_view(out@) =~= Seq::<(usize, Seq<i64>)>::empty());
        assert(dist_view(out@).to_multiset().add(dist_view(rest@).to_multiset()) =~= orig);
    }
    while rest.len() > 0
        invariant
            dist_view(out@).to_multiset().add(dist_view(rest@).to_multiset()) == orig,
            out@.len() + rest@.len() == orig.len(),
            forall|i: int|
                0 <= i < rest@.len() ==> valid_vector((#[trigger] rest@[i]).point@, dim@) && 0
                    <= rest@[i].d <= MAX_DIM * (4 * MAX_COORD * MAX_COORD) && rest@[i].d
                    == spec_dist_sq(vp@, rest@[i].point@),
            forall|i: int|
                0 <= i < out@.len() ==> valid_vector((#[trigger] out@[i]).point@, dim@) && 0
                    <= out@[i].d <= MAX_DIM * (4 * MAX_COORD * MAX_COORD) && out@[i].d
                    == spec_dist_sq(vp@, out@[i].point@),
            forall|i: int, j: int|
                0 <= i < j < out@.len() ==> (#[trigger] out@[i]).d <= (#[trigger] out@[j]).d,
            forall|i: int, j: int|
                0 <= i < out@.len() && 0 <= j < rest@.len() ==> (#[trigger] out@[i]).d
                    <= (#[trigger] rest@[j]).d,
        decreases rest@.len(),
    {
        let mut best: usize = 0;
        let mut i: usize = 1;
        while i < rest.len()
            invariant
                best < i <= rest@.len(),
                forall|t: int|
                    0 <= t < i ==> (#[trigger] rest@[best as int]).d < (#[trigger] rest@[t]).d || (
                    rest@[best as int].d == rest@[t].d && rest@[best as int].id <= rest@[t].id),
            decreases rest@.len() - i,
        {
            if rest[i].d < rest[best].d || (rest[i].d == rest[best].d && rest[i].id < rest[best].id)
            {
                best = i;
            }
            i = i + 1;
        }
        let ghost rest0 = rest@;
        let ghost out0 = out@;
        let m = rest.remove(best);
        out.push(m);
        proof {
            assert(out@ == out0.push(m));
            assert(dist_view(out@) =~= dist_view(out0).push((m.id, m.point@)));
            assert(dist_view(out@).to_multiset() =~= dist_view(out0).to_multiset().insert(
                (m.id, m.point@),
            ));
            assert(dist_view(rest@) =~= dist_view(rest0).remove(best as int));
            assert(dist_view(rest0)[best as int] == (m.id, m.point@));
            assert(dist_view(rest@).to_multiset() =~= dist_view(rest0).to_multiset().remove(
                (m.id, m.point@),
            ));
            assert(dist_view(rest0).to_multiset().contains((m.id, m.point@))) by {
                assert(dist_view(rest0).contains((m.id, m.point@)));
            }
            assert(dist_view(out@).to_multiset().add(dist_view(rest@).to_multiset()) =~= orig);
            assert forall|i: int, j: int|
                0 <= i < out@.len() && 0 <= j < rest@.len() implies (#[trigger] out@[i]).d
                <= (#[trigger] rest@[j]).d by {
                assert(rest@[j] == if j < best { rest0[j] } else { rest0[j + 1] });
                if i < out0.len() {
                    assert(out@[i] == out0[i]);
                } else {
                    assert(out@[i] == m);
                }
            }
        }
    }
    proof {
        assert(dist_view(rest@) =~= Seq::<(usize, Seq<i64>)>::empty());
        assert(dist_view(out@).to_multiset().add(dist_view(rest@).to_multiset()) =~= dist_view(
            out@,
        ).to_multiset());
        assert(dist_view(out@).to_multiset().len() == dist_view(out@).len());
    }
    out
}

/// Whether the inside ball can still hold a closer point than the current
/// k-th best: descend unless the selection is full and the query provably
/// lies at least `mu + tau` (rounded outward) from the vantage. A refusal
/// carries its arithmetic witnesses: a dominating radius `tau` and an outer
/// bound `s` on `sqrt(mu·(tau + 1))`. The margins are shifted by one, so a
/// refusal means every inside point is strictly farther than `tau`.
fn reach_inside(h: &LimitedHeap, d: i64, mu: i64) -> (r: (bool, Ghost<(int, int)>))
    requires
        h.inv(),
        0 <= d,
        0 <= mu,
    ensures
        h.contents().len() < h.cap() ==> r.0,
        !r.0 ==> ({
            let (tau, s) = r.1@;
            &&& h.contents().len() == h.cap()
            &&& 0 <= tau
            &&& score_dominates(h.contents(), tau)
            &&& 0 <= s
            &&& (mu as int) * (tau + 1) < s * s
            &&& (d as int) >= (mu as int) + (tau + 1) + 2 * s
        }),
{
    if h.len() < h.capacity() {
        return (true, Ghost((0int, 0int)));
    }
    match h.worst() {
        Some(m) => {
            let tau: i64 = if m.0 >= 0 {
                m.0
            } else {
                0
            };
            proof {
                assert((mu as int) * ((tau as int) + 1) <= u128::MAX) by (nonlinear_arith)
                    requires
                        0 <= mu < 0x8000_0000_0000_0000,
                        0 <= tau < 0x8000_0000_0000_0000,
                ;
            }
            let s = isqrt_u128((mu as u128) * ((tau as u128) + 1));
            let go = (d as i128) < (mu as i128) + (tau as i128) + 1 + 2 * ((s as i128) + 1);
            proof {
                if !go {
                    assert(score_dominates(h.contents(), tau as int)) by {
                        assert forall|y: OrdItem| h.contents().count(y) > 0 implies (#[trigger] y.0)
                            <= tau as int by {
                            assert(crate::heap::ord_le(y, m));
                        }
                    }
                }
            }
            (go, Ghost((tau as int, (s as int) + 1)))
        },
        None => (true, Ghost((0int, 0int))),
    }
}

/// Whether the outside region can still hold a closer point than the
/// current k-th best: descend unless the selection is full and the query
/// provably lies closer than `mu - tau` (rounded outward) to the vantage.
fn reach_outside(h: &LimitedHeap, d: i64, mu: i64) -> (r: (bool, Ghost<(int, int)>))
    requires
        h.inv(),
        0 <= d,
        0 <= mu,
    ensures
        h.contents().len() < h.cap() ==> r.0,
        !r.0 ==> ({
            let (tau, s) = r.1@;
            &&& h.contents().len() == h.cap()
            &&& 0 <= tau
            &&& score_dominates(h.contents(), tau)
            &&& 0 <= s
            &&& tau + 1 < mu
            &&& (mu as int) * (tau + 1) < s * s
            &&& (d as int) < (mu as int) + (tau + 1) - 2 * s
        }),
{
    if h.len() < h.capacity() {
        return (true, Ghost((0int, 0int)));
    }
    match h.worst() {
        Some(m) => {
            let tau: i64 = if m.0 >= 0 {
                m.0
            } else {
                0
            };
            if (tau as i128) + 1 >= (mu as i128) {
                (true, Ghost((0int, 0int)))
            } else {
                proof {
                    assert((mu as int) * ((tau as int) + 1) <= u128::MAX) by (nonlinear_arith)
                        requires
                            0 <= mu < 0x8000_0000_0000_0000,
                            0 <= tau < 0x8000_0000_0000_0000,
                    ;
                }
                let s = isqrt_u128((mu as u128) * ((tau as u128) + 1));
                let go = (d as i128) >= (mu as i128) + (tau as i128) + 1 - 2 * ((s as i128) + 1);
                proof {
                    if !go {
                        assert(score_dominates(h.contents(), tau as int)) by {
                            assert forall|y: OrdItem|
                                h.contents().count(y) > 0 implies (#[trigger] y.0)
                                <= tau as int by {
                                assert(crate::heap::ord_le(y, m));
                            }
                        }
                    }
                }
                (go, Ghost((tau as int, (s as int) + 1)))
            }
        },
        None => (true, Ghost((0int, 0int))),
    }
}

/// Every pair in a well-formed subtree is a valid vector.
proof fn lemma_vp_valid(t: BinaryTree<VpItem>, dim: nat)
    requires
        wf_vp(t, dim),
        dim >= 1,
    ensures
        forall|i: int|
            0 <= i < tree_seq(t).len() ==> valid_vector((#[trigger] tree_seq(t)[i]).1, dim),
    decreases t,
{
    match t.0 {
        None => {},
        Some(node) => {
            lemma_vp_valid(node.left, dim);
            lemma_vp_valid(node.right, dim);
            let l = tree_seq(node.left);
            let m = seq![(node.value.id, node.value.point@)];
            let r = tree_seq(node.right);
            assert forall|i: int|
                0 <= i < tree_seq(t).len() implies valid_vector((#[trigger] tree_seq(t)[i]).1, dim) by {
                if i < l.len() {
                    assert(tree_seq(t)[i] == l[i]);
                } else if i == l.len() {
                    assert(tree_seq(t)[i] == (node.value.id, node.value.point@));
                } else {
                    assert(tree_seq(t)[i] == r[i - l.len() - 1]);
                }
            }
        },
    }
}

/// Everything a pruned subtree offers already scores at least the
/// dominating radius the refusal witnessed, so the retained selection
/// dominates it.
proof fn lemma_pruned_child_dominated(
    vantage: Seq<i64>,
    mu: i64,
    child_seq: Seq<(usize, Seq<i64>)>,
    inside: bool,
    q: Seq<i64>,
    dim: nat,
    c: Multiset<OrdItem>,
    d: i64,
    tau: int,
    s: int,
)
    requires
        valid_vector(vantage, dim),
        q.len() == dim,
        bounded(q),
        forall|i: int| 0 <= i < child_seq.len() ==> valid_vector((#[trigger] child_seq[i]).1, dim),
        inside ==> forall|i: int|
            0 <= i < child_seq.len() ==> spec_dist_sq(vantage, (#[trigger] child_seq[i]).1) < mu,
        !inside ==> forall|i: int|
            0 <= i < child_seq.len() ==> spec_dist_sq(vantage, (#[trigger] child_seq[i]).1) >= mu,
        mu >= 0,
        d as int == spec_dist_sq(q, vantage),
        0 <= d,
        0 <= tau,
        0 <= s,
        (mu as int) * (tau + 1) < s * s,
        score_dominates(c, tau),
        inside ==> (d as int) >= (mu as int) + (tau + 1) + 2 * s,
        !inside ==> tau + 1 < mu && (d as int) < (mu as int) + (tau + 1) - 2 * s,
    ensures
        forall|x: OrdItem|
            #[trigger] child_seq.map_values(pair_cand_fn(q)).to_multiset().count(x) > 0
                ==> score_dominates(c, x.0 as int - 1),
{
    let n = q.len() as int;
    assert forall|x: OrdItem|
        #[trigger] child_seq.map_values(pair_cand_fn(q)).to_multiset().count(x) > 0 implies
        score_dominates(c, x.0 as int - 1) by {
        let cs = child_seq.map_values(pair_cand_fn(q));
        assert(cs.contains(x));
        let j = choose|j: int| 0 <= j < cs.len() && cs[j] == x;
        let p = child_seq[j];
        assert(x == pair_cand(q, p));
        lemma_pair_cand_fits(q, p, dim);
        let qd = spec_dist_sq(q, p.1);
        let m = spec_dist_sq(vantage, p.1);
        crate::topk::lemma_dist_sq_prefix_zero(q, p.1, n);
        crate::topk::lemma_dist_sq_prefix_zero(vantage, p.1, n);
        crate::model::lemma_dist_sq_sym(p.1, vantage, n);
        crate::model::lemma_dist_sq_sym(q, vantage, n);
        if inside {
            crate::model::lemma_triangle_sq(q, p.1, vantage, n);
            crate::model::lemma_prune_inside(
                qd,
                m,
                mu as int,
                tau + 1,
                s,
                d as int,
                crate::model::cross_prefix(q, p.1, vantage, n),
            );
        } else {
            crate::model::lemma_triangle_sq(vantage, q, p.1, n);
            crate::model::lemma_prune_outside(
                qd,
                m,
                mu as int,
                tau + 1,
                s,
                d as int,
                crate::model::cross_prefix(vantage, q, p.1, n),
            );
        }
        assert(qd >= tau + 1);
        assert forall|y: OrdItem| c.count(y) > 0 implies (#[trigger] y.0) <= x.0 as int - 1 by {
            assert(y.0 <= tau);
        }
    }
}

/// A VPTree index over an owned copy of the dataset.
pub struct VPTree {
    tree: BinaryTree<VpItem>,
    dim: usize,
    data: Ghost<Seq<(usize, Seq<i64>)>>,
}

impl VPTree {
    /// The dataset this index answers for.
    pub closed spec fn data_view(self) -> Seq<(usize, Seq<i64>)> {
        self.data@
    }

    /// The dimensionality every stored and queried vector has.
    pub closed spec fn dim(self) -> nat {
        self.dim as nat
    }

    /// The index holds a valid dataset in a well-formed vantage tree.
    pub closed spec fn wf(self) -> bool {
        &&& valid_data(self.data@, self.dim as nat)
        &&& wf_vp(self.tree, self.dim as nat)
        &&& tree_seq(self.tree).to_multiset() == self.data@.to_multiset()
    }

    /// Build the tree: pick a random vantage, score the remaining points by
    /// distance to it, split at the median squared distance, and recurse.
    #[verifier::rlimit(50)]
    fn build(points: Vec<VpPoint>, rng: &mut rand::rngs::StdRng, dim: usize) -> (t: BinaryTree<
        VpItem,
    >)
        requires
            1 <= dim <= MAX_DIM,
            forall|i: int|
                0 <= i < points@.len() ==> valid_vector((#[trigger] points@[i]).point@, dim as nat),
        ensures
            tree_seq(t).to_multiset() == points_view(points@).to_multiset(),
            wf_vp(t, dim as nat),
        decreases points@.len(),
    {
        if points.len() == 0 {
            proof {
                assert(points_view(points@) =~= Seq::<(usize, Seq<i64>)>::empty());
                assert(tree_seq(BinaryTree::<VpItem>(None)).to_multiset() =~= points_view(
                    points@,
                ).to_multiset());
            }
            return BinaryTree(None);
        }
        let ghost orig = points_view(points@);
        let mut pts = points;
        let vi = rng_below(rng, pts.len());
        let ghost pts0 = pts@;
        let vantage = pts.remove(vi);
        proof {
            assert(points_view(pts@) =~= points_view(pts0).remove(vi as int));
            assert(points_view(pts0)[vi as int] == (vantage.id, vantage.point@));
            assert(points_view(pts@).to_multiset() =~= points_view(pts0).to_multiset().remove(
                (vantage.id, vantage.point@),
            ));
            assert(points_view(pts0).to_multiset().contains((vantage.id, vantage.point@))) by {
                assert(points_view(pts0).contains((vantage.id, vantage.point@)));
            }
            assert forall|i: int|
                0 <= i < pts@.len() implies valid_vector(
                (#[trigger] pts@[i]).point@,
                dim as nat,
            ) by {
                assert(pts@[i] == if i < vi { pts0[i] } else { pts0[i + 1] });
            }
        }
        if pts.len() == 0 {
            proof {
                assert(vantage == pts0[vi as int]);
                assert(valid_vector(vantage.point@, dim as nat));
            }
            let t = BinaryTree(Some(Box::new(Node {
                value: VpItem { point: vantage.point, id: vantage.id, radius: None },
                left: BinaryTree(None),
                right: BinaryTree(None),
            })));
            proof {
                assert(tree_seq(BinaryTree::<VpItem>(None)) =~= Seq::<(usize, Seq<i64>)>::empty());
                assert(wf_vp(BinaryTree::<VpItem>(None), dim as nat));
                assert(tree_seq(t) =~= seq![(t.0->0.value.id, t.0->0.value.point@)]);
                assert(tree_seq(t).to_multiset() =~= orig.to_multiset()) by {
                    assert(points_view(pts@) =~= Seq::<(usize, Seq<i64>)>::empty());
                    assert(points_view(pts0).to_multiset().len() == pts0.len());
                    assert(orig.to_multiset() =~= Multiset::empty().insert(
                        (vantage.id, vantage.point@),
                    ));
                    assert(tree_seq(t).drop_first() =~= Seq::<(usize, Seq<i64>)>::empty());
                }
            }
            return t;
        }
        // Score every remaining point by its squared distance to the vantage.
        let mut scored: Vec<DistItem> = Vec::new();
        let n = pts.len();
        proof {
            assert(dist_view(scored@) =~= points_view(pts@).subrange(0, 0));
        }
        let mut i: usize = 0;
        while i < n
            invariant
                n == pts@.len(),
                i <= n,
                1 <= dim <= MAX_DIM,
                valid_vector(vantage.point@, dim as nat),
                forall|t: int|
                    0 <= t < pts@.len() ==> valid_vector((#[trigger] pts@[t]).point@, dim as nat),
                scored@.len() == i,
                forall|t: int|
                    0 <= t < i ==> valid_vector((#[trigger] scored@[t]).point@, dim as nat) && 0
                        <= scored@[t].d <= MAX_DIM * (4 * MAX_COORD * MAX_COORD) && scored@[t].d
                        == spec_dist_sq(vantage.point@, scored@[t].point@),
                dist_view(scored@) == points_view(pts@).subrange(0, i as int),
            decreases n - i,
        {
            proof {
                crate::model::lemma_dist_sq_total_bound(vantage.point@, pts@[i as int].point@);
            }
            let d = crate::model::distance(&vantage.point, &pts[i].point);
            let p = crate::model::clone_vector(&pts[i].point);
            let id = pts[i].id;
            scored.push(DistItem { d, point: p, id });
            proof {
                assert(dist_view(scored@) =~= points_view(pts@).subrange(0, i + 1));
            }
            i = i + 1;
        }
        proof {
            assert(dist_view(scored@) =~= points_view(pts@));
        }
        let sorted = sort_dist_items(scored, Ghost(dim as nat), Ghost(vantage.point@));
        let half = sorted.len() / 2;
        let mu = if sorted.len() % 2 == 0 {
            (sorted[half - 1].d + sorted[half].d) / 2
        } else {
            sorted[half].d
        };
        proof {
            assert(mu >= 0);
        }
        // Partition: strictly inside the ball to the left, the rest right.
        let mut left: Vec<VpPoint> = Vec::new();
        let mut right: Vec<VpPoint> = Vec::new();
        let mut rest = sorted;
        proof {
            assert(points_view(left@) =~= Seq::<(usize, Seq<i64>)>::empty());
            assert(points_view(right@) =~= Seq::<(usize, Seq<i64>)>::empty());
            assert(points_view(left@).to_multiset().add(points_view(right@).to_multiset()).add(
                dist_view(rest@).to_multiset(),
            ) =~= dist_view(rest@).to_multiset());
        }
        let ghost part_orig = dist_view(rest@).to_multiset();
        while rest.len() > 0
            invariant
                points_view(left@).to_multiset().add(points_view(right@).to_multiset()).add(
                    dist_view(rest@).to_multiset(),
                ) == part_orig,
                forall|t: int|
                    0 <= t < rest@.len() ==> valid_vector((#[trigger] rest@[t]).point@, dim as nat)
                        && rest@[t].d == spec_dist_sq(vantage.point@, rest@[t].point@),
                forall|t: int|
                    0 <= t < left@.len() ==> valid_vector((#[trigger] left@[t]).point@, dim as nat)
                        && spec_dist_sq(vantage.point@, left@[t].point@) < mu,
                forall|t: int|
                    0 <= t < right@.len() ==> valid_vector((#[trigger] right@[t]).point@, dim as nat)
                        && spec_dist_sq(vantage.point@, right@[t].point@) >= mu,
                left@.len() + right@.len() + rest@.len() == part_orig.len(),
            decreases rest@.len(),
        {
            let ghost rest0 = rest@;
            let it = rest.remove(0);
            proof {
                assert(dist_view(rest@) =~= dist_view(rest0).remove(0));
                assert(dist_view(rest0)[0] == (it.id, it.point@));
                assert(dist_view(rest@).to_multiset() =~= dist_view(rest0).to_multiset().remove(
                    (it.id, it.point@),
                ));
                assert(dist_view(rest0).to_multiset().contains((it.id, it.point@))) by {
                    assert(dist_view(rest0).contains((it.id, it.point@)));
                }
            }
            if it.d < mu {
                let ghost left0 = left@;
                left.push(VpPoint { point: it.point, id: it.id });
                proof {
                    assert(points_view(left@) =~= points_view(left0).push((it.id, it.point@)));
                    assert(points_view(left@).to_multiset() =~= points_view(
                        left0,
                    ).to_multiset().insert((it.id, it.point@)));
                    assert(points_view(left@).to_multiset().add(
                        points_view(right@).to_multiset(),
                    ).add(dist_view(rest@).to_multiset()) =~= part_orig);
                }
            } else {
                let ghost right0 = right@;
                right.push(VpPoint { point: it.point, id: it.id });
                proof {
                    assert(points_view(right@) =~= points_view(right0).push((it.id, it.point@)));
                    assert(points_view(right@).to_multiset() =~= points_view(
                        right0,
                    ).to_multiset().insert((it.id, it.point@)));
                    assert(points_view(left@).to_multiset().add(
                        points_view(right@).to_multiset(),
                    ).add(dist_view(rest@).to_multiset()) =~= part_orig);
                }
            }
        }
        proof {
            assert(dist_view(rest@) =~= Seq::<(usize, Seq<i64>)>::empty());
            assert(points_view(left@).to_multiset().add(points_view(right@).to_multiset())
                =~= part_orig);
            assert(points_view(left@).to_multiset().len() == left@.len());
        }
        let lt = Self::build(left, rng, dim);
        let rt = Self::build(right, rng, dim);
        let t = BinaryTree(Some(Box::new(Node {
            value: VpItem { point: vantage.point, id: vantage.id, radius: Some(mu) },
            left: lt,
            right: rt,
        })));
        proof {
            let mv = seq![(t.0->0.value.id, t.0->0.value.point@)];
            assert(tree_seq(t) == tree_seq(lt) + mv + tree_seq(rt));
            lemma_multiset_commutative(tree_seq(lt) + mv, tree_seq(rt));
            lemma_multiset_commutative(tree_seq(lt), mv);
            assert(mv.to_multiset() =~= Multiset::empty().insert((vantage.id, vantage.point@)))
                by {
                assert(mv.drop_first() =~= Seq::<(usize, Seq<i64>)>::empty());
            }
            assert(tree_seq(t).to_multiset() =~= orig.to_multiset()) by {
                assert(orig.to_multiset() =~= points_view(pts@).to_multiset().insert(
                    (vantage.id, vantage.point@),
                ));
            }

            // The ball bounds carry from the partition to the subtrees.
            assert forall|i: int|
                0 <= i < tree_seq(lt).len() implies spec_dist_sq(
                t.0->0.value.point@,
                (#[trigger] tree_seq(lt)[i]).1,
            ) < mu by {
                assert(tree_seq(lt).to_multiset().contains(tree_seq(lt)[i])) by {
                    assert(tree_seq(lt).contains(tree_seq(lt)[i]));
                }
                assert(points_view(left@).to_multiset().contains(tree_seq(lt)[i]));
                assert(points_view(left@).contains(tree_seq(lt)[i]));
                let j = choose|j: int|
                    0 <= j < points_view(left@).len() && points_view(left@)[j] == tree_seq(lt)[i];
                assert(points_view(left@)[j] == (left@[j].id, left@[j].point@));
            }
            assert forall|i: int|
                0 <= i < tree_seq(rt).len() implies spec_dist_sq(
                t.0->0.value.point@,
                (#[trigger] tree_seq(rt)[i]).1,
            ) >= mu by {
                assert(tree_seq(rt).to_multiset().contains(tree_seq(rt)[i])) by {
                    assert(tree_seq(rt).contains(tree_seq(rt)[i]));
                }
                assert(points_view(right@).to_multiset().contains(tree_seq(rt)[i]));
                assert(points_view(right@).contains(tree_seq(rt)[i]));
                let j = choose|j: int|
                    0 <= j < points_view(right@).len() && points_view(right@)[j] == tree_seq(
                        rt,
                    )[i];
                assert(points_view(right@)[j] == (right@[j].id, right@[j].point@));
            }
            assert(wf_vp(t, dim as nat));
        }
        t
    }

    /// Depth-first descent: score the vantage, then search whichever sides
    /// of its boundary ball the radius of uncertainty can still reach, the
    /// side holding the query first so the radius tightens early. A skipped
    /// side is provably at least the current k-th best distance away, so
    /// the search stays exact.
    #[verifier::rlimit(100)]
    fn nn_rec(
        tree: &BinaryTree<VpItem>,
        query: &Vec<i64>,
        dim: usize,
        h: &mut LimitedHeap,
        Ghost(all): Ghost<Multiset<OrdItem>>,
    )
        requires
            1 <= dim <= MAX_DIM,
            query@.len() == dim,
            bounded(query@),
            wf_vp(*tree, dim as nat),
            old(h).inv(),
            forall|x: OrdItem|
                #[trigger] old(h).seen().count(x) + tree_cands(*tree, query@).count(x)
                    <= all.count(x),
        ensures
            final(h).inv(),
            final(h).cap() == old(h).cap(),
            forall|x: OrdItem| #[trigger] final(h).seen().count(x) >= old(h).seen().count(x),
            forall|x: OrdItem|
                #[trigger] final(h).seen().count(x) <= old(h).seen().count(x) + tree_cands(
                    *tree,
                    query@,
                ).count(x),
            final(h).contents().len() < final(h).cap() ==> final(h).seen() == old(h).seen().add(
                tree_cands(*tree, query@),
            ),
            forall|x: OrdItem|
                #![trigger tree_cands(*tree, query@).count(x)]
                final(h).seen().count(x) < old(h).seen().count(x) + tree_cands(
                    *tree,
                    query@,
                ).count(x) ==> final(h).contents().len() == final(h).cap() && score_dominates(
                    final(h).contents(),
                    x.0 as int - 1,
                ),
            forall|s: int|
                #![trigger score_dominates(old(h).contents(), s)]
                old(h).contents().len() == old(h).cap() && score_dominates(old(h).contents(), s)
                    ==> final(h).contents().len() == final(h).cap() && score_dominates(
                    final(h).contents(),
                    s,
                ),
        decreases *tree, 0int,
    {
        match &tree.0 {
            None => {
                proof {
                    assert(tree_seq(*tree) =~= Seq::<(usize, Seq<i64>)>::empty());
                    assert(tree_seq(*tree).map_values(pair_cand_fn(query@)) =~= Seq::<
                        OrdItem,
                    >::empty());
                    assert(tree_cands(*tree, query@) =~= Multiset::<OrdItem>::empty());
                    assert(h.seen() =~= h.seen().add(tree_cands(*tree, query@)));
                }
            },
            Some(node) => {
                proof {
                    lemma_vp_cands_node(*tree, query@);
                }
                let ghost tc_all = tree_cands(*tree, query@);
                let ghost tc_l = tree_cands(node.left, query@);
                let ghost tc_r = tree_cands(node.right, query@);
                let ghost npair = (node.value.id, node.value.point@);
                let ghost nc = pair_cand(query@, npair);
                let ghost seen0 = h.seen();
                let ghost c0 = h.contents();
                let ghost cap = h.cap();
                proof {
                    lemma_pair_cand_fits(query@, npair, dim as nat);
                    assert(seen0.count(nc) + tc_all.count(nc) <= all.count(nc));
                    assert(tc_all.count(nc) >= 1);
                }
                let d = crate::model::distance(query, &node.value.point);
                h.push(OrdItem(d, node.value.id));
                proof {
                    assert(OrdItem(d, node.value.id) == nc);
                }
                let ghost seen_p = h.seen();
                let ghost c_p = h.contents();
                match &node.value.radius {
                    None => {
                        proof {
                            assert(node.left.0 is None && node.right.0 is None);
                            assert(tree_seq(node.left) =~= Seq::<(usize, Seq<i64>)>::empty());
                            assert(tree_seq(node.right) =~= Seq::<(usize, Seq<i64>)>::empty());
                            assert(tc_l =~= Multiset::<OrdItem>::empty()) by {
                                assert(tree_seq(node.left).map_values(pair_cand_fn(query@)) =~= Seq::<
                                    OrdItem,
                                >::empty());
                            }
                            assert(tc_r =~= Multiset::<OrdItem>::empty()) by {
                                assert(tree_seq(node.right).map_values(pair_cand_fn(query@))
                                    =~= Seq::<OrdItem>::empty());
                            }
                            assert(h.seen() =~= seen0.add(tc_all));
                            assert forall|s: int|
                                #![trigger score_dominates(c0, s)]
                                c0.len() == cap && score_dominates(c0, s) implies h.contents().len()
                                == cap && score_dominates(h.contents(), s) by {}
                        }
                    },
                    Some(mu_ref) => {
                        let mu = *mu_ref;
                        proof {
                            assert(mu >= 0);
                            assert forall|x: OrdItem|
                                #[trigger] seen_p.count(x) + tc_l.count(x) <= all.count(x) by {
                                assert(seen0.count(x) + tc_all.count(x) <= all.count(x));
                            }
                            assert forall|x: OrdItem|
                                #[trigger] seen_p.count(x) + tc_r.count(x) <= all.count(x) by {
                                assert(seen0.count(x) + tc_all.count(x) <= all.count(x));
                            }
                        }
                        proof {
                            lemma_vp_valid(node.left, dim as nat);
                            lemma_vp_valid(node.right, dim as nat);
                        }
                        if d < mu {
                            let (go, w1) = reach_inside(h, d, mu);
                            proof {
                                if !go {
                                    let (tau, s) = w1@;
                                    lemma_pruned_child_dominated(
                                        node.value.point@,
                                        mu,
                                        tree_seq(node.left),
                                        true,
                                        query@,
                                        dim as nat,
                                        c_p,
                                        d,
                                        tau,
                                        s,
                                    );
                                }
                            }
                            Self::nn_child(&node.left, query, dim, h, Ghost(all), go);
                            let ghost seen_m = h.seen();
                            let ghost c_m = h.contents();
                            proof {
                                assert forall|x: OrdItem|
                                    #[trigger] seen_m.count(x) + tc_r.count(x) <= all.count(x) by {
                                    assert(seen_m.count(x) <= seen_p.count(x) + tc_l.count(x));
                                    assert(seen0.count(x) + tc_all.count(x) <= all.count(x));
                                }
                            }
                            let (go2, w2) = reach_outside(h, d, mu);
                            proof {
                                if !go2 {
                                    let (tau, s) = w2@;
                                    lemma_pruned_child_dominated(
                                        node.value.point@,
                                        mu,
                                        tree_seq(node.right),
                                        false,
                                        query@,
                                        dim as nat,
                                        c_m,
                                        d,
                                        tau,
                                        s,
                                    );
                                }
                            }
                            Self::nn_child(&node.right, query, dim, h, Ghost(all), go2);
                            proof {
                                let seen_f = h.seen();
                                let c_f = h.contents();
                                crate::heap::lemma_subset_len(seen_m, seen_f);
                                if c_f.len() < cap {
                                    assert(crate::heap::min_nat(cap, seen_m.len())
                                        <= crate::heap::min_nat(cap, seen_f.len()));
                                    assert(seen_f == seen_m.add(tc_r));
                                    assert(seen_m == seen_p.add(tc_l));
                                    assert(seen_f =~= seen0.add(tc_all));
                                }
                                assert forall|x: OrdItem|
                                    #![trigger tc_all.count(x)]
                                    seen_f.count(x) < seen0.count(x) + tc_all.count(x) implies
                                    c_f.len() == cap && score_dominates(c_f, x.0 as int - 1) by {
                                    if seen_m.count(x) < seen_p.count(x) + tc_l.count(x) {
                                        assert(c_m.len() == cap && score_dominates(
                                            c_m,
                                            x.0 as int - 1,
                                        ));
                                    } else {
                                        assert(seen_f.count(x) < seen_m.count(x) + tc_r.count(x));
                                    }
                                }
                                assert forall|s: int|
                                    #![trigger score_dominates(c0, s)]
                                    c0.len() == cap && score_dominates(c0, s) implies c_f.len()
                                    == cap && score_dominates(c_f, s) by {
                                    assert(c_p.len() == cap && score_dominates(c_p, s));
                                    assert(c_m.len() == cap && score_dominates(c_m, s));
                                }
                            }
                        } else {
                            let (go, w1) = reach_outside(h, d, mu);
                            proof {
                                if !go {
                                    let (tau, s) = w1@;
                                    lemma_pruned_child_dominated(
                                        node.value.point@,
                                        mu,
                                        tree_seq(node.right),
                                        false,
                                        query@,
                                        dim as nat,
                                        c_p,
                                        d,
                                        tau,
                                        s,
                                    );
                                }
                            }
                            Self::nn_child(&node.right, query, dim, h, Ghost(all), go);
                            let ghost seen_m = h.seen();
                            let ghost c_m = h.contents();
                            proof {
                                assert forall|x: OrdItem|
                                    #[trigger] seen_m.count(x) + tc_l.count(x) <= all.count(x) by {
                                    assert(seen_m.count(x) <= seen_p.count(x) + tc_r.count(x));
                                    assert(seen0.count(x) + tc_all.count(x) <= all.count(x));
                                }
                            }
                            let (go2, w2) = reach_inside(h, d, mu);
                            proof {
                                if !go2 {
                                    let (tau, s) = w2@;
                                    lemma_pruned_child_dominated(
                                        node.value.point@,
                                        mu,
                                        tree_seq(node.left),
                                        true,
                                        query@,
                                        dim as nat,
                                        c_m,
                                        d,
                                        tau,
                                        s,
                                    );
                                }
                            }
                            Self::nn_child(&node.left, query, dim, h, Ghost(all), go2);
                            proof {
                                let seen_f = h.seen();
                                let c_f = h.contents();
                                crate::heap::lemma_subset_len(seen_m, seen_f);
                                if c_f.len() < cap {
                                    assert(crate::heap::min_nat(cap, seen_m.len())
                                        <= crate::heap::min_nat(cap, seen_f.len()));
                                    assert(seen_f == seen_m.add(tc_l));
                                    assert(seen_m == seen_p.add(tc_r));
                                    assert(seen_f =~= seen0.add(tc_all));
                                }
                                assert forall|x: OrdItem|
                                    #![trigger tc_all.count(x)]
                                    seen_f.count(x) < seen0.count(x) + tc_all.count(x) implies
                                    c_f.len() == cap && score_dominates(c_f, x.0 as int - 1) by {
                                    if seen_m.count(x) < seen_p.count(x) + tc_r.count(x) {
                                        assert(c_m.len() == cap && score_dominates(
                                            c_m,
                                            x.0 as int - 1,
                                        ));
                                    } else {
                                        assert(seen_f.count(x) < seen_m.count(x) + tc_l.count(x));
                                    }
                                }
                                assert forall|s: int|
                                    #![trigger score_dominates(c0, s)]
                                    c0.len() == cap && score_dominates(c0, s) implies c_f.len()
                                    == cap && score_dominates(c_f, s) by {
                                    assert(c_p.len() == cap && score_dominates(c_p, s));
                                    assert(c_m.len() == cap && score_dominates(c_m, s));
                                }
                            }
                        }
                    },
                }
            },
        }
    }

    /// Descend into one child when the reach check allowed it; a skipped
    /// child means the selection was already full and provably dominated
    /// everything the child holds.
    fn nn_child(
        child: &BinaryTree<VpItem>,
        query: &Vec<i64>,
        dim: usize,
        h: &mut LimitedHeap,
        Ghost(all): Ghost<Multiset<OrdItem>>,
        go: bool,
    )
        requires
            1 <= dim <= MAX_DIM,
            query@.len() == dim,
            bounded(query@),
            wf_vp(*child, dim as nat),
            old(h).inv(),
            forall|x: OrdItem|
                #[trigger] old(h).seen().count(x) + tree_cands(*child, query@).count(x)
                    <= all.count(x),
            !go ==> old(h).contents().len() == old(h).cap() && forall|x: OrdItem|
                #[trigger] tree_cands(*child, query@).count(x) > 0 ==> score_dominates(
                    old(h).contents(),
                    x.0 as int - 1,
                ),
        ensures
            final(h).inv(),
            final(h).cap() == old(h).cap(),
            forall|x: OrdItem| #[trigger] final(h).seen().count(x) >= old(h).seen().count(x),
            forall|x: OrdItem|
                #[trigger] final(h).seen().count(x) <= old(h).seen().count(x) + tree_cands(
                    *child,
                    query@,
                ).count(x),
            final(h).contents().len() < final(h).cap() ==> final(h).seen() == old(h).seen().add(
                tree_cands(*child, query@),
            ),
            forall|x: OrdItem|
                #![trigger tree_cands(*child, query@).count(x)]
                final(h).seen().count(x) < old(h).seen().count(x) + tree_cands(
                    *child,
                    query@,
                ).count(x) ==> final(h).contents().len() == final(h).cap() && score_dominates(
                    final(h).contents(),
                    x.0 as int - 1,
                ),
            forall|s: int|
                #![trigger score_dominates(old(h).contents(), s)]
                old(h).contents().len() == old(h).cap() && score_dominates(old(h).contents(), s)
                    ==> final(h).contents().len() == final(h).cap() && score_dominates(
                    final(h).contents(),
                    s,
                ),
        decreases *child, 1int,
    {
        if go {
            Self::nn_rec(child, query, dim, h, Ghost(all));
        }
    }

    /// The `k` nearest stored vectors to `query`, best first, completely
    /// pinned: exactly `min(k, n)` distinct identifiers, sorted by distance
    /// with ties broken by identifier, and everything left out ranking no
    /// better — whatever vantage points the build drew. Exactness rests on
    /// the triangle inequality of the metric, which the integer squared
    /// distances satisfy in the polynomial form the pruning proof uses; the
    /// reach margins are rounded outward by one, so a pruned side is
    /// strictly farther than everything retained and even ties are kept.
    pub fn nearest_neighbors(&self, query: &Vec<i64>, k: usize) -> (r: Vec<VectorID>)
        requires
            self.wf(),
            query@.len() == self.dim(),
            bounded(query@),
        ensures
            crate::model::is_topk_strong(self.data_view(), query@, k as int, r@),
            crate::model::is_topk(self.data_view(), query@, k as int, r@),
            k >= 1 ==> r@.len() >= 1,
    {
        let ghost dv = self.data@;
        let ghost q = query@;
        let ghost dim = self.dim as nat;
        let ghost all = cands(dv, q).to_multiset();
        let mut h = LimitedHeap::new(k);
        proof {
            assert(valid_vector(self.data@[0].1, self.dim as nat));
            lemma_cands_no_dup(dv, q, dim);
            assert(cands(dv, q) =~= dv.map_values(pair_cand_fn(q)));
            lemma_map_permutation(tree_seq(self.tree), dv, pair_cand_fn(q));
            assert(tree_cands(self.tree, q) == all);
            assert forall|x: OrdItem|
                #[trigger] h.seen().count(x) + tree_cands(self.tree, q).count(x)
                    <= all.count(x) by {}
        }
        Self::nn_rec(&self.tree, query, self.dim, &mut h, Ghost(all));
        let ghost c = h.contents();
        let ghost seen = h.seen();
        proof {
            assert(all.len() == cands(dv, q).len()) by {
                assert(cands(dv, q).to_multiset().len() == cands(dv, q).len());
            }
            assert forall|x: OrdItem| #[trigger] seen.count(x) <= all.count(x) by {
                assert(seen.count(x) <= Multiset::<OrdItem>::empty().count(x) + tree_cands(
                    self.tree,
                    q,
                ).count(x));
            }
            crate::heap::lemma_subset_len(seen, all);
            if c.len() < k {
                assert(seen == Multiset::<OrdItem>::empty().add(tree_cands(self.tree, q)));
                assert(seen =~= all);
            }
            assert(c.len() == min_nat(k as nat, dv.len() as nat));
        }
        let sorted = h.consume();
        let mut out: Vec<VectorID> = Vec::new();
        let m = sorted.len();
        let mut j: usize = 0;
        while j < m
            invariant
                m == sorted@.len(),
                j <= m,
                out@.len() == j,
                forall|t: int| 0 <= t < j ==> out@[t] == (#[trigger] sorted@[t]).1,
            decreases m - j,
        {
            out.push(sorted[j].1);
            j = j + 1;
        }
        proof {
            assert forall|x: OrdItem|
                cands(dv, q).to_multiset().count(x) > #[trigger] seen.count(x) implies
                score_dominates(c, x.0 as int - 1) by {
                assert(seen.count(x) < Multiset::<OrdItem>::empty().count(x) + tree_cands(
                    self.tree,
                    q,
                ).count(x));
            }
            lemma_sorted_heap_topk(dv, q, dim, k as nat, c, seen, sorted@, out@);
            crate::model::lemma_topk_strong_is_topk(dv, q, k as int, out@);
        }
        out
    }

    /// Build the index from an owned copy of the dataset, choosing vantage
    /// points with the given seed, so equal seeds rebuild equal trees.
    /// Rejects exactly the datasets [`dataset_error`] rejects.
    pub fn load_seeded(data: &Vec<(VectorID, Vec<i64>)>, seed: u64) -> (r: Result<
        VPTree,
        LoadError,
    >)
        ensures
            match r {
                Ok(t) => t.wf() && t.data_view() == view_of(data@) && t.dim() == view_of(
                    data@,
                )[0].1.len() && dataset_error(view_of(data@)) is None,
                Err(err) => dataset_error(view_of(data@)) == Some(err),
            },
    {
        let dim = match validate_dataset(data) {
            Ok(d) => d,
            Err(e) => {
                return Err(e);
            },
        };
        let ghost dv = view_of(data@);
        let mut items: Vec<VpPoint> = Vec::new();
        let n = data.len();
        let mut i: usize = 0;
        while i < n
            invariant
                n == data@.len(),
                dv == view_of(data@),
                i <= n,
                items@.len() == i,
                forall|t: int|
                    0 <= t < i ==> (#[trigger] items@[t]).id == dv[t].0 && items@[t].point@
                        == dv[t].1,
                valid_data(dv, dim as nat),
                1 <= dim <= MAX_DIM,
            decreases n - i,
        {
            let point = crate::model::clone_vector(&data[i].1);
            let id = data[i].0;
            items.push(VpPoint { point, id });
            i = i + 1;
        }
        proof {
            assert(points_view(items@) =~= dv);
            assert forall|t: int|
                0 <= t < items@.len() implies valid_vector(
                (#[trigger] items@[t]).point@,
                dim as nat,
            ) by {
                assert(dv[t].1 == items@[t].point@);
            }
        }
        let mut rng = new_rng(seed);
        let tree = Self::build(items, &mut rng, dim);
        Ok(VPTree { tree, dim, data: Ghost(view_of(data@)) })
    }

    /// Build the index with vantage points drawn from system entropy.
    pub fn load(data: &Vec<(VectorID, Vec<i64>)>) -> (r: Result<VPTree, LoadError>)
        ensures
            match r {
                Ok(t) => t.wf() && t.data_view() == view_of(data@) && t.dim() == view_of(
                    data@,
                )[0].1.len() && dataset_error(view_of(data@)) is None,
                Err(err) => dataset_error(view_of(data@)) == Some(err),
            },
    {
        let seed = entropy_seed();
        Self::load_seeded(data, seed)
    }
}

} // verus!
