//! KDTree: an axis-cycling binary space partition with branch-and-bound
//! search. The split axis at depth `d` is `d mod dimensionality`; a subtree
//! is pruned only when the squared gap to its splitting hyperplane already
//! reaches the current k-th best squared distance, so the search stays exact.

use vstd::prelude::*;
use vstd::multiset::Multiset;
use vstd::seq_lib::lemma_multiset_commutative;
use crate::heap::{min_nat, score_dominates, LimitedHeap, OrdItem};
use crate::model::{
    bounded, dataset_error, is_topk, is_topk_strong, lemma_dist_sq_ge_axis, lemma_square_bound,
    lemma_square_mono,
    spec_dist_sq, valid_data, valid_vector, validate_dataset, view_of, LoadError, MAX_COORD,
    MAX_DIM,
};
use crate::topk::{
    cands, lemma_cands_no_dup, lemma_map_permutation, lemma_pair_cand_fits,
    lemma_sorted_heap_topk, pair_cand, pair_cand_fn,
};
use crate::tree::{BinaryTree, Node};
use crate::VectorID;

verus! {

broadcast use {vstd::multiset::group_multiset_axioms, vstd::seq_lib::group_to_multiset_ensures};

/// One indexed point: its vector and identifier.
struct TreeItem {
    point: Vec<i64>,
    id: VectorID,
}

/// The (identifier, vector) pairs of a sequence of items.
spec fn items_view(s: Seq<TreeItem>) -> Seq<(usize, Seq<i64>)> {
    s.map_values(|it: TreeItem| (it.id, it.point@))
}

/// The (identifier, vector) pairs held by a subtree, in symmetric order.
spec fn tree_seq(t: BinaryTree<TreeItem>) -> Seq<(usize, Seq<i64>)>
    decreases t,
{
    match t.0 {
        None => Seq::empty(),
        Some(node) => tree_seq(node.left) + seq![(node.value.id, node.value.point@)] + tree_seq(
            node.right,
        ),
    }
}

/// The candidates a subtree offers for a query.
spec fn tree_cands(t: BinaryTree<TreeItem>, q: Seq<i64>) -> Multiset<OrdItem> {
    tree_seq(t).map_values(pair_cand_fn(q)).to_multiset()
}

/// The space-partition invariant at depth `depth`: the node's point is
/// valid, everything in the left subtree lies at or below the node along the
/// split axis, everything in the right subtree at or above it, and both
/// subtrees satisfy the same at depth `depth + 1`.
spec fn wf_tree(t: BinaryTree<TreeItem>, depth: nat, dim: nat) -> bool
    decreases t,
{
    match t.0 {
        None => true,
        Some(node) => {
            let axis = (depth % dim) as int;
            &&& valid_vector(node.value.point@, dim)
            &&& forall|i: int|
                0 <= i < tree_seq(node.left).len() ==> (#[trigger] tree_seq(node.left)[i]).1[axis]
                    <= node.value.point@[axis]
            &&& forall|i: int|
                0 <= i < tree_seq(node.right).len() ==> (#[trigger] tree_seq(node.right)[i]).1[axis]
                    >= node.value.point@[axis]
            &&& wf_tree(node.left, depth + 1, dim)
            &&& wf_tree(node.right, depth + 1, dim)
        },
    }
}

/// A subtree holds as many pairs as its size.
proof fn lemma_tree_seq_len(t: BinaryTree<TreeItem>)
    ensures
        tree_seq(t).len() == t.size(),
    decreases t,
{
    match t.0 {
        None => {},
        Some(node) => {
            lemma_tree_seq_len(node.left);
            lemma_tree_seq_len(node.right);
        },
    }
}

/// Every pair in a well-formed subtree is a valid vector.
proof fn lemma_wf_valid(t: BinaryTree<TreeItem>, depth: nat, dim: nat)
    requires
        wf_tree(t, depth, dim),
        dim >= 1,
    ensures
        forall|i: int|
            0 <= i < tree_seq(t).len() ==> valid_vector((#[trigger] tree_seq(t)[i]).1, dim),
    decreases t,
{
    match t.0 {
        None => {},
        Some(node) => {
            lemma_wf_valid(node.left, depth + 1, dim);
            lemma_wf_valid(node.right, depth + 1, dim);
            let l = tree_seq(node.left);
            let m = seq![(node.value.id, node.value.point@)];
            let r = tree_seq(node.right);
            assert forall|i: int|
                0 <= i < tree_seq(t).len() implies valid_vector((#[trigger] tree_seq(t)[i]).1, dim) by {
                if i < l.len() {
                    assert(tree_seq(t)[i] == l[i]);
                } else if i == l.len() {
                    assert(tree_seq(t)[i] == (node.value.id, node.value.point@));
                } else {
                    assert(tree_seq(t)[i] == r[i - l.len() - 1]);
                }
            }
        },
    }
}

/// Splitting a node's candidates into the left part, the node itself, and
/// the right part.
proof fn lemma_tree_cands_node(t: BinaryTree<TreeItem>, q: Seq<i64>)
    requires
        t.0 is Some,
    ensures
        tree_cands(t, q) == tree_cands(t.0->0.left, q).add(tree_cands(t.0->0.right, q)).insert(
            pair_cand(q, (t.0->0.value.id, t.0->0.value.point@)),
        ),
{
    let node = t.0->0;
    let l = tree_seq(node.left);
    let m = seq![(node.value.id, node.value.point@)];
    let r = tree_seq(node.right);
    let f = pair_cand_fn(q);
    assert((l + m + r).map_values(f) =~= l.map_values(f) + m.map_values(f) + r.map_values(f));
    lemma_multiset_commutative(l.map_values(f) + m.map_values(f), r.map_values(f));
    lemma_multiset_commutative(l.map_values(f), m.map_values(f));
    assert(m.map_values(f) =~= seq![pair_cand(q, (node.value.id, node.value.point@))]);
    assert(m.map_values(f).to_multiset() =~= Multiset::empty().insert(
        pair_cand(q, (node.value.id, node.value.point@)),
    )) by {
        assert(m.map_values(f).drop_first() =~= Seq::empty());
    }
    assert(tree_cands(t, q) =~= tree_cands(node.left, q).add(tree_cands(node.right, q)).insert(
        pair_cand(q, (node.value.id, node.value.point@)),
    ));
}

/// Sort items by the given component, ascending.
fn sort_items_by_axis(v: Vec<TreeItem>, axis: usize, dim: Ghost<nat>) -> (r: Vec<TreeItem>)
    requires
        axis < dim@,
        forall|i: int| 0 <= i < v@.len() ==> valid_vector((#[trigger] v@[i]).point@, dim@),
    ensures
        r@.len() == v@.len(),
        items_view(r@).to_multiset() == items_view(v@).to_multiset(),
        forall|i: int| 0 <= i < r@.len() ==> valid_vector((#[trigger] r@[i]).point@, dim@),
        forall|i: int, j: int|
            0 <= i < j < r@.len() ==> (#[trigger] r@[i]).point@[axis as int]
                <= (#[trigger] r@[j]).point@[axis as int],
{
    let ghost orig = items_view(v@).to_multiset();
    let mut rest = v;
    let mut out: Vec<TreeItem> = Vec::new();
    proof {
        assert(items_view(out@) =~= Seq::<(usize, Seq<i64>)>::empty());
        assert(items_view(out@).to_multiset().add(items_view(rest@).to_multiset()) =~= orig);
    }
    while rest.len() > 0
        invariant
            axis < dim@,
            items_view(out@).to_multiset().add(items_view(rest@).to_multiset()) == orig,
            out@.len() + rest@.len() == orig.len(),
            forall|i: int| 0 <= i < rest@.len() ==> valid_vector((#[trigger] rest@[i]).point@, dim@),
            forall|i: int| 0 <= i < out@.len() ==> valid_vector((#[trigger] out@[i]).point@, dim@),
            forall|i: int, j: int|
                0 <= i < j < out@.len() ==> (#[trigger] out@[i]).point@[axis as int]
                    <= (#[trigger] out@[j]).point@[axis as int],
            forall|i: int, j: int|
                0 <= i < out@.len() && 0 <= j < rest@.len() ==> (#[trigger] out@[i]).point@[axis as int]
                    <= (#[trigger] rest@[j]).point@[axis as int],
        decreases rest@.len(),
    {
        let mut best: usize = 0;
        let mut i: usize = 1;
        while i < rest.len()
            invariant
                axis < dim@,
                best < i <= rest@.len(),
                forall|t: int| 0 <= t < rest@.len() ==> valid_vector((#[trigger] rest@[t]).point@, dim@),
                forall|t: int|
                    0 <= t < i ==> (#[trigger] rest@[best as int]).point@[axis as int]
                        <= (#[trigger] rest@[t]).point@[axis as int],
            decreases rest@.len() - i,
        {
            if rest[i].point[axis] < rest[best].point[axis] {
                best = i;
            }
            i = i + 1;
        }
        let ghost rest0 = rest@;
        let ghost out0 = out@;
        let m = rest.remove(best);
        out.push(m);
        proof {
            assert(out@ == out0.push(m));
            assert(items_view(out@) =~= items_view(out0).push((m.id, m.point@)));
            assert(items_view(out@).to_multiset() =~= items_view(out0).to_multiset().insert(
                (m.id, m.point@),
            ));
            assert(items_view(rest@) =~= items_view(rest0).remove(best as int));
            assert(items_view(rest0)[best as int] == (m.id, m.point@));
            assert(items_view(rest@).to_multiset() =~= items_view(rest0).to_multiset().remove(
                (m.id, m.point@),
            ));
            assert(items_view(rest0).to_multiset().contains((m.id, m.point@))) by {
                assert(items_view(rest0).contains((m.id, m.point@)));
            }
            assert(items_view(out@).to_multiset().add(items_view(rest@).to_multiset()) =~= orig);
            assert forall|i: int, j: int|
                0 <= i < out@.len() && 0 <= j < rest@.len() implies (#[trigger] out@[i]).point@[axis as int]
                <= (#[trigger] rest@[j]).point@[axis as int] by {
                assert(rest@[j] == if j < best { rest0[j] } else { rest0[j + 1] });
                if i < out0.len() {
                    assert(out@[i] == out0[i]);
                } else {
                    assert(out@[i] == m);
                }
            }
        }
    }
    proof {
        assert(items_view(rest@) =~= Seq::<(usize, Seq<i64>)>::empty());
        assert(items_view(out@).to_multiset().add(items_view(rest@).to_multiset())
            =~= items_view(out@).to_multiset());
        assert(items_view(out@).to_multiset().len() == items_view(out@).len());
    }
    out
}

/// A KDTree index over an owned copy of the dataset.
pub struct KDTree {
    tree: BinaryTree<TreeItem>,
    dim: usize,
    data: Ghost<Seq<(usize, Seq<i64>)>>,
}

impl KDTree {
    /// The dataset this index answers for.
    pub closed spec fn data_view(self) -> Seq<(usize, Seq<i64>)> {
        self.data@
    }

    /// The dimensionality every stored and queried vector has.
    pub closed spec fn dim(self) -> nat {
        self.dim as nat
    }

    /// The index holds a valid dataset, partitioned by the space-partition
    /// invariant.
    pub closed spec fn wf(self) -> bool {
        &&& valid_data(self.data@, self.dim as nat)
        &&& self.data@.len() <= usize::MAX
        &&& wf_tree(self.tree, 0, self.dim as nat)
        &&& tree_seq(self.tree).to_multiset() == self.data@.to_multiset()
    }

    /// Build the tree from the items: sort along the depth's axis, take the
    /// median as the node, and recurse on both halves.
    #[verifier::rlimit(50)]
    fn build(points: Vec<TreeItem>, depth: usize, dim: usize) -> (t: BinaryTree<TreeItem>)
        requires
            1 <= dim <= MAX_DIM,
            forall|i: int|
                0 <= i < points@.len() ==> valid_vector((#[trigger] points@[i]).point@, dim as nat),
            depth + points@.len() <= usize::MAX,
        ensures
            tree_seq(t).to_multiset() == items_view(points@).to_multiset(),
            tree_seq(t).len() == points@.len(),
            wf_tree(t, depth as nat, dim as nat),
        decreases points@.len(),
    {
        if points.len() == 0 {
            proof {
                assert(items_view(points@) =~= Seq::<(usize, Seq<i64>)>::empty());
                assert(tree_seq(BinaryTree::<TreeItem>(None)).to_multiset() =~= items_view(
                    points@,
                ).to_multiset());
            }
            return BinaryTree(None);
        }
        let ghost n = points@.len();
        let axis = depth % dim;
        let mut sorted = sort_items_by_axis(points, axis, Ghost(dim as nat));
        let ghost full = sorted@;
        let median = sorted.len() / 2;
        let mut right = sorted.split_off(median);
        let left = sorted;
        let value = right.remove(0);
        proof {
            assert(left@ == full.subrange(0, median as int));
            assert(value == full[median as int]);
            assert(right@ =~= full.subrange(median as int + 1, full.len() as int));
            assert forall|i: int|
                0 <= i < left@.len() implies valid_vector(
                (#[trigger] left@[i]).point@,
                dim as nat,
            ) by {
                assert(left@[i] == full[i]);
            }
            assert forall|i: int|
                0 <= i < right@.len() implies valid_vector(
                (#[trigger] right@[i]).point@,
                dim as nat,
            ) by {
                assert(right@[i] == full[i + median + 1]);
            }
            assert(valid_vector(value.point@, dim as nat));
        }
        let lt = Self::build(left, depth + 1, dim);
        let rt = Self::build(right, depth + 1, dim);
        let t = BinaryTree(Some(Box::new(Node { value, left: lt, right: rt })));
        proof {
            let lv = items_view(full.subrange(0, median as int));
            let mv = seq![(t.0->0.value.id, t.0->0.value.point@)];
            let rv = items_view(full.subrange(median as int + 1, full.len() as int));
            assert(tree_seq(t) == tree_seq(lt) + mv + tree_seq(rt));
            lemma_multiset_commutative(tree_seq(lt) + mv, tree_seq(rt));
            lemma_multiset_commutative(tree_seq(lt), mv);
            assert(items_view(full) =~= lv + mv + rv);
            lemma_multiset_commutative(lv + mv, rv);
            lemma_multiset_commutative(lv, mv);
            assert(tree_seq(t).to_multiset() =~= items_view(full).to_multiset());
            assert(tree_seq(t).to_multiset().len() == tree_seq(t).len());
            assert(items_view(full).to_multiset().len() == items_view(full).len());

            // The space-partition bounds at this node.
            let va = t.0->0.value.point@[axis as int];
            assert forall|i: int|
                0 <= i < tree_seq(lt).len() implies (#[trigger] tree_seq(lt)[i]).1[axis as int]
                <= va by {
                assert(tree_seq(lt).to_multiset().contains(tree_seq(lt)[i])) by {
                    assert(tree_seq(lt).contains(tree_seq(lt)[i]));
                }
                assert(lv.to_multiset().contains(tree_seq(lt)[i]));
                assert(lv.contains(tree_seq(lt)[i]));
                let j = choose|j: int| 0 <= j < lv.len() && lv[j] == tree_seq(lt)[i];
                assert(lv[j] == (full[j].id, full[j].point@));
                assert(full[j].point@[axis as int] <= full[median as int].point@[axis as int]);
            }
            assert forall|i: int|
                0 <= i < tree_seq(rt).len() implies (#[trigger] tree_seq(rt)[i]).1[axis as int]
                >= va by {
                assert(tree_seq(rt).to_multiset().contains(tree_seq(rt)[i])) by {
                    assert(tree_seq(rt).contains(tree_seq(rt)[i]));
                }
                assert(rv.to_multiset().contains(tree_seq(rt)[i]));
                assert(rv.contains(tree_seq(rt)[i]));
                let j = choose|j: int| 0 <= j < rv.len() && rv[j] == tree_seq(rt)[i];
                assert(rv[j] == (full[j + median + 1].id, full[j + median + 1].point@));
                assert(full[j + median + 1].point@[axis as int] >= full[median as int].point@[axis
                    as int]);
            }
            assert(wf_tree(t, depth as nat, dim as nat));
        }
        t
    }

    /// Branch-and-bound descent: score the node, search the side of the
    /// splitting hyperplane the query lies in, then search the other side
    /// unless the heap is full and the squared gap to the hyperplane already
    /// reaches the current k-th best squared distance. A pruned point is
    /// provably no closer than anything retained, so nothing exact is lost.
    #[verifier::rlimit(100)]
    fn nn_rec(
        tree: &BinaryTree<TreeItem>,
        depth: usize,
        query: &Vec<i64>,
        dim: usize,
        h: &mut LimitedHeap,
        Ghost(all): Ghost<Multiset<OrdItem>>,
    )
        requires
            1 <= dim <= MAX_DIM,
            query@.len() == dim,
            bounded(query@),
            wf_tree(*tree, depth as nat, dim as nat),
            depth + tree.size() <= usize::MAX,
            old(h).inv(),
            forall|x: OrdItem|
                #[trigger] old(h).seen().count(x) + tree_cands(*tree, query@).count(x)
                    <= all.count(x),
            forall|x: OrdItem| #[trigger] all.count(x) <= 1,
        ensures
            final(h).inv(),
            final(h).cap() == old(h).cap(),
            forall|x: OrdItem| #[trigger] final(h).seen().count(x) >= old(h).seen().count(x),
            forall|x: OrdItem|
                #[trigger] final(h).seen().count(x) <= old(h).seen().count(x) + tree_cands(
                    *tree,
                    query@,
                ).count(x),
            final(h).contents().len() < final(h).cap() ==> final(h).seen() == old(h).seen().add(
                tree_cands(*tree, query@),
            ),
            forall|x: OrdItem|
                #![trigger tree_cands(*tree, query@).count(x)]
                final(h).seen().count(x) < old(h).seen().count(x) + tree_cands(
                    *tree,
                    query@,
                ).count(x) ==> final(h).contents().len() == final(h).cap() && score_dominates(
                    final(h).contents(),
                    x.0 as int - 1,
                ),
            forall|s: int|
                #![trigger score_dominates(old(h).contents(), s)]
                old(h).contents().len() == old(h).cap() && score_dominates(old(h).contents(), s)
                    ==> final(h).contents().len() == final(h).cap() && score_dominates(
                    final(h).contents(),
                    s,
                ),
        decreases *tree,
    {
        match &tree.0 {
            None => {
                proof {
                    assert(tree_seq(*tree) =~= Seq::<(usize, Seq<i64>)>::empty());
                    assert(tree_seq(*tree).map_values(pair_cand_fn(query@)) =~= Seq::<
                        OrdItem,
                    >::empty());
                    assert(tree_cands(*tree, query@) =~= Multiset::<OrdItem>::empty());
                    assert(h.seen() =~= h.seen().add(tree_cands(*tree, query@)));
                }
            },
            Some(node) => {
                proof {
                    lemma_tree_cands_node(*tree, query@);
                }
                let ghost tc_all = tree_cands(*tree, query@);
                let ghost npair = (node.value.id, node.value.point@);
                let ghost nc = pair_cand(query@, npair);
                let ghost seen0 = h.seen();
                let ghost c0 = h.contents();
                let ghost cap = h.cap();
                proof {
                    lemma_pair_cand_fits(query@, npair, dim as nat);
                    assert(seen0.count(nc) + tc_all.count(nc) <= all.count(nc));
                    assert(tc_all.count(nc) >= 1);
                }
                let d = crate::model::distance(query, &node.value.point);
                h.push(OrdItem(d, node.value.id));
                proof {
                    assert(OrdItem(d, node.value.id) == nc);
                }
                let ghost seen_p = h.seen();
                let ghost c_p = h.contents();

                let axis = depth % dim;
                let qa = query[axis];
                let va = node.value.point[axis];
                let near_left = qa < va;
                let (near, far) = if near_left {
                    (&node.left, &node.right)
                } else {
                    (&node.right, &node.left)
                };
                let ghost tc_near = tree_cands(*near, query@);
                let ghost tc_far = tree_cands(*far, query@);
                proof {
                    assert(tc_all == tree_cands(node.left, query@).add(
                        tree_cands(node.right, query@),
                    ).insert(nc));
                    assert forall|x: OrdItem|
                        #[trigger] seen_p.count(x) + tc_near.count(x) <= all.count(x) by {
                        assert(seen0.count(x) + tc_all.count(x) <= all.count(x));
                    }
                    assert(wf_tree(*near, (depth + 1) as nat, dim as nat));
                    assert(tree.size() == 1 + node.left.size() + node.right.size());
                    assert(depth + 1 + near.size() <= usize::MAX);
                }
                Self::nn_rec(near, depth + 1, query, dim, h, Ghost(all));
                let ghost seen1 = h.seen();
                let ghost c1 = h.contents();

                let full = h.len() == h.capacity();
                proof {
                    assert(-MAX_COORD <= query@[axis as int] <= MAX_COORD);
                    assert(-MAX_COORD <= node.value.point@[axis as int] <= MAX_COORD);
                }
                let gap = qa - va;
                proof {
                    lemma_square_bound(gap as int, 2 * MAX_COORD);
                }
                let mut go_far = !full;
                if full && h.capacity() > 0 {
                    match h.worst() {
                        Some(m) => {
                            if gap * gap <= m.0 {
                                go_far = true;
                            }
                            proof {
                                if !go_far {
                                    assert forall|y: OrdItem| c1.count(y) > 0 implies (#[trigger] y.0)
                                        <= (gap as int) * (gap as int) - 1 by {
                                        assert(crate::heap::ord_le(y, m));
                                    }
                                }
                            }
                        },
                        None => {
                            proof {
                                assert(c1.len() == 0);
                                assert(false);
                            }
                        },
                    }
                }
                proof {
                    assert(!go_far ==> c1.len() == cap && score_dominates(
                        c1,
                        (gap as int) * (gap as int) - 1,
                    )) by {
                        if !go_far && cap == 0 {
                            assert(c1.len() == crate::heap::min_nat(cap, seen1.len()));
                            assert forall|y: OrdItem| c1.count(y) > 0 implies (#[trigger] y.0)
                                <= (gap as int) * (gap as int) - 1 by {
                                assert(c1.count(y) <= c1.len());
                            }
                        }
                    }
                }
                if go_far {
                    proof {
                        assert forall|x: OrdItem|
                            #[trigger] seen1.count(x) + tc_far.count(x) <= all.count(x) by {
                            assert(seen1.count(x) <= seen_p.count(x) + tc_near.count(x));
                            assert(seen0.count(x) + tc_all.count(x) <= all.count(x));
                        }
                        assert(wf_tree(*far, (depth + 1) as nat, dim as nat));
                        assert(tree.size() == 1 + node.left.size() + node.right.size());
                        assert(depth + 1 + far.size() <= usize::MAX);
                    }
                    Self::nn_rec(far, depth + 1, query, dim, h, Ghost(all));
                }
                proof {
                    let seen_f = h.seen();
                    let c_f = h.contents();
                    crate::heap::lemma_subset_len(seen1, seen_f);
                    crate::heap::lemma_subset_len(seen_p, seen1);

                    // Growth bounds.
                    assert forall|x: OrdItem| #[trigger] seen_f.count(x) >= seen0.count(x) by {
                        assert(seen1.count(x) >= seen_p.count(x));
                        assert(seen_f.count(x) >= seen1.count(x));
                    }
                    assert forall|x: OrdItem|
                        #[trigger] seen_f.count(x) <= seen0.count(x) + tc_all.count(x) by {
                        assert(seen1.count(x) <= seen_p.count(x) + tc_near.count(x));
                        assert(seen_f.count(x) <= seen1.count(x) + tc_far.count(x));
                    }

                    // Saw everything when not full.
                    if c_f.len() < cap {
                        assert(crate::heap::min_nat(cap, seen1.len()) <= crate::heap::min_nat(
                            cap,
                            seen_f.len(),
                        ));
                        assert(c1.len() < cap);
                        assert(go_far);
                        assert(seen_f == seen1.add(tc_far));
                        assert(seen1 == seen_p.add(tc_near));
                        assert(seen_f =~= seen0.add(tc_all));
                    }

                    // Every candidate not offered is dominated.
                    assert forall|x: OrdItem|
                        #![trigger tc_all.count(x)]
                        seen_f.count(x) < seen0.count(x) + tc_all.count(x) implies c_f.len() == cap
                        && score_dominates(c_f, x.0 as int - 1) by {
                        if seen1.count(x) < seen_p.count(x) + tc_near.count(x) {
                            // Pruned somewhere inside the near subtree.
                            assert(c1.len() == cap && score_dominates(c1, x.0 as int - 1));
                            if !go_far {
                                assert(c_f == c1);
                            }
                        } else {
                            assert(seen_f.count(x) < seen1.count(x) + tc_far.count(x));
                            if go_far {
                                assert(c_f.len() == cap && score_dominates(c_f, x.0 as int - 1));
                            } else {
                                // The whole far subtree was pruned here.
                                assert(c_f == c1 && seen_f == seen1);
                                assert(tc_far.count(x) > 0);
                                let fs = tree_seq(*far).map_values(pair_cand_fn(query@));
                                assert(fs.to_multiset().count(x) > 0);
                                assert(fs.contains(x));
                                let j = choose|j: int| 0 <= j < fs.len() && fs[j] == x;
                                let p = tree_seq(*far)[j];
                                assert(x == pair_cand(query@, p));
                                lemma_wf_valid(*far, (depth + 1) as nat, dim as nat);
                                assert(valid_vector(p.1, dim as nat));
                                lemma_pair_cand_fits(query@, p, dim as nat);
                                lemma_dist_sq_ge_axis(query@, p.1, axis as int);
                                if near_left {
                                    assert(p.1[axis as int] >= node.value.point@[axis as int]);
                                    lemma_square_mono(
                                        (gap as int),
                                        query@[axis as int] - p.1[axis as int],
                                    );
                                } else {
                                    assert(p.1[axis as int] <= node.value.point@[axis as int]);
                                    lemma_square_mono(
                                        (gap as int),
                                        query@[axis as int] - p.1[axis as int],
                                    );
                                }
                                assert(x.0 as int >= (gap as int) * (gap as int));
                                assert(score_dominates(c1, (gap as int) * (gap as int) - 1));
                                assert forall|y: OrdItem| c_f.count(y) > 0 implies (#[trigger] y.0)
                                    <= x.0 as int - 1 by {
                                    assert(y.0 <= (gap as int) * (gap as int) - 1);
                                }
                            }
                        }
                    }

                    // Domination transport.
                    assert forall|s: int|
                        #![trigger score_dominates(c0, s)]
                        c0.len() == cap && score_dominates(c0, s) implies c_f.len() == cap
                        && score_dominates(c_f, s) by {
                        assert(c_p.len() == cap && score_dominates(c_p, s));
                        assert(c1.len() == cap && score_dominates(c1, s));
                        if !go_far {
                            assert(c_f == c1);
                        }
                    }
                }
            },
        }
    }

    /// The `k` nearest stored vectors to `query`, best first, completely
    /// pinned: exactly `min(k, n)` distinct identifiers, sorted by distance
    /// with ties broken by identifier, and everything left out ranking no
    /// better. The prune descends on equality, so a pruned subtree is
    /// strictly farther than everything retained and even ties are kept.
    pub fn nearest_neighbors(&self, query: &Vec<i64>, k: usize) -> (r: Vec<VectorID>)
        requires
            self.wf(),
            query@.len() == self.dim(),
            bounded(query@),
        ensures
            is_topk_strong(self.data_view(), query@, k as int, r@),
            is_topk(self.data_view(), query@, k as int, r@),
            k >= 1 ==> r@.len() >= 1,
    {
        let ghost dv = self.data@;
        let ghost q = query@;
        let ghost dim = self.dim as nat;
        let ghost all = cands(dv, q).to_multiset();
        let mut h = LimitedHeap::new(k);
        proof {
            lemma_cands_no_dup(dv, q, dim);
            assert(cands(dv, q) =~= dv.map_values(pair_cand_fn(q)));
            lemma_map_permutation(tree_seq(self.tree), dv, pair_cand_fn(q));
            assert(tree_cands(self.tree, q) == all);
            assert forall|x: OrdItem|
                #[trigger] h.seen().count(x) + tree_cands(self.tree, q).count(x)
                    <= all.count(x) by {}
            lemma_tree_seq_len(self.tree);
            assert(tree_seq(self.tree).to_multiset().len() == tree_seq(self.tree).len());
            assert(dv.to_multiset().len() == dv.len());
            assert(self.tree.size() == dv.len());
        }
        Self::nn_rec(&self.tree, 0, query, self.dim, &mut h, Ghost(all));
        let ghost c = h.contents();
        let ghost seen = h.seen();
        proof {
            assert(all.len() == cands(dv, q).len()) by {
                assert(cands(dv, q).to_multiset().len() == cands(dv, q).len());
            }
            assert forall|x: OrdItem| #[trigger] seen.count(x) <= all.count(x) by {
                assert(seen.count(x) <= Multiset::<OrdItem>::empty().count(x) + tree_cands(
                    self.tree,
                    q,
                ).count(x));
            }
            crate::heap::lemma_subset_len(seen, all);
            if c.len() < k {
                assert(seen == Multiset::<OrdItem>::empty().add(tree_cands(self.tree, q)));
                assert(seen =~= all);
            }
            assert(c.len() == min_nat(k as nat, dv.len() as nat));
        }
        let sorted = h.consume();
        let mut out: Vec<VectorID> = Vec::new();
        let m = sorted.len();
        let mut j: usize = 0;
        while j < m
            invariant
                m == sorted@.len(),
                j <= m,
                out@.len() == j,
                forall|t: int| 0 <= t < j ==> out@[t] == (#[trigger] sorted@[t]).1,
            decreases m - j,
        {
            out.push(sorted[j].1);
            j = j + 1;
        }
        proof {
            assert forall|x: OrdItem|
                cands(dv, q).to_multiset().count(x) > #[trigger] seen.count(x) implies
                score_dominates(c, x.0 as int - 1) by {
                assert(seen.count(x) < Multiset::<OrdItem>::empty().count(x) + tree_cands(
                    self.tree,
                    q,
                ).count(x));
            }
            lemma_sorted_heap_topk(dv, q, dim, k as nat, c, seen, sorted@, out@);
            crate::model::lemma_topk_strong_is_topk(dv, q, k as int, out@);
        }
        out
    }

    /// Build the index from an owned copy of the dataset. Rejects exactly
    /// the datasets [`dataset_error`] rejects, with that error.
    pub fn load(data: &Vec<(VectorID, Vec<i64>)>) -> (r: Result<KDTree, LoadError>)
        ensures
            match r {
                Ok(t) => t.wf() && t.data_view() == view_of(data@) && t.dim() == view_of(
                    data@,
                )[0].1.len() && dataset_error(view_of(data@)) is None,
                Err(err) => dataset_error(view_of(data@)) == Some(err),
            },
    {
        let dim = match validate_dataset(data) {
            Ok(d) => d,
            Err(e) => {
                return Err(e);
            },
        };
        let ghost dv = view_of(data@);
        let mut items: Vec<TreeItem> = Vec::new();
        let n = data.len();
        let mut i: usize = 0;
        while i < n
            invariant
                n == data@.len(),
                dv == view_of(data@),
                i <= n,
                items@.len() == i,
                forall|t: int|
                    0 <= t < i ==> (#[trigger] items@[t]).id == dv[t].0 && items@[t].point@
                        == dv[t].1,
                valid_data(dv, dim as nat),
                1 <= dim <= MAX_DIM,
            decreases n - i,
        {
            let point = crate::model::clone_vector(&data[i].1);
            let id = data[i].0;
            items.push(TreeItem { point, id });
            i = i + 1;
        }
        proof {
            assert(items_view(items@) =~= dv);
            assert forall|t: int|
                0 <= t < items@.len() implies valid_vector(
                (#[trigger] items@[t]).point@,
                dim as nat,
            ) by {
                assert(dv[t].1 == items@[t].point@);
            }
        }
        let tree = Self::build(items, 0, dim);
        Ok(KDTree { tree, dim, data: Ghost(view_of(data@)) })
    }
}

} // verus!
