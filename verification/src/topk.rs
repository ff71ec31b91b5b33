//! Connecting the bounded selector to exact top-k answers, and the laws that
//! hold of those answers: the fully pinned answer is unique (so equal
//! datasets and queries always produce equal results), and querying with a
//! vector that occurs exactly once returns its own identifier first.

use vstd::prelude::*;
use vstd::multiset::Multiset;
use vstd::relations::{sorted_by, total_ordering};
use crate::heap::{is_k_best, ord_le, ord_leq, OrdItem};
use crate::model::{
    bounded, contains_id, dist_sq_prefix, id_index, is_topk_strong, pair_le, score_of,
    spec_dist_sq, topk_base, valid_data, valid_vector, MAX_COORD, MAX_DIM,
};

verus! {

broadcast use {vstd::multiset::group_multiset_axioms, vstd::seq_lib::group_to_multiset_ensures};

/// The scored candidate a dataset entry forms for query `q`.
pub open spec fn pair_cand(q: Seq<i64>, p: (usize, Seq<i64>)) -> OrdItem {
    OrdItem(spec_dist_sq(q, p.1) as i64, p.0)
}

/// [`pair_cand`] as a closure over a fixed query.
pub open spec fn pair_cand_fn(q: Seq<i64>) -> spec_fn((usize, Seq<i64>)) -> OrdItem {
    |p: (usize, Seq<i64>)| pair_cand(q, p)
}

/// The scored candidate that entry `i` of the dataset forms for query `q`.
pub open spec fn cand(data: Seq<(usize, Seq<i64>)>, q: Seq<i64>, i: int) -> OrdItem {
    pair_cand(q, data[i])
}

/// The candidates of the first `n` entries, in dataset order.
pub open spec fn cands_prefix(data: Seq<(usize, Seq<i64>)>, q: Seq<i64>, n: int) -> Seq<OrdItem> {
    Seq::new(n as nat, |j: int| cand(data, q, j))
}

/// All candidates of the dataset.
pub open spec fn cands(data: Seq<(usize, Seq<i64>)>, q: Seq<i64>) -> Seq<OrdItem> {
    cands_prefix(data, q, data.len() as int)
}

/// A squared-distance prefix is non-negative, and zero exactly when the two
/// vectors agree on every summed component.
pub proof fn lemma_dist_sq_prefix_zero(x: Seq<i64>, y: Seq<i64>, n: int)
    ensures
        dist_sq_prefix(x, y, n) >= 0,
        dist_sq_prefix(x, y, n) == 0 <==> forall|t: int| 0 <= t < n ==> x[t] == y[t],
    decreases n,
{
    if n > 0 {
        lemma_dist_sq_prefix_zero(x, y, n - 1);
        let d = x[n - 1] - y[n - 1];
        assert(d * d >= 0 && (d * d == 0 <==> d == 0)) by (nonlinear_arith);
    }
}

/// In a valid dataset, `id_index` inverts the identifier of every entry.
pub proof fn lemma_id_index_of(data: Seq<(usize, Seq<i64>)>, dim: nat, i: int)
    requires
        valid_data(data, dim),
        0 <= i < data.len(),
    ensures
        contains_id(data, data[i].0),
        id_index(data, data[i].0) == i,
{
    assert(crate::model::ids_of(data)[i] == data[i].0);
    let j = id_index(data, data[i].0);
    if j != i {
        assert(crate::model::ids_of(data)[j] == data[j].0);
    }
}

/// A candidate's score fits in `i64`, so it records the true distance.
pub proof fn lemma_pair_cand_fits(q: Seq<i64>, p: (usize, Seq<i64>), dim: nat)
    requires
        valid_vector(p.1, dim),
        q.len() == dim,
        bounded(q),
    ensures
        0 <= spec_dist_sq(q, p.1) <= i64::MAX,
        pair_cand(q, p).0 == spec_dist_sq(q, p.1),
        pair_cand(q, p).1 == p.0,
{
    crate::model::lemma_dist_sq_prefix_bounds(q, p.1, q.len() as int);
    assert((dim as int) * (4 * MAX_COORD * MAX_COORD) <= MAX_DIM * (4 * MAX_COORD * MAX_COORD))
        by (nonlinear_arith)
        requires
            0 <= dim <= MAX_DIM,
    ;
}

/// Candidate scores fit in `i64`, so the candidate records the true distance.
pub proof fn lemma_cand_fits(data: Seq<(usize, Seq<i64>)>, q: Seq<i64>, dim: nat, i: int)
    requires
        valid_data(data, dim),
        q.len() == dim,
        bounded(q),
        0 <= i < data.len(),
    ensures
        0 <= spec_dist_sq(q, data[i].1) <= i64::MAX,
        cand(data, q, i).0 == spec_dist_sq(q, data[i].1),
        cand(data, q, i).1 == data[i].0,
        cand(data, q, i).0 == score_of(data, q, data[i].0),
{
    lemma_pair_cand_fits(q, data[i], dim);
    lemma_id_index_of(data, dim, i);
}

/// Distinct identifiers make all candidates distinct.
pub proof fn lemma_cands_no_dup(data: Seq<(usize, Seq<i64>)>, q: Seq<i64>, dim: nat)
    requires
        valid_data(data, dim),
    ensures
        cands(data, q).no_duplicates(),
        forall|x: OrdItem| cands(data, q).to_multiset().count(x) <= 1,
{
    let s = cands(data, q);
    assert forall|i: int, j: int| 0 <= i < j < s.len() implies s[i] != s[j] by {
        assert(crate::model::ids_of(data)[i] == data[i].0);
        assert(crate::model::ids_of(data)[j] == data[j].0);
    }
    s.lemma_multiset_has_no_duplicates();
    assert forall|x: OrdItem| s.to_multiset().count(x) <= 1 by {
        if s.to_multiset().count(x) > 0 {
            assert(s.contains(x));
        }
    }
}

/// Mapping a function over two sequences that hold the same values in a
/// different order yields the same values again.
pub proof fn lemma_map_permutation<A, B>(s1: Seq<A>, s2: Seq<A>, f: spec_fn(A) -> B)
    requires
        s1.to_multiset() == s2.to_multiset(),
    ensures
        s1.map_values(f).to_multiset() == s2.map_values(f).to_multiset(),
    decreases s1.len(),
{
    if s1.len() == 0 {
        assert(s1.to_multiset().len() == s1.len());
        assert(s2.to_multiset().len() == s2.len());
        assert(s2.len() == 0);
        assert(s1.map_values(f).to_multiset() =~= s2.map_values(f).to_multiset());
    } else {
        let x = s1[0];
        assert(s1.contains(x));
        assert(s1.to_multiset().count(x) > 0);
        assert(s2.to_multiset().count(x) > 0);
        assert(s2.contains(x));
        let j = choose|j: int| 0 <= j < s2.len() && s2[j] == x;
        let s1r = s1.remove(0);
        let s2r = s2.remove(j);
        assert(s1r.to_multiset() == s1.to_multiset().remove(x));
        assert(s2r.to_multiset() == s2.to_multiset().remove(x));
        lemma_map_permutation(s1r, s2r, f);
        assert(s1.map_values(f).remove(0) =~= s1r.map_values(f));
        assert(s2.map_values(f).remove(j) =~= s2r.map_values(f));
        assert(s1.map_values(f).remove(0).to_multiset() == s1.map_values(f).to_multiset().remove(
            f(x),
        )) by {
            assert(s1.map_values(f)[0] == f(x));
        }
        assert(s2.map_values(f).remove(j).to_multiset() == s2.map_values(f).to_multiset().remove(
            f(x),
        )) by {
            assert(s2.map_values(f)[j] == f(x));
        }
        assert(s1.map_values(f).to_multiset().contains(f(x))) by {
            assert(s1.map_values(f)[0] == f(x));
            assert(s1.map_values(f).contains(f(x)));
        }
        assert(s2.map_values(f).to_multiset().contains(f(x))) by {
            assert(s2.map_values(f)[j] == f(x));
            assert(s2.map_values(f).contains(f(x)));
        }
        assert(s1.map_values(f).to_multiset() =~= s1r.map_values(f).to_multiset().insert(f(x)));
        assert(s2.map_values(f).to_multiset() =~= s2r.map_values(f).to_multiset().insert(f(x)));
    }
}


/// A best-first listing of a k-best selection drawn from part of the
/// candidates is the pinned top-k answer, provided every candidate never
/// offered to the selection was already known to score strictly worse than
/// everything it retains.
pub proof fn lemma_sorted_heap_topk(
    data: Seq<(usize, Seq<i64>)>,
    q: Seq<i64>,
    dim: nat,
    k: nat,
    c: Multiset<OrdItem>,
    seen: Multiset<OrdItem>,
    sorted: Seq<OrdItem>,
    out: Seq<usize>,
)
    requires
        valid_data(data, dim),
        q.len() == dim,
        bounded(q),
        is_k_best(c, seen, k),
        forall|x: OrdItem| #[trigger] seen.count(x) <= cands(data, q).to_multiset().count(x),
        forall|x: OrdItem|
            cands(data, q).to_multiset().count(x) > #[trigger] seen.count(x)
                ==> crate::heap::score_dominates(c, x.0 as int - 1),
        c.len() == crate::heap::min_nat(k, data.len() as nat),
        sorted.to_multiset() == c,
        sorted_by(sorted, ord_leq()),
        out.len() == sorted.len(),
        forall|i: int| 0 <= i < out.len() ==> out[i] == (#[trigger] sorted[i]).1,
    ensures
        is_topk_strong(data, q, k as int, out),
{
    let s = cands(data, q);
    let cands_ms = s.to_multiset();
    lemma_cands_no_dup(data, q, dim);
    assert(cands_ms.len() == data.len());

    // Every listed item is some dataset entry's candidate.
    assert forall|i: int| 0 <= i < sorted.len() implies exists|t: int|
        0 <= t < data.len() && (#[trigger] sorted[i]) == #[trigger] cand(data, q, t) by {
        assert(sorted.contains(sorted[i]));
        assert(sorted.to_multiset().count(sorted[i]) > 0);
        assert(seen.count(sorted[i]) > 0);
        assert(cands_ms.count(sorted[i]) > 0);
        assert(s.contains(sorted[i]));
        let t = choose|t: int| 0 <= t < s.len() && s[t] == sorted[i];
        assert(s[t] == cand(data, q, t));
    }

    // Membership and scores of the listed identifiers.
    assert forall|i: int| 0 <= i < out.len() implies contains_id(data, #[trigger] out[i])
        && (sorted[i].0 as int) == score_of(data, q, out[i]) by {
        let t = choose|t: int| 0 <= t < data.len() && sorted[i] == cand(data, q, t);
        lemma_cand_fits(data, q, dim, t);
    }

    // No identifier is listed twice.
    assert forall|x: OrdItem| sorted.to_multiset().count(x) <= 1 by {
        assert(c.count(x) <= seen.count(x));
        assert(seen.count(x) <= cands_ms.count(x));
    }
    sorted.lemma_multiset_has_no_duplicates_conv();
    assert(out.no_duplicates()) by {
        assert forall|i: int, j: int| 0 <= i < j < out.len() implies out[i] != out[j] by {
            if out[i] == out[j] {
                let ti = choose|t: int| 0 <= t < data.len() && sorted[i] == cand(data, q, t);
                let tj = choose|t: int| 0 <= t < data.len() && sorted[j] == cand(data, q, t);
                lemma_id_index_of(data, dim, ti);
                lemma_id_index_of(data, dim, tj);
                assert(ti == tj);
                assert(sorted[i] == sorted[j]);
            }
        }
    }

    // The result length is min(k, n).
    assert(sorted.len() == c.len());

    // Best-first order carries over to the identifiers.
    assert forall|i: int, j: int|
        #![trigger out[i], out[j]]
        0 <= i < j < out.len() implies pair_le(data, q, out[i], out[j]) by {
        assert(ord_leq()(sorted[i], sorted[j]));
        assert(ord_le(sorted[i], sorted[j]));
    }

    // Nothing left out ranks better than anything listed: an item seen but
    // discarded ranks at or above the worst kept, and an item never seen
    // scores strictly above everything kept.
    assert forall|id: usize, i: int|
        #![trigger contains_id(data, id), out[i]]
        contains_id(data, id) && !out.contains(id) && 0 <= i < out.len() implies pair_le(
        data,
        q,
        out[i],
        id,
    ) by {
        let t = id_index(data, id);
        assert(0 <= t < data.len() && data[t].0 == id);
        lemma_cand_fits(data, q, dim, t);
        let x = cand(data, q, t);
        assert(s[t] == x);
        assert(s.contains(x));
        assert(cands_ms.count(x) > 0);
        if c.count(x) > 0 {
            assert(sorted.to_multiset().count(x) > 0);
            assert(sorted.contains(x));
            let j = choose|j: int| 0 <= j < sorted.len() && sorted[j] == x;
            assert(out[j] == id);
            assert(out.contains(id));
        }
        assert(sorted.contains(sorted[i]));
        assert(sorted.to_multiset().count(sorted[i]) > 0);
        if seen.count(x) > 0 {
            assert(seen.count(x) > c.count(x));
            assert(ord_le(sorted[i], x));
        } else {
            assert(cands_ms.count(x) > seen.count(x));
            assert(crate::heap::score_dominates(c, x.0 as int - 1));
            assert(sorted[i].0 <= x.0 - 1);
        }
    }
}


/// LAW: exact answers agree as identifier sets. When all dataset vectors lie
/// at pairwise distinct distances from the query, any two answers exact up
/// to ties for the same dataset, query and `k` list the same identifiers.
/// (With tied distances either tied identifier may be listed, so the
/// distances are required to be distinct.)
pub proof fn lemma_topk_set_unique(
    data: Seq<(usize, Seq<i64>)>,
    q: Seq<i64>,
    k: int,
    r1: Seq<usize>,
    r2: Seq<usize>,
)
    requires
        crate::model::is_topk(data, q, k, r1),
        crate::model::is_topk(data, q, k, r2),
        forall|a: usize, b: usize|
            contains_id(data, a) && contains_id(data, b) && a != b ==> score_of(data, q, a)
                != score_of(data, q, b),
    ensures
        forall|id: usize| r1.contains(id) <==> r2.contains(id),
{
    r1.lemma_multiset_has_no_duplicates();
    r2.lemma_multiset_has_no_duplicates();
    assert forall|id: usize| r1.contains(id) implies r2.contains(id) by {
        if !r2.contains(id) {
            let i1 = choose|i: int| 0 <= i < r1.len() && r1[i] == id;
            assert(contains_id(data, id));
            if forall|x: usize| #[trigger] r2.to_multiset().count(x) <= r1.to_multiset().count(x) {
                crate::heap::lemma_subset_equal_len(r2.to_multiset(), r1.to_multiset());
                assert(r1.to_multiset().count(id) > 0);
                assert(r2.to_multiset().count(id) > 0);
                assert(r2.contains(id));
                assert(false);
            }
            let id2 = choose|x: usize|
                r2.to_multiset().count(x) > #[trigger] r1.to_multiset().count(x);
            assert(r2.to_multiset().count(id2) > 0);
            assert(r2.contains(id2));
            if r1.contains(id2) {
                assert(r1.to_multiset().count(id2) > 0);
            }
            let i2 = choose|i: int| 0 <= i < r2.len() && r2[i] == id2;
            assert(contains_id(data, id2));
            assert(score_of(data, q, r2[i2]) <= score_of(data, q, id));
            assert(score_of(data, q, r1[i1]) <= score_of(data, q, id2));
            assert(score_of(data, q, id) == score_of(data, q, id2));
            assert(id == id2);
            assert(false);
        }
    }
    assert forall|id: usize| r2.contains(id) implies r1.contains(id) by {
        if !r1.contains(id) {
            let i2 = choose|i: int| 0 <= i < r2.len() && r2[i] == id;
            assert(contains_id(data, id));
            if forall|x: usize| #[trigger] r1.to_multiset().count(x) <= r2.to_multiset().count(x) {
                crate::heap::lemma_subset_equal_len(r1.to_multiset(), r2.to_multiset());
                assert(r2.to_multiset().count(id) > 0);
                assert(r1.to_multiset().count(id) > 0);
                assert(r1.contains(id));
                assert(false);
            }
            let id1 = choose|x: usize|
                r1.to_multiset().count(x) > #[trigger] r2.to_multiset().count(x);
            assert(r1.to_multiset().count(id1) > 0);
            assert(r1.contains(id1));
            if r2.contains(id1) {
                assert(r2.to_multiset().count(id1) > 0);
            }
            let i1 = choose|i: int| 0 <= i < r1.len() && r1[i] == id1;
            assert(contains_id(data, id1));
            assert(score_of(data, q, r1[i1]) <= score_of(data, q, id));
            assert(score_of(data, q, r2[i2]) <= score_of(data, q, id1));
            assert(score_of(data, q, id) == score_of(data, q, id1));
            assert(id == id1);
            assert(false);
        }
    }
}

/// [`pair_le`] as a closure over a fixed dataset and query.
pub open spec fn pair_leq(data: Seq<(usize, Seq<i64>)>, q: Seq<i64>) -> spec_fn(
    usize,
    usize,
) -> bool {
    |a: usize, b: usize| pair_le(data, q, a, b)
}

/// LAW: the pinned top-k answer is unique, so searches are deterministic and
/// rebuilding the same dataset yields identical results for identical queries
/// and `k`.
pub proof fn lemma_topk_strong_unique(
    data: Seq<(usize, Seq<i64>)>,
    q: Seq<i64>,
    k: int,
    r1: Seq<usize>,
    r2: Seq<usize>,
)
    requires
        is_topk_strong(data, q, k, r1),
        is_topk_strong(data, q, k, r2),
    ensures
        r1 == r2,
{
    r1.lemma_multiset_has_no_duplicates();
    r2.lemma_multiset_has_no_duplicates();

    // The two answers list the same identifiers.
    assert forall|id: usize| r1.contains(id) implies r2.contains(id) by {
        if !r2.contains(id) {
            let i1 = choose|i: int| 0 <= i < r1.len() && r1[i] == id;
            // Some identifier of r2 is missing from r1, else equal multisets.
            if forall|x: usize| #[trigger] r2.to_multiset().count(x) <= r1.to_multiset().count(x) {
                crate::heap::lemma_subset_equal_len(r2.to_multiset(), r1.to_multiset());
                assert(r2.to_multiset().count(id) > 0);
                assert(r2.contains(id));
                assert(false);
            }
            let id2 = choose|x: usize|
                r2.to_multiset().count(x) > #[trigger] r1.to_multiset().count(x);
            assert(r2.to_multiset().count(id2) > 0);
            assert(r2.contains(id2));
            assert(r1.to_multiset().count(id2) == 0);
            if r1.contains(id2) {
                assert(r1.to_multiset().count(id2) > 0);
            }
            let i2 = choose|i: int| 0 <= i < r2.len() && r2[i] == id2;
            // Each answer says its own entry ranks no worse than the missing one.
            assert(pair_le(data, q, r1[i1], id2));
            assert(pair_le(data, q, r2[i2], id));
            assert(id == id2);
            assert(false);
        }
    }
    assert forall|id: usize| r2.contains(id) implies r1.contains(id) by {
        if !r1.contains(id) {
            let i2 = choose|i: int| 0 <= i < r2.len() && r2[i] == id;
            if forall|x: usize| #[trigger] r1.to_multiset().count(x) <= r2.to_multiset().count(x) {
                crate::heap::lemma_subset_equal_len(r1.to_multiset(), r2.to_multiset());
                assert(r1.to_multiset().count(id) > 0);
                assert(r1.contains(id));
                assert(false);
            }
            let id1 = choose|x: usize|
                r1.to_multiset().count(x) > #[trigger] r2.to_multiset().count(x);
            assert(r1.to_multiset().count(id1) > 0);
            assert(r1.contains(id1));
            assert(r2.to_multiset().count(id1) == 0);
            if r2.contains(id1) {
                assert(r2.to_multiset().count(id1) > 0);
            }
            let i1 = choose|i: int| 0 <= i < r1.len() && r1[i] == id1;
            assert(pair_le(data, q, r2[i2], id1));
            assert(pair_le(data, q, r1[i1], id));
            assert(id == id1);
            assert(false);
        }
    }

    // Same identifiers and no duplicates: the multisets agree.
    assert forall|x: usize| r1.to_multiset().count(x) == r2.to_multiset().count(x) by {
        if r1.contains(x) {
            assert(r2.contains(x));
        } else {
            if r1.to_multiset().count(x) > 0 {
                assert(r1.contains(x));
            }
            if r2.to_multiset().count(x) > 0 {
                assert(r2.contains(x));
                assert(r1.contains(x));
            }
        }
    }
    assert(r1.to_multiset() =~= r2.to_multiset());

    // Both are sorted under the same total order.
    let leq = pair_leq(data, q);
    assert(total_ordering(leq));
    assert(sorted_by(r1, leq)) by {
        assert forall|i: int, j: int| 0 <= i <= j < r1.len() implies leq(r1[i], r1[j]) by {
            if i < j {
                assert(pair_le(data, q, r1[i], r1[j]));
            }
        }
    }
    assert(sorted_by(r2, leq)) by {
        assert forall|i: int, j: int| 0 <= i <= j < r2.len() implies leq(r2[i], r2[j]) by {
            if i < j {
                assert(pair_le(data, q, r2[i], r2[j]));
            }
        }
    }
    vstd::seq_lib::lemma_sorted_unique(r1, r2, leq);
}

/// LAW: any search that is exact merely up to ties agrees with the linear
/// scan as an identifier set, whenever all dataset vectors lie at pairwise
/// distinct distances from the query. (The tree searches pin their answers
/// completely, so for them [`lemma_topk_strong_unique`] gives outright
/// sequence equality with the linear scan, ties or not; this law covers the
/// weaker, tie-tolerant contract as well.)
pub proof fn lemma_tree_search_agrees_with_exact(
    data: Seq<(usize, Seq<i64>)>,
    q: Seq<i64>,
    k: int,
    exact_res: Seq<usize>,
    tree_res: Seq<usize>,
)
    requires
        is_topk_strong(data, q, k, exact_res),
        crate::model::is_topk(data, q, k, tree_res),
        forall|a: usize, b: usize|
            contains_id(data, a) && contains_id(data, b) && a != b ==> score_of(data, q, a)
                != score_of(data, q, b),
    ensures
        forall|id: usize| exact_res.contains(id) <==> tree_res.contains(id),
{
    crate::model::lemma_topk_strong_is_topk(data, q, k, exact_res);
    lemma_topk_set_unique(data, q, k, exact_res, tree_res);
}

/// LAW: querying with a vector that occurs exactly once in the dataset
/// returns that entry's identifier as the single best match; its distance is
/// the ideal extreme, zero. (With duplicate vectors the tie-break may put
/// another copy first, so the occurrence is required to be unique.)
pub proof fn lemma_self_query_first(
    data: Seq<(usize, Seq<i64>)>,
    q: Seq<i64>,
    dim: nat,
    k: int,
    res: Seq<usize>,
    t: int,
)
    requires
        valid_data(data, dim),
        is_topk_strong(data, q, k, res),
        k >= 1,
        0 <= t < data.len(),
        data[t].1 == q,
        forall|u: int| 0 <= u < data.len() && u != t ==> (#[trigger] data[u]).1 != q,
    ensures
        res.len() >= 1,
        res[0] == data[t].0,
        score_of(data, q, res[0]) == 0,
{
    let id = data[t].0;
    lemma_id_index_of(data, dim, t);
    lemma_dist_sq_prefix_zero(q, q, q.len() as int);
    assert(score_of(data, q, id) == 0);
    assert(res.len() >= 1);

    // The front entry is at distance zero.
    if res.contains(id) {
        let i = choose|i: int| 0 <= i < res.len() && res[i] == id;
        if i > 0 {
            assert(pair_le(data, q, res[0], res[i]));
        }
    } else {
        assert(pair_le(data, q, res[0], id));
    }
    let t0 = id_index(data, res[0]);
    assert(0 <= t0 < data.len() && data[t0].0 == res[0]) by {
        assert(contains_id(data, res[0]));
    }
    lemma_dist_sq_prefix_zero(q, data[t0].1, q.len() as int);
    assert(score_of(data, q, res[0]) >= 0);
    assert(score_of(data, q, res[0]) == 0);

    // Distance zero means the vectors are equal, and the occurrence is unique.
    assert(data[t0].1.len() == dim);
    assert(data[t0].1 =~= q);
    assert(t0 == t);
}

} // verus!
