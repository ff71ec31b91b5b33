//! The mathematical model: validity of vectors and datasets, the squared
//! Euclidean distance and the dot product, and the ordering used to rank
//! search results.

use vstd::prelude::*;
use crate::heap::{ord_le, OrdItem};
use crate::VectorID;

verus! {

/// Largest magnitude a fixed-point vector component may have.
pub const MAX_COORD: i64 = 1_000_000;

/// Largest dimensionality a dataset may have.
///
/// Together with [`MAX_COORD`] this keeps every squared distance and every
/// dot product within `i64` range: `MAX_DIM * (2 * MAX_COORD)^2 < i64::MAX`.
pub const MAX_DIM: usize = 1_000_000;

/// Every component of `v` lies in `[-MAX_COORD, MAX_COORD]`.
pub open spec fn bounded(v: Seq<i64>) -> bool {
    forall|i: int| 0 <= i < v.len() ==> -MAX_COORD <= #[trigger] v[i] <= MAX_COORD
}

/// A vector usable by the indexes: dimension in range and components bounded.
pub open spec fn valid_vector(v: Seq<i64>, dim: nat) -> bool {
    &&& v.len() == dim
    &&& 1 <= dim <= MAX_DIM
    &&& bounded(v)
}

/// The mathematical value of an in-memory dataset: a sequence of
/// (identifier, vector) pairs.
pub open spec fn view_of(data: Seq<(usize, Vec<i64>)>) -> Seq<(usize, Seq<i64>)> {
    data.map_values(|p: (usize, Vec<i64>)| (p.0, p.1@))
}

/// The identifiers of a dataset, in order.
pub open spec fn ids_of(data: Seq<(usize, Seq<i64>)>) -> Seq<usize> {
    data.map_values(|p: (usize, Seq<i64>)| p.0)
}

/// A dataset the indexes accept: non-empty, uniform in-range dimensionality,
/// bounded components, and pairwise distinct identifiers.
pub open spec fn valid_data(data: Seq<(usize, Seq<i64>)>, dim: nat) -> bool {
    &&& data.len() >= 1
    &&& forall|i: int| 0 <= i < data.len() ==> valid_vector((#[trigger] data[i]).1, dim)
    &&& ids_of(data).no_duplicates()
}

/// The dataset holds an entry with this identifier.
pub open spec fn contains_id(data: Seq<(usize, Seq<i64>)>, id: usize) -> bool {
    exists|i: int| 0 <= i < data.len() && (#[trigger] data[i]).0 == id
}

/// The position of the entry carrying `id` (unique in a valid dataset).
pub open spec fn id_index(data: Seq<(usize, Seq<i64>)>, id: usize) -> int {
    choose|i: int| 0 <= i < data.len() && (#[trigger] data[i]).0 == id
}

/// How far the vector with this identifier is from the query.
pub open spec fn score_of(data: Seq<(usize, Seq<i64>)>, q: Seq<i64>, id: usize) -> int {
    spec_dist_sq(q, data[id_index(data, id)].1)
}

/// The ranking of result identifiers: by distance to the query, ties broken
/// by the identifier itself.
pub open spec fn pair_le(data: Seq<(usize, Seq<i64>)>, q: Seq<i64>, a: usize, b: usize) -> bool {
    score_of(data, q, a) < score_of(data, q, b) || (score_of(data, q, a) == score_of(data, q, b)
        && a <= b)
}

/// Shared shape of every search result: as many distinct dataset identifiers
/// as `k` and the dataset size allow.
pub open spec fn topk_base(data: Seq<(usize, Seq<i64>)>, k: int, res: Seq<usize>) -> bool {
    &&& res.no_duplicates()
    &&& res.len() == if k <= data.len() {
        k
    } else {
        data.len() as int
    }
    &&& forall|i: int| 0 <= i < res.len() ==> contains_id(data, #[trigger] res[i])
}

/// An exact top-k answer, pinned completely: the result is sorted under
/// [`pair_le`] and every dataset identifier left out ranks no better than
/// anything returned. Under this predicate the result sequence is unique.
pub open spec fn is_topk_strong(
    data: Seq<(usize, Seq<i64>)>,
    q: Seq<i64>,
    k: int,
    res: Seq<usize>,
) -> bool {
    &&& topk_base(data, k, res)
    &&& forall|i: int, j: int|
        #![trigger res[i], res[j]]
        0 <= i < j < res.len() ==> pair_le(data, q, res[i], res[j])
    &&& forall|id: usize, i: int|
        #![trigger contains_id(data, id), res[i]]
        contains_id(data, id) && !res.contains(id) && 0 <= i < res.len() ==> pair_le(
            data,
            q,
            res[i],
            id,
        )
}

/// An exact top-k answer up to ties in distance: sorted by distance, and no
/// identifier left out is strictly closer than one returned. Identifiers at
/// equal distance may be exchanged, which is the spread scenario tests allow.
pub open spec fn is_topk(
    data: Seq<(usize, Seq<i64>)>,
    q: Seq<i64>,
    k: int,
    res: Seq<usize>,
) -> bool {
    &&& topk_base(data, k, res)
    &&& forall|i: int, j: int|
        #![trigger res[i], res[j]]
        0 <= i < j < res.len() ==> score_of(data, q, res[i]) <= score_of(data, q, res[j])
    &&& forall|id: usize, i: int|
        #![trigger contains_id(data, id), res[i]]
        contains_id(data, id) && !res.contains(id) && 0 <= i < res.len() ==> score_of(
            data,
            q,
            res[i],
        ) <= score_of(data, q, id)
}

/// The result lists distinct identifiers of the dataset.
pub open spec fn ids_from(data: Seq<(usize, Seq<i64>)>, res: Seq<usize>) -> bool {
    &&& res.no_duplicates()
    &&& forall|i: int| 0 <= i < res.len() ==> contains_id(data, #[trigger] res[i])
}

/// The result is ordered best match first.
pub open spec fn sorted_by_distance(
    data: Seq<(usize, Seq<i64>)>,
    q: Seq<i64>,
    res: Seq<usize>,
) -> bool {
    forall|i: int, j: int|
        #![trigger res[i], res[j]]
        0 <= i < j < res.len() ==> score_of(data, q, res[i]) <= score_of(data, q, res[j])
}

/// The fully pinned answer is in particular exact up to ties.
pub proof fn lemma_topk_strong_is_topk(
    data: Seq<(usize, Seq<i64>)>,
    q: Seq<i64>,
    k: int,
    res: Seq<usize>,
)
    requires
        is_topk_strong(data, q, k, res),
    ensures
        is_topk(data, q, k, res),
{
}

/// Why a dataset is rejected, or `None` if it is accepted. The checks run in
/// this order: emptiness, the first vector's dimensionality, uniform
/// dimensionality, component bounds, identifier uniqueness.
pub open spec fn dataset_error(d: Seq<(usize, Seq<i64>)>) -> Option<LoadError> {
    if d.len() == 0 {
        Some(LoadError::EmptyDataset)
    } else if !(1 <= d[0].1.len() <= MAX_DIM) {
        Some(LoadError::DimensionOutOfRange)
    } else if exists|i: int| 0 <= i < d.len() && (#[trigger] d[i]).1.len() != d[0].1.len() {
        Some(LoadError::DimensionMismatch)
    } else if exists|i: int| 0 <= i < d.len() && !bounded((#[trigger] d[i]).1) {
        Some(LoadError::ComponentOutOfRange)
    } else if !ids_of(d).no_duplicates() {
        Some(LoadError::DuplicateId)
    } else {
        None
    }
}

/// An accepted dataset is valid at the first vector's dimensionality.
pub proof fn lemma_dataset_ok(d: Seq<(usize, Seq<i64>)>)
    requires
        dataset_error(d) is None,
    ensures
        valid_data(d, d[0].1.len()),
{
}

/// Why `load` rejects a dataset. Construction is fatal on these: the indexes
/// never guess a dimensionality or ignore an out-of-range component.
#[derive(Clone, Copy, Debug, PartialEq, Eq, Structural)]
pub enum LoadError {
    /// The dataset holds no vectors, so no dimensionality can be inferred.
    EmptyDataset,
    /// The first vector's dimensionality is zero or above [`MAX_DIM`].
    DimensionOutOfRange,
    /// Two vectors differ in length.
    DimensionMismatch,
    /// A component lies outside `[-MAX_COORD, MAX_COORD]`.
    ComponentOutOfRange,
    /// Two entries share an identifier.
    DuplicateId,
}

/// Check a dataset, returning its dimensionality or the first reason (in the
/// order of [`dataset_error`]) it is rejected.
pub fn validate_dataset(data: &Vec<(VectorID, Vec<i64>)>) -> (r: Result<usize, LoadError>)
    ensures
        match r {
            Ok(dim) => dataset_error(view_of(data@)) is None && dim == data@[0].1@.len()
                && valid_data(view_of(data@), dim as nat),
            Err(e) => dataset_error(view_of(data@)) == Some(e),
        },
{
    let ghost d = view_of(data@);
    let n = data.len();
    if n == 0 {
        return Err(LoadError::EmptyDataset);
    }
    let dim = data[0].1.len();
    if dim < 1 || dim > MAX_DIM {
        return Err(LoadError::DimensionOutOfRange);
    }
    let mut i: usize = 0;
    while i < n
        invariant
            n == data@.len(),
            d == view_of(data@),
            dim == d[0].1.len(),
            1 <= dim <= MAX_DIM,
            i <= n,
            forall|t: int| 0 <= t < i ==> (#[trigger] d[t]).1.len() == dim,
        decreases n - i,
    {
        if data[i].1.len() != dim {
            proof {
                assert(d[i as int].1.len() != d[0].1.len());
            }
            return Err(LoadError::DimensionMismatch);
        }
        i = i + 1;
    }
    let ghost uniform: bool = forall|t: int| 0 <= t < d.len() ==> (#[trigger] d[t]).1.len()
        == d[0].1.len();
    let mut i: usize = 0;
    while i < n
        invariant
            n == data@.len(),
            d == view_of(data@),
            dim == d[0].1.len(),
            1 <= dim <= MAX_DIM,
            uniform,
            uniform == (forall|t: int| 0 <= t < d.len() ==> (#[trigger] d[t]).1.len()
                == d[0].1.len()),
            i <= n,
            forall|t: int| 0 <= t < i ==> bounded((#[trigger] d[t]).1),
        decreases n - i,
    {
        let v = &data[i].1;
        let m = v.len();
        let mut j: usize = 0;
        while j < m
            invariant
                n == data@.len(),
                d == view_of(data@),
                dim == d[0].1.len(),
                1 <= dim <= MAX_DIM,
                uniform,
                uniform == (forall|t: int| 0 <= t < d.len() ==> (#[trigger] d[t]).1.len()
                    == d[0].1.len()),
                i < n,
                m == v@.len(),
                v@ == d[i as int].1,
                j <= m,
                forall|t: int| 0 <= t < j ==> -MAX_COORD <= #[trigger] v@[t] <= MAX_COORD,
            decreases m - j,
        {
            if v[j] < -MAX_COORD || v[j] > MAX_COORD {
                proof {
                    assert(!bounded(d[i as int].1));
                }
                return Err(LoadError::ComponentOutOfRange);
            }
            j = j + 1;
        }
        i = i + 1;
    }
    let ghost all_bounded: bool = forall|t: int| 0 <= t < d.len() ==> bounded((#[trigger] d[t]).1);
    let mut i: usize = 0;
    while i < n
        invariant
            n == data@.len(),
            d == view_of(data@),
            dim == d[0].1.len(),
            1 <= dim <= MAX_DIM,
            uniform,
            uniform == (forall|t: int| 0 <= t < d.len() ==> (#[trigger] d[t]).1.len()
                == d[0].1.len()),
            all_bounded,
            all_bounded == (forall|t: int| 0 <= t < d.len() ==> bounded((#[trigger] d[t]).1)),
            i <= n,
            forall|a: int, b: int| 0 <= a < b < i ==> (#[trigger] d[a]).0 != (#[trigger] d[b]).0,
        decreases n - i,
    {
        let mut j: usize = 0;
        while j < i
            invariant
                n == data@.len(),
                d == view_of(data@),
                dim == d[0].1.len(),
                1 <= dim <= MAX_DIM,
                uniform,
                uniform == (forall|t: int| 0 <= t < d.len() ==> (#[trigger] d[t]).1.len()
                    == d[0].1.len()),
                all_bounded,
                all_bounded == (forall|t: int| 0 <= t < d.len() ==> bounded((#[trigger] d[t]).1)),
                i < n,
                j <= i,
                forall|a: int, b: int| 0 <= a < b < i ==> (#[trigger] d[a]).0 != (#[trigger] d[b]).0,
                forall|a: int| 0 <= a < j ==> (#[trigger] d[a]).0 != d[i as int].0,
            decreases i - j,
        {
            if data[j].0 == data[i].0 {
                proof {
                    assert(ids_of(d)[j as int] == ids_of(d)[i as int]);
                    assert(!ids_of(d).no_duplicates());
                }
                return Err(LoadError::DuplicateId);
            }
            j = j + 1;
        }
        i = i + 1;
    }
    proof {
        assert forall|a: int, b: int|
            0 <= a < b < ids_of(d).len() implies ids_of(d)[a] != ids_of(d)[b] by {
            assert(d[a].0 != d[b].0);
        }
        assert(ids_of(d).no_duplicates());
        assert(dataset_error(d) is None);
        lemma_dataset_ok(d);
    }
    Ok(dim)
}

/// Cross terms of the squared-distance decomposition over the first `n`
/// components.
pub open spec fn cross_prefix(x: Seq<i64>, y: Seq<i64>, z: Seq<i64>, n: int) -> int
    decreases n,
{
    if n <= 0 {
        0
    } else {
        cross_prefix(x, y, z, n - 1) + (x[n - 1] - y[n - 1]) * (y[n - 1] - z[n - 1])
    }
}

/// The squared triangle inequality, in polynomial form: the squared
/// distances decompose as `d(x,z) = d(x,y) + d(y,z) + 2·cross`, and by the
/// Cauchy-Schwarz inequality `cross² <= d(x,y)·d(y,z)`.
pub proof fn lemma_triangle_sq(x: Seq<i64>, y: Seq<i64>, z: Seq<i64>, n: int)
    ensures
        dist_sq_prefix(x, z, n) == dist_sq_prefix(x, y, n) + dist_sq_prefix(y, z, n) + 2
            * cross_prefix(x, y, z, n),
        cross_prefix(x, y, z, n) * cross_prefix(x, y, z, n) <= dist_sq_prefix(x, y, n)
            * dist_sq_prefix(y, z, n),
    decreases n,
{
    if n <= 0 {
    } else {
        lemma_triangle_sq(x, y, z, n - 1);
        crate::topk::lemma_dist_sq_prefix_zero(x, y, n - 1);
        crate::topk::lemma_dist_sq_prefix_zero(y, z, n - 1);
        let a = x[n - 1] - y[n - 1];
        let b = y[n - 1] - z[n - 1];
        let c = x[n - 1] - z[n - 1];
        let q = a * b;
        let p = cross_prefix(x, y, z, n - 1);
        let aa = dist_sq_prefix(x, y, n - 1);
        let bb = dist_sq_prefix(y, z, n - 1);
        assert(c * c == a * a + b * b + 2 * (a * b)) by (nonlinear_arith)
            requires
                c == a + b,
        ;
        // Cauchy-Schwarz, one component at a time: from p² <= aa·bb conclude
        // (p + ab)² <= (aa + a²)(bb + b²).
        assert(a * a >= 0 && b * b >= 0 && aa * (b * b) >= 0 && bb * (a * a) >= 0)
            by (nonlinear_arith)
            requires
                aa >= 0,
                bb >= 0,
        ;
        assert((aa * (b * b) + bb * (a * a)) * (aa * (b * b) + bb * (a * a)) >= 4 * ((aa * bb) * ((a
            * b) * (a * b)))) by (nonlinear_arith)
            requires
                aa >= 0,
                bb >= 0,
        ;
        assert(4 * ((aa * bb) * ((a * b) * (a * b))) >= 4 * ((p * (a * b)) * (p * (a * b))))
            by (nonlinear_arith)
            requires
                p * p <= aa * bb,
        ;
        assert(aa * (b * b) + bb * (a * a) >= 2 * (p * (a * b))) by (nonlinear_arith)
            requires
                (aa * (b * b) + bb * (a * a)) * (aa * (b * b) + bb * (a * a)) >= 4 * ((p * (a * b))
                    * (p * (a * b))),
                aa * (b * b) + bb * (a * a) >= 0,
        ;
        assert((p + q) * (p + q) == p * p + 2 * (p * q) + q * q) by (nonlinear_arith);
        assert((aa + a * a) * (bb + b * b) == aa * bb + aa * (b * b) + bb * (a * a) + (a * a) * (b
            * b)) by (nonlinear_arith);
        assert(q * q == (a * a) * (b * b)) by (nonlinear_arith)
            requires
                q == a * b,
        ;
        assert((p + q) * (p + q) <= (aa + a * a) * (bb + b * b));
    }
}

/// The squared distance is symmetric.
pub proof fn lemma_dist_sq_sym(x: Seq<i64>, y: Seq<i64>, n: int)
    ensures
        dist_sq_prefix(x, y, n) == dist_sq_prefix(y, x, n),
    decreases n,
{
    if n > 0 {
        lemma_dist_sq_sym(x, y, n - 1);
        assert((x[n - 1] - y[n - 1]) * (x[n - 1] - y[n - 1]) == (y[n - 1] - x[n - 1]) * (y[n - 1]
            - x[n - 1])) by (nonlinear_arith);
    }
}

/// Pruning the inside ball is sound. All quantities are squared distances:
/// `qd` from the query to a point strictly inside the ball of (squared)
/// radius `a` around the vantage, `m` from the vantage to that point, `d`
/// from the query to the vantage, and `t` the current search radius. When
/// the query lies at least `sqrt(a) + sqrt(t)` from the vantage — witnessed
/// by `s` over-approximating `sqrt(a·t)` — no inside point beats `t`.
pub proof fn lemma_prune_inside(qd: int, m: int, a: int, t: int, s: int, d: int, p: int)
    requires
        d == qd + m + 2 * p,
        p * p <= qd * m,
        0 <= qd,
        0 <= m,
        0 <= t,
        0 <= s,
        m < a,
        a * t < s * s,
        d >= a + t + 2 * s,
    ensures
        qd >= t,
{
    if qd < t {
        assert((d - qd - m) * (d - qd - m) <= 4 * (qd * m)) by (nonlinear_arith)
            requires
                d == qd + m + 2 * p,
                p * p <= qd * m,
        ;
        assert(qd * m < a * t) by (nonlinear_arith)
            requires
                0 <= qd < t,
                0 <= m < a,
        ;
        assert(d - qd - m >= 2 * s + (a - m) + (t - qd));
        assert((d - qd - m) * (d - qd - m) > 4 * (s * s)) by (nonlinear_arith)
            requires
                d - qd - m > 2 * s,
                s >= 0,
        ;
        assert(false);
    }
}

/// Pruning the outside region is sound, with the same reading of the
/// quantities: `m` is the squared distance from the vantage to a point at
/// or beyond the ball of squared radius `a`. When the query lies closer
/// than `sqrt(a) - sqrt(t)` to the vantage, no outside point beats `t`.
pub proof fn lemma_prune_outside(qd: int, m: int, a: int, t: int, s: int, d: int, p: int)
    requires
        m == d + qd + 2 * p,
        p * p <= d * qd,
        0 <= qd,
        0 <= d,
        0 <= t,
        0 <= s,
        m >= a,
        t < a,
        a * t < s * s,
        d < a + t - 2 * s,
    ensures
        qd >= t,
{
    if qd < t {
        assert(s > t) by (nonlinear_arith)
            requires
                s * s > a * t,
                t < a,
                0 <= t,
                0 <= s,
        ;
        assert((m - d - qd) * (m - d - qd) <= 4 * (d * qd)) by (nonlinear_arith)
            requires
                m == d + qd + 2 * p,
                p * p <= d * qd,
        ;
        assert(d * qd < (s - t) * (s - t)) by (nonlinear_arith)
            requires
                0 <= d,
                0 <= qd < t,
                d < a + t - 2 * s,
                a * t < s * s,
                s > t,
                0 <= t,
        ;
        assert(m - d - qd > 2 * (s - t)) by {
            assert(m - d - qd >= a - d - qd);
            assert(a - d - qd > a - (a + t - 2 * s) - t);
        }
        assert((m - d - qd) * (m - d - qd) > 4 * ((s - t) * (s - t))) by (nonlinear_arith)
            requires
                m - d - qd > 2 * (s - t),
                s - t > 0,
        ;
        assert(4 * (d * qd) < 4 * ((s - t) * (s - t)));
        assert(false);
    }
}

/// Integer square root: the greatest `r` with `r * r <= n`.
pub fn isqrt_u128(n: u128) -> (r: u128)
    ensures
        (r as int) * (r as int) <= n,
        n < ((r as int) + 1) * ((r as int) + 1),
        r < 18446744073709551616,
{
    let mut lo: u128 = 0;
    let mut hi: u128 = 18446744073709551616;
    proof {
        assert((hi as int) * (hi as int) > u128::MAX) by (nonlinear_arith)
            requires
                hi == 18446744073709551616,
        ;
    }
    while lo + 1 < hi
        invariant
            lo < hi <= 18446744073709551616,
            (lo as int) * (lo as int) <= n,
            n < (hi as int) * (hi as int),
        decreases hi - lo,
    {
        let mid = lo + (hi - lo) / 2;
        proof {
            assert(0 <= mid <= 18446744073709551615) by {
                assert(mid < hi);
            }
            assert((mid as int) * (mid as int) <= 18446744073709551615int
                * 18446744073709551615int) by (nonlinear_arith)
                requires
                    0 <= mid <= 18446744073709551615,
            ;
        }
        if mid * mid <= n {
            lo = mid;
        } else {
            hi = mid;
        }
    }
    lo
}

/// An owned copy of one vector.
pub fn clone_vector(v: &Vec<i64>) -> (r: Vec<i64>)
    ensures
        r@ == v@,
{
    let mut out: Vec<i64> = Vec::new();
    let n = v.len();
    let mut i: usize = 0;
    while i < n
        invariant
            n == v@.len(),
            i <= n,
            out@ == v@.subrange(0, i as int),
        decreases n - i,
    {
        out.push(v[i]);
        proof {
            assert(out@ =~= v@.subrange(0, i + 1));
        }
        i = i + 1;
    }
    proof {
        assert(out@ =~= v@);
    }
    out
}

/// An owned copy of a dataset; no reference into the caller's memory is kept.
pub fn clone_dataset(data: &Vec<(VectorID, Vec<i64>)>) -> (r: Vec<(VectorID, Vec<i64>)>)
    ensures
        view_of(r@) == view_of(data@),
{
    let mut out: Vec<(VectorID, Vec<i64>)> = Vec::new();
    let n = data.len();
    let mut i: usize = 0;
    while i < n
        invariant
            n == data@.len(),
            i <= n,
            out@.len() == i,
            forall|t: int| 0 <= t < i ==> (#[trigger] out@[t]).0 == data@[t].0 && out@[t].1@
                == data@[t].1@,
        decreases n - i,
    {
        let id = data[i].0;
        let v = clone_vector(&data[i].1);
        out.push((id, v));
        i = i + 1;
    }
    proof {
        assert(view_of(out@) =~= view_of(data@));
    }
    out
}

/// Sum of squared component differences over the first `n` components.
pub open spec fn dist_sq_prefix(x: Seq<i64>, y: Seq<i64>, n: int) -> int
    decreases n,
{
    if n <= 0 {
        0
    } else {
        dist_sq_prefix(x, y, n - 1) + (x[n - 1] - y[n - 1]) * (x[n - 1] - y[n - 1])
    }
}

/// Squared Euclidean distance between two equal-length vectors.
pub open spec fn spec_dist_sq(x: Seq<i64>, y: Seq<i64>) -> int {
    dist_sq_prefix(x, y, x.len() as int)
}

/// Dot product over the first `n` components.
pub open spec fn dot_prefix(x: Seq<i64>, y: Seq<i64>, n: int) -> int
    decreases n,
{
    if n <= 0 {
        0
    } else {
        dot_prefix(x, y, n - 1) + x[n - 1] * y[n - 1]
    }
}

/// Dot product of two equal-length vectors.
pub open spec fn spec_dot(x: Seq<i64>, y: Seq<i64>) -> int {
    dot_prefix(x, y, x.len() as int)
}

/// `d * d <= bound * bound` whenever `|d| <= bound`.
pub proof fn lemma_square_bound(d: int, bound: int)
    requires
        -bound <= d <= bound,
    ensures
        0 <= d * d <= bound * bound,
{
    assert(0 <= d * d <= bound * bound) by (nonlinear_arith)
        requires
            -bound <= d <= bound,
    ;
}

/// The squared-distance prefix sums are non-negative and grow by at most
/// `(2 * MAX_COORD)^2` per component.
pub proof fn lemma_dist_sq_prefix_bounds(x: Seq<i64>, y: Seq<i64>, n: int)
    requires
        bounded(x),
        bounded(y),
        n <= x.len(),
        n <= y.len(),
    ensures
        0 <= dist_sq_prefix(x, y, n) <= if n <= 0 {
            0int
        } else {
            n * (4 * MAX_COORD * MAX_COORD)
        },
    decreases n,
{
    if n > 0 {
        lemma_dist_sq_prefix_bounds(x, y, n - 1);
        lemma_square_bound(x[n - 1] - y[n - 1], 2 * MAX_COORD);
        assert((n - 1) * (4 * MAX_COORD * MAX_COORD) + (4 * MAX_COORD * MAX_COORD) == n * (4
            * MAX_COORD * MAX_COORD)) by (nonlinear_arith);
    }
}

/// The dot-product prefix sums stay within `n * MAX_COORD^2` in magnitude.
pub proof fn lemma_dot_prefix_bounds(x: Seq<i64>, y: Seq<i64>, n: int)
    requires
        bounded(x),
        bounded(y),
        n <= x.len(),
        n <= y.len(),
    ensures
        -(if n <= 0 {
            0int
        } else {
            n * (MAX_COORD * MAX_COORD)
        }) <= dot_prefix(x, y, n) <= if n <= 0 {
            0int
        } else {
            n * (MAX_COORD * MAX_COORD)
        },
    decreases n,
{
    if n > 0 {
        lemma_dot_prefix_bounds(x, y, n - 1);
        assert(-(MAX_COORD * MAX_COORD) <= x[n - 1] * y[n - 1] <= MAX_COORD * MAX_COORD)
            by (nonlinear_arith)
            requires
                -MAX_COORD <= x[n - 1] <= MAX_COORD,
                -MAX_COORD <= y[n - 1] <= MAX_COORD,
        ;
        assert((n - 1) * (MAX_COORD * MAX_COORD) + (MAX_COORD * MAX_COORD) == n * (MAX_COORD
            * MAX_COORD)) by (nonlinear_arith);
    }
}

/// A squared-distance prefix never falls below any single summed term.
pub proof fn lemma_dist_sq_prefix_ge_term(x: Seq<i64>, y: Seq<i64>, axis: int, n: int)
    requires
        0 <= axis < n,
    ensures
        dist_sq_prefix(x, y, n) >= (x[axis] - y[axis]) * (x[axis] - y[axis]),
    decreases n,
{
    crate::topk::lemma_dist_sq_prefix_zero(x, y, n - 1);
    if axis < n - 1 {
        lemma_dist_sq_prefix_ge_term(x, y, axis, n - 1);
        assert((x[n - 1] - y[n - 1]) * (x[n - 1] - y[n - 1]) >= 0) by (nonlinear_arith);
    }
}

/// The squared distance of bounded vectors never exceeds
/// `MAX_DIM * (2 * MAX_COORD)^2`.
pub proof fn lemma_dist_sq_total_bound(x: Seq<i64>, y: Seq<i64>)
    requires
        bounded(x),
        bounded(y),
        x.len() <= y.len(),
        x.len() <= MAX_DIM,
    ensures
        0 <= spec_dist_sq(x, y) <= MAX_DIM * (4 * MAX_COORD * MAX_COORD),
{
    lemma_dist_sq_prefix_bounds(x, y, x.len() as int);
    assert((x.len() as int) * (4 * MAX_COORD * MAX_COORD) <= MAX_DIM * (4 * MAX_COORD * MAX_COORD))
        by (nonlinear_arith)
        requires
            0 <= x.len() <= MAX_DIM,
    ;
}

/// The whole squared distance is at least the squared gap along one axis.
pub proof fn lemma_dist_sq_ge_axis(x: Seq<i64>, y: Seq<i64>, axis: int)
    requires
        0 <= axis < x.len(),
    ensures
        spec_dist_sq(x, y) >= (x[axis] - y[axis]) * (x[axis] - y[axis]),
{
    lemma_dist_sq_prefix_ge_term(x, y, axis, x.len() as int);
}

/// Widening the gap on one side cannot shrink its square.
pub proof fn lemma_square_mono(a: int, b: int)
    requires
        0 <= a <= b || b <= a <= 0,
    ensures
        a * a <= b * b,
{
    assert(a * a <= b * b) by (nonlinear_arith)
        requires
            0 <= a <= b || b <= a <= 0,
    ;
}

/// Squared Euclidean distance of two equal-length vectors, exactly.
///
/// This is the canonical metric every index in this crate ranks by; it is
/// integer-exact, and since squaring is monotone it orders candidates exactly
/// as the Euclidean distance would.
pub fn distance(x: &Vec<i64>, y: &Vec<i64>) -> (r: i64)
    requires
        x@.len() == y@.len(),
        x@.len() <= MAX_DIM,
        bounded(x@),
        bounded(y@),
    ensures
        r == spec_dist_sq(x@, y@),
        0 <= r,
{
    let n = x.len();
    let mut sum: i64 = 0;
    let mut i: usize = 0;
    while i < n
        invariant
            i <= n,
            n == x@.len() == y@.len(),
            n <= MAX_DIM,
            bounded(x@),
            bounded(y@),
            sum == dist_sq_prefix(x@, y@, i as int),
            0 <= sum <= (i as int) * (4 * MAX_COORD * MAX_COORD),
        decreases n - i,
    {
        let d = x[i] - y[i];
        proof {
            lemma_square_bound(d as int, 2 * MAX_COORD);
            lemma_dist_sq_prefix_bounds(x@, y@, i + 1);
            assert(dist_sq_prefix(x@, y@, i + 1) == sum + (d as int) * (d as int));
            assert((i + 1) * (4 * MAX_COORD * MAX_COORD) <= MAX_DIM * (4 * MAX_COORD * MAX_COORD))
                by (nonlinear_arith)
                requires
                    0 <= i + 1 <= MAX_DIM,
            ;
        }
        sum = sum + d * d;
        i = i + 1;
    }
    sum
}

/// Dot product of two equal-length vectors, exactly.
pub fn dot_product(x: &Vec<i64>, y: &Vec<i64>) -> (r: i64)
    requires
        x@.len() == y@.len(),
        x@.len() <= MAX_DIM,
        bounded(x@),
        bounded(y@),
    ensures
        r == spec_dot(x@, y@),
{
    let n = x.len();
    let mut sum: i64 = 0;
    let mut i: usize = 0;
    while i < n
        invariant
            i <= n,
            n == x@.len() == y@.len(),
            n <= MAX_DIM,
            bounded(x@),
            bounded(y@),
            sum == dot_prefix(x@, y@, i as int),
            -((i as int) * (MAX_COORD * MAX_COORD)) <= sum <= (i as int) * (MAX_COORD * MAX_COORD),
        decreases n - i,
    {
        proof {
            lemma_dot_prefix_bounds(x@, y@, i + 1);
            assert(-(MAX_COORD * MAX_COORD) <= x@[i as int] * y@[i as int] <= MAX_COORD * MAX_COORD)
                by (nonlinear_arith)
                requires
                    -MAX_COORD <= x@[i as int] <= MAX_COORD,
                    -MAX_COORD <= y@[i as int] <= MAX_COORD,
            ;
            assert(dot_prefix(x@, y@, i + 1) == sum + x@[i as int] * y@[i as int]);
            assert((i + 1) * (MAX_COORD * MAX_COORD) <= MAX_DIM * (MAX_COORD * MAX_COORD))
                by (nonlinear_arith)
                requires
                    0 <= i + 1 <= MAX_DIM,
            ;
        }
        sum = sum + x[i] * y[i];
        i = i + 1;
    }
    sum
}

} // verus!
