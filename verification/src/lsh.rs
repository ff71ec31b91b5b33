//! LSH: random-hyperplane sign hashing. Each vector gets one bit per
//! hyperplane — the sign of their dot product — and vectors sharing the
//! whole bit pattern share a bucket. A query walks buckets by Hamming
//! distance of their hash to its own, collecting identifiers until `k` are
//! found. The method is approximate by design: the only exact claims are
//! that the buckets partition the dataset, so a search returns exactly
//! `min(k, n)` distinct identifiers, and that two identifiers in one bucket
//! agree in sign on every hyperplane.

use vstd::prelude::*;
use vstd::multiset::Multiset;
use vstd::arithmetic::power2::{lemma2_to64, lemma2_to64_rest, lemma_pow2_strictly_increases,
    lemma_pow2_unfold, pow2};
use crate::model::{
    bounded, contains_id, dataset_error, id_index, ids_from, ids_of, spec_dot, valid_data,
    valid_vector, validate_dataset, view_of, LoadError, MAX_COORD, MAX_DIM,
};
use crate::rng::{entropy_seed, new_rng, rng_below};
use crate::VectorID;

verus! {

broadcast use {vstd::multiset::group_multiset_axioms, vstd::seq_lib::group_to_multiset_ensures};

/// How many random hyperplanes a table hashes with; at most `2^18` buckets.
pub const NUM_HYPERPLANES: usize = 18;

/// Magnitude bound of a random hyperplane component: the components are
/// drawn uniformly from the symmetric range `[-PLANE_COORD, PLANE_COORD]`.
pub const PLANE_COORD: i64 = 500;

/// The mathematical value of a plane list.
pub open spec fn pview(planes: Seq<Vec<i64>>) -> Seq<Seq<i64>> {
    planes.map_values(|p: Vec<i64>| p@)
}

/// The mathematical value of a bucket list.
pub open spec fn bview(buckets: Seq<(u64, Vec<VectorID>)>) -> Seq<(u64, Seq<VectorID>)> {
    buckets.map_values(|b: (u64, Vec<VectorID>)| (b.0, b.1@))
}

/// One sign bit per hyperplane: whether the vector's dot product with it is
/// non-negative.
pub open spec fn hash_bits(planes: Seq<Seq<i64>>, v: Seq<i64>) -> Seq<bool> {
    Seq::new(planes.len(), |i: int| spec_dot(v, planes[i]) >= 0)
}

/// The bits packed into a number, first bit lowest.
pub open spec fn encode_bits(bits: Seq<bool>) -> int
    decreases bits.len(),
{
    if bits.len() == 0 {
        0
    } else {
        (if bits[0] {
            1int
        } else {
            0int
        }) + 2 * encode_bits(bits.drop_first())
    }
}

/// The hash a vector gets from the hyperplanes.
pub open spec fn spec_hash(planes: Seq<Seq<i64>>, v: Seq<i64>) -> int {
    encode_bits(hash_bits(planes, v))
}

/// An encoded bit pattern is non-negative and below `2^len`.
pub proof fn lemma_encode_bounds(bits: Seq<bool>)
    ensures
        0 <= encode_bits(bits) < pow2(bits.len()),
    decreases bits.len(),
{
    vstd::arithmetic::power2::lemma_pow2_pos(bits.len());
    if bits.len() == 0 {
        lemma2_to64();
    } else {
        lemma_encode_bounds(bits.drop_first());
        lemma_pow2_unfold(bits.len());
    }
}

/// Equal encodings of equally many bits are the same bits.
pub proof fn lemma_encode_injective(b1: Seq<bool>, b2: Seq<bool>)
    requires
        b1.len() == b2.len(),
        encode_bits(b1) == encode_bits(b2),
    ensures
        b1 =~= b2,
    decreases b1.len(),
{
    if b1.len() > 0 {
        lemma_encode_bounds(b1.drop_first());
        lemma_encode_bounds(b2.drop_first());
        assert(b1[0] == b2[0]);
        lemma_encode_injective(b1.drop_first(), b2.drop_first());
        assert(b1 =~= Seq::empty().push(b1[0]) + b1.drop_first());
        assert(b2 =~= Seq::empty().push(b2[0]) + b2.drop_first());
    }
}

/// All identifiers held by a bucket list, as a multiset.
pub open spec fn id_sum(bv: Seq<(u64, Seq<VectorID>)>) -> Multiset<VectorID>
    decreases bv.len(),
{
    if bv.len() == 0 {
        Multiset::empty()
    } else {
        bv[0].1.to_multiset().add(id_sum(bv.drop_first()))
    }
}

/// Taking one bucket out takes exactly its identifiers out of the sum.
pub proof fn lemma_id_sum_remove(bv: Seq<(u64, Seq<VectorID>)>, j: int)
    requires
        0 <= j < bv.len(),
    ensures
        id_sum(bv) =~= id_sum(bv.remove(j)).add(bv[j].1.to_multiset()),
    decreases j,
{
    if j == 0 {
        assert(bv.remove(0) =~= bv.drop_first());
    } else {
        lemma_id_sum_remove(bv.drop_first(), j - 1);
        assert(bv.remove(j).drop_first() =~= bv.drop_first().remove(j - 1));
        assert(bv.remove(j)[0] == bv[0]);
        assert(bv.drop_first()[j - 1] == bv[j]);
    }
}

/// Adding one bucket adds exactly its identifiers to the sum.
pub proof fn lemma_id_sum_push(bv: Seq<(u64, Seq<VectorID>)>, e: (u64, Seq<VectorID>))
    ensures
        id_sum(bv.push(e)) =~= id_sum(bv).add(e.1.to_multiset()),
    decreases bv.len(),
{
    if bv.len() == 0 {
        assert(bv.push(e).drop_first() =~= Seq::<(u64, Seq<VectorID>)>::empty());
        assert(bv.push(e)[0] == e);
        assert(id_sum(Seq::<(u64, Seq<VectorID>)>::empty()) == Multiset::<VectorID>::empty());
        assert(id_sum(bv.push(e)) =~= e.1.to_multiset().add(Multiset::empty()));
    } else {
        lemma_id_sum_push(bv.drop_first(), e);
        assert(bv.push(e).drop_first() =~= bv.drop_first().push(e));
        assert(bv.push(e)[0] == bv[0]);
        assert(id_sum(bv.push(e)) =~= bv[0].1.to_multiset().add(
            id_sum(bv.drop_first()).add(e.1.to_multiset()),
        ));
    }
}

/// Reordering the buckets leaves the identifier sum unchanged.
pub proof fn lemma_id_sum_permutation(b1: Seq<(u64, Seq<VectorID>)>, b2: Seq<(u64, Seq<VectorID>)>)
    requires
        b1.to_multiset() == b2.to_multiset(),
    ensures
        id_sum(b1) =~= id_sum(b2),
    decreases b1.len(),
{
    if b1.len() == 0 {
        assert(b1.to_multiset().len() == b1.len());
        assert(b2.to_multiset().len() == b2.len());
    } else {
        let x = b1[0];
        assert(b1.contains(x));
        assert(b1.to_multiset().count(x) > 0);
        assert(b2.to_multiset().count(x) > 0);
        assert(b2.contains(x));
        let j = choose|j: int| 0 <= j < b2.len() && b2[j] == x;
        assert(b1.remove(0).to_multiset() == b1.to_multiset().remove(x));
        assert(b2.remove(j).to_multiset() == b2.to_multiset().remove(x));
        lemma_id_sum_permutation(b1.remove(0), b2.remove(j));
        assert(b1.remove(0) =~= b1.drop_first());
        lemma_id_sum_remove(b2, j);
    }
}

/// Pack a vector's hyperplane sign bits into a hash number.
fn hash_vec(planes: &Vec<Vec<i64>>, v: &Vec<i64>, dim: Ghost<nat>) -> (r: u64)
    requires
        planes@.len() <= 63,
        forall|i: int| 0 <= i < planes@.len() ==> valid_vector((#[trigger] planes@[i])@, dim@),
        valid_vector(v@, dim@),
    ensures
        r as int == spec_hash(pview(planes@), v@),
{
    let ghost bits = hash_bits(pview(planes@), v@);
    let n = planes.len();
    let mut h: u64 = 0;
    let mut i: usize = n;
    proof {
        assert(bits.subrange(n as int, n as int) =~= Seq::<bool>::empty());
        lemma2_to64();
    }
    while i > 0
        invariant
            i <= n,
            n == planes@.len() <= 63,
            bits == hash_bits(pview(planes@), v@),
            forall|t: int| 0 <= t < planes@.len() ==> valid_vector((#[trigger] planes@[t])@, dim@),
            valid_vector(v@, dim@),
            h as int == encode_bits(bits.subrange(i as int, n as int)),
            (h as nat) < pow2((n - i) as nat),
        decreases i,
    {
        i = i - 1;
        let dp = crate::model::dot_product(v, &planes[i]);
        let bit: u64 = if dp >= 0 {
            1
        } else {
            0
        };
        proof {
            assert(pview(planes@)[i as int] == planes@[i as int]@);
            assert(bits[i as int] == (spec_dot(v@, planes@[i as int]@) >= 0));
            assert(bits.subrange(i as int, n as int).drop_first() =~= bits.subrange(
                i + 1,
                n as int,
            ));
            assert(bits.subrange(i as int, n as int)[0] == bits[i as int]);
            lemma_pow2_unfold((n - i) as nat);
            lemma_pow2_strictly_increases((n - i) as nat, 64);
            lemma2_to64();
            lemma2_to64_rest();
        }
        h = h * 2 + bit;
    }
    proof {
        assert(bits.subrange(0, n as int) =~= bits);
    }
    h
}

/// A member of the identifier sum lies in some bucket.
proof fn lemma_id_sum_member(bv: Seq<(u64, Seq<VectorID>)>, x: VectorID)
    requires
        id_sum(bv).count(x) > 0,
    ensures
        exists|u: int, j: int|
            #![trigger bv[u].1[j]]
            0 <= u < bv.len() && 0 <= j < bv[u].1.len() && bv[u].1[j] == x,
    decreases bv.len(),
{
    if bv.len() > 0 {
        if bv[0].1.to_multiset().count(x) > 0 {
            assert(bv[0].1.contains(x));
            let j = choose|j: int| 0 <= j < bv[0].1.len() && bv[0].1[j] == x;
            assert(bv[0].1[j] == x);
        } else {
            lemma_id_sum_member(bv.drop_first(), x);
            let (u, j) = choose|u: int, j: int|
                #![trigger bv.drop_first()[u].1[j]]
                0 <= u < bv.drop_first().len() && 0 <= j < bv.drop_first()[u].1.len()
                    && bv.drop_first()[u].1[j] == x;
            assert(bv[u + 1] == bv.drop_first()[u]);
            assert(bv[u + 1].1[j] == x);
        }
    }
}

/// Number of differing bits among the low `n` bits of two numbers.
pub open spec fn spec_hamming(a: int, b: int, n: nat) -> int
    decreases n,
{
    if n == 0 {
        0
    } else {
        (if a % 2 != b % 2 {
            1int
        } else {
            0int
        }) + spec_hamming(a / 2, b / 2, (n - 1) as nat)
    }
}

/// Number of differing bits between two hashes.
fn hamming(a0: u64, b0: u64) -> (r: u64)
    ensures
        r as int == spec_hamming(a0 as int, b0 as int, 64),
{
    let mut a = a0;
    let mut b = b0;
    let mut count: u64 = 0;
    let mut i: usize = 0;
    while i < 64
        invariant
            i <= 64,
            count <= i,
            count + spec_hamming(a as int, b as int, (64 - i) as nat) == spec_hamming(
                a0 as int,
                b0 as int,
                64,
            ),
        decreases 64 - i,
    {
        if a % 2 != b % 2 {
            count = count + 1;
        }
        a = a / 2;
        b = b / 2;
        i = i + 1;
    }
    count
}

/// Order buckets by Hamming distance of their hash to the query hash,
/// ascending, ties by hash value.
fn sort_buckets(v: Vec<(u64, Vec<VectorID>)>, qh: u64) -> (r: Vec<(u64, Vec<VectorID>)>)
    ensures
        r@.len() == v@.len(),
        bview(r@).to_multiset() == bview(v@).to_multiset(),
        forall|i: int, j: int|
            0 <= i < j < r@.len() ==> spec_hamming(qh as int, (#[trigger] r@[i]).0 as int, 64)
                <= spec_hamming(qh as int, (#[trigger] r@[j]).0 as int, 64),
{
    let ghost orig = bview(v@).to_multiset();
    let mut rest = v;
    let mut out: Vec<(u64, Vec<VectorID>)> = Vec::new();
    proof {
        assert(bview(out@) =~= Seq::<(u64, Seq<VectorID>)>::empty());
        assert(bview(out@).to_multiset().add(bview(rest@).to_multiset()) =~= orig);
    }
    while rest.len() > 0
        invariant
            bview(out@).to_multiset().add(bview(rest@).to_multiset()) == orig,
            out@.len() + rest@.len() == orig.len(),
            forall|i: int, j: int|
                0 <= i < j < out@.len() ==> spec_hamming(qh as int, (#[trigger] out@[i]).0 as int, 64)
                    <= spec_hamming(qh as int, (#[trigger] out@[j]).0 as int, 64),
            forall|i: int, j: int|
                0 <= i < out@.len() && 0 <= j < rest@.len() ==> spec_hamming(
                    qh as int,
                    (#[trigger] out@[i]).0 as int,
                    64,
                ) <= spec_hamming(qh as int, (#[trigger] rest@[j]).0 as int, 64),
        decreases rest@.len(),
    {
        let mut best: usize = 0;
        let mut bd = hamming(qh, rest[0].0);
        let mut i: usize = 1;
        while i < rest.len()
            invariant
                best < i <= rest@.len(),
                rest@.len() > 0,
                bd as int == spec_hamming(qh as int, rest@[best as int].0 as int, 64),
                forall|t: int|
                    0 <= t < i ==> spec_hamming(qh as int, rest@[best as int].0 as int, 64)
                        <= spec_hamming(qh as int, (#[trigger] rest@[t]).0 as int, 64),
            decreases rest@.len() - i,
        {
            let d = hamming(qh, rest[i].0);
            if d < bd || (d == bd && rest[i].0 < rest[best].0) {
                best = i;
                bd = d;
            }
            i = i + 1;
        }
        let ghost rest0 = rest@;
        let ghost out0 = out@;
        let m = rest.remove(best);
        out.push(m);
        proof {
            assert(bview(out@) =~= bview(out0).push((m.0, m.1@)));
            assert(bview(out@).to_multiset() =~= bview(out0).to_multiset().insert((m.0, m.1@)));
            assert(bview(rest@) =~= bview(rest0).remove(best as int));
            assert(bview(rest0)[best as int] == (m.0, m.1@));
            assert(bview(rest@).to_multiset() =~= bview(rest0).to_multiset().remove((m.0, m.1@)));
            assert(bview(rest0).to_multiset().contains((m.0, m.1@))) by {
                assert(bview(rest0).contains((m.0, m.1@)));
            }
            assert(bview(out@).to_multiset().add(bview(rest@).to_multiset()) =~= orig);
            assert forall|i: int, j: int|
                0 <= i < j < out@.len() implies spec_hamming(
                qh as int,
                (#[trigger] out@[i]).0 as int,
                64,
            ) <= spec_hamming(qh as int, (#[trigger] out@[j]).0 as int, 64) by {
                if j == out0.len() {
                    assert(out@[j] == m);
                    assert(out@[i] == out0[i]);
                    assert(spec_hamming(qh as int, out0[i].0 as int, 64) <= spec_hamming(
                        qh as int,
                        rest0[best as int].0 as int,
                        64,
                    ));
                }
            }
            assert forall|i: int, j: int|
                0 <= i < out@.len() && 0 <= j < rest@.len() implies spec_hamming(
                qh as int,
                (#[trigger] out@[i]).0 as int,
                64,
            ) <= spec_hamming(qh as int, (#[trigger] rest@[j]).0 as int, 64) by {
                assert(rest@[j] == if j < best {
                    rest0[j]
                } else {
                    rest0[j + 1]
                });
                if i < out0.len() {
                    assert(out@[i] == out0[i]);
                } else {
                    assert(out@[i] == m);
                }
            }
        }
    }
    proof {
        assert(bview(rest@) =~= Seq::<(u64, Seq<VectorID>)>::empty());
        assert(bview(out@).to_multiset().add(bview(rest@).to_multiset()) =~= bview(
            out@,
        ).to_multiset());
        assert(bview(out@).to_multiset().len() == bview(out@).len());
    }
    out
}

/// An LSH table: the retained hyperplanes and the hash buckets, which
/// partition the dataset's identifiers.
pub struct LSH {
    planes: Vec<Vec<i64>>,
    buckets: Vec<(u64, Vec<VectorID>)>,
    dim: usize,
    data: Ghost<Seq<(usize, Seq<i64>)>>,
}

impl LSH {
    /// The dataset this index answers for.
    pub closed spec fn data_view(self) -> Seq<(usize, Seq<i64>)> {
        self.data@
    }

    /// The dimensionality every stored and queried vector has.
    pub closed spec fn dim(self) -> nat {
        self.dim as nat
    }

    /// How many hyperplanes the table hashes with.
    pub closed spec fn plane_count(self) -> int {
        self.planes@.len() as int
    }

    /// One hyperplane's normal vector.
    pub closed spec fn plane(self, p: int) -> Seq<i64> {
        self.planes@[p]@
    }

    /// How many buckets the table holds.
    pub closed spec fn bucket_count(self) -> int {
        self.buckets@.len() as int
    }

    /// One bucket's hash.
    pub closed spec fn bucket_hash(self, t: int) -> u64 {
        self.buckets@[t].0
    }

    /// One bucket's identifiers.
    pub closed spec fn bucket_ids(self, t: int) -> Seq<VectorID> {
        self.buckets@[t].1@
    }

    /// The stored vector an identifier names.
    pub open spec fn id_vector(self, id: VectorID) -> Seq<i64> {
        self.data_view()[id_index(self.data_view(), id)].1
    }

    /// The hyperplane normals, as sequences.
    pub closed spec fn planes_view(self) -> Seq<Seq<i64>> {
        pview(self.planes@)
    }

    /// How many hash bits an identifier's bucket differs from the query's
    /// own hash in: the measure the bucket probe walks in ascending order.
    pub open spec fn query_ham(self, q: Seq<i64>, id: VectorID) -> int {
        spec_hamming(
            spec_hash(self.planes_view(), q),
            spec_hash(self.planes_view(), self.id_vector(id)),
            64,
        )
    }

    /// Every identifier of a reordered bucket list keeps the table's
    /// guarantee: it is a dataset identifier bucketed under its own
    /// vector's hash.
    proof fn lemma_bucket_member_hash(self, bv: Seq<(u64, Seq<VectorID>)>, u: int, j: int)
        requires
            self.wf(),
            bv.to_multiset() == bview(self.buckets@).to_multiset(),
            0 <= u < bv.len(),
            0 <= j < bv[u].1.len(),
        ensures
            contains_id(self.data_view(), bv[u].1[j]),
            (bv[u].0 as int) == spec_hash(pview(self.planes@), self.id_vector(bv[u].1[j])),
    {
        assert(bv.contains(bv[u]));
        assert(bv.to_multiset().count(bv[u]) > 0);
        assert(bview(self.buckets@).to_multiset().count(bv[u]) > 0);
        assert(bview(self.buckets@).contains(bv[u]));
        let t = choose|t: int|
            0 <= t < bview(self.buckets@).len() && bview(self.buckets@)[t] == bv[u];
        assert(bview(self.buckets@)[t] == (self.buckets@[t].0, self.buckets@[t].1@));
        assert(self.buckets@[t].1@[j] == bv[u].1[j]);
    }

    /// The table invariant: a valid dataset, valid hyperplanes, buckets
    /// keyed by distinct hashes, every identifier bucketed under its own
    /// vector's hash, and the buckets together partitioning the dataset.
    pub closed spec fn wf(self) -> bool {
        &&& valid_data(self.data@, self.dim as nat)
        &&& self.planes@.len() == NUM_HYPERPLANES
        &&& forall|p: int|
            0 <= p < self.planes@.len() ==> valid_vector((#[trigger] self.planes@[p])@, self.dim as nat)
        &&& forall|t1: int, t2: int|
            0 <= t1 < t2 < self.buckets@.len() ==> (#[trigger] self.buckets@[t1]).0
                != (#[trigger] self.buckets@[t2]).0
        &&& forall|t: int, j: int|
            #![trigger self.buckets@[t].1@[j]]
            0 <= t < self.buckets@.len() && 0 <= j < self.buckets@[t].1@.len() ==> contains_id(
                self.data@,
                self.buckets@[t].1@[j],
            ) && (self.buckets@[t].0 as int) == spec_hash(
                pview(self.planes@),
                self.id_vector(self.buckets@[t].1@[j]),
            )
        &&& id_sum(bview(self.buckets@)) == ids_of(self.data@).to_multiset()
    }

    /// LAW: identifiers sharing a bucket agree in sign on every
    /// hyperplane's dot product with their vectors. No stronger recall
    /// claim is made for this index.
    pub proof fn lemma_same_bucket_signs(self, t: int, i: int, j: int)
        requires
            self.wf(),
            0 <= t < self.bucket_count(),
            0 <= i < self.bucket_ids(t).len(),
            0 <= j < self.bucket_ids(t).len(),
        ensures
            forall|p: int|
                0 <= p < self.plane_count() ==> ((spec_dot(
                    self.id_vector(self.bucket_ids(t)[i]),
                    #[trigger] self.plane(p),
                ) >= 0) <==> (spec_dot(self.id_vector(self.bucket_ids(t)[j]), self.plane(p)) >= 0)),
    {
        let pv = pview(self.planes@);
        let vi = self.id_vector(self.bucket_ids(t)[i]);
        let vj = self.id_vector(self.bucket_ids(t)[j]);
        assert((self.buckets@[t].0 as int) == spec_hash(pv, vi));
        assert((self.buckets@[t].0 as int) == spec_hash(pv, vj));
        lemma_encode_injective(hash_bits(pv, vi), hash_bits(pv, vj));
        assert forall|p: int|
            0 <= p < self.plane_count() implies ((spec_dot(vi, #[trigger] self.plane(p)) >= 0)
            <==> (spec_dot(vj, self.plane(p)) >= 0)) by {
            assert(hash_bits(pv, vi)[p] == hash_bits(pv, vj)[p]);
            assert(pv[p] == self.plane(p));
        }
    }

    /// Build the table from the dataset, drawing the hyperplanes with the
    /// given seed, so equal seeds rebuild equal tables. Rejects exactly the
    /// datasets [`dataset_error`] rejects, with that error.
    #[verifier::rlimit(80)]
    pub fn load_seeded(data: &Vec<(VectorID, Vec<i64>)>, seed: u64) -> (r: Result<LSH, LoadError>)
        ensures
            match r {
                Ok(l) => l.wf() && l.data_view() == view_of(data@) && l.dim() == view_of(
                    data@,
                )[0].1.len() && dataset_error(view_of(data@)) is None,
                Err(err) => dataset_error(view_of(data@)) == Some(err),
            },
    {
        let dim = match validate_dataset(data) {
            Ok(d) => d,
            Err(e) => {
                return Err(e);
            },
        };
        let ghost dv = view_of(data@);
        let mut rng = new_rng(seed);

        // Draw the hyperplane normals, one bounded component at a time.
        let mut planes: Vec<Vec<i64>> = Vec::new();
        let mut p: usize = 0;
        while p < NUM_HYPERPLANES
            invariant
                p <= NUM_HYPERPLANES,
                planes@.len() == p,
                1 <= dim <= MAX_DIM,
                forall|t: int| 0 <= t < p ==> valid_vector((#[trigger] planes@[t])@, dim as nat),
            decreases NUM_HYPERPLANES - p,
        {
            let mut plane: Vec<i64> = Vec::new();
            let mut c: usize = 0;
            while c < dim
                invariant
                    c <= dim,
                    plane@.len() == c,
                    1 <= dim <= MAX_DIM,
                    forall|t: int| 0 <= t < c ==> -PLANE_COORD <= #[trigger] plane@[t] <= PLANE_COORD,
                decreases dim - c,
            {
                let draw = rng_below(&mut rng, 1001);
                plane.push(draw as i64 - PLANE_COORD);
                c = c + 1;
            }
            proof {
                assert(valid_vector(plane@, dim as nat)) by {
                    assert forall|t: int| 0 <= t < plane@.len() implies -MAX_COORD <= #[trigger] plane@[t]
                        <= MAX_COORD by {}
                }
            }
            planes.push(plane);
            p = p + 1;
        }

        // Bucket every identifier under its vector's hash.
        let mut buckets: Vec<(u64, Vec<VectorID>)> = Vec::new();
        let n = data.len();
        proof {
            assert(id_sum(bview(buckets@)) =~= ids_of(dv).subrange(0, 0).to_multiset()) by {
                assert(bview(buckets@) =~= Seq::<(u64, Seq<VectorID>)>::empty());
                assert(ids_of(dv).subrange(0, 0) =~= Seq::<VectorID>::empty());
            }
        }
        let mut i: usize = 0;
        while i < n
            invariant
                i <= n,
                n == data@.len(),
                dv == view_of(data@),
                valid_data(dv, dim as nat),
                1 <= dim <= MAX_DIM,
                planes@.len() == NUM_HYPERPLANES,
                forall|t: int|
                    0 <= t < planes@.len() ==> valid_vector((#[trigger] planes@[t])@, dim as nat),
                forall|t1: int, t2: int|
                    0 <= t1 < t2 < buckets@.len() ==> (#[trigger] buckets@[t1]).0
                        != (#[trigger] buckets@[t2]).0,
                forall|t: int, j: int|
                    #![trigger buckets@[t].1@[j]]
                    0 <= t < buckets@.len() && 0 <= j < buckets@[t].1@.len() ==> contains_id(
                        dv,
                        buckets@[t].1@[j],
                    ) && (buckets@[t].0 as int) == spec_hash(
                        pview(planes@),
                        dv[id_index(dv, buckets@[t].1@[j])].1,
                    ),
                id_sum(bview(buckets@)) == ids_of(dv).subrange(0, i as int).to_multiset(),
            decreases n - i,
        {
            proof {
                assert(dv[i as int] == (data@[i as int].0, data@[i as int].1@));
                assert(valid_vector(dv[i as int].1, dim as nat));
            }
            let h = hash_vec(&planes, &data[i].1, Ghost(dim as nat));
            let id = data[i].0;
            proof {
                crate::topk::lemma_id_index_of(dv, dim as nat, i as int);
            }

            // Look for an existing bucket with this hash.
            let mut found: usize = buckets.len();
            let mut s: usize = 0;
            while s < buckets.len()
                invariant_except_break
                    s <= buckets@.len(),
                    found == buckets@.len(),
                    forall|t: int| 0 <= t < s ==> (#[trigger] buckets@[t]).0 != h,
                ensures
                    found <= buckets@.len(),
                    found == buckets@.len() ==> forall|t: int|
                        0 <= t < buckets@.len() ==> (#[trigger] buckets@[t]).0 != h,
                    found < buckets@.len() ==> buckets@[found as int].0 == h,
                decreases buckets@.len() - s,
            {
                if buckets[s].0 == h {
                    found = s;
                    break ;
                }
                s = s + 1;
            }
            let ghost b0 = buckets@;
            if found < buckets.len() {
                proof {
                    assert(b0[found as int].0 == h);
                }
                let mut entry = buckets.remove(found);
                let ghost e0 = entry;
                entry.1.push(id);
                buckets.push(entry);
                proof {
                    let f = found as int;
                    let bv0 = bview(b0);
                    assert(bview(buckets@) =~= bview(b0).remove(f).push(
                        (b0[f].0, b0[f].1@.push(id)),
                    )) by {
                        assert(e0 == b0[f]);
                        assert forall|t: int|
                            0 <= t < bview(buckets@).len() implies bview(buckets@)[t] == bview(
                            b0,
                        ).remove(f).push((b0[f].0, b0[f].1@.push(id)))[t] by {
                            if t < b0.len() - 1 {
                                assert(buckets@[t] == b0.remove(f)[t]);
                                assert(b0.remove(f)[t] == if t < f {
                                    b0[t]
                                } else {
                                    b0[t + 1]
                                });
                                assert(bview(b0).remove(f)[t] == if t < f {
                                    bview(b0)[t]
                                } else {
                                    bview(b0)[t + 1]
                                });
                            } else {
                                assert(buckets@[t].0 == b0[f].0);
                                assert(buckets@[t].1@ == b0[f].1@.push(id));
                            }
                        }
                    }
                    lemma_id_sum_remove(bv0, f);
                    lemma_id_sum_push(bv0.remove(f), (b0[f].0, b0[f].1@.push(id)));
                    assert(b0[f].1@.push(id).to_multiset() =~= b0[f].1@.to_multiset().insert(id));
                    assert(id_sum(bview(buckets@)) =~= id_sum(bv0).insert(id));
                    assert(ids_of(dv).subrange(0, i + 1) =~= ids_of(dv).subrange(0, i as int).push(
                        dv[i as int].0,
                    ));
                    assert(id_sum(bview(buckets@)) =~= ids_of(dv).subrange(0, i + 1).to_multiset());

                    // Distinct keys and per-entry hashes carry over.
                    assert forall|t1: int, t2: int|
                        0 <= t1 < t2 < buckets@.len() implies (#[trigger] buckets@[t1]).0
                        != (#[trigger] buckets@[t2]).0 by {
                        if t2 < buckets@.len() - 1 {
                            assert(buckets@[t1].0 == b0[if t1 < f {
                                t1
                            } else {
                                t1 + 1
                            }].0);
                            assert(buckets@[t2].0 == b0[if t2 < f {
                                t2
                            } else {
                                t2 + 1
                            }].0);
                        } else {
                            assert(buckets@[t2].0 == b0[f].0);
                            assert(buckets@[t1].0 == b0[if t1 < f {
                                t1
                            } else {
                                t1 + 1
                            }].0);
                        }
                    }
                    assert forall|t: int, j: int|
                        #![trigger buckets@[t].1@[j]]
                        0 <= t < buckets@.len() && 0 <= j < buckets@[t].1@.len() implies contains_id(
                        dv,
                        buckets@[t].1@[j],
                    ) && (buckets@[t].0 as int) == spec_hash(
                        pview(planes@),
                        dv[id_index(dv, buckets@[t].1@[j])].1,
                    ) by {
                        if t < buckets@.len() - 1 {
                            let src = if t < f {
                                t
                            } else {
                                t + 1
                            };
                            assert(buckets@[t] == b0[src]);
                            assert(b0[src].1@[j] == buckets@[t].1@[j]);
                        } else {
                            assert(buckets@[t].0 == b0[f].0);
                            assert(buckets@[t].1@ == b0[f].1@.push(id));
                            if j < b0[f].1@.len() {
                                assert(b0[f].1@[j] == buckets@[t].1@[j]);
                            } else {
                                assert(buckets@[t].1@[j] == id);
                            }
                        }
                    }
                }
            } else {
                let mut ids: Vec<VectorID> = Vec::new();
                ids.push(id);
                buckets.push((h, ids));
                proof {
                    assert forall|t1: int, t2: int|
                        0 <= t1 < t2 < buckets@.len() implies (#[trigger] buckets@[t1]).0
                        != (#[trigger] buckets@[t2]).0 by {
                        if t2 == buckets@.len() - 1 {
                            assert(buckets@[t1].0 == b0[t1].0);
                            assert(buckets@[t2].0 == h);
                        } else {
                            assert(buckets@[t1].0 == b0[t1].0);
                            assert(buckets@[t2].0 == b0[t2].0);
                            assert(b0[t1].0 != b0[t2].0);
                        }
                    }
                    let bv0 = bview(b0);
                    assert(bview(buckets@) =~= bv0.push((h, seq![id])));
                    lemma_id_sum_push(bv0, (h, seq![id]));
                    assert(seq![id].to_multiset() =~= Multiset::empty().insert(id)) by {
                        assert(seq![id].drop_first() =~= Seq::<VectorID>::empty());
                    }
                    assert(ids_of(dv).subrange(0, i + 1) =~= ids_of(dv).subrange(0, i as int).push(
                        dv[i as int].0,
                    ));
                    assert(id_sum(bview(buckets@)) =~= ids_of(dv).subrange(0, i + 1).to_multiset());
                    assert forall|t: int, j: int|
                        #![trigger buckets@[t].1@[j]]
                        0 <= t < buckets@.len() && 0 <= j < buckets@[t].1@.len() implies contains_id(
                        dv,
                        buckets@[t].1@[j],
                    ) && (buckets@[t].0 as int) == spec_hash(
                        pview(planes@),
                        dv[id_index(dv, buckets@[t].1@[j])].1,
                    ) by {
                        if t < buckets@.len() - 1 {
                            assert(buckets@[t] == b0[t]);
                            assert(b0[t].1@[j] == buckets@[t].1@[j]);
                        } else {
                            assert(buckets@[t].0 == h);
                            assert(buckets@[t].1@[j] == id);
                        }
                    }
                }
            }
            i = i + 1;
        }
        proof {
            assert(ids_of(dv).subrange(0, n as int) =~= ids_of(dv));
        }
        Ok(LSH { planes, buckets, dim, data: Ghost(view_of(data@)) })
    }

    /// Build the table with hyperplanes drawn from system entropy.
    pub fn load(data: &Vec<(VectorID, Vec<i64>)>) -> (r: Result<LSH, LoadError>)
        ensures
            match r {
                Ok(l) => l.wf() && l.data_view() == view_of(data@) && l.dim() == view_of(
                    data@,
                )[0].1.len() && dataset_error(view_of(data@)) is None,
                Err(err) => dataset_error(view_of(data@)) == Some(err),
            },
    {
        let seed = entropy_seed();
        Self::load_seeded(data, seed)
    }

    /// The `k` identifiers the table offers for `query`: walk the buckets
    /// by rising Hamming distance of their hash to the query's, collect
    /// their members, and cut the list at `k`. The result holds exactly
    /// `min(k, n)` distinct identifiers of the dataset, drawn from the
    /// buckets nearest the query hash: every identifier left out sits at
    /// least as many hash bits away as every identifier returned. Which of
    /// the true neighbors those buckets hold is the approximation this
    /// index trades exactness for.
    #[verifier::rlimit(100)]
    pub fn nearest_neighbors(&self, query: &Vec<i64>, k: usize) -> (r: Vec<VectorID>)
        requires
            self.wf(),
            query@.len() == self.dim(),
            bounded(query@),
        ensures
            ids_from(self.data_view(), r@),
            r@.len() == if k <= self.data_view().len() {
                k as int
            } else {
                self.data_view().len() as int
            },
            k >= 1 ==> r@.len() >= 1,
            forall|id: VectorID, i: int|
                #![trigger contains_id(self.data_view(), id), r@[i]]
                contains_id(self.data_view(), id) && !r@.contains(id) && 0 <= i < r@.len()
                    ==> self.query_ham(query@, r@[i]) <= self.query_ham(query@, id),
    {
        let ghost dv = self.data@;
        proof {
            assert(valid_vector(dv[0].1, self.dim as nat));
            assert(valid_vector(query@, self.dim as nat));
        }
        let qh = hash_vec(&self.planes, query, Ghost(self.dim as nat));
        let ghost qhs = spec_hash(pview(self.planes@), query@);
        proof {
            assert(qh as int == qhs);
        }

        // Copy the buckets and order them by Hamming distance to the query
        // hash, ties by hash value.
        let mut bs: Vec<(u64, Vec<VectorID>)> = Vec::new();
        let nb = self.buckets.len();
        let mut t: usize = 0;
        proof {
            assert(bview(bs@) =~= bview(self.buckets@).subrange(0, 0));
        }
        while t < nb
            invariant
                t <= nb,
                nb == self.buckets@.len(),
                bs@.len() == t,
                bview(bs@) == bview(self.buckets@).subrange(0, t as int),
            decreases nb - t,
        {
            let key = self.buckets[t].0;
            let members = self.bucket_members(t);
            bs.push((key, members));
            proof {
                assert(bview(bs@) =~= bview(self.buckets@).subrange(0, t + 1));
            }
            t = t + 1;
        }
        proof {
            assert(bview(bs@) =~= bview(self.buckets@));
        }
        let sorted = sort_buckets(bs, qh);

        let ghost all_ids = ids_of(dv).to_multiset();
        proof {
            lemma_id_sum_permutation(bview(sorted@), bview(self.buckets@));
            ids_of(dv).lemma_multiset_has_no_duplicates();
            assert(all_ids.len() == ids_of(dv).len()) by {
                assert(ids_of(dv).to_multiset().len() == ids_of(dv).len());
            }
        }

        // Accumulate bucket members until k identifiers are collected or the
        // buckets run out. Because the buckets are walked by rising Hamming
        // distance and each member's bucket hash is its own vector's hash,
        // the collected list is ordered by the members' own hash distance,
        // and everything still uncollected lies at least as far.
        let mut collected: Vec<VectorID> = Vec::new();
        let ns = sorted.len();
        let mut t: usize = 0;
        proof {
            assert(bview(sorted@).skip(0) =~= bview(sorted@));
        }
        while t < ns && collected.len() < k
            invariant
                self.wf(),
                dv == self.data_view(),
                query@.len() == self.dim(),
                qhs == spec_hash(pview(self.planes@), query@),
                t <= ns,
                ns == sorted@.len(),
                bview(sorted@).to_multiset() == bview(self.buckets@).to_multiset(),
                forall|a: int, b: int|
                    0 <= a < b < sorted@.len() ==> spec_hamming(
                        qhs,
                        (#[trigger] sorted@[a]).0 as int,
                        64,
                    ) <= spec_hamming(qhs, (#[trigger] sorted@[b]).0 as int, 64),
                all_ids == ids_of(dv).to_multiset(),
                forall|x: VectorID| #[trigger] all_ids.count(x) <= 1,
                collected@.to_multiset().add(id_sum(bview(sorted@).skip(t as int))) == all_ids,
                collected@.no_duplicates(),
                forall|i: int| 0 <= i < collected@.len() ==> contains_id(dv, #[trigger] collected@[i]),
                forall|a: int, b: int|
                    0 <= a < b < collected@.len() ==> self.query_ham(query@, #[trigger] collected@[a])
                        <= self.query_ham(query@, #[trigger] collected@[b]),
                forall|a: int, x: VectorID|
                    #![trigger collected@[a], id_sum(bview(sorted@).skip(t as int)).count(x)]
                    0 <= a < collected@.len() && id_sum(bview(sorted@).skip(t as int)).count(x) > 0
                        ==> self.query_ham(query@, collected@[a]) <= self.query_ham(query@, x),
            decreases ns - t,
        {
            let ghost rem = bview(sorted@).skip(t as int);
            proof {
                assert(rem[0] == bview(sorted@)[t as int]);
                assert(rem.drop_first() =~= bview(sorted@).skip(t + 1));
                assert(id_sum(rem) == rem[0].1.to_multiset().add(
                    id_sum(bview(sorted@).skip(t + 1)),
                ));
            }
            let ids = &sorted[t].1;
            let m = ids.len();
            let mut j: usize = 0;
            proof {
                assert(ids@.skip(0) =~= ids@);
                assert(rem[0].1 == ids@);
                assert forall|a: int, x: VectorID|
                    #![trigger collected@[a], ids@.skip(0).to_multiset().count(x)]
                    0 <= a < collected@.len() && ids@.skip(0).to_multiset().count(x) > 0 implies
                    self.query_ham(query@, collected@[a]) <= self.query_ham(query@, x) by {
                    assert(id_sum(bview(sorted@).skip(t as int)).count(x) > 0);
                }
                assert forall|a: int, x: VectorID|
                    #![trigger collected@[a], id_sum(bview(sorted@).skip(t + 1)).count(x)]
                    0 <= a < collected@.len() && id_sum(bview(sorted@).skip(t + 1)).count(x)
                        > 0 implies self.query_ham(query@, collected@[a]) <= self.query_ham(
                    query@,
                    x,
                ) by {
                    assert(id_sum(bview(sorted@).skip(t as int)).count(x) > 0);
                }
            }
            while j < m
                invariant
                    self.wf(),
                    dv == self.data_view(),
                    query@.len() == self.dim(),
                    qhs == spec_hash(pview(self.planes@), query@),
                    j <= m,
                    m == ids@.len(),
                    t < ns,
                    ns == sorted@.len(),
                    ids@ == sorted@[t as int].1@,
                    bview(sorted@).to_multiset() == bview(self.buckets@).to_multiset(),
                    forall|a: int, b: int|
                        0 <= a < b < sorted@.len() ==> spec_hamming(
                            qhs,
                            (#[trigger] sorted@[a]).0 as int,
                            64,
                        ) <= spec_hamming(qhs, (#[trigger] sorted@[b]).0 as int, 64),
                    all_ids == ids_of(dv).to_multiset(),
                    forall|x: VectorID| #[trigger] all_ids.count(x) <= 1,
                    collected@.to_multiset().add(ids@.skip(j as int).to_multiset()).add(
                        id_sum(bview(sorted@).skip(t + 1)),
                    ) == all_ids,
                    collected@.no_duplicates(),
                    forall|i: int|
                        0 <= i < collected@.len() ==> contains_id(dv, #[trigger] collected@[i]),
                    forall|a: int, b: int|
                        0 <= a < b < collected@.len() ==> self.query_ham(
                            query@,
                            #[trigger] collected@[a],
                        ) <= self.query_ham(query@, #[trigger] collected@[b]),
                    forall|a: int, x: VectorID|
                        #![trigger collected@[a], ids@.skip(j as int).to_multiset().count(x)]
                        0 <= a < collected@.len() && ids@.skip(j as int).to_multiset().count(x) > 0
                            ==> self.query_ham(query@, collected@[a]) <= self.query_ham(query@, x),
                    forall|a: int, x: VectorID|
                        #![trigger collected@[a], id_sum(bview(sorted@).skip(t + 1)).count(x)]
                        0 <= a < collected@.len() && id_sum(bview(sorted@).skip(t + 1)).count(x) > 0
                            ==> self.query_ham(query@, collected@[a]) <= self.query_ham(query@, x),
                decreases m - j,
            {
                let id = ids[j];
                proof {
                    let rest = ids@.skip(j as int);
                    assert(rest[0] == id);
                    assert(rest.drop_first() =~= ids@.skip(j + 1));
                    assert(rest.remove(0) =~= rest.drop_first());
                    assert(rest.remove(0).to_multiset() == rest.to_multiset().remove(rest[0]));
                    assert(rest.to_multiset().contains(id)) by {
                        assert(rest.contains(id));
                    }
                    assert(rest.to_multiset() =~= ids@.skip(j + 1).to_multiset().insert(id));
                    assert(all_ids.count(id) >= 1);
                    assert(collected@.to_multiset().count(id) == 0);
                    if collected@.contains(id) {
                        assert(collected@.to_multiset().count(id) > 0);
                    }
                    assert(ids_of(dv).to_multiset().count(id) > 0);
                    assert(ids_of(dv).contains(id));
                    let w = choose|w: int| 0 <= w < ids_of(dv).len() && ids_of(dv)[w] == id;
                    assert(dv[w].0 == id);
                    assert(contains_id(dv, id));
                    // The new member's hash distance is its bucket's.
                    self.lemma_bucket_member_hash(bview(sorted@), t as int, j as int);
                    assert(bview(sorted@)[t as int].1[j as int] == id);
                    assert(self.query_ham(query@, id) == spec_hamming(
                        qhs,
                        sorted@[t as int].0 as int,
                        64,
                    ));
                }
                let ghost coll0 = collected@;
                collected.push(id);
                proof {
                    assert(collected@.to_multiset() =~= coll0.to_multiset().insert(id));
                    assert(collected@.to_multiset().add(ids@.skip(j + 1).to_multiset()).add(
                        id_sum(bview(sorted@).skip(t + 1)),
                    ) =~= all_ids);
                    // Everything still ahead lies at least as far as `id`.
                    assert forall|x: VectorID|
                        #[trigger] ids@.skip(j + 1).to_multiset().count(x) > 0 implies
                        self.query_ham(query@, id) <= self.query_ham(query@, x) by {
                        assert(ids@.skip(j + 1).contains(x));
                        let jj = choose|jj: int|
                            0 <= jj < ids@.skip(j + 1).len() && (#[trigger] ids@.skip(j + 1)[jj])
                                == x;
                        assert(ids@[j + 1 + jj] == x);
                        self.lemma_bucket_member_hash(bview(sorted@), t as int, j + 1 + jj);
                        assert(bview(sorted@)[t as int].1[j + 1 + jj] == x);
                    }
                    assert forall|x: VectorID|
                        #[trigger] id_sum(bview(sorted@).skip(t + 1)).count(x) > 0 implies
                        self.query_ham(query@, id) <= self.query_ham(query@, x) by {
                        lemma_id_sum_member(bview(sorted@).skip(t + 1), x);
                        let (u, jj) = choose|u: int, jj: int|
                            #![trigger bview(sorted@).skip(t + 1)[u].1[jj]]
                            0 <= u < bview(sorted@).skip(t + 1).len() && 0 <= jj < bview(
                                sorted@,
                            ).skip(t + 1)[u].1.len() && bview(sorted@).skip(t + 1)[u].1[jj] == x;
                        assert(bview(sorted@).skip(t + 1)[u] == bview(sorted@)[t + 1 + u]);
                        self.lemma_bucket_member_hash(bview(sorted@), t + 1 + u, jj);
                        assert(self.query_ham(query@, x) == spec_hamming(
                            qhs,
                            sorted@[t + 1 + u].0 as int,
                            64,
                        ));
                        assert(spec_hamming(qhs, sorted@[t as int].0 as int, 64) <= spec_hamming(
                            qhs,
                            sorted@[t + 1 + u].0 as int,
                            64,
                        ));
                    }
                    assert forall|a: int, b: int|
                        0 <= a < b < collected@.len() implies self.query_ham(
                        query@,
                        #[trigger] collected@[a],
                    ) <= self.query_ham(query@, #[trigger] collected@[b]) by {
                        if b == coll0.len() {
                            assert(collected@[b] == id);
                            assert(coll0[a] == collected@[a]);
                            assert(ids@.skip(j as int).to_multiset().count(id) > 0);
                        }
                    }
                }
                j = j + 1;
            }
            proof {
                assert(ids@.skip(m as int) =~= Seq::<VectorID>::empty());
                assert(ids@.skip(m as int).to_multiset() =~= Multiset::<VectorID>::empty());
                assert(collected@.to_multiset().add(id_sum(bview(sorted@).skip(t + 1)))
                    =~= all_ids);
            }
            t = t + 1;
        }
        proof {
            collected@.lemma_multiset_has_no_duplicates();
            assert(collected@.to_multiset().subset_of(all_ids));
            crate::heap::lemma_subset_len(collected@.to_multiset(), all_ids);
            assert(collected@.to_multiset().len() == collected@.len());
            if collected.len() < k {
                assert(t == ns);
                assert(bview(sorted@).skip(ns as int) =~= Seq::<(u64, Seq<VectorID>)>::empty());
                assert(id_sum(bview(sorted@).skip(ns as int)) =~= Multiset::<VectorID>::empty());
                assert(collected@.to_multiset() =~= all_ids);
                assert(collected@.len() == dv.len());
            }
        }

        // Cut the list at k.
        let limit = if k <= collected.len() {
            k
        } else {
            collected.len()
        };
        let mut out: Vec<VectorID> = Vec::new();
        let mut j: usize = 0;
        while j < limit
            invariant
                j <= limit,
                limit <= collected@.len(),
                out@ == collected@.subrange(0, j as int),
            decreases limit - j,
        {
            out.push(collected[j]);
            proof {
                assert(out@ =~= collected@.subrange(0, j + 1));
            }
            j = j + 1;
        }
        proof {
            assert(out@ =~= collected@.subrange(0, limit as int));
            assert(out@.no_duplicates());
            assert forall|i: int| 0 <= i < out@.len() implies contains_id(
                dv,
                #[trigger] out@[i],
            ) by {
                assert(out@[i] == collected@[i]);
            }
            // Every identifier left out sits at least as far in hash bits:
            // a cut-off identifier ranks after the kept prefix, and an
            // uncollected one ranks after everything collected.
            assert forall|id: VectorID, i: int|
                #![trigger contains_id(dv, id), out@[i]]
                contains_id(dv, id) && !out@.contains(id) && 0 <= i < out@.len() implies
                self.query_ham(query@, out@[i]) <= self.query_ham(query@, id) by {
                assert(out@[i] == collected@[i]);
                let w = choose|w: int| 0 <= w < dv.len() && dv[w].0 == id;
                assert(ids_of(dv)[w] == id);
                assert(ids_of(dv).contains(id));
                assert(all_ids.count(id) > 0);
                if collected@.to_multiset().count(id) > 0 {
                    assert(collected@.contains(id));
                    let p = choose|p: int| 0 <= p < collected@.len() && collected@[p] == id;
                    if p < limit {
                        assert(out@[p] == id);
                        assert(out@.contains(id));
                    }
                    assert(p >= limit);
                    assert(self.query_ham(query@, collected@[i]) <= self.query_ham(
                        query@,
                        collected@[p],
                    ));
                } else {
                    assert(id_sum(bview(sorted@).skip(t as int)).count(id) > 0);
                }
            }
        }
        out
    }

    /// How many buckets the table holds.
    pub fn num_buckets(&self) -> (r: usize)
        ensures
            r == self.bucket_count(),
    {
        self.buckets.len()
    }

    /// The identifiers of one bucket.
    pub fn bucket_members(&self, t: usize) -> (r: Vec<VectorID>)
        requires
            t < self.bucket_count(),
        ensures
            r@ == self.bucket_ids(t as int),
    {
        let mut out: Vec<VectorID> = Vec::new();
        let ids = &self.buckets[t].1;
        let n = ids.len();
        let mut j: usize = 0;
        while j < n
            invariant
                n == ids@.len(),
                j <= n,
                out@ == ids@.subrange(0, j as int),
            decreases n - j,
        {
            out.push(ids[j]);
            proof {
                assert(out@ =~= ids@.subrange(0, j + 1));
            }
            j = j + 1;
        }
        proof {
            assert(out@ =~= ids@);
        }
        out
    }

    /// How many hyperplanes the table hashes with.
    pub fn num_planes(&self) -> (r: usize)
        ensures
            r == self.plane_count(),
    {
        self.planes.len()
    }

    /// One hyperplane's normal vector.
    pub fn plane_vector(&self, p: usize) -> (r: Vec<i64>)
        requires
            p < self.plane_count(),
        ensures
            r@ == self.plane(p as int),
    {
        crate::model::clone_vector(&self.planes[p])
    }
}

} // verus!
