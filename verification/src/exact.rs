//! Exact nearest-neighbor search by linear scan: the ground truth the other
//! indexes are measured against.

use vstd::prelude::*;
use crate::heap::{LimitedHeap, OrdItem};
use crate::model::{
    bounded, dataset_error, is_topk_strong, valid_data, validate_dataset, view_of, LoadError,
};
use crate::topk::{cand, cands, cands_prefix, lemma_cand_fits, lemma_sorted_heap_topk};
use crate::VectorID;

verus! {

broadcast use {vstd::multiset::group_multiset_axioms, vstd::seq_lib::group_to_multiset_ensures};

/// A brute-force index: an owned copy of the dataset, scanned in full at
/// every query. Always exact, O(n·d) per search.
pub struct Exact {
    data: Vec<(VectorID, Vec<i64>)>,
    dim: usize,
}

impl Exact {
    /// The dataset this index answers for.
    pub closed spec fn data_view(self) -> Seq<(usize, Seq<i64>)> {
        view_of(self.data@)
    }

    /// The dimensionality every stored and queried vector has.
    pub closed spec fn dim(self) -> nat {
        self.dim as nat
    }

    /// The index holds a valid dataset of its dimensionality.
    pub open spec fn wf(self) -> bool {
        valid_data(self.data_view(), self.dim())
    }

    /// Build the index from an owned copy of the dataset. Rejects exactly
    /// the datasets [`dataset_error`] rejects, with that error.
    pub fn load(data: &Vec<(VectorID, Vec<i64>)>) -> (r: Result<Exact, LoadError>)
        ensures
            match r {
                Ok(e) => e.wf() && e.data_view() == view_of(data@) && e.dim() == view_of(
                    data@,
                )[0].1.len() && dataset_error(view_of(data@)) is None,
                Err(err) => dataset_error(view_of(data@)) == Some(err),
            },
    {
        let dim = match validate_dataset(data) {
            Ok(d) => d,
            Err(e) => {
                return Err(e);
            },
        };
        Ok(Exact { data: crate::model::clone_dataset(data), dim })
    }

    /// The `k` nearest stored vectors to `query`, best first: exactly
    /// `min(k, n)` distinct identifiers, sorted by distance (ties by
    /// identifier), and no identifier left out is closer than one returned.
    pub fn nearest_neighbors(&self, query: &Vec<i64>, k: usize) -> (r: Vec<VectorID>)
        requires
            self.wf(),
            query@.len() == self.dim(),
            bounded(query@),
        ensures
            is_topk_strong(self.data_view(), query@, k as int, r@),
            k >= 1 ==> r@.len() >= 1,
    {
        let ghost dv = self.data_view();
        let ghost dim = self.dim();
        let mut h = LimitedHeap::new(k);
        let n = self.data.len();
        proof {
            assert(cands_prefix(dv, query@, 0) =~= Seq::<OrdItem>::empty());
            assert(h.seen() =~= cands_prefix(dv, query@, 0).to_multiset());
        }
        let mut i: usize = 0;
        while i < n
            invariant
                self.wf(),
                query@.len() == self.dim(),
                bounded(query@),
                dv == self.data_view(),
                dim == self.dim(),
                n == self.data@.len(),
                i <= n,
                h.inv(),
                h.cap() == k,
                h.seen() == cands_prefix(dv, query@, i as int).to_multiset(),
            decreases n - i,
        {
            proof {
                assert(dv[i as int] == (self.data@[i as int].0, self.data@[i as int].1@));
                assert(valid_data(dv, dim));
                lemma_cand_fits(dv, query@, dim, i as int);
            }
            let d = crate::model::distance(query, &self.data[i].1);
            let id = self.data[i].0;
            h.push(OrdItem(d, id));
            proof {
                assert(OrdItem(d, id) == cand(dv, query@, i as int));
                assert(cands_prefix(dv, query@, i + 1) =~= cands_prefix(dv, query@, i as int).push(
                    cand(dv, query@, i as int),
                ));
                assert(h.seen() =~= cands_prefix(dv, query@, i + 1).to_multiset());
            }
            i = i + 1;
        }
        proof {
            assert(cands_prefix(dv, query@, n as int) =~= cands(dv, query@));
        }
        let ghost c = h.contents();
        let ghost seen = h.seen();
        let sorted = h.consume();
        let mut out: Vec<VectorID> = Vec::new();
        let m = sorted.len();
        let mut j: usize = 0;
        while j < m
            invariant
                m == sorted@.len(),
                j <= m,
                out@.len() == j,
                forall|t: int| 0 <= t < j ==> out@[t] == (#[trigger] sorted@[t]).1,
            decreases m - j,
        {
            out.push(sorted[j].1);
            j = j + 1;
        }
        proof {
            assert forall|x: OrdItem| #[trigger] seen.count(x) <= cands(
                dv,
                query@,
            ).to_multiset().count(x) by {}
            assert(c.len() == crate::heap::min_nat(k as nat, dv.len() as nat)) by {
                assert(seen.len() == cands(dv, query@).len()) by {
                    assert(cands(dv, query@).to_multiset().len() == cands(dv, query@).len());
                }
            }
            lemma_sorted_heap_topk(dv, query@, dim, k as nat, c, seen, sorted@, out@);
        }
        out
    }
}

} // verus!
