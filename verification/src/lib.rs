//! In-memory nearest-neighbor search over dense fixed-dimensionality vectors.
//!
//! Vector components are fixed-point integers (`i64`), and the canonical
//! metric shared by every index is the squared Euclidean distance, which is
//! integer-exact and ranks neighbors exactly as the Euclidean distance does.

use vstd::prelude::*;

use rng::str_eq;

mod exact;
mod heap;
mod kdtree;
mod lsh;
mod nsw;
mod parse;
mod model;
mod rng;
mod topk;
mod tree;
mod vptree;

pub use exact::Exact;
pub use kdtree::KDTree;
pub use lsh::LSH;
pub use lsh::NUM_HYPERPLANES;
pub use nsw::NSW;
pub use nsw::NSW_DEGREE;
pub use nsw::NSW_SEARCH_WIDTH;
pub use tree::BinaryTree;
pub use tree::Node;
pub use vptree::VPTree;

pub use heap::is_k_best;
pub use heap::lemma_k_best_membership;
pub use heap::lemma_k_best_unique;
pub use heap::ord_le;
pub use heap::sort_items;
pub use heap::LimitedHeap;
pub use heap::OrdItem;
pub use model::clone_dataset;
pub use model::clone_vector;
pub use model::contains_id;
pub use model::dataset_error;
pub use model::distance;
pub use model::dot_product;
pub use model::is_topk;
pub use model::is_topk_strong;
pub use model::pair_le;
pub use model::score_of;
pub use model::spec_dist_sq;
pub use model::spec_dot;
pub use model::valid_data;
pub use model::validate_dataset;
pub use model::view_of;
pub use model::LoadError;
pub use model::MAX_COORD;
pub use model::MAX_DIM;
pub use model::ids_from;
pub use model::sorted_by_distance;
pub use parse::parse_component;
pub use parse::parse_dataset_line;
pub use parse::SCALE;
pub use topk::lemma_self_query_first;
pub use topk::lemma_topk_set_unique;
pub use topk::lemma_tree_search_agrees_with_exact;
pub use topk::lemma_topk_strong_unique;

verus! {

/// Stable integer identifier for an indexed vector.
pub type VectorID = usize;

/// The common contract of every index: after a successful load, `search`
/// returns at most `k` distinct identifiers of the loaded dataset, and at
/// least one whenever `k` allows any. Each index strengthens this through
/// its own `nearest_neighbors`, and [`AnyIndex::search`] carries the
/// strengthened contract per variant.
pub trait Algorithm {
    /// The dataset the index answers for.
    spec fn index_data(&self) -> Seq<(usize, Seq<i64>)>;

    /// The dimensionality every stored and queried vector has.
    spec fn index_dim(&self) -> nat;

    /// The index is well formed.
    spec fn index_wf(&self) -> bool;

    /// The up-to-`k` best matches for the query, best match first.
    fn search(&self, query: &Vec<i64>, k: usize) -> (r: Vec<VectorID>)
        requires
            self.index_wf(),
            query@.len() == self.index_dim(),
            model::bounded(query@),
        ensures
            ids_from(self.index_data(), r@),
            r@.len() <= k,
            k >= 1 ==> r@.len() >= 1,
    ;
}

impl Algorithm for Exact {
    open spec fn index_data(&self) -> Seq<(usize, Seq<i64>)> {
        self.data_view()
    }

    open spec fn index_dim(&self) -> nat {
        self.dim()
    }

    open spec fn index_wf(&self) -> bool {
        self.wf()
    }

    fn search(&self, query: &Vec<i64>, k: usize) -> (r: Vec<VectorID>) {
        self.nearest_neighbors(query, k)
    }
}

impl Algorithm for KDTree {
    open spec fn index_data(&self) -> Seq<(usize, Seq<i64>)> {
        self.data_view()
    }

    open spec fn index_dim(&self) -> nat {
        self.dim()
    }

    open spec fn index_wf(&self) -> bool {
        self.wf()
    }

    fn search(&self, query: &Vec<i64>, k: usize) -> (r: Vec<VectorID>) {
        self.nearest_neighbors(query, k)
    }
}

impl Algorithm for VPTree {
    open spec fn index_data(&self) -> Seq<(usize, Seq<i64>)> {
        self.data_view()
    }

    open spec fn index_dim(&self) -> nat {
        self.dim()
    }

    open spec fn index_wf(&self) -> bool {
        self.wf()
    }

    fn search(&self, query: &Vec<i64>, k: usize) -> (r: Vec<VectorID>) {
        self.nearest_neighbors(query, k)
    }
}

impl Algorithm for LSH {
    open spec fn index_data(&self) -> Seq<(usize, Seq<i64>)> {
        self.data_view()
    }

    open spec fn index_dim(&self) -> nat {
        self.dim()
    }

    open spec fn index_wf(&self) -> bool {
        self.wf()
    }

    fn search(&self, query: &Vec<i64>, k: usize) -> (r: Vec<VectorID>) {
        self.nearest_neighbors(query, k)
    }
}

impl Algorithm for NSW {
    open spec fn index_data(&self) -> Seq<(usize, Seq<i64>)> {
        self.data_view()
    }

    open spec fn index_dim(&self) -> nat {
        self.dim()
    }

    open spec fn index_wf(&self) -> bool {
        self.wf()
    }

    fn search(&self, query: &Vec<i64>, k: usize) -> (r: Vec<VectorID>) {
        NSW::search(self, query, k)
    }
}

/// One of the five indexes, chosen by name at load time.
pub enum AnyIndex {
    Exact(Exact),
    KDTree(KDTree),
    VPTree(VPTree),
    LSH(LSH),
    NSW(NSW),
}

impl AnyIndex {
    /// The dataset the chosen index answers for.
    pub open spec fn data_view(self) -> Seq<(usize, Seq<i64>)> {
        match self {
            AnyIndex::Exact(a) => a.data_view(),
            AnyIndex::KDTree(a) => a.data_view(),
            AnyIndex::VPTree(a) => a.data_view(),
            AnyIndex::LSH(a) => a.data_view(),
            AnyIndex::NSW(a) => a.data_view(),
        }
    }

    /// The dimensionality every stored and queried vector has.
    pub open spec fn dim(self) -> nat {
        match self {
            AnyIndex::Exact(a) => a.dim(),
            AnyIndex::KDTree(a) => a.dim(),
            AnyIndex::VPTree(a) => a.dim(),
            AnyIndex::LSH(a) => a.dim(),
            AnyIndex::NSW(a) => a.dim(),
        }
    }

    /// The chosen index is well formed.
    pub open spec fn wf(self) -> bool {
        match self {
            AnyIndex::Exact(a) => a.wf(),
            AnyIndex::KDTree(a) => a.wf(),
            AnyIndex::VPTree(a) => a.wf(),
            AnyIndex::LSH(a) => a.wf(),
            AnyIndex::NSW(a) => a.wf(),
        }
    }

    /// The up-to-`k` best matches for the query, best match first, with
    /// the chosen index's own guarantee: the linear scan and both
    /// space-partitioning trees pin their answer completely, the hash table
    /// returns exactly `min(k, n)` identifiers, and the proximity graph
    /// returns distance-ordered identifiers.
    pub fn search(&self, query: &Vec<i64>, k: usize) -> (r: Vec<VectorID>)
        requires
            self.wf(),
            query@.len() == self.dim(),
            model::bounded(query@),
        ensures
            ids_from(self.data_view(), r@),
            r@.len() <= k,
            k >= 1 ==> r@.len() >= 1,
            match *self {
                AnyIndex::Exact(a) => is_topk_strong(a.data_view(), query@, k as int, r@),
                AnyIndex::KDTree(a) => is_topk_strong(a.data_view(), query@, k as int, r@)
                    && is_topk(a.data_view(), query@, k as int, r@),
                AnyIndex::VPTree(a) => is_topk_strong(a.data_view(), query@, k as int, r@)
                    && is_topk(a.data_view(), query@, k as int, r@),
                AnyIndex::LSH(a) => r@.len() == if k <= a.data_view().len() {
                    k as int
                } else {
                    a.data_view().len() as int
                },
                AnyIndex::NSW(a) => sorted_by_distance(a.data_view(), query@, r@),
            },
    {
        match self {
            AnyIndex::Exact(a) => a.nearest_neighbors(query, k),
            AnyIndex::KDTree(a) => a.nearest_neighbors(query, k),
            AnyIndex::VPTree(a) => a.nearest_neighbors(query, k),
            AnyIndex::LSH(a) => a.nearest_neighbors(query, k),
            AnyIndex::NSW(a) => NSW::search(a, query, k),
        }
    }
}

/// Load the index the name asks for. An unrecognized name resolves to the
/// documented default, the exact linear scan — deliberately, never into an
/// arbitrary choice. Rejects exactly the datasets [`dataset_error`] rejects.
pub fn get_search_algorithm(flag: &str, data: &Vec<(VectorID, Vec<i64>)>) -> (r: Result<
    AnyIndex,
    LoadError,
>)
    ensures
        match r {
            Ok(a) => a.wf() && a.data_view() == view_of(data@) && a.dim() == view_of(
                data@,
            )[0].1.len() && dataset_error(view_of(data@)) is None && (flag@ == "kdtree"@ ==> a is KDTree)
                && (flag@ == "vptree"@ ==> a is VPTree) && (flag@ == "lsh"@ ==> a is LSH) && (flag@
                == "nsw"@ ==> a is NSW) && (flag@ != "kdtree"@ && flag@ != "vptree"@ && flag@
                != "lsh"@ && flag@ != "nsw"@ ==> a is Exact),
            Err(err) => dataset_error(view_of(data@)) == Some(err),
        },
{
    proof {
        reveal_strlit("kdtree");
        reveal_strlit("vptree");
        reveal_strlit("lsh");
        reveal_strlit("nsw");
        assert("kdtree"@ != "vptree"@ && "kdtree"@ != "lsh"@ && "kdtree"@ != "nsw"@) by {
            assert("kdtree"@[0] == 'k' && "vptree"@[0] == 'v' && "lsh"@[0] == 'l' && "nsw"@[0]
                == 'n');
        }
        assert("vptree"@ != "lsh"@ && "vptree"@ != "nsw"@ && "lsh"@ != "nsw"@) by {
            assert("vptree"@[0] == 'v' && "lsh"@[0] == 'l' && "nsw"@[0] == 'n');
        }
    }
    if str_eq(flag, "kdtree") {
        match KDTree::load(data) {
            Ok(a) => Ok(AnyIndex::KDTree(a)),
            Err(e) => Err(e),
        }
    } else if str_eq(flag, "vptree") {
        match VPTree::load(data) {
            Ok(a) => Ok(AnyIndex::VPTree(a)),
            Err(e) => Err(e),
        }
    } else if str_eq(flag, "lsh") {
        match LSH::load(data) {
            Ok(a) => Ok(AnyIndex::LSH(a)),
            Err(e) => Err(e),
        }
    } else if str_eq(flag, "nsw") {
        match NSW::load(data) {
            Ok(a) => Ok(AnyIndex::NSW(a)),
            Err(e) => Err(e),
        }
    } else {
        match Exact::load(data) {
            Ok(a) => Ok(AnyIndex::Exact(a)),
            Err(e) => Err(e),
        }
    }
}

} // verus!
