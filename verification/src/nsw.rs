//! NSW: a navigable small-world proximity graph grown by incremental
//! insertion and searched by multi-start greedy walks. While the graph is
//! small every new point is wired to every existing one (the dense
//! bootstrap, which keeps the early graph complete and therefore
//! connected); afterwards a new point is wired symmetrically to the best
//! points a multi-start greedy search finds. The wiring candidates are
//! everything those walks scored — each explored node's neighbors enter by
//! being scored during the walk itself, not by a separate expansion step
//! after it. Search shares one visited set across all walks, so no node is
//! scored twice within a query.

use vstd::prelude::*;
use vstd::multiset::Multiset;
use crate::heap::{ord_le, ord_leq, LimitedHeap, OrdItem};
use crate::model::{
    bounded, contains_id, dataset_error, id_index, ids_from, ids_of, sorted_by_distance,
    spec_dist_sq, valid_data, valid_vector, validate_dataset, view_of, LoadError, MAX_COORD,
    MAX_DIM,
};
use crate::rng::{entropy_seed, new_rng, rng_below};
use crate::topk::lemma_pair_cand_fits;
use crate::VectorID;

verus! {

broadcast use {vstd::multiset::group_multiset_axioms, vstd::seq_lib::group_to_multiset_ensures};

/// How many greedy walks one query runs by default.
pub const NSW_SEARCH_WIDTH: usize = 5;

/// The out-degree target, and with it the dense-bootstrap threshold: while
/// the graph holds at most this many nodes, a new node is wired to all.
pub const NSW_DEGREE: usize = 10;

/// One graph node: the indexed point and its neighbors, as positions in the
/// node list. Edges are added in symmetric pairs and never removed.
struct NswNode {
    id: VectorID,
    vector: Vec<i64>,
    friends: Vec<usize>,
}

/// How many entries of the sequence are still false.
spec fn count_falses(s: Seq<bool>) -> nat
    decreases s.len(),
{
    if s.len() == 0 {
        0
    } else {
        count_falses(s.drop_last()) + if s.last() {
            0nat
        } else {
            1nat
        }
    }
}

/// Marking one unvisited entry visited lowers the count by one.
proof fn lemma_count_falses_update(s: Seq<bool>, i: int)
    requires
        0 <= i < s.len(),
        !s[i],
    ensures
        count_falses(s.update(i, true)) + 1 == count_falses(s),
    decreases s.len(),
{
    if i == s.len() - 1 {
        assert(s.update(i, true).drop_last() =~= s.drop_last());
    } else {
        lemma_count_falses_update(s.drop_last(), i);
        assert(s.update(i, true).drop_last() =~= s.drop_last().update(i, true));
        assert(s.update(i, true).last() == s.last());
    }
}

/// An NSW graph over an owned copy of the dataset.
pub struct NSW {
    nodes: Vec<NswNode>,
    dim: usize,
    m: usize,
}

impl NSW {
    /// The dataset this index answers for, in insertion order.
    pub closed spec fn data_view(self) -> Seq<(usize, Seq<i64>)> {
        self.nodes@.map_values(|n: NswNode| (n.id, n.vector@))
    }

    /// The dimensionality every stored and queried vector has.
    pub closed spec fn dim(self) -> nat {
        self.dim as nat
    }

    /// How many greedy walks one query runs.
    pub closed spec fn walks(self) -> nat {
        self.m as nat
    }

    /// Whether the node at position `j` is a neighbor of the node at `i`.
    pub closed spec fn linked(self, i: int, j: int) -> bool {
        self.nodes@[i].friends@.contains(j as usize)
    }

    /// Every pair of distinct nodes is adjacent. The bootstrap phase keeps
    /// the graph in this state, so it is connected: any two nodes are one
    /// edge apart.
    pub open spec fn complete(self) -> bool {
        forall|i: int, j: int|
            0 <= i < self.data_view().len() && 0 <= j < self.data_view().len() && i != j
                ==> #[trigger] self.linked(i, j)
    }

    /// The graph invariant, short of the dataset being non-empty: valid
    /// distinct entries, and neighbor lists that point at other nodes,
    /// without duplicates, with every edge mirrored.
    spec fn wf0(self) -> bool {
        &&& 1 <= self.dim <= MAX_DIM
        &&& self.m >= 1
        &&& ids_of(self.data_view()).no_duplicates()
        &&& forall|i: int|
            0 <= i < self.nodes@.len() ==> valid_vector(
                (#[trigger] self.nodes@[i]).vector@,
                self.dim as nat,
            )
        &&& forall|i: int, t: int|
            #![trigger self.nodes@[i].friends@[t]]
            0 <= i < self.nodes@.len() && 0 <= t < self.nodes@[i].friends@.len() ==> self.nodes@[i].friends@[t]
                < self.nodes@.len() && self.nodes@[i].friends@[t] != i
        &&& forall|i: int| 0 <= i < self.nodes@.len() ==> (#[trigger] self.nodes@[i]).friends@.no_duplicates()
        &&& forall|i: int, j: int|
            0 <= i < self.nodes@.len() && 0 <= j < self.nodes@.len() ==> (#[trigger] self.linked(
                i,
                j,
            )) == self.linked(j, i)
    }

    /// The public invariant: a well-formed, non-empty graph.
    pub closed spec fn wf(self) -> bool {
        self.wf0() && self.nodes@.len() >= 1
    }

    /// The index holds a valid dataset.
    pub proof fn lemma_wf_valid_data(self)
        requires
            self.wf(),
        ensures
            valid_data(self.data_view(), self.dim()),
    {
    }

    /// The scored entry node `i` contributes for a query.
    spec fn node_item(self, q: Seq<i64>, i: int) -> OrdItem {
        OrdItem(spec_dist_sq(q, self.nodes@[i].vector@) as i64, i as usize)
    }

    /// The query-wide selection holds each node at most once, only visited
    /// nodes, and no node still unvisited.
    spec fn results_ok(self, q: Seq<i64>, h: LimitedHeap, visited: Seq<bool>) -> bool {
        &&& h.inv()
        &&& visited.len() == self.nodes@.len()
        &&& forall|x: OrdItem| #[trigger] h.seen().count(x) <= 1
        &&& forall|x: OrdItem|
            #[trigger] h.seen().count(x) > 0 ==> exists|i: int|
                0 <= i < self.nodes@.len() && visited[i] && x == self.node_item(q, i)
        &&& forall|i: int|
            0 <= i < visited.len() && !visited[i] ==> h.seen().count(#[trigger] self.node_item(q, i))
                == 0
    }

    /// One greedy walk from `entry`: repeatedly move to the neighbor
    /// closest to the query, scoring every node met exactly once.
    #[verifier::rlimit(80)]
    fn greedy(
        &self,
        query: &Vec<i64>,
        entry: usize,
        results: &mut LimitedHeap,
        visited: &mut Vec<bool>,
    )
        requires
            self.wf(),
            query@.len() == self.dim as nat,
            bounded(query@),
            entry < self.nodes@.len(),
            self.results_ok(query@, *old(results), old(visited)@),
        ensures
            self.results_ok(query@, *final(results), final(visited)@),
            final(results).cap() == old(results).cap(),
            final(visited)@.len() == old(visited)@.len(),
            forall|i: int|
                0 <= i < old(visited)@.len() && old(visited)@[i] ==> #[trigger] final(visited)@[i],
            forall|x: OrdItem|
                #[trigger] final(results).seen().count(x) >= old(results).seen().count(x),
            !old(visited)@[entry as int] ==> final(results).seen().len() > old(
                results,
            ).seen().len(),
    {
        let n = self.nodes.len();
        let ghost vstart = visited@;
        let ghost seen_start = results.seen();
        let ghost cap0 = results.cap();
        if visited[entry] {
            return ;
        }
        visited[entry] = true;
        proof {
            lemma_count_falses_update(vstart, entry as int);
            lemma_pair_cand_fits(
                query@,
                (self.nodes@[entry as int].id, self.nodes@[entry as int].vector@),
                self.dim as nat,
            );
        }
        let d = crate::model::distance(query, &self.nodes[entry].vector);
        let first = OrdItem(d, entry);
        results.push(first);
        proof {
            assert(first == self.node_item(query@, entry as int));
            assert(self.results_ok(query@, *results, visited@)) by {
                assert forall|x: OrdItem|
                    #[trigger] results.seen().count(x) > 0 implies exists|i: int|
                    0 <= i < self.nodes@.len() && visited@[i] && x == self.node_item(query@, i) by {
                    if x == first {
                        assert(visited@[entry as int] && x == self.node_item(query@, entry as int));
                    } else {
                        assert(seen_start.count(x) > 0);
                        let i = choose|i: int|
                            0 <= i < self.nodes@.len() && vstart[i] && x == self.node_item(
                                query@,
                                i,
                            );
                        assert(visited@[i]);
                    }
                }
            }
        }
        let mut candidates: Vec<OrdItem> = Vec::new();
        candidates.push(first);
        let mut done = false;
        while candidates.len() > 0 && !done
            invariant
                self.wf(),
                query@.len() == self.dim as nat,
                bounded(query@),
                n == self.nodes@.len(),
                self.results_ok(query@, *results, visited@),
                (*results).cap() == cap0,
                visited@.len() == n,
                vstart.len() == n,
                forall|t: int| 0 <= t < candidates@.len() ==> (#[trigger] candidates@[t]).1 < n,
                forall|i: int| 0 <= i < n && vstart[i] ==> #[trigger] visited@[i],
                forall|x: OrdItem| #[trigger] (*results).seen().count(x) >= seen_start.count(x),
                (*results).seen().len() > seen_start.len(),
            decreases candidates@.len() + count_falses(visited@),
        {
            // Take the best unprocessed candidate.
            let mut mi: usize = 0;
            let mut i: usize = 1;
            while i < candidates.len()
                invariant
                    mi < i <= candidates@.len(),
                    candidates@.len() > 0,
                decreases candidates@.len() - i,
            {
                let a = candidates[i];
                let b = candidates[mi];
                if a.0 < b.0 || (a.0 == b.0 && a.1 < b.1) {
                    mi = i;
                }
                i = i + 1;
            }
            let best = candidates.remove(mi);
            let ghost m1 = candidates@.len() + count_falses(visited@);

            // Stop once the best remaining candidate cannot beat the k-th
            // best already found.
            let mut stop = false;
            if results.len() == results.capacity() && results.capacity() > 0 {
                match results.worst() {
                    Some(w) => {
                        if best.0 > w.0 {
                            stop = true;
                        }
                    },
                    None => {},
                }
            }
            if stop {
                done = true;
            } else {
                // Score the unvisited neighbors.
                let fr_len = self.nodes[best.1].friends.len();
                let mut fi: usize = 0;
                while fi < fr_len
                    invariant
                        self.wf(),
                        query@.len() == self.dim as nat,
                        bounded(query@),
                        n == self.nodes@.len(),
                        best.1 < n,
                        fr_len == self.nodes@[best.1 as int].friends@.len(),
                        fi <= fr_len,
                        self.results_ok(query@, *results, visited@),
                        (*results).cap() == cap0,
                        visited@.len() == n,
                        vstart.len() == n,
                        forall|t: int|
                            0 <= t < candidates@.len() ==> (#[trigger] candidates@[t]).1 < n,
                        forall|i: int| 0 <= i < n && vstart[i] ==> #[trigger] visited@[i],
                        forall|x: OrdItem|
                            #[trigger] (*results).seen().count(x) >= seen_start.count(x),
                        (*results).seen().len() > seen_start.len(),
                        candidates@.len() + count_falses(visited@) == m1,
                    decreases fr_len - fi,
                {
                    let f = self.nodes[best.1].friends[fi];
                    proof {
                        assert(self.nodes@[best.1 as int].friends@[fi as int] < n);
                    }
                    if !visited[f] {
                        let ghost v0 = visited@;
                        visited[f] = true;
                        proof {
                            assert(visited@ == v0.update(f as int, true));
                            assert forall|i: int| 0 <= i < n && vstart[i] implies
                                #[trigger] visited@[i] by {
                                assert(v0[i]);
                            }
                            lemma_count_falses_update(v0, f as int);
                            lemma_pair_cand_fits(
                                query@,
                                (self.nodes@[f as int].id, self.nodes@[f as int].vector@),
                                self.dim as nat,
                            );
                        }
                        let df = crate::model::distance(query, &self.nodes[f].vector);
                        let it = OrdItem(df, f);
                        let ghost seen0 = results.seen();
                        candidates.push(it);
                        results.push(it);
                        proof {
                            assert(it == self.node_item(query@, f as int));
                            assert(self.results_ok(query@, *results, visited@)) by {
                                assert forall|x: OrdItem|
                                    #[trigger] results.seen().count(x) > 0 implies exists|i: int|
                                    0 <= i < self.nodes@.len() && visited@[i] && x == self.node_item(
                                        query@,
                                        i,
                                    ) by {
                                    if x == it {
                                        assert(visited@[f as int] && x == self.node_item(
                                            query@,
                                            f as int,
                                        ));
                                    } else {
                                        assert(seen0.count(x) > 0);
                                        let i = choose|i: int|
                                            0 <= i < self.nodes@.len() && v0[i] && x
                                                == self.node_item(query@, i);
                                        assert(visited@[i]);
                                    }
                                }
                            }
                        }
                    }
                    fi = fi + 1;
                }
            }
        }
    }

    /// Run `m_walks` greedy walks from random entry nodes, sharing one
    /// visited set, and return the best nodes found, best first: distinct
    /// node positions with their true squared distances, in rising order.
    #[verifier::rlimit(60)]
    fn multi_search(
        &self,
        query: &Vec<i64>,
        m_walks: usize,
        k: usize,
        rng: &mut rand::rngs::StdRng,
    ) -> (r: Vec<OrdItem>)
        requires
            self.wf(),
            query@.len() == self.dim as nat,
            bounded(query@),
        ensures
            r@.len() <= k,
            m_walks >= 1 && k >= 1 ==> r@.len() >= 1,
            forall|t: int|
                0 <= t < r@.len() ==> (#[trigger] r@[t]).1 < self.nodes@.len() && (r@[t].0 as int)
                    == spec_dist_sq(query@, self.nodes@[r@[t].1 as int].vector@),
            forall|a: int, b: int|
                0 <= a < b < r@.len() ==> (#[trigger] r@[a]).1 != (#[trigger] r@[b]).1 && r@[a].0
                    <= r@[b].0,
    {
        let n = self.nodes.len();
        let mut results = LimitedHeap::new(k);
        let mut visited: Vec<bool> = Vec::new();
        let mut i: usize = 0;
        while i < n
            invariant
                i <= n,
                visited@.len() == i,
                forall|t: int| 0 <= t < i ==> !(#[trigger] visited@[t]),
            decreases n - i,
        {
            visited.push(false);
            i = i + 1;
        }
        proof {
            assert(self.results_ok(query@, results, visited@)) by {
                assert forall|x: OrdItem| #[trigger] results.seen().count(x) <= 1 by {}
            }
        }
        let mut wi: usize = 0;
        while wi < m_walks
            invariant
                self.wf(),
                query@.len() == self.dim as nat,
                bounded(query@),
                n == self.nodes@.len(),
                n >= 1,
                visited@.len() == n,
                self.results_ok(query@, results, visited@),
                results.cap() == k,
                wi <= m_walks,
                wi == 0 ==> forall|t: int| 0 <= t < visited@.len() ==> !(#[trigger] visited@[t]),
                wi >= 1 ==> results.seen().len() >= 1,
            decreases m_walks - wi,
        {
            let entry = rng_below(rng, n);
            let ghost seen_before = results.seen();
            let ghost unvisited = !visited@[entry as int];
            self.greedy(query, entry, &mut results, &mut visited);
            proof {
                crate::heap::lemma_subset_len(seen_before, results.seen());
                if wi == 0 {
                    assert(unvisited);
                    assert(results.seen().len() > seen_before.len());
                }
            }
            wi = wi + 1;
        }
        let ghost c = results.contents();
        let ghost seen = results.seen();
        let sorted = results.consume();
        proof {
            assert forall|x: OrdItem| sorted@.to_multiset().count(x) <= 1 by {
                assert(c.count(x) <= seen.count(x));
            }
            sorted@.lemma_multiset_has_no_duplicates_conv();
            assert forall|t: int|
                0 <= t < sorted@.len() implies (#[trigger] sorted@[t]).1 < self.nodes@.len() && (
            sorted@[t].0 as int) == spec_dist_sq(
                query@,
                self.nodes@[sorted@[t].1 as int].vector@,
            ) by {
                assert(sorted@.contains(sorted@[t]));
                assert(sorted@.to_multiset().count(sorted@[t]) > 0);
                assert(seen.count(sorted@[t]) > 0);
                let i = choose|i: int|
                    0 <= i < self.nodes@.len() && visited@[i] && sorted@[t] == self.node_item(
                        query@,
                        i,
                    );
                lemma_pair_cand_fits(
                    query@,
                    (self.nodes@[i].id, self.nodes@[i].vector@),
                    self.dim as nat,
                );
            }
            assert forall|a: int, b: int|
                0 <= a < b < sorted@.len() implies (#[trigger] sorted@[a]).1
                != (#[trigger] sorted@[b]).1 && sorted@[a].0 <= sorted@[b].0 by {
                assert(ord_leq()(sorted@[a], sorted@[b]));
                assert(ord_le(sorted@[a], sorted@[b]));
                if sorted@[a].1 == sorted@[b].1 {
                    let ia = choose|i: int|
                        0 <= i < self.nodes@.len() && visited@[i] && sorted@[a] == self.node_item(
                            query@,
                            i,
                        );
                    let ib = choose|i: int|
                        0 <= i < self.nodes@.len() && visited@[i] && sorted@[b] == self.node_item(
                            query@,
                            i,
                        );
                    assert(sorted@.contains(sorted@[a]));
                    assert(sorted@.to_multiset().count(sorted@[a]) > 0);
                    assert(seen.count(sorted@[a]) > 0);
                    assert(sorted@.contains(sorted@[b]));
                    assert(sorted@.to_multiset().count(sorted@[b]) > 0);
                    assert(seen.count(sorted@[b]) > 0);
                    assert(ia == sorted@[a].1 as int);
                    assert(ib == sorted@[b].1 as int);
                    assert(sorted@[a] == sorted@[b]);
                }
            }
            assert(sorted@.len() == c.len());
            assert(c.len() <= k);
        }
        sorted
    }

    /// The up-to-`k` best identifiers found by seeded multi-start greedy
    /// walks, best first: the same seed walks the same way, so equal seeds
    /// give equal results on equal graphs. Approximate: recall depends on
    /// the walk count and graph connectivity, and no exactness is claimed.
    pub fn search_seeded(&self, query: &Vec<i64>, k: usize, seed: u64) -> (r: Vec<VectorID>)
        requires
            self.wf(),
            query@.len() == self.dim(),
            bounded(query@),
        ensures
            ids_from(self.data_view(), r@),
            sorted_by_distance(self.data_view(), query@, r@),
            r@.len() <= k,
            k >= 1 ==> r@.len() >= 1,
    {
        let mut rng = new_rng(seed);
        let items = self.multi_search(query, self.m, k, &mut rng);
        let ghost dv = self.data_view();
        let mut out: Vec<VectorID> = Vec::new();
        let m = items.len();
        let mut j: usize = 0;
        while j < m
            invariant
                self.wf(),
                dv == self.data_view(),
                m == items@.len(),
                j <= m,
                out@.len() == j,
                forall|t: int|
                    0 <= t < items@.len() ==> (#[trigger] items@[t]).1 < self.nodes@.len(),
                forall|t: int| 0 <= t < j ==> out@[t] == (#[trigger] self.nodes@[items@[t].1 as int]).id,
            decreases m - j,
        {
            let idx = items[j].1;
            out.push(self.nodes[idx].id);
            j = j + 1;
        }
        proof {
            self.lemma_wf_valid_data();
            assert forall|t: int| 0 <= t < out@.len() implies contains_id(
                dv,
                #[trigger] out@[t],
            ) && id_index(dv, out@[t]) == items@[t].1 as int && crate::model::score_of(
                dv,
                query@,
                out@[t],
            ) == (items@[t].0 as int) by {
                let i = items@[t].1 as int;
                assert(dv[i] == (self.nodes@[i].id, self.nodes@[i].vector@));
                crate::topk::lemma_id_index_of(dv, self.dim as nat, i);
            }
            assert(out@.no_duplicates()) by {
                assert forall|a: int, b: int| 0 <= a < b < out@.len() implies out@[a] != out@[b] by {
                    if out@[a] == out@[b] {
                        assert(id_index(dv, out@[a]) == items@[a].1 as int);
                        assert(id_index(dv, out@[b]) == items@[b].1 as int);
                        assert(items@[a].1 == items@[b].1);
                    }
                }
            }
            assert forall|a: int, b: int|
                #![trigger out@[a], out@[b]]
                0 <= a < b < out@.len() implies crate::model::score_of(dv, query@, out@[a])
                <= crate::model::score_of(dv, query@, out@[b]) by {
                assert(items@[a].0 <= items@[b].0);
            }
        }
        out
    }

    /// After the dense bootstrap wiring, the invariant holds again and a
    /// complete graph stays complete.
    #[verifier::rlimit(100)]
    proof fn lemma_after_bootstrap(
        self,
        pre: NSW,
        mid: Seq<NswNode>,
        id: VectorID,
        vec: Seq<i64>,
        n: int,
        k: int,
    )
        requires
            pre.wf0(),
            valid_vector(vec, pre.dim as nat),
            !contains_id(pre.data_view(), id),
            n == pre.nodes@.len(),
            1 <= n <= k,
            n <= usize::MAX,
            mid.len() == n + 1,
            forall|t: int| 0 <= t < n ==> (#[trigger] mid[t]) == pre.nodes@[t],
            mid[n].id == id,
            mid[n].vector@ == vec,
            mid[n].friends@.len() == n,
            forall|t: int| 0 <= t < n ==> (#[trigger] mid[n].friends@[t]) == t,
            self.dim == pre.dim,
            self.m == pre.m,
            self.nodes@.len() == n + 1,
            forall|t: int|
                0 <= t < n ==> (#[trigger] self.nodes@[t]).id == mid[t].id && self.nodes@[t].vector
                    == mid[t].vector && self.nodes@[t].friends@ == mid[t].friends@.push(n as usize),
            self.nodes@[n] == mid[n],
        ensures
            self.wf0(),
            self.data_view() == pre.data_view().push((id, vec)),
            pre.complete() ==> self.complete(),
            forall|i: int, j: int|
                0 <= i < n && 0 <= j < n ==> #[trigger] self.linked(i, j) == pre.linked(i, j),
            forall|j: int| 0 <= j <= n && #[trigger] self.linked(n, j) ==> j < n,
            n >= 1 ==> self.linked(n, 0),
    {
        assert(self.data_view() =~= pre.data_view().push((id, vec)));
        assert(ids_of(self.data_view()) =~= ids_of(pre.data_view()).push(id));
        assert forall|a: int, b: int|
            0 <= a < b < ids_of(self.data_view()).len() implies ids_of(self.data_view())[a]
            != ids_of(self.data_view())[b] by {
            assert(ids_of(pre.data_view()).no_duplicates());
            if b == n {
                assert(ids_of(self.data_view())[a] == pre.data_view()[a].0);
                if pre.data_view()[a].0 == id {
                    assert(contains_id(pre.data_view(), id));
                }
            } else {
                assert(ids_of(self.data_view())[a] == ids_of(pre.data_view())[a]);
                assert(ids_of(self.data_view())[b] == ids_of(pre.data_view())[b]);
            }
        }
        // Membership in the new neighbor lists.
        assert forall|u: int, j: int|
            0 <= u < n && 0 <= j <= n implies (#[trigger] self.nodes@[u].friends@.contains(
            j as usize,
        )) == (if j == n {
            true
        } else {
            pre.nodes@[u].friends@.contains(j as usize)
        }) by {
            let old_fr = pre.nodes@[u].friends@;
            assert(self.nodes@[u].friends@ == old_fr.push(n as usize));
            if j == n {
                assert(old_fr.push(n as usize)[old_fr.len() as int] == n as usize);
                assert(old_fr.push(n as usize).contains(n as usize));
            } else {
                if old_fr.contains(j as usize) {
                    let s = choose|s: int| 0 <= s < old_fr.len() && old_fr[s] == j as usize;
                    assert(old_fr.push(n as usize)[s] == j as usize);
                }
                if old_fr.push(n as usize).contains(j as usize) {
                    let s = choose|s: int|
                        0 <= s < old_fr.len() + 1 && (#[trigger] old_fr.push(n as usize)[s]) == j as usize;
                    assert(s < old_fr.len()) by {
                        if s == old_fr.len() {
                            assert(old_fr.push(n as usize)[s] == n as usize);
                            assert(j == n);
                        }
                    }
                }
            }
        }
        assert forall|j: int| 0 <= j <= n implies (#[trigger] self.nodes@[n].friends@.contains(
            j as usize,
        )) == (j < n) by {
            if j < n {
                assert(self.nodes@[n].friends@[j] == j as usize);
            } else {
                if self.nodes@[n].friends@.contains(j as usize) {
                    let s = choose|s: int|
                        0 <= s < n && self.nodes@[n].friends@[s] == j as usize;
                }
            }
        }
        assert(self.wf0()) by {
            assert forall|i: int|
                0 <= i < self.nodes@.len() implies (#[trigger] self.nodes@[i]).friends@.no_duplicates() by {
                if i < n {
                    let old_fr = pre.nodes@[i].friends@;
                    assert(old_fr.no_duplicates());
                    assert forall|a: int, b: int|
                        0 <= a < b < self.nodes@[i].friends@.len() implies self.nodes@[i].friends@[a]
                        != self.nodes@[i].friends@[b] by {
                        if b == old_fr.len() {
                            assert(self.nodes@[i].friends@[a] == old_fr[a]);
                            assert(old_fr[a] < n);
                        }
                    }
                } else {
                    assert forall|a: int, b: int|
                        0 <= a < b < self.nodes@[i].friends@.len() implies self.nodes@[i].friends@[a]
                        != self.nodes@[i].friends@[b] by {}
                }
            }
            assert forall|i: int, j: int|
                0 <= i < self.nodes@.len() && 0 <= j < self.nodes@.len() implies (
            #[trigger] self.linked(i, j)) == self.linked(j, i) by {
                if i < n && j < n {
                    assert(self.linked(i, j) == pre.linked(i, j));
                    assert(self.linked(j, i) == pre.linked(j, i));
                } else if i == n && j < n {
                    assert(self.linked(n, j));
                    assert(self.linked(j, n));
                } else if j == n && i < n {
                    assert(self.linked(n, i));
                    assert(self.linked(i, n));
                }
            }
        }
        if pre.complete() {
            assert forall|i: int, j: int|
                0 <= i < self.data_view().len() && 0 <= j < self.data_view().len() && i != j implies
                #[trigger] self.linked(i, j) by {
                if i < n && j < n {
                    assert(pre.linked(i, j));
                }
            }
        }
    }

    /// After greedy wiring, the invariant holds again.
    #[verifier::rlimit(100)]
    proof fn lemma_after_wiring(
        self,
        pre: NSW,
        mid: Seq<NswNode>,
        fidx: Seq<usize>,
        id: VectorID,
        vec: Seq<i64>,
        n: int,
    )
        requires
            pre.wf0(),
            valid_vector(vec, pre.dim as nat),
            !contains_id(pre.data_view(), id),
            n == pre.nodes@.len(),
            n >= 1,
            n <= usize::MAX,
            forall|s: int| 0 <= s < fidx.len() ==> (#[trigger] fidx[s]) < n,
            forall|a: int, b: int| 0 <= a < b < fidx.len() ==> (#[trigger] fidx[a]) != (#[trigger] fidx[b]),
            mid.len() == n + 1,
            forall|t: int| 0 <= t < n ==> (#[trigger] mid[t]) == pre.nodes@[t],
            mid[n].id == id,
            mid[n].vector@ == vec,
            mid[n].friends@ == fidx,
            self.dim == pre.dim,
            self.m == pre.m,
            self.nodes@.len() == n + 1,
            forall|u: int|
                0 <= u < n + 1 ==> (#[trigger] self.nodes@[u]).id == mid[u].id
                    && self.nodes@[u].vector == mid[u].vector,
            forall|u: int|
                0 <= u < n + 1 ==> (#[trigger] self.nodes@[u]).friends@ == if fidx.contains(
                    u as usize,
                ) {
                    mid[u].friends@.push(n as usize)
                } else {
                    mid[u].friends@
                },
        ensures
            self.wf0(),
            self.data_view() == pre.data_view().push((id, vec)),
            forall|i: int, j: int|
                0 <= i < n && 0 <= j < n ==> #[trigger] self.linked(i, j) == pre.linked(i, j),
            forall|j: int| 0 <= j <= n && #[trigger] self.linked(n, j) ==> j < n,
            fidx.len() >= 1 ==> self.linked(n, fidx[0] as int),
    {
        assert(!fidx.contains(n as usize)) by {
            if fidx.contains(n as usize) {
                let s = choose|s: int| 0 <= s < fidx.len() && fidx[s] == n as usize;
            }
        }
        assert(self.nodes@[n].friends@ == fidx);
        assert(self.data_view() =~= pre.data_view().push((id, vec)));
        assert(ids_of(self.data_view()) =~= ids_of(pre.data_view()).push(id));
        assert forall|a: int, b: int|
            0 <= a < b < ids_of(self.data_view()).len() implies ids_of(self.data_view())[a]
            != ids_of(self.data_view())[b] by {
            assert(ids_of(pre.data_view()).no_duplicates());
            if b == n {
                assert(ids_of(self.data_view())[a] == pre.data_view()[a].0);
                if pre.data_view()[a].0 == id {
                    assert(contains_id(pre.data_view(), id));
                }
            } else {
                assert(ids_of(self.data_view())[a] == ids_of(pre.data_view())[a]);
                assert(ids_of(self.data_view())[b] == ids_of(pre.data_view())[b]);
            }
        }
        // Membership in the new neighbor lists.
        assert forall|u: int, j: int|
            0 <= u < n && 0 <= j <= n implies (#[trigger] self.nodes@[u].friends@.contains(
            j as usize,
        )) == (if j == n {
            fidx.contains(u as usize)
        } else {
            pre.nodes@[u].friends@.contains(j as usize)
        }) by {
            let old_fr = pre.nodes@[u].friends@;
            assert(forall|s: int| 0 <= s < old_fr.len() ==> (#[trigger] old_fr[s]) < n);
            if fidx.contains(u as usize) {
                assert(self.nodes@[u].friends@ == old_fr.push(n as usize));
                if j == n {
                    assert(old_fr.push(n as usize)[old_fr.len() as int] == n as usize);
                    assert(old_fr.push(n as usize).contains(n as usize));
                } else {
                    if old_fr.contains(j as usize) {
                        let s = choose|s: int| 0 <= s < old_fr.len() && old_fr[s] == j as usize;
                        assert(old_fr.push(n as usize)[s] == j as usize);
                    }
                    if old_fr.push(n as usize).contains(j as usize) {
                        let s = choose|s: int|
                            0 <= s < old_fr.len() + 1 && (#[trigger] old_fr.push(n as usize)[s]) == j as usize;
                        assert(s < old_fr.len()) by {
                            if s == old_fr.len() {
                                assert(old_fr.push(n as usize)[s] == n as usize);
                                assert(j == n);
                            }
                        }
                    }
                }
            } else {
                assert(self.nodes@[u].friends@ == old_fr);
                if j == n {
                    if old_fr.contains(n as usize) {
                        let s = choose|s: int| 0 <= s < old_fr.len() && old_fr[s] == n as usize;
                    }
                }
            }
        }
        assert(self.wf0()) by {
            assert forall|i: int|
                0 <= i < self.nodes@.len() implies (#[trigger] self.nodes@[i]).friends@.no_duplicates() by {
                if i < n {
                    let old_fr = pre.nodes@[i].friends@;
                    assert(old_fr.no_duplicates());
                    if fidx.contains(i as usize) {
                        assert forall|a: int, b: int|
                            0 <= a < b < self.nodes@[i].friends@.len() implies self.nodes@[i].friends@[a]
                            != self.nodes@[i].friends@[b] by {
                            if b == old_fr.len() {
                                assert(self.nodes@[i].friends@[a] == old_fr[a]);
                                assert(old_fr[a] < n);
                            }
                        }
                    }
                } else {
                    assert(self.nodes@[i].friends@ == fidx);
                    assert forall|a: int, b: int|
                        0 <= a < b < self.nodes@[i].friends@.len() implies self.nodes@[i].friends@[a]
                        != self.nodes@[i].friends@[b] by {}
                }
            }
            assert forall|i: int, j: int|
                0 <= i < self.nodes@.len() && 0 <= j < self.nodes@.len() implies (
            #[trigger] self.linked(i, j)) == self.linked(j, i) by {
                if i < n && j < n {
                    assert(self.linked(i, j) == pre.linked(i, j));
                    assert(self.linked(j, i) == pre.linked(j, i));
                } else if i == n && j < n {
                    assert(self.linked(n, j) == fidx.contains(j as usize));
                    assert(self.linked(j, n) == fidx.contains(j as usize));
                } else if j == n && i < n {
                    assert(self.linked(n, i) == fidx.contains(i as usize));
                    assert(self.linked(i, n) == fidx.contains(i as usize));
                } else {
                    assert(i == n && j == n);
                }
            }
        }
    }

    /// Add one point to the graph. While the graph holds at most `k` nodes
    /// the new point is wired to every existing node (the dense bootstrap);
    /// beyond that it is wired symmetrically to the best nodes that `w`
    /// greedy walks find. Edges are only ever added, in mirrored pairs.
    #[verifier::rlimit(100)]
    fn insert_rng(
        &mut self,
        object: &(VectorID, Vec<i64>),
        k: usize,
        w: usize,
        rng: &mut rand::rngs::StdRng,
    )
        requires
            old(self).wf0(),
            valid_vector(object.1@, old(self).dim as nat),
            !contains_id(old(self).data_view(), object.0),
        ensures
            final(self).wf0(),
            final(self).dim == old(self).dim,
            final(self).m == old(self).m,
            final(self).data_view() == old(self).data_view().push((object.0, object.1@)),
            final(self).nodes@.len() == old(self).nodes@.len() + 1,
            old(self).nodes@.len() <= k && old(self).complete() ==> final(self).complete(),
            forall|i: int, j: int|
                0 <= i < old(self).nodes@.len() && 0 <= j < old(self).nodes@.len()
                    ==> #[trigger] final(self).linked(i, j) == old(self).linked(i, j),
            forall|j: int|
                0 <= j <= old(self).nodes@.len() && #[trigger] final(self).linked(
                    old(self).nodes@.len() as int,
                    j,
                ) ==> j < old(self).nodes@.len(),
            old(self).nodes@.len() >= 1 && w >= 1 && k >= 1 ==> exists|j: int|
                0 <= j < old(self).nodes@.len() && #[trigger] final(self).linked(
                    old(self).nodes@.len() as int,
                    j,
                ),
    {
        let ghost dv0 = self.data_view();
        proof {
            assert forall|t: int| 0 <= t < dv0.len() implies (#[trigger] dv0[t]).0
                != object.0 by {
                if dv0[t].0 == object.0 {
                    assert(contains_id(dv0, object.0));
                }
            }
        }
        let n = self.nodes.len();
        let vector = crate::model::clone_vector(&object.1);
        let id = object.0;
        if n == 0 {
            self.nodes.push(NswNode { id, vector, friends: Vec::new() });
            proof {
                assert(self.data_view() =~= dv0.push((id, object.1@)));
                assert(ids_of(self.data_view()) =~= ids_of(dv0).push(id));
                assert(self.wf0()) by {
                    assert forall|i: int, j: int|
                        0 <= i < self.nodes@.len() && 0 <= j < self.nodes@.len() implies (
                    #[trigger] self.linked(i, j)) == self.linked(j, i) by {}
                }
            }
            return ;
        }
        if n <= k {
            let mut fr: Vec<usize> = Vec::new();
            let mut v: usize = 0;
            while v < n
                invariant
                    v <= n,
                    fr@.len() == v,
                    forall|t: int| 0 <= t < v ==> (#[trigger] fr@[t]) == t,
                decreases n - v,
            {
                fr.push(v);
                v = v + 1;
            }
            self.nodes.push(NswNode { id, vector, friends: fr });
            let ghost mid = self.nodes@;
            let mut v: usize = 0;
            while v < n
                invariant
                    v <= n,
                    self.dim == old(self).dim,
                    self.m == old(self).m,
                    self.nodes@.len() == n + 1,
                    mid.len() == n + 1,
                    forall|t: int|
                        0 <= t < v ==> (#[trigger] self.nodes@[t]).id == mid[t].id
                            && self.nodes@[t].vector == mid[t].vector && self.nodes@[t].friends@
                            == mid[t].friends@.push(n),
                    forall|t: int| v <= t < n + 1 ==> (#[trigger] self.nodes@[t]) == mid[t],
                decreases n - v,
            {
                self.nodes[v].friends.push(n);
                v = v + 1;
            }
            proof {
                self.lemma_after_bootstrap(*old(self), mid, id, object.1@, n as int, k as int);
            }
            return ;
        }
        let found = self.multi_search(&object.1, w, k, rng);
        let mut fr: Vec<usize> = Vec::new();
        let mut t: usize = 0;
        while t < found.len()
            invariant
                t <= found@.len(),
                fr@.len() == t,
                forall|s: int| 0 <= s < t ==> (#[trigger] fr@[s]) == found@[s].1,
                forall|s: int| 0 <= s < found@.len() ==> (#[trigger] found@[s]).1 < n,
                forall|a: int, b: int|
                    0 <= a < b < found@.len() ==> (#[trigger] found@[a]).1 != (#[trigger] found@[b]).1,
                n == self.nodes@.len(),
            decreases found@.len() - t,
        {
            fr.push(found[t].1);
            t = t + 1;
        }
        self.nodes.push(NswNode { id, vector, friends: fr });
        let ghost mid = self.nodes@;
        let ghost fidx = fr@;
        let mut t: usize = 0;
        while t < found.len()
            invariant
                t <= found@.len(),
                self.dim == old(self).dim,
                self.m == old(self).m,
                self.nodes@.len() == n + 1,
                mid.len() == n + 1,
                fidx.len() == found@.len(),
                forall|s: int| 0 <= s < found@.len() ==> (#[trigger] fidx[s]) == found@[s].1,
                forall|s: int| 0 <= s < found@.len() ==> (#[trigger] found@[s]).1 < n,
                forall|a: int, b: int|
                    0 <= a < b < found@.len() ==> (#[trigger] found@[a]).1 != (#[trigger] found@[b]).1,
                forall|u: int|
                    0 <= u < n + 1 ==> (#[trigger] self.nodes@[u]).id == mid[u].id
                        && self.nodes@[u].vector == mid[u].vector,
                forall|u: int|
                    0 <= u < n + 1 ==> (#[trigger] self.nodes@[u]).friends@ == if fidx.subrange(
                        0,
                        t as int,
                    ).contains(u as usize) {
                        mid[u].friends@.push(n)
                    } else {
                        mid[u].friends@
                    },
            decreases found@.len() - t,
        {
            let idx = found[t].1;
            proof {
                assert(!fidx.subrange(0, t as int).contains(idx)) by {
                    if fidx.subrange(0, t as int).contains(idx) {
                        let s = choose|s: int|
                            0 <= s < t && fidx.subrange(0, t as int)[s] == idx;
                        assert(found@[s].1 == found@[t as int].1);
                    }
                }
            }
            self.nodes[idx].friends.push(n);
            proof {
                assert forall|u: int|
                    0 <= u < n + 1 implies (#[trigger] self.nodes@[u]).friends@ == if fidx.subrange(
                    0,
                    t + 1,
                ).contains(u as usize) {
                    mid[u].friends@.push(n)
                } else {
                    mid[u].friends@
                } by {
                    assert(fidx.subrange(0, t + 1) =~= fidx.subrange(0, t as int).push(
                        fidx[t as int],
                    ));
                    if u == idx {
                        assert(fidx.subrange(0, t + 1)[t as int] == idx);
                        assert(fidx.subrange(0, t + 1).contains(idx));
                    } else {
                        assert(fidx.subrange(0, t + 1).contains(u as usize) == fidx.subrange(
                            0,
                            t as int,
                        ).contains(u as usize));
                    }
                }
            }
            t = t + 1;
        }
        proof {
            assert(fidx.subrange(0, found@.len() as int) =~= fidx);
            self.lemma_after_wiring(*old(self), mid, fidx, id, object.1@, n as int);
        }
    }

    /// Add one point to the graph, drawing entry nodes from system
    /// entropy. The point's identifier must be new and its vector of the
    /// graph's dimensionality. The graph only grows: every old node, edge
    /// and adjacency entry is retained, the new point's neighbors all
    /// existed before the call, and with positive walk and degree
    /// parameters at least one mirrored edge is added. Mutation requires
    /// exclusive access; nothing here locks.
    pub fn insert(&mut self, object: &(VectorID, Vec<i64>), k: usize, w: usize)
        requires
            old(self).wf(),
            valid_vector(object.1@, old(self).dim()),
            !contains_id(old(self).data_view(), object.0),
        ensures
            final(self).wf(),
            final(self).dim() == old(self).dim(),
            final(self).walks() == old(self).walks(),
            final(self).data_view() == old(self).data_view().push((object.0, object.1@)),
            old(self).data_view().len() <= k && old(self).complete() ==> final(self).complete(),
            forall|i: int, j: int|
                0 <= i < old(self).data_view().len() && 0 <= j < old(self).data_view().len()
                    ==> #[trigger] final(self).linked(i, j) == old(self).linked(i, j),
            forall|j: int|
                0 <= j <= old(self).data_view().len() && #[trigger] final(self).linked(
                    old(self).data_view().len() as int,
                    j,
                ) ==> j < old(self).data_view().len(),
            w >= 1 && k >= 1 ==> exists|j: int|
                0 <= j < old(self).data_view().len() && #[trigger] final(self).linked(
                    old(self).data_view().len() as int,
                    j,
                ),
    {
        let seed = entropy_seed();
        let mut rng = new_rng(seed);
        self.insert_rng(object, k, w, &mut rng);
    }

    /// Floor of the base-10 logarithm, at least 1: the walk width used
    /// while loading.
    fn log10_width(x: usize) -> (r: usize)
        ensures
            r >= 1,
    {
        let mut v = x;
        let mut c: usize = 0;
        while v >= 10
            invariant
                c <= 20,
            decreases v,
        {
            v = v / 10;
            if c < 20 {
                c = c + 1;
            }
        }
        if c < 1 {
            1
        } else {
            c
        }
    }

    /// Build the graph by inserting every dataset point in order, drawing
    /// entry nodes with the given seed, so equal seeds rebuild equal
    /// graphs. Rejects exactly the datasets [`dataset_error`] rejects. For
    /// datasets no larger than `NSW_DEGREE + 1` the finished graph is
    /// complete, hence connected.
    pub fn load_seeded(data: &Vec<(VectorID, Vec<i64>)>, seed: u64) -> (r: Result<NSW, LoadError>)
        ensures
            match r {
                Ok(g) => g.wf() && g.data_view() == view_of(data@) && g.dim() == view_of(
                    data@,
                )[0].1.len() && g.walks() == NSW_SEARCH_WIDTH && dataset_error(view_of(data@)) is None
                    && (view_of(data@).len() <= NSW_DEGREE + 1 ==> g.complete()),
                Err(err) => dataset_error(view_of(data@)) == Some(err),
            },
    {
        let dim = match validate_dataset(data) {
            Ok(d) => d,
            Err(e) => {
                return Err(e);
            },
        };
        let ghost dv = view_of(data@);
        let mut rng = new_rng(seed);
        let mut g = NSW { nodes: Vec::new(), dim, m: NSW_SEARCH_WIDTH };
        let n = data.len();
        proof {
            assert(g.data_view() =~= dv.subrange(0, 0));
            assert(ids_of(g.data_view()) =~= Seq::<VectorID>::empty());
        }
        let mut i: usize = 0;
        while i < n
            invariant
                i <= n,
                n == data@.len(),
                dv == view_of(data@),
                valid_data(dv, dim as nat),
                1 <= dim <= MAX_DIM,
                g.wf0(),
                g.dim == dim,
                g.m == NSW_SEARCH_WIDTH,
                g.nodes@.len() == i,
                g.data_view() == dv.subrange(0, i as int),
                i <= NSW_DEGREE + 1 ==> g.complete(),
            decreases n - i,
        {
            proof {
                assert(dv[i as int] == (data@[i as int].0, data@[i as int].1@));
                assert(valid_vector(dv[i as int].1, dim as nat));
                assert(!contains_id(g.data_view(), data@[i as int].0)) by {
                    if contains_id(g.data_view(), data@[i as int].0) {
                        let t = choose|t: int|
                            0 <= t < g.data_view().len() && g.data_view()[t].0
                                == data@[i as int].0;
                        assert(ids_of(dv)[t] == dv[t].0);
                        assert(ids_of(dv)[i as int] == dv[i as int].0);
                    }
                }
            }
            let width = Self::log10_width(if i < 1 {
                1
            } else {
                i
            });
            let ghost g0 = g;
            g.insert_rng(&data[i], NSW_DEGREE, width, &mut rng);
            proof {
                assert(g.data_view() =~= dv.subrange(0, i + 1)) by {
                    assert(dv.subrange(0, i + 1) =~= dv.subrange(0, i as int).push(dv[i as int]));
                    assert(g.data_view() == g0.data_view().push(
                        (data@[i as int].0, data@[i as int].1@),
                    ));
                }
                if i + 1 <= NSW_DEGREE + 1 {
                    assert(g0.nodes@.len() <= NSW_DEGREE);
                    assert(g.complete());
                }
            }
            i = i + 1;
        }
        proof {
            assert(g.data_view() =~= dv);
        }
        Ok(g)
    }

    /// Build the graph with entry nodes drawn from system entropy.
    pub fn load(data: &Vec<(VectorID, Vec<i64>)>) -> (r: Result<NSW, LoadError>)
        ensures
            match r {
                Ok(g) => g.wf() && g.data_view() == view_of(data@) && g.dim() == view_of(
                    data@,
                )[0].1.len() && g.walks() == NSW_SEARCH_WIDTH && dataset_error(view_of(data@)) is None
                    && (view_of(data@).len() <= NSW_DEGREE + 1 ==> g.complete()),
                Err(err) => dataset_error(view_of(data@)) == Some(err),
            },
    {
        let seed = entropy_seed();
        Self::load_seeded(data, seed)
    }

    /// The up-to-`k` best identifiers found by multi-start greedy walks
    /// seeded from system entropy, best first.
    pub fn search(&self, query: &Vec<i64>, k: usize) -> (r: Vec<VectorID>)
        requires
            self.wf(),
            query@.len() == self.dim(),
            bounded(query@),
        ensures
            ids_from(self.data_view(), r@),
            sorted_by_distance(self.data_view(), query@, r@),
            r@.len() <= k,
            k >= 1 ==> r@.len() >= 1,
    {
        let seed = entropy_seed();
        self.search_seeded(query, k, seed)
    }
}

} // verus!
