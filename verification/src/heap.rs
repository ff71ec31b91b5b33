//! A fixed-capacity selector that retains the best-scoring items across any
//! number of insertions.
//!
//! Items are ranked by [`ord_le`]: lower score is better, ties are broken by
//! the identifier, so the ranking is a total order and the retained multiset
//! is uniquely determined by what was inserted ([`lemma_k_best_unique`]).

use vstd::prelude::*;
use vstd::multiset::Multiset;
use vstd::relations::sorted_by;
use crate::VectorID;

verus! {

broadcast use {vstd::multiset::group_multiset_axioms, vstd::seq_lib::group_to_multiset_ensures};

/// A scored entry: a score paired with a vector identifier. Lower is better.
#[derive(Clone, Copy, Debug, PartialEq, Eq, Structural)]
pub struct OrdItem(pub i64, pub VectorID);

/// The total order items are ranked by: by score, ties by identifier.
pub open spec fn ord_le(a: OrdItem, b: OrdItem) -> bool {
    a.0 < b.0 || (a.0 == b.0 && a.1 <= b.1)
}

/// Strict version of [`ord_le`].
pub open spec fn ord_lt(a: OrdItem, b: OrdItem) -> bool {
    !ord_le(b, a)
}

/// [`ord_le`] as a closure, for vstd's ordering predicates.
pub open spec fn ord_leq() -> spec_fn(OrdItem, OrdItem) -> bool {
    |a: OrdItem, b: OrdItem| ord_le(a, b)
}

/// The smaller of two lengths.
pub open spec fn min_nat(a: nat, b: nat) -> nat {
    if a <= b {
        a
    } else {
        b
    }
}

/// `contents` is exactly a best-ranked selection of at most `cap` items out
/// of `seen`: it is drawn from `seen`, it is as large as `cap` and `seen`
/// allow, and everything left out ranks no better than anything kept.
pub open spec fn is_k_best(contents: Multiset<OrdItem>, seen: Multiset<OrdItem>, cap: nat) -> bool {
    &&& contents.subset_of(seen)
    &&& contents.len() == min_nat(cap, seen.len())
    &&& forall|x: OrdItem, y: OrdItem|
        #![trigger seen.count(x), contents.count(y)]
        seen.count(x) > contents.count(x) && contents.count(y) > 0 ==> ord_le(y, x)
}

/// Every retained score is at most `s`.
pub open spec fn score_dominates(c: Multiset<OrdItem>, s: int) -> bool {
    forall|y: OrdItem| c.count(y) > 0 ==> (#[trigger] y.0) <= s
}

/// A multiset included in another never outgrows it.
pub proof fn lemma_subset_len<V>(a: Multiset<V>, b: Multiset<V>)
    requires
        a.subset_of(b),
    ensures
        a.len() <= b.len(),
{
    assert(b =~= a.add(b.sub(a)));
}

/// A multiset included in another of the same size equals it.
pub proof fn lemma_subset_equal_len<V>(a: Multiset<V>, b: Multiset<V>)
    requires
        a.subset_of(b),
        a.len() == b.len(),
    ensures
        a =~= b,
    decreases a.len(),
{
    if a.len() == 0 {
        assert forall|v: V| a.count(v) == b.count(v) by {
            assert(a.count(v) <= a.len());
            assert(b.count(v) <= b.len());
        }
    } else {
        vstd::multiset::lemma_multiset_empty_len(a);
        let v = choose|v: V| a.count(v) > 0;
        assert(Multiset::singleton(v).subset_of(a));
        assert(Multiset::singleton(v).subset_of(b));
        let a1 = a.remove(v);
        let b1 = b.remove(v);
        assert(a1.subset_of(b1));
        assert(a1.len() == b1.len());
        lemma_subset_equal_len(a1, b1);
        assert forall|t: V| a.count(t) == b.count(t) by {
            assert(a1.count(t) == b1.count(t));
        }
    }
}

/// LAW: the bounded top-k selection is unique. After any sequence of
/// insertions, a capacity-`cap` selector holds exactly the best `cap` items
/// seen so far: any two multisets with the k-best property for the same
/// insertion history are equal. In particular, inserting items with distinct
/// scores in any order always yields the same selection.
pub proof fn lemma_k_best_unique(
    c1: Multiset<OrdItem>,
    c2: Multiset<OrdItem>,
    seen: Multiset<OrdItem>,
    cap: nat,
)
    requires
        is_k_best(c1, seen, cap),
        is_k_best(c2, seen, cap),
    ensures
        c1 =~= c2,
{
    if exists|v: OrdItem| c1.count(v) != c2.count(v) {
        if forall|t: OrdItem| #[trigger] c1.count(t) <= c2.count(t) {
            lemma_subset_equal_len(c1, c2);
            assert(false);
        }
        if forall|t: OrdItem| #[trigger] c2.count(t) <= c1.count(t) {
            lemma_subset_equal_len(c2, c1);
            assert(false);
        }
        let x = choose|x: OrdItem| c1.count(x) > c2.count(x);
        let z = choose|z: OrdItem| c2.count(z) > c1.count(z);
        assert(seen.count(x) >= c1.count(x));
        assert(seen.count(z) >= c2.count(z));
        assert(ord_le(z, x));
        assert(ord_le(x, z));
        assert(x == z);
        assert(false);
    }
    assert forall|v: OrdItem| c1.count(v) == c2.count(v) by {}
}

/// LAW: an item scored distinctly from everything else seen is retained
/// whenever fewer than `cap` strictly better-scoring items were seen; so
/// inserting items with distinct scores into a capacity-`cap` selector
/// yields exactly the `cap` best-scoring items, whatever the order.
pub proof fn lemma_k_best_membership(
    c: Multiset<OrdItem>,
    seen: Multiset<OrdItem>,
    cap: nat,
    x: OrdItem,
)
    requires
        is_k_best(c, seen, cap),
        seen.count(x) == 1,
        forall|y: OrdItem| #[trigger] seen.count(y) > 0 && y != x ==> y.0 != x.0,
        seen.filter(|y: OrdItem| y.0 < x.0).len() < cap,
    ensures
        c.count(x) == 1,
{
    if c.count(x) != 1 {
        assert(c.count(x) == 0);
        assert(seen.count(x) > c.count(x));
        if seen.len() <= cap {
            lemma_subset_equal_len(c, seen);
            assert(false);
        }
        let better = seen.filter(|y: OrdItem| y.0 < x.0);
        assert(c.subset_of(better)) by {
            assert forall|y: OrdItem| c.count(y) <= #[trigger] better.count(y) by {
                if c.count(y) > 0 {
                    assert(ord_le(y, x));
                    assert(seen.count(y) > 0);
                    assert(y != x);
                    assert(y.0 < x.0);
                    assert(better.count(y) == seen.count(y));
                }
            }
        }
        lemma_subset_len(c, better);
        assert(c.len() == cap);
        assert(false);
    }
}

/// Strict comparison under the ranking order.
fn ord_lt_exec(a: OrdItem, b: OrdItem) -> (r: bool)
    ensures
        r == ord_lt(a, b),
{
    a.0 < b.0 || (a.0 == b.0 && a.1 < b.1)
}

/// A bounded top-k selector: retains the at most `limit` best-ranked items
/// inserted so far, under [`ord_le`].
pub struct LimitedHeap {
    items: Vec<OrdItem>,
    limit: usize,
    seen: Ghost<Multiset<OrdItem>>,
}

impl LimitedHeap {
    /// The items currently retained.
    pub closed spec fn contents(self) -> Multiset<OrdItem> {
        self.items@.to_multiset()
    }

    /// Everything inserted since creation (or since the last `pop`).
    pub closed spec fn seen(self) -> Multiset<OrdItem> {
        self.seen@
    }

    /// The capacity.
    pub closed spec fn cap(self) -> nat {
        self.limit as nat
    }

    /// The selector invariant: the retained items are exactly a best-ranked
    /// capacity-bounded selection of everything seen.
    pub open spec fn inv(self) -> bool {
        is_k_best(self.contents(), self.seen(), self.cap())
    }

    /// An empty selector with the given capacity. No resize operation exists.
    pub fn new(limit: usize) -> (r: Self)
        ensures
            r.inv(),
            r.cap() == limit,
            r.contents() == Multiset::<OrdItem>::empty(),
            r.seen() == Multiset::<OrdItem>::empty(),
    {
        let r = LimitedHeap { items: Vec::new(), limit, seen: Ghost(Multiset::empty()) };
        proof {
            assert(r.items@.to_multiset() =~= Multiset::<OrdItem>::empty());
        }
        r
    }

    /// How many items are retained.
    pub fn len(&self) -> (r: usize)
        ensures
            r == self.contents().len(),
    {
        self.items.len()
    }

    /// The capacity this selector was created with.
    pub fn capacity(&self) -> (r: usize)
        ensures
            r == self.cap(),
    {
        self.limit
    }

    /// Index of a worst-ranked retained item.
    fn worst_index(&self) -> (r: usize)
        requires
            self.items@.len() > 0,
        ensures
            r < self.items@.len(),
            forall|j: int| 0 <= j < self.items@.len() ==> ord_le(#[trigger] self.items@[j], self.items@[r as int]),
    {
        let mut best: usize = 0;
        let mut i: usize = 1;
        while i < self.items.len()
            invariant
                best < i <= self.items@.len(),
                forall|j: int| 0 <= j < i ==> ord_le(#[trigger] self.items@[j], self.items@[best as int]),
            decreases self.items@.len() - i,
        {
            if ord_lt_exec(self.items[best], self.items[i]) {
                best = i;
            }
            i = i + 1;
        }
        best
    }

    /// A worst-ranked retained item, if any.
    pub fn worst(&self) -> (r: Option<OrdItem>)
        ensures
            match r {
                None => self.contents().len() == 0,
                Some(m) => self.contents().count(m) > 0 && forall|y: OrdItem|
                    self.contents().count(y) > 0 ==> ord_le(y, m),
            },
    {
        if self.items.len() == 0 {
            None
        } else {
            let wi = self.worst_index();
            let m = self.items[wi];
            proof {
                assert(self.items@.contains(m));
                assert forall|y: OrdItem| self.contents().count(y) > 0 implies ord_le(y, m) by {
                    assert(self.items@.contains(y));
                    let j = choose|j: int| 0 <= j < self.items@.len() && self.items@[j] == y;
                    assert(ord_le(self.items@[j], self.items@[wi as int]));
                }
            }
            Some(m)
        }
    }

    /// Insert an item, keeping only the best `limit` items seen.
    ///
    /// If fewer than `limit` items are held the item is retained
    /// unconditionally; otherwise it replaces the currently worst-held item
    /// exactly when it ranks strictly better.
    pub fn push(&mut self, value: OrdItem)
        requires
            old(self).inv(),
        ensures
            final(self).inv(),
            final(self).cap() == old(self).cap(),
            final(self).seen() == old(self).seen().insert(value),
            final(self).contents().subset_of(old(self).contents().insert(value)),
            forall|s: int|
                #![trigger score_dominates(old(self).contents(), s)]
                old(self).contents().len() == old(self).cap() && score_dominates(
                    old(self).contents(),
                    s,
                ) ==> final(self).contents().len() == old(self).cap() && score_dominates(
                    final(self).contents(),
                    s,
                ),
    {
        proof {
            self.seen@ = self.seen@.insert(value);
        }
        if self.items.len() < self.limit {
            proof {
                // Below capacity nothing has ever been discarded.
                lemma_subset_equal_len(old(self).contents(), old(self).seen());
            }
            self.items.push(value);
            proof {
                assert(self.contents() =~= old(self).contents().insert(value));
            }
        } else if self.limit > 0 {
            let wi = self.worst_index();
            let m = self.items[wi];
            proof {
                assert(self.items@.contains(m));
                assert forall|y: OrdItem| old(self).contents().count(y) > 0 implies ord_le(y, m) by {
                    assert(self.items@.contains(y));
                    let j = choose|j: int| 0 <= j < self.items@.len() && self.items@[j] == y;
                    assert(ord_le(self.items@[j], self.items@[wi as int]));
                }
            }
            if ord_lt_exec(value, m) {
                self.items.remove(wi);
                self.items.push(value);
                proof {
                    let c0 = old(self).contents();
                    let s0 = old(self).seen();
                    assert(self.contents() =~= c0.remove(m).insert(value));
                    assert(c0.count(m) > 0);
                    assert(Multiset::singleton(m).subset_of(c0));
                    assert forall|x: OrdItem, y: OrdItem|
                        self.seen().count(x) > self.contents().count(x)
                            && self.contents().count(y) > 0 implies ord_le(y, x) by {
                        if x == value {
                            // value entered both contents and seen; the excess
                            // count was already in the old state.
                            assert(s0.count(x) > c0.count(x));
                        }
                        if x != value && x != m {
                            assert(s0.count(x) > c0.count(x));
                        }
                        if x != value && x != m && y == value {
                            assert(ord_le(m, x));
                            assert(ord_le(value, m));
                        }
                    }
                }
            } else {
                proof {
                    assert forall|x: OrdItem, y: OrdItem|
                        self.seen().count(x) > self.contents().count(x)
                            && self.contents().count(y) > 0 implies ord_le(y, x) by {
                        if x == value {
                            assert(ord_le(y, m));
                            assert(ord_le(m, value));
                        }
                    }
                }
            }
        } else {
            proof {
                assert forall|y: OrdItem| self.contents().count(y) == 0 by {
                    assert(self.contents().count(y) <= self.contents().len());
                }
            }
        }
    }

    /// Remove and return a worst-ranked retained item, if any.
    ///
    /// Popping starts a fresh insertion history: afterwards the selector
    /// behaves as if exactly the remaining items had been inserted.
    pub fn pop(&mut self) -> (r: Option<OrdItem>)
        requires
            old(self).inv(),
        ensures
            final(self).inv(),
            final(self).cap() == old(self).cap(),
            final(self).seen() == final(self).contents(),
            match r {
                None => old(self).contents().len() == 0 && final(self).contents()
                    == old(self).contents(),
                Some(m) => old(self).contents().count(m) > 0 && final(self).contents()
                    == old(self).contents().remove(m) && forall|y: OrdItem|
                    old(self).contents().count(y) > 0 ==> ord_le(y, m),
            },
    {
        if self.items.len() == 0 {
            proof {
                self.seen@ = self.items@.to_multiset();
                assert(self.contents().len() == 0);
            }
            None
        } else {
            let wi = self.worst_index();
            proof {
                let m0 = self.items@[wi as int];
                assert(self.items@.contains(m0));
                assert forall|y: OrdItem| self.contents().count(y) > 0 implies ord_le(y, m0) by {
                    assert(self.items@.contains(y));
                    let j = choose|j: int| 0 <= j < self.items@.len() && self.items@[j] == y;
                    assert(ord_le(self.items@[j], self.items@[wi as int]));
                }
            }
            let m = self.items.remove(wi);
            proof {
                self.seen@ = self.items@.to_multiset();
            }
            Some(m)
        }
    }

    /// Give up the selector, returning the retained items ranked best first.
    pub fn consume(self) -> (r: Vec<OrdItem>)
        ensures
            r@.to_multiset() == self.contents(),
            sorted_by(r@, ord_leq()),
    {
        let LimitedHeap { items, limit: _, seen: _ } = self;
        sort_items(items)
    }
}

/// Index of a best-ranked element.
fn min_index(v: &Vec<OrdItem>) -> (r: usize)
    requires
        v@.len() > 0,
    ensures
        r < v@.len(),
        forall|j: int| 0 <= j < v@.len() ==> ord_le(v@[r as int], #[trigger] v@[j]),
{
    let mut best: usize = 0;
    let mut i: usize = 1;
    while i < v.len()
        invariant
            best < i <= v@.len(),
            forall|j: int| 0 <= j < i ==> ord_le(v@[best as int], #[trigger] v@[j]),
        decreases v@.len() - i,
    {
        if ord_lt_exec(v[i], v[best]) {
            best = i;
        }
        i = i + 1;
    }
    best
}

/// Sort items best-ranked first under [`ord_le`].
pub fn sort_items(v: Vec<OrdItem>) -> (r: Vec<OrdItem>)
    ensures
        r@.to_multiset() == v@.to_multiset(),
        sorted_by(r@, ord_leq()),
{
    let ghost orig = v@.to_multiset();
    let mut rest = v;
    let mut out: Vec<OrdItem> = Vec::new();
    proof {
        assert(out@.to_multiset() =~= Multiset::<OrdItem>::empty());
        assert(out@.to_multiset().add(rest@.to_multiset()) =~= orig);
    }
    while rest.len() > 0
        invariant
            out@.to_multiset().add(rest@.to_multiset()) == orig,
            sorted_by(out@, ord_leq()),
            forall|i: int, j: int|
                0 <= i < out@.len() && 0 <= j < rest@.len() ==> ord_le(
                    #[trigger] out@[i],
                    #[trigger] rest@[j],
                ),
        decreases rest@.len(),
    {
        let mi = min_index(&rest);
        let ghost rest0 = rest@;
        let ghost out0 = out@;
        let m = rest.remove(mi);
        out.push(m);
        proof {
            assert(out@ == out0.push(m));
            assert(out@.to_multiset() =~= out0.to_multiset().insert(m));
            assert(out@.to_multiset().add(rest@.to_multiset()) =~= orig);
            assert(sorted_by(out@, ord_leq())) by {
                assert forall|i: int, j: int|
                    0 <= i <= j < out@.len() implies ord_leq()(out@[i], out@[j]) by {
                    if i < out0.len() && j == out0.len() {
                        assert(out@[j] == m);
                        assert(ord_le(out0[i], rest0[mi as int]));
                    } else if j < out0.len() {
                        assert(ord_leq()(out0[i], out0[j]));
                    }
                }
            }
            assert forall|i: int, j: int|
                0 <= i < out@.len() && 0 <= j < rest@.len() implies ord_le(out@[i], rest@[j]) by {
                assert(rest@[j] == if j < mi { rest0[j] } else { rest0[j + 1] });
                if i < out0.len() {
                    assert(ord_le(out0[i], rest@[j]));
                } else {
                    assert(out@[i] == m);
                    assert(ord_le(rest0[mi as int], rest@[j]));
                }
            }
        }
    }
    out
}

} // verus!
