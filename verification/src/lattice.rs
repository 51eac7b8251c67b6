//! Finite lattices: posets with a unique top and bottom, with join and meet
//! read off the order.
use crate::bitset::BitSet;
use crate::coloring::lemma_perm_covers;
use crate::poset::{
    acyclic, edges_in_range, is_topological, is_walk, lemma_reaches_trans, lemma_walk_forward,
    reaches, Poset,
};
use vstd::prelude::*;

verus! {

/// The values `v < n` (ascending) that satisfy `pred`.
pub open spec fn candidates(pred: spec_fn(int) -> bool, n: nat) -> Seq<u32>
    decreases n,
{
    if n == 0 {
        Seq::empty()
    } else if pred(n - 1) {
        candidates(pred, (n - 1) as nat).push((n - 1) as u32)
    } else {
        candidates(pred, (n - 1) as nat)
    }
}

proof fn lemma_candidates(pred: spec_fn(int) -> bool, n: nat)
    requires
        n <= u32::MAX + 1,
    ensures
        forall|v: u32| #[trigger] candidates(pred, n).contains(v) <==> (v < n && pred(v as int)),
        forall|i: int, j: int|
            0 <= i < j < candidates(pred, n).len() ==> candidates(pred, n)[i] < candidates(pred, n)[j],
        forall|i: int| 0 <= i < candidates(pred, n).len() ==> #[trigger] candidates(pred, n)[i] < n,
    decreases n,
{
    if n > 0 {
        lemma_candidates(pred, (n - 1) as nat);
        let c = candidates(pred, (n - 1) as nat);
        if pred(n - 1) {
            let d = c.push((n - 1) as u32);
            assert(candidates(pred, n) == d);
            assert forall|v: u32| #[trigger] d.contains(v) <==> (v < n && pred(v as int)) by {
                if d.contains(v) && v != (n - 1) as u32 {
                    let i = choose|i: int| 0 <= i < d.len() && #[trigger] d[i] == v;
                    assert(c[i] == v);
                    assert(c.contains(v));
                }
                if v < n - 1 && pred(v as int) {
                    assert(c.contains(v));
                    let i = choose|i: int| 0 <= i < c.len() && #[trigger] c[i] == v;
                    assert(d[i] == v);
                }
                if v == n - 1 {
                    assert(d[c.len() as int] == v);
                }
            }
        } else {
            assert(candidates(pred, n) == c);
            assert forall|v: u32| #[trigger] c.contains(v) <==> (v < n && pred(v as int)) by {
                if v == n - 1 {
                    assert(!(c.contains(v))) by {
                        if c.contains(v) {
                            assert(v < n - 1);
                        }
                    }
                }
            }
        }
    }
}

/// Node `u` has nothing strictly above it.
pub open spec fn is_maximal<T>(p: Poset<T>) -> spec_fn(int) -> bool {
    |u: int| p.reach@[u]@ == Set::<usize>::empty()
}

/// Node `u` has nothing strictly below it.
pub open spec fn is_minimal<T>(p: Poset<T>) -> spec_fn(int) -> bool {
    |u: int| !exists|w: int| 0 <= w < p.reach@.len() && #[trigger] p.reach@[w]@.contains(u as usize)
}

/// The nodes with nothing strictly above them.
pub open spec fn maximal_nodes<T>(p: Poset<T>) -> Seq<u32> {
    candidates(is_maximal(p), p.nodes@.len())
}

/// The nodes with nothing strictly below them.
pub open spec fn minimal_nodes<T>(p: Poset<T>) -> Seq<u32> {
    candidates(is_minimal(p), p.nodes@.len())
}

/// A complete lattice: a poset with a unique top (⊤) and bottom (⊥) element.
pub struct Lattice<T> {
    /// The underlying poset (covering relation, transitive closure, and node list).
    pub poset: Poset<T>,
    /// Index of the top element (greatest element, ⊤).
    pub top: u32,
    /// Index of the bottom element (least element, ⊥).
    pub bottom: u32,
}

impl<T> Lattice<T> {
    /// `v` is above both `a` and `b`.
    pub open spec fn is_upper_bound(&self, a: int, b: int, v: int) -> bool {
        self.poset.leq(a, v) && self.poset.leq(b, v)
    }

    /// Node `v` is above both `a` and `b`.
    pub open spec fn upper_bound_of(&self, a: int, b: int) -> spec_fn(int) -> bool {
        |v: int| self.is_upper_bound(a, b, v)
    }

    /// Node `v` is below both `a` and `b`.
    pub open spec fn lower_bound_of(&self, a: int, b: int) -> spec_fn(int) -> bool {
        |v: int| self.is_lower_bound(a, b, v)
    }

    /// `v` is an upper bound of `a` and `b` below every other one among the nodes.
    pub open spec fn is_least_upper(&self, a: int, b: int, v: int) -> bool {
        &&& self.is_upper_bound(a, b, v)
        &&& forall|w: int|
            0 <= w < self.poset.nodes@.len() && #[trigger] self.is_upper_bound(a, b, w)
                ==> self.poset.leq(v, w)
    }

    /// The first node from `i` on that is a least upper bound.
    pub open spec fn first_least_upper(&self, a: int, b: int, i: int) -> Option<u32>
        decreases self.poset.nodes@.len() - i,
    {
        if i < 0 || i >= self.poset.nodes@.len() {
            None
        } else if self.is_least_upper(a, b, i) {
            Some(i as u32)
        } else {
            self.first_least_upper(a, b, i + 1)
        }
    }

    /// What `join` returns: `a` for `a == b`, else the first least upper
    /// bound, else the top.
    pub open spec fn join_of(&self, a: u32, b: u32) -> u32 {
        if a == b {
            a
        } else {
            match self.first_least_upper(a as int, b as int, 0) {
                Some(v) => v,
                None => self.top,
            }
        }
    }

    /// `v` is below both `a` and `b`.
    pub open spec fn is_lower_bound(&self, a: int, b: int, v: int) -> bool {
        self.poset.leq(v, a) && self.poset.leq(v, b)
    }

    /// `v` is a lower bound of `a` and `b` above every other one among the nodes.
    pub open spec fn is_greatest_lower(&self, a: int, b: int, v: int) -> bool {
        &&& self.is_lower_bound(a, b, v)
        &&& forall|w: int|
            0 <= w < self.poset.nodes@.len() && #[trigger] self.is_lower_bound(a, b, w)
                ==> self.poset.leq(w, v)
    }

    /// The first node from `i` on that is a greatest lower bound.
    pub open spec fn first_greatest_lower(&self, a: int, b: int, i: int) -> Option<u32>
        decreases self.poset.nodes@.len() - i,
    {
        if i < 0 || i >= self.poset.nodes@.len() {
            None
        } else if self.is_greatest_lower(a, b, i) {
            Some(i as u32)
        } else {
            self.first_greatest_lower(a, b, i + 1)
        }
    }

    /// What `meet` returns: `a` for `a == b`, else the first greatest lower
    /// bound, else the bottom.
    pub open spec fn meet_of(&self, a: u32, b: u32) -> u32 {
        if a == b {
            a
        } else {
            match self.first_greatest_lower(a as int, b as int, 0) {
                Some(v) => v,
                None => self.bottom,
            }
        }
    }

    /// Construct a `Lattice` from a `Poset`.
    ///
    /// Returns `None` if the poset does not have a unique top and unique
    /// bottom element.
    pub fn from_poset(poset: Poset<T>) -> (r: Option<Self>)
        requires
            poset.reach@.len() == poset.nodes@.len(),
            poset.nodes@.len() <= u32::MAX,
        ensures
            match r {
                Some(l) => {
                    &&& l.poset == poset
                    &&& maximal_nodes(poset) == seq![l.top]
                    &&& minimal_nodes(poset) == seq![l.bottom]
                },
                None => poset.nodes@.len() == 0 || maximal_nodes(poset).len() != 1
                    || minimal_nodes(poset).len() != 1,
            },
    {
        let n = poset.nodes.len();
        if n == 0 {
            return None;
        }
        let mut has_below = BitSet::with_capacity(n);
        let mut i: usize = 0;
        while i < poset.reach.len()
            invariant
                i <= poset.reach@.len(),
                forall|v: usize|
                    #[trigger] has_below@.contains(v) <==> exists|w: int|
                        0 <= w < i && #[trigger] poset.reach@[w]@.contains(v),
            decreases poset.reach@.len() - i,
        {
            let ghost h0 = has_below@;
            has_below.union_with(&poset.reach[i]);
            proof {
                assert forall|v: usize|
                    #[trigger] has_below@.contains(v) <==> exists|w: int|
                        0 <= w < i + 1 && #[trigger] poset.reach@[w]@.contains(v) by {
                    assert(has_below@.contains(v) <==> (h0.contains(v) || poset.reach@[i as int]@.contains(v)));
                    assert(h0.contains(v) <==> exists|w: int| 0 <= w < i && #[trigger] poset.reach@[w]@.contains(v));
                    if exists|w: int| 0 <= w < i + 1 && #[trigger] poset.reach@[w]@.contains(v) {
                        let w = choose|w: int| 0 <= w < i + 1 && #[trigger] poset.reach@[w]@.contains(v);
                        if w < i {
                            assert(h0.contains(v));
                        }
                    }
                }
            }
            i = i + 1;
        }
        let mut tops: Vec<u32> = Vec::new();
        let mut bottoms: Vec<u32> = Vec::new();
        let mut u: usize = 0;
        while u < n
            invariant
                n == poset.nodes@.len(),
                n <= u32::MAX,
                poset.reach@.len() == n,
                u <= n,
                forall|v: usize|
                    #[trigger] has_below@.contains(v) <==> exists|w: int|
                        0 <= w < poset.reach@.len() && #[trigger] poset.reach@[w]@.contains(v),
                tops@ == candidates(is_maximal(poset), u as nat),
                bottoms@ == candidates(is_minimal(poset), u as nat),
            decreases n - u,
        {
            proof {
                assert(candidates(is_maximal(poset), (u + 1) as nat) == if is_maximal(poset)(u as int) {
                    candidates(is_maximal(poset), u as nat).push(u as u32)
                } else {
                    candidates(is_maximal(poset), u as nat)
                });
                assert(candidates(is_minimal(poset), (u + 1) as nat) == if is_minimal(poset)(u as int) {
                    candidates(is_minimal(poset), u as nat).push(u as u32)
                } else {
                    candidates(is_minimal(poset), u as nat)
                });
                assert(((u as int) as usize) == u);
                assert(has_below@.contains(u) <==> exists|w: int|
                    0 <= w < poset.reach@.len() && #[trigger] poset.reach@[w]@.contains(u));
                assert(is_minimal(poset)(u as int) <==> !has_below@.contains(u));
            }
            if poset.reach[u].is_empty() {
                tops.push(u as u32);
            }
            if !has_below.contains(u) {
                bottoms.push(u as u32);
            }
            u = u + 1;
        }
        if tops.len() != 1 || bottoms.len() != 1 {
            return None;
        }
        let top = tops[0];
        let bottom = bottoms[0];
        assert(tops@ == seq![top]);
        assert(bottoms@ == seq![bottom]);
        Some(Lattice { poset, top, bottom })
    }

    /// Returns the least upper bound (join, ∨) of nodes `a` and `b`.
    ///
    /// Collects all nodes that are ≥ both `a` and `b`, then returns the first
    /// of them that is ≤ all the others; the top if there is none.
    pub fn join(&self, a: u32, b: u32) -> (r: u32)
        requires
            self.poset.nodes@.len() <= u32::MAX,
        ensures
            r == self.join_of(a, b),
    {
        if a == b {
            return a;
        }
        let n = self.poset.nodes.len() as u32;
        let mut upper_bounds: Vec<u32> = Vec::new();
        let mut v: u32 = 0;
        while v < n
            invariant
                n == self.poset.nodes@.len(),
                v <= n,
                upper_bounds@ == candidates(self.upper_bound_of(a as int, b as int), v as nat),
            decreases n - v,
        {
            proof {
                assert(candidates(self.upper_bound_of(a as int, b as int), (v + 1) as nat) == if self.upper_bound_of(a as int, b as int)(v as int) {
                    candidates(self.upper_bound_of(a as int, b as int), v as nat).push(v as u32)
                } else {
                    candidates(self.upper_bound_of(a as int, b as int), v as nat)
                });
            }
            if self.poset.is_leq(a, v) && self.poset.is_leq(b, v) {
                upper_bounds.push(v);
            }
            v = v + 1;
        }
        proof {
            lemma_candidates(self.upper_bound_of(a as int, b as int), n as nat);
            let first = if 0 < upper_bounds@.len() { upper_bounds@[0] as int } else { n as int };
            assert forall|w: int| 0 <= w < first implies !self.is_least_upper(a as int, b as int, w) by {
                if self.is_upper_bound(a as int, b as int, w) {
                    assert(self.upper_bound_of(a as int, b as int)(w));
                    assert(upper_bounds@.contains(w as u32));
                    let x = choose|x: int| 0 <= x < upper_bounds@.len() && upper_bounds@[x] == w as u32;
                    if x > 0 {
                        assert(upper_bounds@[0] < upper_bounds@[x]);
                    }
                }
            }
            self.lemma_skip_upper(a as int, b as int, 0, first);
        }
        let mut i: usize = 0;
        while i < upper_bounds.len()
            invariant
                n == self.poset.nodes@.len(),
                a != b,
                upper_bounds@ == candidates(self.upper_bound_of(a as int, b as int), n as nat),
                forall|v: u32| #[trigger] upper_bounds@.contains(v) <==> (v < n && self.upper_bound_of(a as int, b as int)(v as int)),
                forall|x: int, y: int| 0 <= x < y < upper_bounds@.len() ==> upper_bounds@[x] < upper_bounds@[y],
                forall|x: int| 0 <= x < upper_bounds@.len() ==> #[trigger] upper_bounds@[x] < n,
                i <= upper_bounds@.len(),
                self.first_least_upper(a as int, b as int, 0) == self.first_least_upper(
                    a as int,
                    b as int,
                    if i < upper_bounds@.len() {
                        upper_bounds@[i as int] as int
                    } else {
                        n as int
                    },
                ),
            decreases upper_bounds@.len() - i,
        {
            let v = upper_bounds[i];
            let mut all = true;
            let mut j: usize = 0;
            while j < upper_bounds.len()
                invariant
                    n == self.poset.nodes@.len(),
                    forall|v: u32| #[trigger] upper_bounds@.contains(v) <==> (v < n && self.upper_bound_of(a as int, b as int)(v as int)),
                    j <= upper_bounds@.len(),
                    all == forall|x: int| 0 <= x < j ==> self.poset.leq(v as int, #[trigger] upper_bounds@[x] as int),
                decreases upper_bounds@.len() - j,
            {
                if !self.poset.is_leq(v, upper_bounds[j]) {
                    all = false;
                }
                j = j + 1;
            }
            proof {
                assert(upper_bounds@.contains(v));
                assert(all == self.is_least_upper(a as int, b as int, v as int)) by {
                    if all {
                        assert forall|w: int|
                            0 <= w < n && #[trigger] self.is_upper_bound(a as int, b as int, w) implies self.poset.leq(
                            v as int,
                            w,
                        ) by {
                            assert(self.upper_bound_of(a as int, b as int)(w));
                            assert(upper_bounds@.contains(w as u32));
                            let x = choose|x: int| 0 <= x < upper_bounds@.len() && upper_bounds@[x] == w as u32;
                            assert(self.poset.leq(v as int, upper_bounds@[x] as int));
                        }
                    } else {
                        let x = choose|x: int| 0 <= x < upper_bounds@.len() && !self.poset.leq(v as int, #[trigger] upper_bounds@[x] as int);
                        assert(upper_bounds@.contains(upper_bounds@[x]));
                    }
                }
            }
            if all {
                return v;
            }
            proof {
                let next = if i + 1 < upper_bounds@.len() {
                    upper_bounds@[i + 1] as int
                } else {
                    n as int
                };
                assert forall|w: int| v <= w < next implies !self.is_least_upper(a as int, b as int, w) by {
                    if w > v && self.is_upper_bound(a as int, b as int, w) {
                        assert(self.upper_bound_of(a as int, b as int)(w));
                        assert(upper_bounds@.contains(w as u32));
                        let x = choose|x: int| 0 <= x < upper_bounds@.len() && upper_bounds@[x] == w as u32;
                        if x <= i {
                            if x < i {
                                assert(upper_bounds@[x] < upper_bounds@[i as int]);
                            }
                        } else if x > i + 1 {
                            assert(upper_bounds@[i + 1] < upper_bounds@[x]);
                        }
                    }
                }
                self.lemma_skip_upper(a as int, b as int, v as int, next);
            }
            i = i + 1;
        }
        self.top
    }

    proof fn lemma_skip_upper(&self, a: int, b: int, from: int, to: int)
        requires
            0 <= from <= to <= self.poset.nodes@.len(),
            forall|w: int| from <= w < to ==> !self.is_least_upper(a, b, w),
        ensures
            self.first_least_upper(a, b, from) == self.first_least_upper(a, b, to),
        decreases to - from,
    {
        if from < to {
            self.lemma_skip_upper(a, b, from + 1, to);
        }
    }

    /// Returns the greatest lower bound (meet, ∧) of nodes `a` and `b`.
    ///
    /// Collects all nodes that are ≤ both `a` and `b`, then returns the first
    /// of them that is ≥ all the others; the bottom if there is none.
    pub fn meet(&self, a: u32, b: u32) -> (r: u32)
        requires
            self.poset.nodes@.len() <= u32::MAX,
        ensures
            r == self.meet_of(a, b),
    {
        if a == b {
            return a;
        }
        let n = self.poset.nodes.len() as u32;
        let mut lower_bounds: Vec<u32> = Vec::new();
        let mut v: u32 = 0;
        while v < n
            invariant
                n == self.poset.nodes@.len(),
                v <= n,
                lower_bounds@ == candidates(self.lower_bound_of(a as int, b as int), v as nat),
            decreases n - v,
        {
            proof {
                assert(candidates(self.lower_bound_of(a as int, b as int), (v + 1) as nat) == if self.lower_bound_of(a as int, b as int)(v as int) {
                    candidates(self.lower_bound_of(a as int, b as int), v as nat).push(v as u32)
                } else {
                    candidates(self.lower_bound_of(a as int, b as int), v as nat)
                });
            }
            if self.poset.is_leq(v, a) && self.poset.is_leq(v, b) {
                lower_bounds.push(v);
            }
            v = v + 1;
        }
        proof {
            lemma_candidates(self.lower_bound_of(a as int, b as int), n as nat);
            let first = if 0 < lower_bounds@.len() { lower_bounds@[0] as int } else { n as int };
            assert forall|w: int| 0 <= w < first implies !self.is_greatest_lower(a as int, b as int, w) by {
                if self.is_lower_bound(a as int, b as int, w) {
                    assert(self.lower_bound_of(a as int, b as int)(w));
                    assert(lower_bounds@.contains(w as u32));
                    let x = choose|x: int| 0 <= x < lower_bounds@.len() && lower_bounds@[x] == w as u32;
                    if x > 0 {
                        assert(lower_bounds@[0] < lower_bounds@[x]);
                    }
                }
            }
            self.lemma_skip_lower(a as int, b as int, 0, first);
        }
        let mut i: usize = 0;
        while i < lower_bounds.len()
            invariant
                n == self.poset.nodes@.len(),
                a != b,
                lower_bounds@ == candidates(self.lower_bound_of(a as int, b as int), n as nat),
                forall|v: u32| #[trigger] lower_bounds@.contains(v) <==> (v < n && self.lower_bound_of(a as int, b as int)(v as int)),
                forall|x: int, y: int| 0 <= x < y < lower_bounds@.len() ==> lower_bounds@[x] < lower_bounds@[y],
                forall|x: int| 0 <= x < lower_bounds@.len() ==> #[trigger] lower_bounds@[x] < n,
                i <= lower_bounds@.len(),
                self.first_greatest_lower(a as int, b as int, 0) == self.first_greatest_lower(
                    a as int,
                    b as int,
                    if i < lower_bounds@.len() {
                        lower_bounds@[i as int] as int
                    } else {
                        n as int
                    },
                ),
            decreases lower_bounds@.len() - i,
        {
            let v = lower_bounds[i];
            let mut all = true;
            let mut j: usize = 0;
            while j < lower_bounds.len()
                invariant
                    n == self.poset.nodes@.len(),
                    forall|v: u32| #[trigger] lower_bounds@.contains(v) <==> (v < n && self.lower_bound_of(a as int, b as int)(v as int)),
                    j <= lower_bounds@.len(),
                    all == forall|x: int| 0 <= x < j ==> self.poset.leq(#[trigger] lower_bounds@[x] as int, v as int),
                decreases lower_bounds@.len() - j,
            {
                if !self.poset.is_leq(lower_bounds[j], v) {
                    all = false;
                }
                j = j + 1;
            }
            proof {
                assert(lower_bounds@.contains(v));
                assert(all == self.is_greatest_lower(a as int, b as int, v as int)) by {
                    if all {
                        assert forall|w: int|
                            0 <= w < n && #[trigger] self.is_lower_bound(a as int, b as int, w) implies self.poset.leq(
                            w,
                            v as int,
                        ) by {
                            assert(self.lower_bound_of(a as int, b as int)(w));
                            assert(lower_bounds@.contains(w as u32));
                            let x = choose|x: int| 0 <= x < lower_bounds@.len() && lower_bounds@[x] == w as u32;
                            assert(self.poset.leq(lower_bounds@[x] as int, v as int));
                        }
                    } else {
                        let x = choose|x: int| 0 <= x < lower_bounds@.len() && !self.poset.leq(#[trigger] lower_bounds@[x] as int, v as int);
                        assert(lower_bounds@.contains(lower_bounds@[x]));
                    }
                }
            }
            if all {
                return v;
            }
            proof {
                let next = if i + 1 < lower_bounds@.len() {
                    lower_bounds@[i + 1] as int
                } else {
                    n as int
                };
                assert forall|w: int| v <= w < next implies !self.is_greatest_lower(a as int, b as int, w) by {
                    if w > v && self.is_lower_bound(a as int, b as int, w) {
                        assert(self.lower_bound_of(a as int, b as int)(w));
                        assert(lower_bounds@.contains(w as u32));
                        let x = choose|x: int| 0 <= x < lower_bounds@.len() && lower_bounds@[x] == w as u32;
                        if x <= i {
                            if x < i {
                                assert(lower_bounds@[x] < lower_bounds@[i as int]);
                            }
                        } else if x > i + 1 {
                            assert(lower_bounds@[i + 1] < lower_bounds@[x]);
                        }
                    }
                }
                self.lemma_skip_lower(a as int, b as int, v as int, next);
            }
            i = i + 1;
        }
        self.bottom
    }

    proof fn lemma_skip_lower(&self, a: int, b: int, from: int, to: int)
        requires
            0 <= from <= to <= self.poset.nodes@.len(),
            forall|w: int| from <= w < to ==> !self.is_greatest_lower(a, b, w),
        ensures
            self.first_greatest_lower(a, b, from) == self.first_greatest_lower(a, b, to),
        decreases to - from,
    {
        if from < to {
            self.lemma_skip_lower(a, b, from + 1, to);
        }
    }
}


// ---- what holds of every lattice ----------------------------------------------------

impl<T> Lattice<T> {
    proof fn lemma_first_least_found(&self, a: int, b: int, i: int, v: int)
        requires
            0 <= i <= v < self.poset.nodes@.len(),
            self.poset.nodes@.len() <= u32::MAX,
            self.is_least_upper(a, b, v),
        ensures
            self.first_least_upper(a, b, i) is Some,
            self.is_least_upper(a, b, self.first_least_upper(a, b, i)->0 as int),
            self.first_least_upper(a, b, i)->0 < self.poset.nodes@.len(),
            self.first_least_upper(a, b, i)->0 >= i,
        decreases v - i,
    {
        if !self.is_least_upper(a, b, i) {
            self.lemma_first_least_found(a, b, i + 1, v);
        }
    }

    proof fn lemma_first_greatest_found(&self, a: int, b: int, i: int, v: int)
        requires
            0 <= i <= v < self.poset.nodes@.len(),
            self.poset.nodes@.len() <= u32::MAX,
            self.is_greatest_lower(a, b, v),
        ensures
            self.first_greatest_lower(a, b, i) is Some,
            self.is_greatest_lower(a, b, self.first_greatest_lower(a, b, i)->0 as int),
            self.first_greatest_lower(a, b, i)->0 < self.poset.nodes@.len(),
            self.first_greatest_lower(a, b, i)->0 >= i,
        decreases v - i,
    {
        if !self.is_greatest_lower(a, b, i) {
            self.lemma_first_greatest_found(a, b, i + 1, v);
        }
    }

    proof fn lemma_first_least_symmetric(&self, a: int, b: int, i: int)
        ensures
            self.first_least_upper(a, b, i) == self.first_least_upper(b, a, i),
        decreases self.poset.nodes@.len() - i,
    {
        if 0 <= i < self.poset.nodes@.len() {
            assert(self.is_least_upper(a, b, i) == self.is_least_upper(b, a, i)) by {
                if self.is_least_upper(a, b, i) {
                    assert forall|w: int|
                        0 <= w < self.poset.nodes@.len() && #[trigger] self.is_upper_bound(b, a, w) implies self.poset.leq(i, w) by {
                        assert(self.is_upper_bound(a, b, w));
                    }
                }
                if self.is_least_upper(b, a, i) {
                    assert forall|w: int|
                        0 <= w < self.poset.nodes@.len() && #[trigger] self.is_upper_bound(a, b, w) implies self.poset.leq(i, w) by {
                        assert(self.is_upper_bound(b, a, w));
                    }
                }
            }
            self.lemma_first_least_symmetric(a, b, i + 1);
        }
    }

    proof fn lemma_first_greatest_symmetric(&self, a: int, b: int, i: int)
        ensures
            self.first_greatest_lower(a, b, i) == self.first_greatest_lower(b, a, i),
        decreases self.poset.nodes@.len() - i,
    {
        if 0 <= i < self.poset.nodes@.len() {
            assert(self.is_greatest_lower(a, b, i) == self.is_greatest_lower(b, a, i)) by {
                if self.is_greatest_lower(a, b, i) {
                    assert forall|w: int|
                        0 <= w < self.poset.nodes@.len() && #[trigger] self.is_lower_bound(b, a, w) implies self.poset.leq(w, i) by {
                        assert(self.is_lower_bound(a, b, w));
                    }
                }
                if self.is_greatest_lower(b, a, i) {
                    assert forall|w: int|
                        0 <= w < self.poset.nodes@.len() && #[trigger] self.is_lower_bound(a, b, w) implies self.poset.leq(w, i) by {
                        assert(self.is_lower_bound(b, a, w));
                    }
                }
            }
            self.lemma_first_greatest_symmetric(a, b, i + 1);
        }
    }

    /// Join and meet do not depend on the order of their arguments.
    pub proof fn lemma_join_meet_commute(&self, a: u32, b: u32)
        ensures
            self.join_of(a, b) == self.join_of(b, a),
            self.meet_of(a, b) == self.meet_of(b, a),
    {
        self.lemma_first_least_symmetric(a as int, b as int, 0);
        self.lemma_first_greatest_symmetric(a as int, b as int, 0);
    }

    /// Where `a` and `b` have a least upper bound among the nodes, `join`
    /// returns it: an upper bound of both, below every other.
    pub proof fn lemma_join_is_least_upper_bound(&self, a: u32, b: u32)
        requires
            self.poset.wf(),
            self.poset.nodes@.len() <= u32::MAX,
            a < self.poset.nodes@.len(),
            b < self.poset.nodes@.len(),
            exists|v: int| 0 <= v < self.poset.nodes@.len() && self.is_least_upper(a as int, b as int, v),
        ensures
            self.is_least_upper(a as int, b as int, self.join_of(a, b) as int),
    {
        if a != b {
            let v = choose|v: int| 0 <= v < self.poset.nodes@.len() && self.is_least_upper(a as int, b as int, v);
            self.lemma_first_least_found(a as int, b as int, 0, v);
        }
    }

    /// Where `a` and `b` have a greatest lower bound among the nodes, `meet`
    /// returns it: a lower bound of both, above every other.
    pub proof fn lemma_meet_is_greatest_lower_bound(&self, a: u32, b: u32)
        requires
            self.poset.wf(),
            self.poset.nodes@.len() <= u32::MAX,
            a < self.poset.nodes@.len(),
            b < self.poset.nodes@.len(),
            exists|v: int| 0 <= v < self.poset.nodes@.len() && self.is_greatest_lower(a as int, b as int, v),
        ensures
            self.is_greatest_lower(a as int, b as int, self.meet_of(a, b) as int),
    {
        if a != b {
            let v = choose|v: int| 0 <= v < self.poset.nodes@.len() && self.is_greatest_lower(a as int, b as int, v);
            self.lemma_first_greatest_found(a as int, b as int, 0, v);
        }
    }

    /// The unique maximal node of a well-formed poset is above every node,
    /// and the unique minimal node below every node.
    pub proof fn lemma_top_and_bottom(&self)
        requires
            self.poset.wf(),
            self.poset.nodes@.len() <= u32::MAX,
            maximal_nodes(self.poset) == seq![self.top],
            minimal_nodes(self.poset) == seq![self.bottom],
        ensures
            forall|u: int| 0 <= u < self.poset.nodes@.len() ==> #[trigger] self.poset.leq(u, self.top as int),
            forall|u: int| 0 <= u < self.poset.nodes@.len() ==> #[trigger] self.poset.leq(self.bottom as int, u),
    {
        let n = self.poset.nodes@.len();
        let cov = self.poset.covering_edges@;
        let o = choose|o: Seq<usize>| is_topological(n, cov, o);
        lemma_perm_covers(o, n);
        lemma_candidates(is_maximal(self.poset), n);
        lemma_candidates(is_minimal(self.poset), n);
        assert(maximal_nodes(self.poset)[0] == self.top);
        assert(minimal_nodes(self.poset)[0] == self.bottom);
        self.lemma_below_top(o, 0);
        self.lemma_above_bottom(o, n as int);
        assert forall|u: int| 0 <= u < n implies #[trigger] self.poset.leq(u, self.top as int) by {
            assert(o.contains(u as usize));
            let j = choose|j: int| 0 <= j < o.len() && o[j] == u as usize;
            assert(self.poset.leq(o[j] as int, self.top as int));
        }
        assert forall|u: int| 0 <= u < n implies #[trigger] self.poset.leq(self.bottom as int, u) by {
            assert(o.contains(u as usize));
            let j = choose|j: int| 0 <= j < o.len() && o[j] == u as usize;
            assert(self.poset.leq(self.bottom as int, o[j] as int));
        }
    }

    proof fn lemma_below_top(&self, o: Seq<usize>, i: int)
        requires
            self.poset.wf(),
            self.poset.nodes@.len() <= u32::MAX,
            is_topological(self.poset.nodes@.len(), self.poset.covering_edges@, o),
            forall|u: usize| u < self.poset.nodes@.len() ==> o.contains(u),
            forall|v: u32|
                #[trigger] maximal_nodes(self.poset).contains(v) <==> (v < self.poset.nodes@.len()
                    && is_maximal(self.poset)(v as int)),
            maximal_nodes(self.poset) == seq![self.top],
            0 <= i <= self.poset.nodes@.len(),
        ensures
            forall|j: int| i <= j < self.poset.nodes@.len() ==> self.poset.leq(#[trigger] o[j] as int, self.top as int),
        decreases self.poset.nodes@.len() - i,
    {
        let n = self.poset.nodes@.len();
        let cov = self.poset.covering_edges@;
        if i < n {
            self.lemma_below_top(o, i + 1);
            let x = o[i];
            assert(maximal_nodes(self.poset)[0] == self.top);
            assert(maximal_nodes(self.poset).contains(self.top));
            if is_maximal(self.poset)(x as int) {
                assert(maximal_nodes(self.poset).contains(x as u32));
                assert(x as u32 == self.top);
            } else {
                assert(exists|y: usize| self.poset.reach@[x as int]@.contains(y)) by {
                    if !exists|y: usize| self.poset.reach@[x as int]@.contains(y) {
                        assert(self.poset.reach@[x as int]@ =~= Set::<usize>::empty());
                    }
                }
                let y = choose|y: usize| self.poset.reach@[x as int]@.contains(y);
                assert(reaches(cov, x as int, y as int));
                let p = choose|p: Seq<int>| #[trigger] is_walk(cov, p) && p[0] == x as int && p.last() == y as int;
                let (a, b) = lemma_walk_forward(n, cov, o, p, p.len() - 1);
                assert(o[a] == o[i]);
                assert(a == i);
                assert(self.poset.leq(o[b] as int, self.top as int));
                if y as int != self.top as int {
                    assert(self.poset.reach@[y as int]@.contains(self.top as usize));
                    assert(reaches(cov, y as int, self.top as int));
                    lemma_reaches_trans(cov, x as int, y as int, self.top as int);
                    assert(self.poset.reach@[x as int]@.contains(self.top as usize));
                }
            }
        }
    }

    proof fn lemma_above_bottom(&self, o: Seq<usize>, i: int)
        requires
            self.poset.wf(),
            self.poset.nodes@.len() <= u32::MAX,
            is_topological(self.poset.nodes@.len(), self.poset.covering_edges@, o),
            forall|u: usize| u < self.poset.nodes@.len() ==> o.contains(u),
            forall|v: u32|
                #[trigger] minimal_nodes(self.poset).contains(v) <==> (v < self.poset.nodes@.len()
                    && is_minimal(self.poset)(v as int)),
            minimal_nodes(self.poset) == seq![self.bottom],
            0 <= i <= self.poset.nodes@.len(),
        ensures
            forall|j: int| 0 <= j < i ==> self.poset.leq(self.bottom as int, #[trigger] o[j] as int),
        decreases i,
    {
        let n = self.poset.nodes@.len();
        let cov = self.poset.covering_edges@;
        if i > 0 {
            self.lemma_above_bottom(o, i - 1);
            let x = o[i - 1];
            assert(minimal_nodes(self.poset)[0] == self.bottom);
            assert(minimal_nodes(self.poset).contains(self.bottom));
            if is_minimal(self.poset)(x as int) {
                assert(minimal_nodes(self.poset).contains(x as u32));
                assert(x as u32 == self.bottom);
            } else {
                let w = choose|w: int| 0 <= w < self.poset.reach@.len() && #[trigger] self.poset.reach@[w]@.contains(x);
                assert(reaches(cov, w, x as int));
                let p = choose|p: Seq<int>| #[trigger] is_walk(cov, p) && p[0] == w && p.last() == x as int;
                let (a, b) = lemma_walk_forward(n, cov, o, p, p.len() - 1);
                assert(o[b] == o[i - 1]);
                assert(b == i - 1);
                assert(self.poset.leq(self.bottom as int, o[a] as int));
                if self.bottom as int != w {
                    assert(self.poset.reach@[self.bottom as int]@.contains(w as usize));
                    assert(reaches(cov, self.bottom as int, w));
                    lemma_reaches_trans(cov, self.bottom as int, w, x as int);
                    assert(self.poset.reach@[self.bottom as int]@.contains(x));
                }
            }
        }
    }
}

} // verus!
