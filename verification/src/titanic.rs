//! The TITANIC algorithm for iceberg concept lattices: level by level, the
//! key sets of the context (attribute sets whose support drops below that of
//! all their subsets), each closed to a concept.
//!
//! Reference: Stumme, Taouil, Bastide, Pasquier, Lakhal (2002):
//! "Computing iceberg concept lattices with TITANIC", Data & Knowledge Engineering.
use crate::bitset::{strictly_increasing, BitSet};
use crate::formal_context::FormalContext;
use crate::iceberg_lattice::IcebergLattice;
use crate::poset::{cycle_core, has_edge, lemma_potential_no_core, Poset};
use vstd::prelude::*;

verus! {

/// Zero-size handle for the TITANIC iceberg enumeration algorithm.
pub struct Titanic;

// ---- key sets ---------------------------------------------------------------------

/// The two slices are equal.
fn u16s_eq(a: &[u16], b: &[u16]) -> (r: bool)
    ensures
        r == (a@ == b@),
{
    if a.len() != b.len() {
        return false;
    }
    let mut i: usize = 0;
    while i < a.len()
        invariant
            a@.len() == b@.len(),
            i <= a@.len(),
            forall|j: int| 0 <= j < i ==> a@[j] == b@[j],
        decreases a@.len() - i,
    {
        if a[i] != b[i] {
            return false;
        }
        i = i + 1;
    }
    assert(a@ =~= b@);
    true
}

/// The two slices are equal.
fn usizes_eq(a: &[usize], b: &[usize]) -> (r: bool)
    ensures
        r == (a@ == b@),
{
    if a.len() != b.len() {
        return false;
    }
    let mut i: usize = 0;
    while i < a.len()
        invariant
            a@.len() == b@.len(),
            i <= a@.len(),
            forall|j: int| 0 <= j < i ==> a@[j] == b@[j],
        decreases a@.len() - i,
    {
        if a[i] != b[i] {
            return false;
        }
        i = i + 1;
    }
    assert(a@ =~= b@);
    true
}

/// A copy of the slice.
fn copy_u16s(a: &[u16]) -> (r: Vec<u16>)
    ensures
        r@ == a@,
{
    let mut out: Vec<u16> = Vec::new();
    let mut i: usize = 0;
    while i < a.len()
        invariant
            i <= a@.len(),
            out@ == a@.take(i as int),
        decreases a@.len() - i,
    {
        out.push(a[i]);
        i = i + 1;
    }
    assert(a@.take(a@.len() as int) == a@);
    out
}

/// `a` without its element at `i`.
fn without(a: &[u16], i: usize) -> (r: Vec<u16>)
    requires
        i < a@.len(),
    ensures
        r@ == a@.remove(i as int),
{
    let mut out: Vec<u16> = Vec::new();
    let mut j: usize = 0;
    while j < a.len()
        invariant
            i < a@.len(),
            j <= a@.len(),
            out@ == if j <= i {
                a@.take(j as int)
            } else {
                a@.take(i as int) + a@.subrange(i + 1, j as int)
            },
        decreases a@.len() - j,
    {
        if j != i {
            out.push(a[j]);
        }
        j = j + 1;
    }
    assert(out@ =~= a@.remove(i as int));
    out
}

/// The key sets of a list, as sequences.
pub open spec fn key_views(keys: Seq<Vec<u16>>) -> Seq<Seq<u16>> {
    keys.map_values(|k: Vec<u16>| k@)
}

/// The list holds `key`.
fn holds_key(keys: &[Vec<u16>], key: &[u16]) -> (r: bool)
    ensures
        r == key_views(keys@).contains(key@),
{
    let ghost kv = keys@.map_values(|k: Vec<u16>| k@);
    let mut i: usize = 0;
    while i < keys.len()
        invariant
            kv == keys@.map_values(|k: Vec<u16>| k@),
            i <= keys@.len(),
            forall|j: int| 0 <= j < i ==> kv[j] != key@,
        decreases keys@.len() - i,
    {
        if u16s_eq(keys[i].as_slice(), key) {
            assert(kv[i as int] == key@);
            return true;
        }
        i = i + 1;
    }
    false
}

/// Apriori join of key sets `a` and `b` of the same size `k`: they share
/// their first `k - 1` elements and `a`'s last is the smaller.
pub open spec fn joinable(a: Seq<u16>, b: Seq<u16>) -> bool {
    let k = a.len();
    k >= 1 && a.take(k - 1) == b.take(k - 1) && a[k - 1] < b[k - 1]
}

/// The candidates joining key `i` with keys `i + 1 .. j`, in order.
pub open spec fn apriori_row(keys: Seq<Seq<u16>>, i: int, j: int) -> Seq<Seq<u16>>
    decreases j - i,
{
    if j <= i + 1 {
        Seq::empty()
    } else {
        let rest = apriori_row(keys, i, j - 1);
        if joinable(keys[i], keys[j - 1]) {
            rest.push(keys[i].push(keys[j - 1].last()))
        } else {
            rest
        }
    }
}

/// The candidates from joining each of the first `i` keys with every later one.
pub open spec fn apriori_spec(keys: Seq<Seq<u16>>, i: int) -> Seq<Seq<u16>>
    decreases i,
{
    if i <= 0 {
        Seq::empty()
    } else {
        apriori_spec(keys, i - 1) + apriori_row(keys, i - 1, keys.len() as int)
    }
}

/// The elements ascend strictly.
pub open spec fn increasing_u16(s: Seq<u16>) -> bool {
    forall|i: int, j: int| 0 <= i < j < s.len() ==> s[i] < s[j]
}

/// Generate the next level's candidates from the key sets of one size, by
/// the Apriori join step: every pair `(a, b)`, `a` listed before `b`, that
/// shares all but the last element, with `a`'s last the smaller, yields
/// `a` extended by `b`'s last.
fn apriori_gen(sorted_keys: &[Vec<u16>]) -> (r: Vec<Vec<u16>>)
    requires
        forall|i: int| 0 <= i < sorted_keys@.len() ==> #[trigger] sorted_keys@[i]@.len() >= 1,
        forall|i: int, j: int|
            0 <= i < sorted_keys@.len() && 0 <= j < sorted_keys@.len() ==> #[trigger] sorted_keys@[i]@.len()
                == #[trigger] sorted_keys@[j]@.len(),
    ensures
        r@.map_values(|v: Vec<u16>| v@) == apriori_spec(
            sorted_keys@.map_values(|v: Vec<u16>| v@),
            sorted_keys@.len() as int,
        ),
{
    let ghost kv = sorted_keys@.map_values(|v: Vec<u16>| v@);
    let mut candidates: Vec<Vec<u16>> = Vec::new();
    let n = sorted_keys.len();
    let mut i: usize = 0;
    while i < n
        invariant
            n == sorted_keys@.len(),
            kv == sorted_keys@.map_values(|v: Vec<u16>| v@),
            forall|i: int| 0 <= i < sorted_keys@.len() ==> #[trigger] sorted_keys@[i]@.len() >= 1,
            forall|i: int, j: int|
                0 <= i < sorted_keys@.len() && 0 <= j < sorted_keys@.len() ==> #[trigger] sorted_keys@[i]@.len()
                    == #[trigger] sorted_keys@[j]@.len(),
            i <= n,
            candidates@.map_values(|v: Vec<u16>| v@) == apriori_spec(kv, i as int),
        decreases n - i,
    {
        let ghost before = candidates@.map_values(|v: Vec<u16>| v@);
        let mut j: usize = i + 1;
        assert(apriori_row(kv, i as int, j as int) == Seq::<Seq<u16>>::empty());
        assert(before + Seq::<Seq<u16>>::empty() == before);
        while j < n
            invariant
                n == sorted_keys@.len(),
                kv == sorted_keys@.map_values(|v: Vec<u16>| v@),
                forall|i: int| 0 <= i < sorted_keys@.len() ==> #[trigger] sorted_keys@[i]@.len() >= 1,
                forall|i: int, j: int|
                    0 <= i < sorted_keys@.len() && 0 <= j < sorted_keys@.len() ==> #[trigger] sorted_keys@[i]@.len()
                        == #[trigger] sorted_keys@[j]@.len(),
                i < n,
                i + 1 <= j <= n,
                candidates@.map_values(|v: Vec<u16>| v@) == before + apriori_row(kv, i as int, j as int),
            decreases n - j,
        {
            let a = &sorted_keys[i];
            let b = &sorted_keys[j];
            assert(a@ == kv[i as int] && b@ == kv[j as int]);
            assert(a@.len() == b@.len());
            let k = a.len();
            let same_prefix = if k == 0 {
                true
            } else {
                let mut x: usize = 0;
                let mut eq = true;
                assert(a@.take(0) =~= b@.take(0));
                while x < k - 1
                    invariant
                        k == a@.len(),
                        k == b@.len(),
                        k >= 1,
                        x <= k - 1,
                        eq == (a@.take(x as int) == b@.take(x as int)),
                    decreases k - 1 - x,
                {
                    if a[x] != b[x] {
                        eq = false;
                    }
                    proof {
                        if a@.take(x + 1) == b@.take(x + 1) {
                            assert(a@.take(x as int) == a@.take(x + 1).take(x as int));
                            assert(b@.take(x as int) == b@.take(x + 1).take(x as int));
                            assert(a@[x as int] == a@.take(x + 1)[x as int]);
                            assert(b@[x as int] == b@.take(x + 1)[x as int]);
                        }
                        if a@.take(x as int) == b@.take(x as int) && a@[x as int] == b@[x as int] {
                            assert(a@.take(x + 1) =~= b@.take(x + 1));
                        }
                    }
                    x = x + 1;
                }
                eq && a[k - 1] < b[k - 1]
            };
            let ghost c0 = candidates@;
            if same_prefix {
                let mut new = copy_u16s(a.as_slice());
                new.push(b[b.len() - 1]);
                candidates.push(new);
                assert(candidates@.map_values(|v: Vec<u16>| v@) == c0.map_values(|v: Vec<u16>| v@).push(
                    kv[i as int].push(kv[j as int].last()),
                ));
            }
            j = j + 1;
        }
        assert(apriori_spec(kv, i + 1) == apriori_spec(kv, i as int) + apriori_row(kv, i as int, n as int));
        i = i + 1;
    }
    candidates
}

/// Every `(k-1)`-subset of `candidate` that drops one of its first `k - 2`
/// elements is a key set. The two that drop one of the last two elements are
/// the key sets the candidate was joined from.
fn all_k_minus_1_subsets_in_keys(candidate: &[u16], key_set: &[Vec<u16>]) -> (r: bool)
    ensures
        r == forall|i: int|
            0 <= i < candidate@.len() - 2 ==> #[trigger] key_views(key_set@).contains(
                candidate@.remove(i),
            ),
{
    let len = candidate.len();
    let bound = if len >= 2 { len - 2 } else { 0 };
    let mut i: usize = 0;
    while i < bound
        invariant
            len == candidate@.len(),
            bound == if len >= 2 { len - 2 } else { 0 },
            i <= bound,
            forall|j: int|
                0 <= j < i ==> #[trigger] key_views(key_set@).contains(
                    candidate@.remove(j),
                ),
        decreases bound - i,
    {
        let subset = without(candidate, i);
        if !holds_key(key_set, subset.as_slice()) {
            return false;
        }
        i = i + 1;
    }
    true
}

/// The value last stored under `key` in an association list.
pub open spec fn lookup_last(map: Seq<(Seq<u16>, u32)>, key: Seq<u16>) -> Option<u32>
    decreases map.len(),
{
    if map.len() == 0 {
        None
    } else if map.last().0 == key {
        Some(map.last().1)
    } else {
        lookup_last(map.drop_last(), key)
    }
}

/// The smallest support stored for a subset of `candidate` that drops one
/// of its first `i` elements, `u32::MAX` if there is none.
pub open spec fn min_subset_support(candidate: Seq<u16>, map: Seq<(Seq<u16>, u32)>, i: int) -> u32
    decreases i,
{
    if i <= 0 {
        u32::MAX
    } else {
        let m = min_subset_support(candidate, map, i - 1);
        match lookup_last(map, candidate.remove(i - 1)) {
            Some(s) => if s < m {
                s
            } else {
                m
            },
            None => m,
        }
    }
}

/// The views of an association list.
pub open spec fn map_view(map: Seq<(Vec<u16>, u32)>) -> Seq<(Seq<u16>, u32)> {
    map.map_values(|e: (Vec<u16>, u32)| (e.0@, e.1))
}

/// The value last stored under `key`.
fn lookup(map: &[(Vec<u16>, u32)], key: &[u16]) -> (r: Option<u32>)
    ensures
        r == lookup_last(map_view(map@), key@),
{
    let ghost mv = map_view(map@);
    let mut j: usize = map.len();
    assert(mv.take(mv.len() as int) == mv);
    while j > 0
        invariant
            mv == map_view(map@),
            j <= map@.len(),
            lookup_last(mv, key@) == lookup_last(mv.take(j as int), key@),
        decreases j,
    {
        assert(mv.take(j as int).drop_last() == mv.take(j - 1));
        assert(mv.take(j as int).last() == mv[j - 1]);
        if u16s_eq(map[j - 1].0.as_slice(), key) {
            return Some(map[j - 1].1);
        }
        j = j - 1;
    }
    assert(mv.take(0) == Seq::<(Seq<u16>, u32)>::empty());
    None
}

/// Minimum support across all (len-1)-subsets of `candidate` found in the
/// support map; `u32::MAX` if none is.
fn min_support_of_subsets(candidate: &[u16], support_map: &[(Vec<u16>, u32)]) -> (r: u32)
    ensures
        r == min_subset_support(candidate@, map_view(support_map@), candidate@.len() as int),
{
    let len = candidate.len();
    let mut min_sup = u32::MAX;
    let mut i: usize = 0;
    while i < len
        invariant
            len == candidate@.len(),
            i <= len,
            min_sup == min_subset_support(candidate@, map_view(support_map@), i as int),
        decreases len - i,
    {
        let subset = without(candidate, i);
        match lookup(support_map, subset.as_slice()) {
            Some(s) => {
                if s < min_sup {
                    min_sup = s;
                }
            },
            None => {},
        }
        i = i + 1;
    }
    min_sup
}


// ---- facts about sets and sequences -------------------------------------------------

/// Strictly ascending sequences with the same elements are equal.
proof fn lemma_sorted_unique(a: Seq<usize>, b: Seq<usize>)
    requires
        strictly_increasing(a),
        strictly_increasing(b),
        a.to_set() == b.to_set(),
    ensures
        a == b,
    decreases a.len(),
{
    if a.len() == 0 {
        if b.len() > 0 {
            assert(b.to_set().contains(b[0]));
        }
        assert(a =~= b);
    } else {
        assert(a.to_set().contains(a[0]));
        assert(b.to_set().contains(a[0]));
        let j = choose|j: int| 0 <= j < b.len() && b[j] == a[0];
        assert(b.to_set().contains(b[0]));
        assert(a.to_set().contains(b[0]));
        let i = choose|i: int| 0 <= i < a.len() && a[i] == b[0];
        assert(a[0] == b[0]) by {
            if i > 0 {
                assert(a[0] < a[i]);
            }
            if j > 0 {
                assert(b[0] < b[j]);
            }
        }
        let a1 = a.drop_first();
        let b1 = b.drop_first();
        assert(a1.to_set() =~= b1.to_set()) by {
            assert forall|x: usize| a1.to_set().contains(x) implies b1.to_set().contains(x) by {
                let p = choose|p: int| 0 <= p < a1.len() && a1[p] == x;
                assert(a[p + 1] == x);
                assert(a[0] < x);
                assert(b.to_set().contains(x));
                let q = choose|q: int| 0 <= q < b.len() && b[q] == x;
                assert(q != 0);
                assert(b1[q - 1] == x);
            }
            assert forall|x: usize| b1.to_set().contains(x) implies a1.to_set().contains(x) by {
                let p = choose|p: int| 0 <= p < b1.len() && b1[p] == x;
                assert(b[p + 1] == x);
                assert(b[0] < x);
                assert(a.to_set().contains(x));
                let q = choose|q: int| 0 <= q < a.len() && a[q] == x;
                assert(q != 0);
                assert(a1[q - 1] == x);
            }
        }
        lemma_sorted_unique(a1, b1);
        assert(a =~= seq![a[0]] + a1);
        assert(b =~= seq![b[0]] + b1);
    }
}

/// All indices below `n`.
pub open spec fn below(n: nat) -> Set<usize> {
    Set::new(|x: usize| x < n)
}

/// A set of indices below `n` is finite and has at most `n` elements.
proof fn lemma_below_len(s: Set<usize>, n: nat)
    requires
        s.subset_of(below(n)),
        n <= usize::MAX + 1,
    ensures
        s.finite(),
        s.len() <= n,
{
    let f = |x: usize| x as int;
    let r = vstd::set_lib::set_int_range(0, n as int);
    vstd::set_lib::lemma_int_range(0, n as int);
    let g = |i: int| i as usize;
    let back = r.map(g);
    assert(s.subset_of(back)) by {
        assert forall|x: usize| s.contains(x) implies back.contains(x) by {
            assert(r.contains(x as int));
            assert(g(x as int) == x);
        }
    }
    r.lemma_map_finite(g);
    vstd::set_lib::lemma_len_subset(s, back);
    vstd::set_lib::lemma_map_size_bound(r, back, g);
}

/// A proper subset of a finite set is smaller.
proof fn lemma_proper_subset_len(a: Set<usize>, b: Set<usize>)
    requires
        b.finite(),
        a.subset_of(b),
        a != b,
    ensures
        a.len() < b.len(),
{
    assert(exists|x: usize| b.contains(x) && !a.contains(x)) by {
        if !exists|x: usize| b.contains(x) && !a.contains(x) {
            assert(a =~= b);
        }
    }
    let x = choose|x: usize| b.contains(x) && !a.contains(x);
    vstd::set_lib::lemma_len_subset(a, b.remove(x));
}

/// A strictly ascending sequence of `u16`s has at most `2^16` elements.
proof fn lemma_increasing_u16_len(s: Seq<u16>)
    requires
        increasing_u16(s),
    ensures
        s.len() <= 65536,
{
    if s.len() > 65536 {
        lemma_increasing_gap(s, 65536);
        assert(s[65536] >= 65536);
    }
}

proof fn lemma_increasing_gap(s: Seq<u16>, i: int)
    requires
        increasing_u16(s),
        0 <= i < s.len(),
    ensures
        s[i] >= i,
    decreases i,
{
    if i > 0 {
        lemma_increasing_gap(s, i - 1);
        assert(s[i - 1] < s[i]);
    }
}

/// The attributes a key set names.
pub open spec fn attr_set(c: Seq<u16>) -> Set<usize> {
    Set::new(|m: usize| exists|i: int| 0 <= i < c.len() && c[i] as usize == m)
}

/// A well-formed level of key sets: each ascending, of size `k`, naming
/// attributes below `bound`.
pub open spec fn level_ok(keys: Seq<Seq<u16>>, k: nat, bound: nat) -> bool {
    forall|i: int|
        0 <= i < keys.len() ==> {
            &&& increasing_u16(#[trigger] keys[i])
            &&& keys[i].len() == k
            &&& forall|x: int| 0 <= x < k ==> (keys[i][x] as nat) < bound
        }
}

proof fn lemma_apriori_level(keys: Seq<Seq<u16>>, k: nat, bound: nat, i: int)
    requires
        level_ok(keys, k, bound),
        k >= 1,
        0 <= i <= keys.len(),
    ensures
        level_ok(apriori_spec(keys, i), k + 1, bound),
    decreases i,
{
    if i > 0 {
        lemma_apriori_level(keys, k, bound, i - 1);
        lemma_apriori_row_level(keys, k, bound, i - 1, keys.len() as int);
        let a = apriori_spec(keys, i - 1);
        let b = apriori_row(keys, i - 1, keys.len() as int);
        assert forall|x: int| 0 <= x < (a + b).len() implies {
            &&& increasing_u16(#[trigger] (a + b)[x])
            &&& (a + b)[x].len() == k + 1
            &&& forall|y: int| 0 <= y < k + 1 ==> ((a + b)[x][y] as nat) < bound
        } by {
            if x < a.len() {
                assert((a + b)[x] == a[x]);
            } else {
                assert((a + b)[x] == b[x - a.len()]);
            }
        }
    }
}

proof fn lemma_apriori_row_level(keys: Seq<Seq<u16>>, k: nat, bound: nat, i: int, j: int)
    requires
        level_ok(keys, k, bound),
        k >= 1,
        0 <= i < keys.len(),
        j <= keys.len(),
    ensures
        level_ok(apriori_row(keys, i, j), k + 1, bound),
    decreases j - i,
{
    if j > i + 1 {
        lemma_apriori_row_level(keys, k, bound, i, j - 1);
        let rest = apriori_row(keys, i, j - 1);
        if joinable(keys[i], keys[j - 1]) {
            let a = keys[i];
            let b = keys[j - 1];
            let c = a.push(b.last());
            assert(increasing_u16(c)) by {
                assert forall|x: int, y: int| 0 <= x < y < c.len() implies c[x] < c[y] by {
                    if y == c.len() - 1 {
                        assert(a[k - 1] < b[k - 1]);
                        if x < k - 1 {
                            assert(a[x] < a[k - 1]);
                        }
                    }
                }
            }
            assert forall|y: int| 0 <= y < k + 1 implies (c[y] as nat) < bound by {
                if y == k {
                    assert(c[y] == b[k - 1]);
                }
            }
            let now = rest.push(c);
            assert forall|x: int| 0 <= x < now.len() implies {
                &&& increasing_u16(#[trigger] now[x])
                &&& now[x].len() == k + 1
                &&& forall|y: int| 0 <= y < k + 1 ==> (now[x][y] as nat) < bound
            } by {
                if x < rest.len() {
                    assert(now[x] == rest[x]);
                }
            }
        }
    }
}

// ---- building the lattice ------------------------------------------------------------

/// Every attribute shared by all objects of the extent.
fn closure_from_extent<T>(extent: &BitSet, num_attrs: usize, ctx: &FormalContext<T>) -> (r: BitSet)
    requires
        ctx.wf(),
        num_attrs == ctx.attributes@.len(),
        extent@.subset_of(below(ctx.objects@.len())),
    ensures
        r@ == ctx.intent_of(extent@),
{
    let mut closure = BitSet::with_capacity(num_attrs);
    let mut m: usize = 0;
    while m < num_attrs
        invariant
            ctx.wf(),
            num_attrs == ctx.attributes@.len(),
            extent@.subset_of(below(ctx.objects@.len())),
            m <= num_attrs,
            closure@ == ctx.intent_of(extent@).filter(|x: usize| x < m),
        decreases num_attrs - m,
    {
        if extent.is_subset(&ctx.atomic_attribute_derivations[m]) {
            closure.insert(m);
        }
        proof {
            let col = ctx.atomic_attribute_derivations@[m as int]@;
            assert(extent@.subset_of(col) <==> ctx.intent_of(extent@).contains(m)) by {
                if extent@.subset_of(col) {
                    assert forall|g: usize| #[trigger] extent@.contains(g) implies ctx.incident(g, m) by {
                        assert(col.contains(g));
                    }
                }
                if ctx.intent_of(extent@).contains(m) {
                    assert forall|g: usize| extent@.contains(g) implies col.contains(g) by {
                        assert(below(ctx.objects@.len()).contains(g));
                    }
                }
            }
            assert(closure@ =~= ctx.intent_of(extent@).filter(|x: usize| x < m + 1));
        }
        m = m + 1;
    }
    assert(closure@ =~= ctx.intent_of(extent@));
    closure
}

/// The elements of a set, ascending: the key its intent is recorded under.
fn bitset_key(b: &BitSet) -> (r: Vec<usize>)
    ensures
        strictly_increasing(r@),
        r@.to_set() == b@,
{
    b.to_vec()
}

/// `a` is a proper subset of `b`.
pub open spec fn proper_subset(a: Set<usize>, b: Set<usize>) -> bool {
    a.subset_of(b) && a != b
}

/// The nodes of a list of concepts with supports.
pub open spec fn concept_nodes(cs: Seq<(BitSet, BitSet, u32)>) -> Seq<(Set<usize>, Set<usize>)> {
    cs.map_values(|c: (BitSet, BitSet, u32)| (c.0@, c.1@))
}

/// The views of a poset's nodes.
pub open spec fn node_views(ns: Seq<(BitSet, BitSet)>) -> Seq<(Set<usize>, Set<usize>)> {
    ns.map_values(|c: (BitSet, BitSet)| (c.0@, c.1@))
}

/// The iceberg lattice of a list of concepts, ordered by proper inclusion
/// of extents.
fn build_iceberg_lattice(concepts: Vec<(BitSet, BitSet, u32)>, total_objects: u32) -> (r: IcebergLattice)
    requires
        concepts@.len() <= u32::MAX,
        forall|i: int| 0 <= i < concepts@.len() ==> (#[trigger] concepts@[i]).0@.finite(),
    ensures
        r.total_objects == total_objects,
        node_views(r.poset.nodes@) == concept_nodes(concepts@),
        r.support@ == concepts@.map_values(|c: (BitSet, BitSet, u32)| c.2),
        r.poset.wf(),
        forall|u: int, v: usize|
            0 <= u < concepts@.len() && v < concepts@.len() ==> (#[trigger] r.poset.reach@[u]@.contains(v)
                <==> proper_subset(concepts@[u].0@, concepts@[v as int].0@)),
{
    if concepts.len() == 0 {
        let r = IcebergLattice::empty(total_objects);
        assert(node_views(r.poset.nodes@) =~= concept_nodes(concepts@));
        assert(r.support@ =~= concepts@.map_values(|c: (BitSet, BitSet, u32)| c.2));
        return r;
    }
    let n = concepts.len();
    let mut trans_edges: Vec<(u32, u32)> = Vec::new();
    let mut i: usize = 0;
    while i < n
        invariant
            n == concepts@.len(),
            n <= u32::MAX,
            i <= n,
            forall|k: int| 0 <= k < trans_edges@.len() ==> #[trigger] trans_edges@[k].0 < n && trans_edges@[k].1 < n,
            forall|a: int, b: int|
                #[trigger] has_edge(trans_edges@, a, b) <==> (0 <= a < i && 0 <= b < n && a != b && proper_subset(
                    concepts@[a].0@,
                    concepts@[b].0@,
                )),
        decreases n - i,
    {
        let mut j: usize = 0;
        while j < n
            invariant
                n == concepts@.len(),
                n <= u32::MAX,
                i < n,
                j <= n,
                forall|k: int| 0 <= k < trans_edges@.len() ==> #[trigger] trans_edges@[k].0 < n && trans_edges@[k].1 < n,
                forall|a: int, b: int|
                    #[trigger] has_edge(trans_edges@, a, b) <==> ((0 <= a < i && 0 <= b < n) || (a == i && 0 <= b < j))
                        && a != b && proper_subset(concepts@[a].0@, concepts@[b].0@),
            decreases n - j,
        {
            if i != j {
                let ext_i = &concepts[i].0;
                let ext_j = &concepts[j].0;
                if !ext_i.set_eq(ext_j) && ext_i.is_subset(ext_j) {
                    let ghost e0 = trans_edges@;
                    trans_edges.push((i as u32, j as u32));
                    proof {
                        assert forall|a: int, b: int|
                            #[trigger] has_edge(trans_edges@, a, b) <==> ((0 <= a < i && 0 <= b < n) || (a == i && 0 <= b < j + 1))
                                && a != b && proper_subset(concepts@[a].0@, concepts@[b].0@) by {
                            if has_edge(trans_edges@, a, b) {
                                let k = choose|k: int| 0 <= k < trans_edges@.len() && trans_edges@[k].0 == a && trans_edges@[k].1 == b;
                                if k < e0.len() {
                                    assert(e0[k] == trans_edges@[k]);
                                    assert(has_edge(e0, a, b));
                                }
                            }
                            if has_edge(e0, a, b) {
                                let k = choose|k: int| 0 <= k < e0.len() && e0[k].0 == a && e0[k].1 == b;
                                assert(trans_edges@[k] == e0[k]);
                            }
                            if a == i && b == j {
                                assert(trans_edges@[e0.len() as int] == (i as u32, j as u32));
                            }
                        }
                    }
                }
            }
            j = j + 1;
        }
        i = i + 1;
    }
    let mut support: Vec<u32> = Vec::new();
    let mut nodes: Vec<(BitSet, BitSet)> = Vec::new();
    let mut k: usize = 0;
    while k < n
        invariant
            n == concepts@.len(),
            k <= n,
            support@ == concepts@.map_values(|c: (BitSet, BitSet, u32)| c.2).take(k as int),
            node_views(nodes@) == concept_nodes(concepts@).take(k as int),
        decreases n - k,
    {
        support.push(concepts[k].2);
        let node = (concepts[k].0.clone(), concepts[k].1.clone());
        let ghost n0 = nodes@;
        nodes.push(node);
        assert(node_views(nodes@) == node_views(n0).push((node.0@, node.1@)));
        assert(concept_nodes(concepts@).take(k + 1) == concept_nodes(concepts@).take(k as int).push(
            concept_nodes(concepts@)[k as int],
        ));
        assert(concepts@.map_values(|c: (BitSet, BitSet, u32)| c.2).take(k + 1) == concepts@.map_values(
            |c: (BitSet, BitSet, u32)| c.2,
        ).take(k as int).push(concepts@[k as int].2));
        k = k + 1;
    }
    assert(concept_nodes(concepts@).take(n as int) == concept_nodes(concepts@));
    assert(concepts@.map_values(|c: (BitSet, BitSet, u32)| c.2).take(n as int) == concepts@.map_values(
        |c: (BitSet, BitSet, u32)| c.2,
    ));
    let ghost es = trans_edges@;
    let ghost cs = concepts@;
    proof {
        assert forall|a: int, b: int, c: int|
            #[trigger] has_edge(es, a, b) && #[trigger] has_edge(es, b, c) implies has_edge(es, a, c) by {
            assert(proper_subset(cs[a].0@, cs[c].0@)) by {
                if cs[a].0@ == cs[c].0@ {
                    assert(cs[b].0@ =~= cs[a].0@);
                }
            }
        }
    }
    let poset = match Poset::from_transitive_relation(nodes, trans_edges) {
        Ok(p) => p,
        Err(_) => {
            proof {
                let pot = |u: int| if 0 <= u < cs.len() { cs[u].0@.len() } else { 0 };
                assert forall|k: int| 0 <= k < es.len() implies pot(#[trigger] es[k].0 as int) < pot(es[k].1 as int) by {
                    let (a, b) = (es[k].0 as int, es[k].1 as int);
                    assert(has_edge(es, a, b));
                    lemma_proper_subset_len(cs[a].0@, cs[b].0@);
                }
                lemma_potential_no_core(n as nat, es, pot);
            }
            vstd::pervasive::unreached()
        },
    };
    proof {
        assert forall|u: int, v: usize|
            0 <= u < cs.len() && v < cs.len() implies (#[trigger] poset.reach@[u]@.contains(v)
                <==> proper_subset(cs[u].0@, cs[v as int].0@)) by {
            if proper_subset(cs[u].0@, cs[v as int].0@) {
                assert(u != v as int);
            }
        }
    }
    IcebergLattice::new(poset, support, total_objects)
}


// ---- the enumeration ---------------------------------------------------------------

/// The list holds `key`.
fn holds_intent_key(keys: &[Vec<usize>], key: &[usize]) -> (r: bool)
    ensures
        r == exists|j: int| 0 <= j < keys@.len() && keys@[j]@ == key@,
{
    let mut i: usize = 0;
    while i < keys.len()
        invariant
            i <= keys@.len(),
            forall|j: int| 0 <= j < i ==> keys@[j]@ != key@,
        decreases keys@.len() - i,
    {
        if usizes_eq(keys[i].as_slice(), key) {
            return true;
        }
        i = i + 1;
    }
    false
}

/// A node of an iceberg lattice: a formal concept, with its support, at
/// least the threshold.
pub open spec fn is_iceberg_concept<T>(
    ctx: FormalContext<T>,
    e: Set<usize>,
    i: Set<usize>,
    s: u32,
    min_support: u32,
) -> bool {
    &&& i == ctx.intent_of(e)
    &&& e == ctx.extent_of(i)
    &&& e.finite()
    &&& s as nat == e.len()
    &&& s >= min_support
}

/// Some concept found so far has extent `e`.
pub open spec fn has_extent(cs: Seq<(BitSet, BitSet, u32)>, e: Set<usize>) -> bool {
    exists|i: int| 0 <= i < cs.len() && (#[trigger] cs[i]).0@ == e
}

/// For each of the first `k` attributes with at least `min_support`
/// objects, its attribute concept is among those found.
pub open spec fn attribute_concepts_found<T>(ctx: FormalContext<T>, cs: Seq<(BitSet, BitSet, u32)>, min_support: u32, k: nat) -> bool {
    forall|m: usize|
        m < k && ctx.extent_of(set![m]).len() >= min_support ==> #[trigger] has_extent(cs, ctx.extent_of(set![m]))
}

proof fn lemma_found_grows<T>(ctx: FormalContext<T>, a: Seq<(BitSet, BitSet, u32)>, b: Seq<(BitSet, BitSet, u32)>, min_support: u32, k: nat)
    requires
        attribute_concepts_found(ctx, a, min_support, k),
        a.len() <= b.len(),
        forall|x: int| 0 <= x < a.len() ==> b[x] == a[x],
    ensures
        attribute_concepts_found(ctx, b, min_support, k),
{
    assert forall|m: usize| m < k && ctx.extent_of(set![m]).len() >= min_support implies #[trigger] has_extent(
        b,
        ctx.extent_of(set![m]),
    ) by {
        assert(has_extent(a, ctx.extent_of(set![m])));
        let i = choose|i: int| 0 <= i < a.len() && (#[trigger] a[i]).0@ == ctx.extent_of(set![m]);
        assert(b[i] == a[i]);
    }
}

/// The concepts found so far: iceberg concepts with pairwise different
/// intents, each recorded under the ascending list of its intent.
pub open spec fn concepts_ok<T>(
    ctx: FormalContext<T>,
    cs: Seq<(BitSet, BitSet, u32)>,
    seen: Seq<Vec<usize>>,
    min_support: u32,
) -> bool {
    &&& seen.len() == cs.len()
    &&& forall|x: int|
        0 <= x < cs.len() ==> strictly_increasing(#[trigger] seen[x]@) && seen[x]@.to_set()
            == cs[x].1@
    &&& forall|x: int|
        0 <= x < cs.len() ==> is_iceberg_concept(ctx, (#[trigger] cs[x]).0@, cs[x].1@, cs[x].2, min_support)
    &&& forall|x: int, y: int| 0 <= x < y < cs.len() ==> (#[trigger] cs[x]).1@ != (#[trigger] cs[y]).1@
}

/// Records the concept with extent `extent` (the extent of an attribute
/// set) unless its intent was seen before.
fn record_concept<T>(
    ctx: &FormalContext<T>,
    concepts: &mut Vec<(BitSet, BitSet, u32)>,
    seen: &mut Vec<Vec<usize>>,
    extent: BitSet,
    support: u32,
    min_support: u32,
    Ghost(attrs): Ghost<Set<usize>>,
)
    requires
        ctx.wf(),
        ctx.objects@.len() <= u32::MAX,
        concepts_ok(*ctx, old(concepts)@, old(seen)@, min_support),
        forall|m: usize| #[trigger] attrs.contains(m) ==> m < ctx.attributes@.len(),
        extent@ == ctx.extent_of(attrs),
        support as nat == extent@.len(),
        extent@.finite(),
        support >= min_support,
    ensures
        concepts_ok(*ctx, final(concepts)@, final(seen)@, min_support),
        final(concepts)@.len() >= old(concepts)@.len(),
        forall|x: int| 0 <= x < old(concepts)@.len() ==> final(concepts)@[x] == old(concepts)@[x],
        (exists|x: int| 0 <= x < old(concepts)@.len() && (#[trigger] old(concepts)@[x]).1@ == ctx.intent_of(extent@))
            ==> final(concepts)@ == old(concepts)@,
        !(exists|x: int| 0 <= x < old(concepts)@.len() && (#[trigger] old(concepts)@[x]).1@ == ctx.intent_of(extent@))
            ==> {
            &&& final(concepts)@.len() == old(concepts)@.len() + 1
            &&& final(concepts)@.last().0@ == extent@
            &&& final(concepts)@.last().1@ == ctx.intent_of(extent@)
            &&& final(concepts)@.last().2 == support
        },
{
    let closure = closure_from_extent(&extent, ctx.attributes.len(), ctx);
    let key = bitset_key(&closure);
    proof {
        assert forall|x: int| 0 <= x < concepts@.len() && #[trigger] concepts@[x].1@ == closure@ implies seen@[x]@
            == key@ by {
            lemma_sorted_unique(seen@[x]@, key@);
        }
        assert forall|x: int| 0 <= x < seen@.len() && #[trigger] seen@[x]@ == key@ implies concepts@[x].1@
            == closure@ by {}
    }
    if !holds_intent_key(seen.as_slice(), key.as_slice()) {
        proof {
            ctx.lemma_attribute_hull_closure(attrs, attrs);
            assert forall|x: int| 0 <= x < concepts@.len() implies concepts@[x].1@ != closure@ by {
                if concepts@[x].1@ == closure@ {
                    lemma_sorted_unique(seen@[x]@, key@);
                }
            }
        }
        let ghost c0 = concepts@;
        let ghost s0 = seen@;
        seen.push(key);
        concepts.push((extent, closure, support));
        proof {
            assert forall|x: int, y: int| 0 <= x < y < concepts@.len() implies (#[trigger] concepts@[x]).1@
                != (#[trigger] concepts@[y]).1@ by {
                if y == c0.len() {
                    assert(concepts@[x] == c0[x]);
                } else {
                    assert(concepts@[x] == c0[x] && concepts@[y] == c0[y]);
                }
            }
            assert forall|x: int| 0 <= x < concepts@.len() implies strictly_increasing(#[trigger] seen@[x]@)
                && seen@[x]@.to_set() == concepts@[x].1@ by {
                if x < c0.len() {
                    assert(seen@[x] == s0[x] && concepts@[x] == c0[x]);
                }
            }
            assert forall|x: int| 0 <= x < concepts@.len() implies is_iceberg_concept(
                *ctx,
                (#[trigger] concepts@[x]).0@,
                concepts@[x].1@,
                concepts@[x].2,
                min_support,
            ) by {
                if x < c0.len() {
                    assert(concepts@[x] == c0[x]);
                }
            }
        }
    }
}

/// The columns of the named attributes, intersected: the extent of the
/// attribute set the key names.
fn key_extent<T>(ctx: &FormalContext<T>, candidate: &[u16]) -> (r: BitSet)
    requires
        ctx.wf(),
        candidate@.len() >= 1,
        forall|x: int| 0 <= x < candidate@.len() ==> (#[trigger] candidate@[x] as nat) < ctx.attributes@.len(),
    ensures
        r@ == ctx.extent_of(attr_set(candidate@)),
{
    proof {
        ctx.lemma_wf();
    }
    let mut extent = ctx.atomic_attribute_derivations[candidate[0] as usize].clone();
    assert(extent@ =~= ctx.extent_of(attr_set(candidate@.take(1)))) by {
        assert forall|g: usize| extent@.contains(g) <==> ctx.extent_of(attr_set(candidate@.take(1))).contains(g) by {
            if ctx.extent_of(attr_set(candidate@.take(1))).contains(g) {
                assert(attr_set(candidate@.take(1)).contains(candidate@[0] as usize)) by {
                    assert(candidate@.take(1)[0] as usize == candidate@[0] as usize);
                }
            }
            if extent@.contains(g) {
                assert forall|m: usize| #[trigger] attr_set(candidate@.take(1)).contains(m) implies ctx.incident(g, m) by {
                    let i = choose|i: int| 0 <= i < candidate@.take(1).len() && candidate@.take(1)[i] as usize == m;
                }
            }
        }
    }
    let mut x: usize = 1;
    while x < candidate.len()
        invariant
            ctx.wf(),
            1 <= x <= candidate@.len(),
            forall|x: int| 0 <= x < candidate@.len() ==> (#[trigger] candidate@[x] as nat) < ctx.attributes@.len(),
            extent@ == ctx.extent_of(attr_set(candidate@.take(x as int))),
            forall|m: int, g: usize|
                0 <= m < ctx.attributes@.len() ==> (
                #[trigger] ctx.atomic_attribute_derivations@[m]@.contains(g) <==> (g
                    < ctx.objects@.len() && ctx.incident(g, m as usize))),
        decreases candidate@.len() - x,
    {
        let m = candidate[x] as usize;
        let ghost e0 = extent@;
        extent.intersect_with(&ctx.atomic_attribute_derivations[m]);
        proof {
            let t0 = candidate@.take(x as int);
            let t1 = candidate@.take(x + 1);
            assert(attr_set(t1) =~= attr_set(t0).insert(m)) by {
                assert forall|a: usize| attr_set(t1).contains(a) implies attr_set(t0).insert(m).contains(a) by {
                    let i = choose|i: int| 0 <= i < t1.len() && t1[i] as usize == a;
                    if i < x {
                        assert(t0[i] == t1[i]);
                    }
                }
                assert forall|a: usize| attr_set(t0).insert(m).contains(a) implies attr_set(t1).contains(a) by {
                    if a == m {
                        assert(t1[x as int] as usize == a);
                    } else {
                        let i = choose|i: int| 0 <= i < t0.len() && t0[i] as usize == a;
                        assert(t1[i] == t0[i]);
                    }
                }
            }
            assert forall|g: usize| #[trigger] extent@.contains(g) <==> ctx.extent_of(attr_set(t1)).contains(g) by {
                assert(ctx.atomic_attribute_derivations@[m as int]@.contains(g) <==> (g < ctx.objects@.len()
                    && ctx.incident(g, m)));
                assert(extent@.contains(g) <==> (e0.contains(g) && ctx.atomic_attribute_derivations@[m as int]@.contains(g)));
                if ctx.extent_of(attr_set(t1)).contains(g) {
                    assert forall|m2: usize| #[trigger] attr_set(t0).contains(m2) implies ctx.incident(g, m2) by {
                        assert(attr_set(t1).contains(m2));
                    }
                    assert(attr_set(t1).contains(m));
                }
                if extent@.contains(g) {
                    assert forall|m2: usize| #[trigger] attr_set(t1).contains(m2) implies ctx.incident(g, m2) by {
                        if m2 != m {
                            assert(attr_set(t0).contains(m2));
                        }
                    }
                }
            }
            assert(extent@ =~= ctx.extent_of(attr_set(t1)));
        }
        x = x + 1;
    }
    assert(candidate@.take(candidate@.len() as int) == candidate@);
    extent
}

/// The iceberg concepts of the context with support at least `min_support`,
/// found level by level from the key sets.
///
/// More than `u32::MAX` concepts cannot be numbered by the poset's `u32`
/// node ids; the empty lattice stands for that case.
pub fn titanic_enumerate<T>(ctx: &FormalContext<T>, min_support: u32) -> (r: IcebergLattice)
    requires
        ctx.wf(),
        ctx.objects@.len() <= u32::MAX,
    ensures
        r.total_objects == ctx.objects@.len(),
        r.support@.len() == r.poset.nodes@.len(),
        r.poset.wf(),
        (ctx.objects@.len() == 0 || min_support > ctx.objects@.len()) ==> r.poset.nodes@.len() == 0,
        r.poset.nodes@.len() > 0 ==> r.poset.nodes@[0].0@ == below(ctx.objects@.len()),
        forall|i: int|
            0 <= i < r.poset.nodes@.len() ==> is_iceberg_concept(
                *ctx,
                (#[trigger] r.poset.nodes@[i]).0@,
                r.poset.nodes@[i].1@,
                r.support@[i],
                min_support,
            ),
        forall|i: int, j: int|
            0 <= i < j < r.poset.nodes@.len() ==> (#[trigger] r.poset.nodes@[i]).1@
                != (#[trigger] r.poset.nodes@[j]).1@,
        forall|u: int, v: usize|
            0 <= u < r.poset.nodes@.len() && v < r.poset.nodes@.len() ==> (
            #[trigger] r.poset.reach@[u]@.contains(v) <==> proper_subset(
                r.poset.nodes@[u].0@,
                r.poset.nodes@[v as int].0@,
            )),
        r.poset.nodes@.len() > 0 ==> forall|m: usize|
            m < ctx.attributes@.len() && ctx.extent_of(set![m]).len() >= min_support ==> exists|i: int|
                0 <= i < r.poset.nodes@.len() && (#[trigger] r.poset.nodes@[i]).0@ == ctx.extent_of(set![m]),
{
    proof {
        ctx.lemma_wf();
    }
    let num_objects = ctx.objects.len();
    let num_attrs = ctx.attributes.len();
    let total_objects = num_objects as u32;
    if num_objects == 0 || min_support > total_objects {
        return IcebergLattice::empty(total_objects);
    }
    let mut all_objects = BitSet::with_capacity(num_objects);
    let mut i: usize = 0;
    while i < num_objects
        invariant
            i <= num_objects,
            all_objects@ == below(i as nat),
        decreases num_objects - i,
    {
        all_objects.insert(i);
        i = i + 1;
        assert(all_objects@ =~= below(i as nat));
    }
    assert(all_objects@ =~= ctx.extent_of(Set::empty()));
    proof {
        lemma_below_len(all_objects@, num_objects as nat);
        vstd::set_lib::lemma_int_range(0, num_objects as int);
        assert(all_objects@.len() == num_objects) by {
            let f = |x: usize| x as int;
            assert(vstd::relations::injective_on(f, all_objects@));
            vstd::set_lib::lemma_map_size(all_objects@, all_objects@.map(f), f);
            assert(all_objects@.map(f) =~= vstd::set_lib::set_int_range(0, num_objects as int)) by {
                assert forall|x: int| vstd::set_lib::set_int_range(0, num_objects as int).contains(x) implies all_objects@.map(f).contains(x) by {
                    assert(all_objects@.contains(x as usize));
                    assert(f(x as usize) == x);
                }
            }
        }
    }
    let empty_closure = closure_from_extent(&all_objects, num_attrs, ctx);
    let mut seen_intents: Vec<Vec<usize>> = Vec::new();
    let mut concepts: Vec<(BitSet, BitSet, u32)> = Vec::new();
    proof {
        ctx.lemma_attribute_hull_closure(Set::empty(), Set::empty());
    }
    seen_intents.push(bitset_key(&empty_closure));
    concepts.push((all_objects, empty_closure.clone(), total_objects));
    assert(concepts_ok(*ctx, concepts@, seen_intents@, min_support));
    let mut support_map: Vec<(Vec<u16>, u32)> = Vec::new();
    support_map.push((Vec::new(), total_objects));
    let mut prev_key_sets: Vec<Vec<u16>> = Vec::new();
    let ghost top = concepts@[0];
    let mut m: usize = 0;
    while m < num_attrs
        invariant
            ctx.wf(),
            num_attrs == ctx.attributes@.len(),
            num_objects == ctx.objects@.len(),
            num_objects <= u32::MAX,
            m <= num_attrs,
            concepts_ok(*ctx, concepts@, seen_intents@, min_support),
            concepts@.len() >= 1,
            concepts@[0] == top,
            top.0@ == below(num_objects as nat),
            level_ok(key_views(prev_key_sets@), 1, num_attrs as nat),
            empty_closure@ == ctx.intent_of(below(num_objects as nat)),
            attribute_concepts_found(*ctx, concepts@, min_support, m as nat),
        decreases num_attrs - m,
    {
        if empty_closure.contains(m) {
            proof {
                assert(ctx.extent_of(set![m]) =~= below(num_objects as nat)) by {
                    assert forall|g: usize| below(num_objects as nat).contains(g) implies ctx.extent_of(set![m]).contains(g) by {
                        assert(ctx.intent_of(below(num_objects as nat)).contains(m));
                    }
                }
                assert(concepts@[0].0@ == ctx.extent_of(set![m]));
                assert(has_extent(concepts@, ctx.extent_of(set![m])));
                assert forall|m2: usize| m2 < m + 1 && ctx.extent_of(set![m2]).len() >= min_support implies #[trigger] has_extent(
                    concepts@,
                    ctx.extent_of(set![m2]),
                ) by {
                    if m2 < m {
                    }
                }
            }
            m = m + 1;
            continue;
        }
        let extent = ctx.atomic_attribute_derivations[m].clone();
        proof {
            assert(extent@ =~= ctx.extent_of(Set::<usize>::empty().insert(m))) by {
                assert forall|g: usize| extent@.contains(g) <==> ctx.extent_of(Set::<usize>::empty().insert(m)).contains(g) by {
                    assert(ctx.atomic_attribute_derivations@[m as int]@.contains(g) <==> (g < ctx.objects@.len()
                        && ctx.incident(g, m)));
                    if extent@.contains(g) {
                        assert forall|m2: usize| #[trigger] Set::<usize>::empty().insert(m).contains(m2) implies ctx.incident(g, m2) by {
                        }
                    }
                    if ctx.extent_of(Set::<usize>::empty().insert(m)).contains(g) {
                        assert(Set::<usize>::empty().insert(m).contains(m));
                    }
                }
            }
            lemma_below_len(extent@, num_objects as nat);
        }
        let support = extent.len() as u32;
        if support < min_support {
            proof {
                assert(set![m] =~= Set::<usize>::empty().insert(m));
                assert forall|m2: usize| m2 < m + 1 && ctx.extent_of(set![m2]).len() >= min_support implies #[trigger] has_extent(
                    concepts@,
                    ctx.extent_of(set![m2]),
                ) by {
                    if m2 < m {
                    }
                }
            }
            m = m + 1;
            continue;
        }
        let ghost c0 = concepts@;
        let ghost single = Set::<usize>::empty().insert(m);
        let ghost ext_m = extent@;
        record_concept(ctx, &mut concepts, &mut seen_intents, extent, support, min_support, Ghost(single));
        proof {
            assert(set![m] =~= single);
            lemma_found_grows(*ctx, c0, concepts@, min_support, m as nat);
            ctx.lemma_attribute_hull_closure(single, single);
            if exists|x: int| 0 <= x < c0.len() && (#[trigger] c0[x]).1@ == ctx.intent_of(ext_m) {
                let x = choose|x: int| 0 <= x < c0.len() && (#[trigger] c0[x]).1@ == ctx.intent_of(ext_m);
                assert(is_iceberg_concept(*ctx, c0[x].0@, c0[x].1@, c0[x].2, min_support));
                assert(concepts@[x] == c0[x]);
                assert(concepts@[x].0@ == ext_m);
            } else {
                assert(concepts@.last().0@ == ext_m);
                assert(concepts@[concepts@.len() - 1].0@ == ext_m);
            }
            assert(has_extent(concepts@, ctx.extent_of(set![m])));
        }
        let itemset: Vec<u16> = vec![m as u16];
        proof {
            let v = m as u16;
            assert((v as usize) <= m) by (bit_vector)
                requires
                    v == m as u16,
            ;
        }
        support_map.push((copy_u16s(itemset.as_slice()), support));
        let ghost p0 = key_views(prev_key_sets@);
        prev_key_sets.push(itemset);
        proof {
            assert(key_views(prev_key_sets@) == p0.push(itemset@));
            assert(concepts@[0] == c0[0]);
        }
        m = m + 1;
    }
    let ghost mut level: nat = 1;
    loop
        invariant
            ctx.wf(),
            num_attrs == ctx.attributes@.len(),
            num_objects == ctx.objects@.len(),
            num_objects <= u32::MAX,
            concepts_ok(*ctx, concepts@, seen_intents@, min_support),
            concepts@.len() >= 1,
            concepts@[0] == top,
            top.0@ == below(num_objects as nat),
            1 <= level <= 65536,
            level_ok(key_views(prev_key_sets@), level, num_attrs as nat),
            attribute_concepts_found(*ctx, concepts@, min_support, num_attrs as nat),
        decreases 65536 - level,
    {
        if prev_key_sets.len() < 2 {
            break;
        }
        proof {
            assert forall|i: int| 0 <= i < prev_key_sets@.len() implies #[trigger] prev_key_sets@[i]@.len() == level by {
                assert(key_views(prev_key_sets@)[i] == prev_key_sets@[i]@);
            }
        }
        let candidates = apriori_gen(prev_key_sets.as_slice());
        proof {
            let kv = key_views(prev_key_sets@);
            assert(kv == prev_key_sets@.map_values(|v: Vec<u16>| v@));
            lemma_apriori_level(kv, level, num_attrs as nat, kv.len() as int);
        }
        if candidates.len() == 0 {
            break;
        }
        let mut next_key_sets: Vec<Vec<u16>> = Vec::new();
        let mut ci: usize = 0;
        while ci < candidates.len()
            invariant
                ctx.wf(),
                num_attrs == ctx.attributes@.len(),
                num_objects == ctx.objects@.len(),
                num_objects <= u32::MAX,
                concepts_ok(*ctx, concepts@, seen_intents@, min_support),
                concepts@.len() >= 1,
                concepts@[0] == top,
                1 <= level <= 65536,
                level_ok(candidates@.map_values(|v: Vec<u16>| v@), level + 1, num_attrs as nat),
                level_ok(key_views(next_key_sets@), level + 1, num_attrs as nat),
                ci <= candidates@.len(),
                attribute_concepts_found(*ctx, concepts@, min_support, num_attrs as nat),
            decreases candidates@.len() - ci,
        {
            let candidate = &candidates[ci];
            proof {
                assert(candidate@ == candidates@.map_values(|v: Vec<u16>| v@)[ci as int]);
            }
            if !all_k_minus_1_subsets_in_keys(candidate.as_slice(), prev_key_sets.as_slice()) {
                ci = ci + 1;
                continue;
            }
            let extent = key_extent(ctx, candidate.as_slice());
            proof {
                lemma_below_len(extent@, num_objects as nat);
            }
            let support = extent.len() as u32;
            if support < min_support {
                ci = ci + 1;
                continue;
            }
            let ps = min_support_of_subsets(candidate.as_slice(), support_map.as_slice());
            if support >= ps {
                ci = ci + 1;
                continue;
            }
            let ghost c0 = concepts@;
            let ghost attrs = attr_set(candidate@);
            record_concept(ctx, &mut concepts, &mut seen_intents, extent, support, min_support, Ghost(attrs));
            proof {
                lemma_found_grows(*ctx, c0, concepts@, min_support, num_attrs as nat);
            }
            support_map.push((copy_u16s(candidate.as_slice()), support));
            let ghost n0 = key_views(next_key_sets@);
            next_key_sets.push(copy_u16s(candidate.as_slice()));
            proof {
                assert(key_views(next_key_sets@) == n0.push(candidate@));
                assert(concepts@[0] == c0[0]);
            }
            ci = ci + 1;
        }
        if next_key_sets.len() == 0 {
            break;
        }
        proof {
            lemma_increasing_u16_len(key_views(next_key_sets@)[0]);
            level = level + 1;
        }
        prev_key_sets = next_key_sets;
    }
    if concepts.len() > 4294967295usize {
        return IcebergLattice::empty(total_objects);
    }
    let ghost cs = concepts@;
    let r = build_iceberg_lattice(concepts, total_objects);
    proof {
        assert(node_views(r.poset.nodes@).len() == r.poset.nodes@.len());
        assert(concept_nodes(cs).len() == cs.len());
        assert(r.poset.nodes@.len() == cs.len());
        assert forall|i: int| 0 <= i < r.poset.nodes@.len() implies is_iceberg_concept(
            *ctx,
            (#[trigger] r.poset.nodes@[i]).0@,
            r.poset.nodes@[i].1@,
            r.support@[i],
            min_support,
        ) by {
            assert(node_views(r.poset.nodes@)[i] == concept_nodes(cs)[i]);
            assert(r.support@[i] == cs[i].2);
            assert(is_iceberg_concept(*ctx, cs[i].0@, cs[i].1@, cs[i].2, min_support));
        }
        assert forall|i: int, j: int| 0 <= i < j < r.poset.nodes@.len() implies (#[trigger] r.poset.nodes@[i]).1@
            != (#[trigger] r.poset.nodes@[j]).1@ by {
            assert(node_views(r.poset.nodes@)[i] == concept_nodes(cs)[i]);
            assert(node_views(r.poset.nodes@)[j] == concept_nodes(cs)[j]);
            assert(cs[i].1@ != cs[j].1@);
        }
        assert(node_views(r.poset.nodes@)[0] == concept_nodes(cs)[0]);
        assert forall|m: usize| m < ctx.attributes@.len() && ctx.extent_of(set![m]).len() >= min_support implies exists|i: int|
            0 <= i < r.poset.nodes@.len() && (#[trigger] r.poset.nodes@[i]).0@ == ctx.extent_of(set![m]) by {
            assert(has_extent(cs, ctx.extent_of(set![m])));
            let i = choose|i: int| 0 <= i < cs.len() && (#[trigger] cs[i]).0@ == ctx.extent_of(set![m]);
            assert(node_views(r.poset.nodes@)[i] == concept_nodes(cs)[i]);
        }
        assert forall|u: int, v: usize|
            0 <= u < r.poset.nodes@.len() && v < r.poset.nodes@.len() implies (
            #[trigger] r.poset.reach@[u]@.contains(v) <==> proper_subset(
                r.poset.nodes@[u].0@,
                r.poset.nodes@[v as int].0@,
            )) by {
            assert(node_views(r.poset.nodes@)[u] == concept_nodes(cs)[u]);
            assert(node_views(r.poset.nodes@)[v as int] == concept_nodes(cs)[v as int]);
        }
    }
    r
}

impl Titanic {
    /// Enumerate all concepts with support ≥ `min_support`, ordered by
    /// extent inclusion.
    pub fn enumerate<T>(&self, ctx: &FormalContext<T>, min_support: u32) -> (r: IcebergLattice)
        requires
            ctx.wf(),
            ctx.objects@.len() <= u32::MAX,
        ensures
            r.total_objects == ctx.objects@.len(),
            r.support@.len() == r.poset.nodes@.len(),
            r.poset.wf(),
            (ctx.objects@.len() == 0 || min_support > ctx.objects@.len()) ==> r.poset.nodes@.len() == 0,
            forall|i: int|
                0 <= i < r.poset.nodes@.len() ==> is_iceberg_concept(
                    *ctx,
                    (#[trigger] r.poset.nodes@[i]).0@,
                    r.poset.nodes@[i].1@,
                    r.support@[i],
                    min_support,
                ),
    {
        titanic_enumerate(ctx, min_support)
    }
}

} // verus!
