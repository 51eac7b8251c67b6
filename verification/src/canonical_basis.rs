//! Implications between attribute sets: closure under a set of
//! implications, the lectic next preclosed set, and the Duquenne–Guigues
//! canonical basis.
use crate::bitset::{strictly_increasing, BitSet};
use crate::formal_context::FormalContext;
use vstd::prelude::*;

verus! {

/// Zero-size handle for the canonical implication basis algorithm.
pub struct CanonicalBasis;

/// Every implication holds in `s`: where the premise is in `s`, so is the
/// conclusion.
pub open spec fn respects(imps: Seq<(BitSet, BitSet)>, s: Set<usize>) -> bool {
    forall|i: int|
        0 <= i < imps.len() ==> (#[trigger] imps[i].0@.subset_of(s) ==> imps[i].1@.subset_of(s))
}

/// `out` is the closure of `input` under the implications: the least set
/// that contains `input` and in which every implication holds.
pub open spec fn is_implication_closure(
    imps: Seq<(BitSet, BitSet)>,
    input: Set<usize>,
    out: Set<usize>,
) -> bool {
    &&& input.subset_of(out)
    &&& respects(imps, out)
    &&& forall|s: Set<usize>| input.subset_of(s) && #[trigger] respects(imps, s) ==> out.subset_of(s)
}

proof fn lemma_subset_trans(a: Set<usize>, b: Set<usize>, c: Set<usize>)
    requires
        a.subset_of(b),
        b.subset_of(c),
    ensures
        a.subset_of(c),
{
}

/// The closure of `input` under the implications.
///
/// Each round applies every implication whose premise holds; an implication
/// is dropped once it has fired, and the rounds stop when one changes
/// nothing.
pub fn index_implication_closure(implications: &[(BitSet, BitSet)], input: &BitSet) -> (r: BitSet)
    ensures
        is_implication_closure(implications@, input@, r@),
{
    let ghost imps = implications@;
    let mut active: Vec<usize> = Vec::new();
    let mut i: usize = 0;
    while i < implications.len()
        invariant
            i <= imps.len(),
            imps == implications@,
            active@ == Seq::new(i as nat, |x: int| x as usize),
        decreases imps.len() - i,
    {
        active.push(i);
        i = i + 1;
        assert(active@ =~= Seq::new(i as nat, |x: int| x as usize));
    }
    let mut output = input.clone();
    assert(implications@.len() == implications.len());
    assert forall|k: int| 0 <= k < imps.len() implies #[trigger] active@.contains(k as usize) by {
        assert(active@[k] == k as usize);
    }
    loop
        invariant
            imps == implications@,
            imps.len() <= usize::MAX,
            input@.subset_of(output@),
            forall|s: Set<usize>| input@.subset_of(s) && #[trigger] respects(imps, s) ==> output@.subset_of(s),
            strictly_increasing(active@),
            forall|x: int| 0 <= x < active@.len() ==> #[trigger] active@[x] < imps.len(),
            forall|k: int| 0 <= k < imps.len() && !active@.contains(k as usize) ==> #[trigger] imps[k].1@.subset_of(
                output@,
            ),
        ensures
            is_implication_closure(imps, input@, output@),
        decreases active@.len(),
    {
        let mut changed = false;
        let mut to_remove: Vec<usize> = Vec::new();
        let ghost out0 = output@;
        assert(forall|k: int| 0 <= k < imps.len() && !active@.contains(k as usize) ==> #[trigger] imps[k].1@.subset_of(
            out0,
        ));
        let mut i: usize = 0;
        while i < active.len()
            invariant
                imps == implications@,
                imps.len() <= usize::MAX,
                input@.subset_of(output@),
                out0.subset_of(output@),
                forall|k: int| 0 <= k < imps.len() && !active@.contains(k as usize) ==> #[trigger] imps[k].1@.subset_of(
                    out0,
                ),
                forall|s: Set<usize>| input@.subset_of(s) && #[trigger] respects(imps, s) ==> output@.subset_of(s),
                forall|x: int| 0 <= x < active@.len() ==> #[trigger] active@[x] < imps.len(),
                i <= active@.len(),
                strictly_increasing(to_remove@),
                forall|y: int| 0 <= y < to_remove@.len() ==> #[trigger] to_remove@[y] < i,
                forall|y: int|
                    0 <= y < to_remove@.len() ==> #[trigger] imps[active@[to_remove@[y] as int] as int].1@.subset_of(
                        output@,
                    ),
                !changed ==> output@ == out0,
                !changed ==> forall|x: int|
                    0 <= x < i && !to_remove@.contains(x as usize) ==> !#[trigger] imps[active@[x] as int].0@.subset_of(
                        output@,
                    ),
                changed ==> to_remove@.len() > 0,
            decreases active@.len() - i,
        {
            let k = active[i];
            let ghost o_start = output@;
            let premise = &implications[k].0;
            let conclusion = &implications[k].1;
            if premise.is_subset(&output) {
                if !conclusion.is_subset(&output) {
                    let ghost o1 = output@;
                    output.union_with(conclusion);
                    changed = true;
                    proof {
                        assert forall|s: Set<usize>| input@.subset_of(s) && #[trigger] respects(imps, s) implies output@.subset_of(s) by {
                            assert(o1.subset_of(s));
                            assert(imps[k as int].0@.subset_of(s));
                        }
                    }
                }
                let ghost t0 = to_remove@;
                to_remove.push(i);
                proof {
                    assert(o_start.subset_of(output@));
                    assert(imps[k as int].1@.subset_of(output@));
                    assert forall|y: int|
                        0 <= y < to_remove@.len() implies #[trigger] imps[active@[to_remove@[y] as int] as int].1@.subset_of(
                            output@,
                        ) by {
                        if y < t0.len() {
                            assert(to_remove@[y] == t0[y]);
                            lemma_subset_trans(imps[active@[t0[y] as int] as int].1@, o_start, output@);
                        }
                    }
                    if !changed {
                        assert forall|x: int|
                            0 <= x < i + 1 && !to_remove@.contains(x as usize) implies !#[trigger] imps[active@[x] as int].0@.subset_of(
                                output@,
                            ) by {
                            if x < i {
                                if t0.contains(x as usize) {
                                    let y = choose|y: int| 0 <= y < t0.len() && t0[y] == x as usize;
                                    assert(to_remove@[y] == x as usize);
                                }
                            } else {
                                assert(to_remove@[t0.len() as int] == x as usize);
                            }
                        }
                    }
                }
            } else {
                proof {
                    if !changed {
                        assert forall|x: int|
                            0 <= x < i + 1 && !to_remove@.contains(x as usize) implies !#[trigger] imps[active@[x] as int].0@.subset_of(
                                output@,
                            ) by {
                        }
                    }
                }
            }
            i = i + 1;
        }
        if !changed && to_remove.len() == 0 {
            proof {
                assert forall|k: int| 0 <= k < imps.len() implies (#[trigger] imps[k].0@.subset_of(output@)
                    ==> imps[k].1@.subset_of(output@)) by {
                    if active@.contains(k as usize) {
                        let x = choose|x: int| 0 <= x < active@.len() && active@[x] == k as usize;
                        assert(!to_remove@.contains(x as usize));
                        assert(!imps[active@[x] as int].0@.subset_of(output@));
                    } else {
                        assert(imps[k].1@.subset_of(out0));
                        lemma_subset_trans(imps[k].1@, out0, output@);
                    }
                }
            }
            break;
        }
        let mut next_active: Vec<usize> = Vec::new();
        let mut j: usize = 0;
        let mut x: usize = 0;
        while x < active.len()
            invariant
                x <= active@.len(),
                j <= to_remove@.len(),
                strictly_increasing(to_remove@),
                strictly_increasing(active@),
                forall|y: int| 0 <= y < to_remove@.len() ==> #[trigger] to_remove@[y] < active@.len(),
                forall|y: int| 0 <= y < j ==> #[trigger] to_remove@[y] < x,
                forall|y: int| j <= y < to_remove@.len() ==> #[trigger] to_remove@[y] >= x,
                next_active@.len() + j == x,
                strictly_increasing(next_active@),
                forall|z: int| 0 <= z < next_active@.len() ==> #[trigger] active@.contains(next_active@[z]),
                next_active@.len() > 0 ==> exists|w: int| 0 <= w < x && active@[w] == next_active@.last(),
                forall|w: int|
                    0 <= w < x ==> (#[trigger] next_active@.contains(active@[w]) <==> !to_remove@.contains(
                        w as usize,
                    )),
            decreases active@.len() - x,
        {
            if j < to_remove.len() && to_remove[j] == x {
                j = j + 1;
                proof {
                    assert forall|w: int| 0 <= w < x + 1 implies (#[trigger] next_active@.contains(active@[w])
                        <==> !to_remove@.contains(w as usize)) by {
                        if w == x {
                            assert(to_remove@[j - 1] == x);
                            if next_active@.contains(active@[w]) {
                                let z = choose|z: int| 0 <= z < next_active@.len() && next_active@[z] == active@[w];
                                let w2 = choose|w2: int| 0 <= w2 < x && active@[w2] == next_active@.last();
                                if z < next_active@.len() - 1 {
                                    assert(next_active@[z] < next_active@.last());
                                }
                                assert(active@[w2] < active@[w]);
                            }
                        } else {
                            if to_remove@.contains(w as usize) {
                            }
                        }
                    }
                }
            } else {
                let ghost n0 = next_active@;
                next_active.push(active[x]);
                proof {
                    assert(!to_remove@.contains(x)) by {
                        if to_remove@.contains(x) {
                            let y = choose|y: int| 0 <= y < to_remove@.len() && to_remove@[y] == x;
                            if y < j {
                            } else if y > j {
                                assert(to_remove@[j as int] < to_remove@[y]);
                            }
                        }
                    }
                    assert forall|z: int| 0 <= z < next_active@.len() implies #[trigger] active@.contains(next_active@[z]) by {
                        if z < n0.len() {
                            assert(n0[z] == next_active@[z]);
                            assert(active@.contains(n0[z]));
                        } else {
                            assert(active@[x as int] == next_active@[z]);
                        }
                    }
                    assert forall|a: int, b: int| 0 <= a < b < next_active@.len() implies next_active@[a] < next_active@[b] by {
                        if b == n0.len() {
                            let w2 = choose|w2: int| 0 <= w2 < x && active@[w2] == n0.last();
                            if a < n0.len() - 1 {
                                assert(n0[a] < n0.last());
                            }
                        }
                    }
                    assert forall|w: int| 0 <= w < x + 1 implies (#[trigger] next_active@.contains(active@[w])
                        <==> !to_remove@.contains(w as usize)) by {
                        if w < x {
                            assert(n0.contains(active@[w]) <==> !to_remove@.contains(w as usize));
                            if n0.contains(active@[w]) {
                                let z = choose|z: int| 0 <= z < n0.len() && n0[z] == active@[w];
                                assert(next_active@[z] == active@[w]);
                            }
                            if next_active@.contains(active@[w]) && !n0.contains(active@[w]) {
                                let z = choose|z: int| 0 <= z < next_active@.len() && next_active@[z] == active@[w];
                                if z < n0.len() {
                                    assert(n0[z] == active@[w]);
                                }
                                assert(active@[w] < active@[x as int]);
                            }
                        } else {
                            assert(next_active@[n0.len() as int] == active@[w]);
                        }
                    }
                }
            }
            x = x + 1;
        }
        proof {
            if j < to_remove@.len() {
                assert(to_remove@[j as int] < active@.len());
            }
            assert forall|k: int| 0 <= k < imps.len() && !next_active@.contains(k as usize) implies #[trigger] imps[k].1@.subset_of(
                output@,
            ) by {
                if active@.contains(k as usize) {
                    let w = choose|w: int| 0 <= w < active@.len() && active@[w] == k as usize;
                    assert(to_remove@.contains(w as usize));
                    let y = choose|y: int| 0 <= y < to_remove@.len() && to_remove@[y] == w as usize;
                    assert(imps[active@[to_remove@[y] as int] as int].1@.subset_of(output@));
                } else {
                    assert(imps[k].1@.subset_of(out0));
                    lemma_subset_trans(imps[k].1@, out0, output@);
                }
            }
            assert forall|z: int| 0 <= z < next_active@.len() implies #[trigger] next_active@[z] < imps.len() by {
                assert(active@.contains(next_active@[z]));
            }
        }
        let ghost old_active = active@;
        active = next_active;
        if !changed {
            proof {
                assert forall|k: int| 0 <= k < imps.len() implies (#[trigger] imps[k].0@.subset_of(output@)
                    ==> imps[k].1@.subset_of(output@)) by {
                    if active@.contains(k as usize) {
                        let z = choose|z: int| 0 <= z < active@.len() && active@[z] == k as usize;
                        assert(old_active.contains(k as usize));
                        let w = choose|w: int| 0 <= w < old_active.len() && old_active[w] == k as usize;
                        assert(!to_remove@.contains(w as usize));
                    }
                }
            }
            break;
        }
    }
    output
}


// ---- the lectic next preclosed set -----------------------------------------------

/// The closure of `s` under the implications.
pub open spec fn imp_closure(imps: Seq<(BitSet, BitSet)>, s: Set<usize>) -> Set<usize> {
    choose|o: Set<usize>| is_implication_closure(imps, s, o)
}

/// The closure is unique.
proof fn lemma_closure_unique(imps: Seq<(BitSet, BitSet)>, s: Set<usize>, o: Set<usize>)
    requires
        is_implication_closure(imps, s, o),
    ensures
        imp_closure(imps, s) == o,
{
    let c = imp_closure(imps, s);
    assert(is_implication_closure(imps, s, c));
    assert(c.subset_of(o));
    assert(o.subset_of(c));
    assert(c =~= o);
}

/// `a` with everything from `m` up to `n` dropped, and `m` added.
pub open spec fn oplus(a: Set<usize>, m: usize, n: usize) -> Set<usize> {
    a.filter(|x: usize| x < m || x >= n).insert(m)
}

/// Adding `m` to `a` (and dropping what lies above it) leads to a closed
/// set that agrees with `a` below `m`.
pub open spec fn advances(imps: Seq<(BitSet, BitSet)>, a: Set<usize>, m: usize, n: usize) -> bool {
    &&& !a.contains(m)
    &&& forall|x: usize|
        x < m && #[trigger] imp_closure(imps, oplus(a, m, n)).contains(x) ==> a.contains(x)
}

/// All indices below `n`.
pub open spec fn below(n: usize) -> Set<usize> {
    Set::new(|x: usize| x < n)
}

/// No element below `min` is in the set.
fn is_smallest_num(min: usize, input_set: &BitSet) -> (r: bool)
    ensures
        r == forall|x: usize| x < min ==> !#[trigger] input_set@.contains(x),
{
    let mut n: usize = 0;
    while n < min
        invariant
            n <= min,
            forall|x: usize| x < n ==> !#[trigger] input_set@.contains(x),
        decreases min - n,
    {
        if input_set.contains(n) {
            assert(input_set@.contains(n));
            return false;
        }
        n = n + 1;
    }
    true
}

/// The set `0..n`.
pub(crate) fn set_below(n: usize) -> (r: BitSet)
    ensures
        r@ == below(n),
{
    let mut b = BitSet::with_capacity(n);
    let mut i: usize = 0;
    while i < n
        invariant
            i <= n,
            b@ == below(i),
        decreases n - i,
    {
        b.insert(i);
        i = i + 1;
        assert(b@ =~= below(i));
    }
    b
}

/// `r` is the next preclosed set after `a` among the subsets of `0..n`:
/// the closure of `a ⊕ m` for the largest `m` for which it agrees with `a`
/// below `m`, or all of `0..n` if there is no such `m`.
pub open spec fn is_next_preclosure(imps: Seq<(BitSet, BitSet)>, a: Set<usize>, n: usize, r: Set<usize>) -> bool {
    ||| exists|m: usize|
        m < n && advances(imps, a, m, n) && (forall|m2: usize|
            m < m2 < n ==> !#[trigger] advances(imps, a, m2, n)) && r == imp_closure(imps, oplus(a, m, n))
            && is_implication_closure(imps, oplus(a, m, n), r)
    ||| (forall|m: usize| m < n ==> !#[trigger] advances(imps, a, m, n)) && r == below(n)
}

/// The next preclosed set after `input` in lectic order, among subsets of
/// `0..n` for the context's `n` attributes: the closure of `input ⊕ m` for
/// the largest `m` for which it agrees with `input` below `m`, or all of
/// `0..n` if there is no such `m`.
pub fn index_next_preclosure<T>(
    context: &FormalContext<T>,
    implications: &[(BitSet, BitSet)],
    input: &BitSet,
) -> (r: BitSet)
    ensures
        is_next_preclosure(implications@, input@, context.attributes@.len() as usize, r@),
{
    let n = context.attributes.len();
    let ghost imps = implications@;
    let ghost a = input@;
    let mut temp_set = input.clone();
    let mut t: usize = n;
    while t > 0
        invariant
            t <= n,
            n == context.attributes@.len(),
            imps == implications@,
            a == input@,
            temp_set@ == a.filter(|x: usize| x < t || x >= n),
            forall|m2: usize| t <= m2 < n ==> !#[trigger] advances(imps, a, m2, n),
        decreases t,
    {
        let m = t - 1;
        if temp_set.contains(m) {
            temp_set.remove(m);
            assert(temp_set@ =~= a.filter(|x: usize| x < m || x >= n));
        } else {
            temp_set.insert(m);
            assert(temp_set@ =~= oplus(a, m, n));
            let output = index_implication_closure(implications, &temp_set);
            proof {
                lemma_closure_unique(imps, temp_set@, output@);
            }
            let mut diff = output.clone();
            diff.difference_with(&temp_set);
            if is_smallest_num(m, &diff) {
                proof {
                    assert(advances(imps, a, m, n)) by {
                        assert forall|x: usize|
                            x < m && #[trigger] imp_closure(imps, oplus(a, m, n)).contains(x) implies a.contains(x) by {
                            assert(!diff@.contains(x));
                            assert(temp_set@.contains(x));
                        }
                    }
                }
                return output;
            }
            proof {
                let x = choose|x: usize| x < m && #[trigger] diff@.contains(x);
                assert(!advances(imps, a, m, n)) by {
                    assert(imp_closure(imps, oplus(a, m, n)).contains(x));
                    assert(!temp_set@.contains(x));
                    assert(!a.contains(x));
                }
            }
            temp_set.remove(m);
            assert(temp_set@ =~= a.filter(|x: usize| x < m || x >= n));
        }
        t = t - 1;
    }
    set_below(n)
}


// ---- the canonical basis -----------------------------------------------------

/// `2^k`.
pub open spec fn two_to(k: nat) -> nat
    decreases k,
{
    if k == 0 {
        1
    } else {
        2 * two_to((k - 1) as nat)
    }
}

/// The position of `a` in lectic order among the subsets of `0..k`: the
/// binary number whose digits, most significant first, say whether `0`, `1`,
/// ... are in `a`.
pub open spec fn lectic_rank(a: Set<usize>, k: nat) -> nat
    decreases k,
{
    if k == 0 {
        0
    } else {
        2 * lectic_rank(a, (k - 1) as nat) + if a.contains((k - 1) as usize) {
            1nat
        } else {
            0nat
        }
    }
}

pub(crate) proof fn lemma_rank_bound(a: Set<usize>, k: nat)
    ensures
        lectic_rank(a, k) < two_to(k),
    decreases k,
{
    if k > 0 {
        lemma_rank_bound(a, (k - 1) as nat);
    }
}

proof fn lemma_rank_agree(a: Set<usize>, b: Set<usize>, k: nat)
    requires
        k <= usize::MAX + 1,
        forall|x: usize| x < k ==> (a.contains(x) <==> b.contains(x)),
    ensures
        lectic_rank(a, k) == lectic_rank(b, k),
    decreases k,
{
    if k > 0 {
        lemma_rank_agree(a, b, (k - 1) as nat);
        assert(a.contains((k - 1) as usize) <==> b.contains((k - 1) as usize));
    }
}

/// Agreeing below `m`, where only `b` holds `m`, puts `a` lectically first.
proof fn lemma_rank_lectic(a: Set<usize>, b: Set<usize>, m: usize, k: nat)
    requires
        m < k <= usize::MAX + 1,
        forall|x: usize| x < m ==> (a.contains(x) <==> b.contains(x)),
        b.contains(m),
        !a.contains(m),
    ensures
        lectic_rank(a, k) < lectic_rank(b, k),
    decreases k,
{
    if k == m + 1 {
        lemma_rank_agree(a, b, m as nat);
    } else {
        lemma_rank_lectic(a, b, m, (k - 1) as nat);
    }
}

/// A subset of `full` comes lectically no later, and only its equal on
/// `0..k` comes at the same place.
proof fn lemma_rank_subset(a: Set<usize>, full: Set<usize>, k: nat)
    requires
        k <= usize::MAX + 1,
        a.subset_of(full),
    ensures
        lectic_rank(a, k) <= lectic_rank(full, k),
        lectic_rank(a, k) == lectic_rank(full, k) ==> forall|x: usize|
            x < k && #[trigger] full.contains(x) ==> a.contains(x),
    decreases k,
{
    if k > 0 {
        lemma_rank_subset(a, full, (k - 1) as nat);
        if lectic_rank(a, k) == lectic_rank(full, k) {
            assert forall|x: usize| x < k && #[trigger] full.contains(x) implies a.contains(x) by {
                if x < k - 1 {
                }
            }
        }
    }
}

/// Where the implications stay inside `0..n`, so does the closure of a set
/// inside it.
proof fn lemma_closure_below(imps: Seq<(BitSet, BitSet)>, s: Set<usize>, o: Set<usize>, n: usize)
    requires
        is_implication_closure(imps, s, o),
        s.subset_of(below(n)),
        forall|i: int| 0 <= i < imps.len() ==> #[trigger] imps[i].1@.subset_of(below(n)),
    ensures
        o.subset_of(below(n)),
{
    assert(respects(imps, below(n)));
}

/// Every set has a closure under the implications: the intersection of
/// all sets that contain it and in which every implication holds.
proof fn lemma_closure_exists(imps: Seq<(BitSet, BitSet)>, s: Set<usize>)
    ensures
        is_implication_closure(imps, s, imp_closure(imps, s)),
{
    let i = Set::new(|x: usize| forall|t: Set<usize>| s.subset_of(t) && #[trigger] respects(imps, t) ==> t.contains(x));
    assert forall|k: int| 0 <= k < imps.len() implies (#[trigger] imps[k].0@.subset_of(i) ==> imps[k].1@.subset_of(i)) by {
        if imps[k].0@.subset_of(i) {
            assert forall|x: usize| imps[k].1@.contains(x) implies i.contains(x) by {
                assert forall|t: Set<usize>| s.subset_of(t) && #[trigger] respects(imps, t) implies t.contains(x) by {
                    assert(imps[k].0@.subset_of(t));
                }
            }
        }
    }
    assert(is_implication_closure(imps, s, i));
}

/// The empty set comes first in lectic order.
proof fn lemma_rank_empty(k: nat)
    ensures
        lectic_rank(Set::<usize>::empty(), k) == 0,
    decreases k,
{
    if k > 0 {
        lemma_rank_empty((k - 1) as nat);
    }
}

/// Sets at the same place in lectic order agree on `0..k`.
pub(crate) proof fn lemma_rank_eq_agree(a: Set<usize>, b: Set<usize>, k: nat)
    requires
        k <= usize::MAX + 1,
        lectic_rank(a, k) == lectic_rank(b, k),
    ensures
        forall|x: usize| x < k ==> (a.contains(x) <==> b.contains(x)),
    decreases k,
{
    if k > 0 {
        lemma_rank_eq_agree(a, b, (k - 1) as nat);
    }
}

/// Where `a` comes lectically before `b`, the first place they differ
/// holds an element of `b` that is not in `a`.
proof fn lemma_rank_first_diff(a: Set<usize>, b: Set<usize>, k: nat)
    requires
        k <= usize::MAX + 1,
        lectic_rank(a, k) < lectic_rank(b, k),
    ensures
        exists|m: usize|
            m < k && b.contains(m) && !a.contains(m) && forall|x: usize| x < m ==> (#[trigger] a.contains(x) <==> b.contains(x)),
    decreases k,
{
    let k1 = (k - 1) as nat;
    if lectic_rank(a, k1) < lectic_rank(b, k1) {
        lemma_rank_first_diff(a, b, k1);
        let m = choose|m: usize|
            m < k1 && b.contains(m) && !a.contains(m) && forall|x: usize| x < m ==> (#[trigger] a.contains(x) <==> b.contains(x));
        assert(m < k);
    } else {
        assert(lectic_rank(a, k1) == lectic_rank(b, k1));
        lemma_rank_eq_agree(a, b, k1);
        let m = k1 as usize;
        assert(b.contains(m) && !a.contains(m));
        assert(forall|x: usize| x < m ==> (#[trigger] a.contains(x) <==> b.contains(x)));
    }
}

/// No set in which the implications hold lies strictly between `a` and
/// the next preclosed set after it in lectic order.
pub(crate) proof fn lemma_next_no_skip(imps: Seq<(BitSet, BitSet)>, a: Set<usize>, b: Set<usize>, next: Set<usize>, n: usize)
    requires
        a.subset_of(below(n)),
        b.subset_of(below(n)),
        respects(imps, b),
        lectic_rank(a, n as nat) < lectic_rank(b, n as nat),
        is_next_preclosure(imps, a, n, next),
    ensures
        lectic_rank(next, n as nat) <= lectic_rank(b, n as nat),
{
    lemma_rank_first_diff(a, b, n as nat);
    let m = choose|m: usize|
        m < n && b.contains(m) && !a.contains(m) && forall|x: usize| x < m ==> (#[trigger] a.contains(x) <==> b.contains(x));
    let o = oplus(a, m, n);
    lemma_closure_exists(imps, o);
    let c = imp_closure(imps, o);
    assert(o.subset_of(b)) by {
        assert forall|x: usize| o.contains(x) implies b.contains(x) by {
            if x != m {
                assert(a.contains(x) && x < m);
            }
        }
    }
    assert(c.subset_of(b));
    assert(advances(imps, a, m, n)) by {
        assert forall|x: usize| x < m && #[trigger] imp_closure(imps, oplus(a, m, n)).contains(x) implies a.contains(x) by {
            assert(b.contains(x));
        }
    }
    if exists|mm: usize|
        mm < n && advances(imps, a, mm, n) && (forall|m2: usize| mm < m2 < n ==> !#[trigger] advances(imps, a, m2, n))
            && next == imp_closure(imps, oplus(a, mm, n)) && is_implication_closure(imps, oplus(a, mm, n), next) {
        let mm = choose|mm: usize|
            mm < n && advances(imps, a, mm, n) && (forall|m2: usize| mm < m2 < n ==> !#[trigger] advances(imps, a, m2, n))
                && next == imp_closure(imps, oplus(a, mm, n)) && is_implication_closure(imps, oplus(a, mm, n), next);
        if mm == m {
            lemma_rank_subset(next, b, n as nat);
        } else {
            assert(mm > m) by {
                if mm < m {
                    assert(!advances(imps, a, m, n));
                }
            }
            assert(!next.contains(m)) by {
                if next.contains(m) {
                    assert(imp_closure(imps, oplus(a, mm, n)).contains(m));
                }
            }
            assert forall|x: usize| x < m implies (next.contains(x) <==> b.contains(x)) by {
                if next.contains(x) {
                    assert(imp_closure(imps, oplus(a, mm, n)).contains(x));
                }
                if a.contains(x) {
                    assert(oplus(a, mm, n).contains(x));
                }
                assert(a.contains(x) <==> b.contains(x));
            }
            lemma_rank_lectic(next, b, m, n as nat);
        }
    } else {
        assert(!advances(imps, a, m, n));
    }
}

/// Unless `a` is all of `0..n`, the next preclosed set after it comes
/// strictly later in lectic order, and stays inside `0..n` where the
/// implications do.
pub(crate) proof fn lemma_next_advances(imps: Seq<(BitSet, BitSet)>, a: Set<usize>, next: Set<usize>, n: usize)
    requires
        a.subset_of(below(n)),
        a != below(n),
        forall|i: int| 0 <= i < imps.len() ==> #[trigger] imps[i].1@.subset_of(below(n)),
        is_next_preclosure(imps, a, n, next),
    ensures
        next.subset_of(below(n)),
        lectic_rank(a, n as nat) < lectic_rank(next, n as nat),
        lectic_rank(next, n as nat) < two_to(n as nat),
{
    lemma_rank_bound(next, n as nat);
    if exists|m: usize|
        m < n && advances(imps, a, m, n) && (forall|m2: usize|
            m < m2 < n ==> !#[trigger] advances(imps, a, m2, n)) && next == imp_closure(imps, oplus(a, m, n))
            && is_implication_closure(imps, oplus(a, m, n), next) {
        let m = choose|m: usize|
            m < n && advances(imps, a, m, n) && (forall|m2: usize|
                m < m2 < n ==> !#[trigger] advances(imps, a, m2, n)) && next == imp_closure(imps, oplus(a, m, n))
                && is_implication_closure(imps, oplus(a, m, n), next);
        assert(oplus(a, m, n).subset_of(below(n)));
        lemma_closure_below(imps, oplus(a, m, n), next, n);
        assert forall|x: usize| x < m implies (a.contains(x) <==> next.contains(x)) by {
            if a.contains(x) {
                assert(oplus(a, m, n).contains(x));
            }
        }
        assert(oplus(a, m, n).contains(m));
        lemma_rank_lectic(a, next, m, n as nat);
    } else {
        assert(next == below(n));
        lemma_rank_subset(a, below(n), n as nat);
        if lectic_rank(a, n as nat) == lectic_rank(below(n), n as nat) {
            assert(a =~= below(n)) by {
                assert forall|x: usize| below(n).contains(x) implies a.contains(x) by {}
            }
        }
    }
}

/// Computes the canonical basis of implications for the formal context.
///
/// Walks the preclosed sets in lectic order; each that is not closed in the
/// context becomes the premise of an implication to its closure. The basis
/// is complete: every attribute set in which all its implications hold is
/// an intent of the context. Each premise holds every other implication
/// whose premise lies inside it, so the premises are the pseudo-intents.
pub fn index_canonical_basis<T>(context: &FormalContext<T>) -> (r: Vec<(BitSet, BitSet)>)
    requires
        context.wf(),
    ensures
        forall|i: int|
            0 <= i < r@.len() ==> {
                &&& (#[trigger] r@[i]).0@.subset_of(below(context.attributes@.len() as usize))
                &&& r@[i].1@ == context.intent_of(context.extent_of(r@[i].0@))
                &&& r@[i].0@ != r@[i].1@
            },
        forall|i: int, j: int|
            0 <= i < j < r@.len() ==> lectic_rank((#[trigger] r@[i]).0@, context.attributes@.len())
                < lectic_rank((#[trigger] r@[j]).0@, context.attributes@.len()),
        forall|i: int, g: usize|
            0 <= i < r@.len() && #[trigger] context.extent_of(r@[i].0@).contains(g) ==> forall|m: usize|
                #[trigger] r@[i].1@.contains(m) ==> context.incident(g, m),
        forall|b: Set<usize>|
            b.subset_of(below(context.attributes@.len() as usize)) && #[trigger] respects(r@, b) ==> b == context.intent_of(
                context.extent_of(b),
            ),
        forall|i: int, j: int|
            0 <= i < r@.len() && 0 <= j < r@.len() && i != j && (#[trigger] r@[j]).0@.subset_of((#[trigger] r@[i]).0@)
                ==> r@[j].1@.subset_of(r@[i].0@),
{
    let n = context.attributes.len();
    let mut temp_set = BitSet::new();
    let mut implications: Vec<(BitSet, BitSet)> = Vec::new();
    let all_attributes = set_below(n);
    proof {
        lemma_rank_empty(n as nat);
        assert(temp_set@ =~= Set::<usize>::empty());
    }
    while !temp_set.set_eq(&all_attributes)
        invariant
            context.wf(),
            n == context.attributes@.len(),
            all_attributes@ == below(n),
            temp_set@.subset_of(below(n)),
            forall|i: int|
                0 <= i < implications@.len() ==> {
                    &&& (#[trigger] implications@[i]).0@.subset_of(below(n))
                    &&& implications@[i].1@ == context.intent_of(context.extent_of(implications@[i].0@))
                    &&& implications@[i].0@ != implications@[i].1@
                },
            forall|i: int, j: int|
                0 <= i < j < implications@.len() ==> lectic_rank((#[trigger] implications@[i]).0@, n as nat)
                    < lectic_rank((#[trigger] implications@[j]).0@, n as nat),
            forall|i: int|
                0 <= i < implications@.len() ==> lectic_rank((#[trigger] implications@[i]).0@, n as nat)
                    < lectic_rank(temp_set@, n as nat),
            forall|b: Set<usize>|
                b.subset_of(below(n)) && #[trigger] respects(implications@, b) && lectic_rank(b, n as nat) < lectic_rank(
                    temp_set@,
                    n as nat,
                ) ==> b == context.intent_of(context.extent_of(b)),
            respects(implications@, temp_set@),
            forall|i: int, j: int|
                0 <= i < implications@.len() && 0 <= j < implications@.len() && i != j && (
                #[trigger] implications@[j]).0@.subset_of((#[trigger] implications@[i]).0@) ==> implications@[j].1@.subset_of(
                    implications@[i].0@,
                ),
        decreases two_to(n as nat) - lectic_rank(temp_set@, n as nat),
    {
        let ghost imps0 = implications@;
        let temp_set_hull = context.index_attribute_hull(&temp_set);
        if !temp_set.set_eq(&temp_set_hull) {
            let ghost i0 = implications@;
            implications.push((temp_set.clone(), temp_set_hull));
            proof {
                let last = i0.len() as int;
                assert(implications@[last].0@ == temp_set@);
                assert forall|i: int, j: int|
                    0 <= i < implications@.len() && 0 <= j < implications@.len() && i != j && (
                    #[trigger] implications@[j]).0@.subset_of((#[trigger] implications@[i]).0@) implies implications@[j].1@.subset_of(
                        implications@[i].0@,
                    ) by {
                    if i == last {
                        assert(implications@[j] == i0[j]);
                        assert(i0[j].0@.subset_of(temp_set@) ==> i0[j].1@.subset_of(temp_set@));
                    } else if j == last {
                        assert(implications@[i] == i0[i]);
                        lemma_rank_subset(temp_set@, i0[i].0@, n as nat);
                    } else {
                        assert(implications@[i] == i0[i] && implications@[j] == i0[j]);
                    }
                }
                assert forall|i: int, j: int|
                    0 <= i < j < implications@.len() implies lectic_rank((#[trigger] implications@[i]).0@, n as nat)
                        < lectic_rank((#[trigger] implications@[j]).0@, n as nat) by {
                    if j < i0.len() {
                        assert(implications@[i] == i0[i] && implications@[j] == i0[j]);
                    } else {
                        assert(implications@[i] == i0[i]);
                    }
                }
            }
        }
        let next = index_next_preclosure(context, implications.as_slice(), &temp_set);
        proof {
            lemma_next_advances(implications@, temp_set@, next@, n);
            assert(respects(implications@, next@)) by {
                if next@ == below(n) {
                    assert forall|k: int| 0 <= k < implications@.len() implies (#[trigger] implications@[k].0@.subset_of(
                        next@,
                    ) ==> implications@[k].1@.subset_of(next@)) by {
                        context.lemma_attribute_hull_closure(implications@[k].0@, implications@[k].0@);
                    }
                }
            }
            let a = temp_set@;
            context.lemma_attribute_hull_closure(a, a);
            assert(implications@.len() >= imps0.len());
            assert(forall|k: int| 0 <= k < imps0.len() ==> #[trigger] implications@[k] == imps0[k]);
            assert forall|b: Set<usize>|
                b.subset_of(below(n)) && #[trigger] respects(implications@, b) && lectic_rank(b, n as nat) < lectic_rank(
                    next@,
                    n as nat,
                ) implies b == context.intent_of(context.extent_of(b)) by {
                assert(respects(imps0, b)) by {
                    assert forall|k: int| 0 <= k < imps0.len() implies (#[trigger] imps0[k].0@.subset_of(b)
                        ==> imps0[k].1@.subset_of(b)) by {
                        assert(implications@[k] == imps0[k]);
                    }
                }
                if lectic_rank(b, n as nat) < lectic_rank(a, n as nat) {
                } else if lectic_rank(b, n as nat) == lectic_rank(a, n as nat) {
                    lemma_rank_eq_agree(b, a, n as nat);
                    assert(b =~= a);
                    if implications@.len() > imps0.len() {
                        let last = imps0.len() as int;
                        assert(implications@[last].0@ == a);
                        assert(implications@[last].0@.subset_of(b));
                        assert(implications@[last].1@.subset_of(b));
                        assert(context.intent_of(context.extent_of(a)) =~= a);
                    } else {
                        assert(context.intent_of(context.extent_of(a)) =~= a);
                    }
                } else {
                    lemma_next_no_skip(implications@, a, b, next@, n);
                }
            }
        }
        temp_set = next;
    }
    proof {
        assert forall|i: int, g: usize|
            0 <= i < implications@.len() && #[trigger] context.extent_of(implications@[i].0@).contains(g) implies forall|m: usize|
                #[trigger] implications@[i].1@.contains(m) ==> context.incident(g, m) by {
        }
        assert(temp_set@ =~= below(n));
        assert forall|b: Set<usize>| b.subset_of(below(n)) && #[trigger] respects(implications@, b) implies b
            == context.intent_of(context.extent_of(b)) by {
            lemma_rank_subset(b, below(n), n as nat);
            if lectic_rank(b, n as nat) == lectic_rank(below(n), n as nat) {
                assert(b =~= below(n));
                context.lemma_attribute_hull_closure(b, b);
                assert(context.intent_of(context.extent_of(b)) =~= b);
            }
        }
    }
    implications
}

impl<T> FormalContext<T> {
    /// The canonical basis of this context; see [`index_canonical_basis`].
    pub fn index_canonical_basis(&self) -> (r: Vec<(BitSet, BitSet)>)
        requires
            self.wf(),
        ensures
            forall|i: int|
                0 <= i < r@.len() ==> {
                    &&& (#[trigger] r@[i]).0@.subset_of(below(self.attributes@.len() as usize))
                    &&& r@[i].1@ == self.intent_of(self.extent_of(r@[i].0@))
                    &&& r@[i].0@ != r@[i].1@
                },
            forall|i: int, j: int|
                0 <= i < j < r@.len() ==> lectic_rank((#[trigger] r@[i]).0@, self.attributes@.len())
                    < lectic_rank((#[trigger] r@[j]).0@, self.attributes@.len()),
            forall|i: int, g: usize|
                0 <= i < r@.len() && #[trigger] self.extent_of(r@[i].0@).contains(g) ==> forall|m: usize|
                    #[trigger] r@[i].1@.contains(m) ==> self.incident(g, m),
            forall|b: Set<usize>|
                b.subset_of(below(self.attributes@.len() as usize)) && #[trigger] respects(r@, b) ==> b == self.intent_of(
                    self.extent_of(b),
                ),
            forall|i: int, j: int|
                0 <= i < r@.len() && 0 <= j < r@.len() && i != j && (#[trigger] r@[j]).0@.subset_of((#[trigger] r@[i]).0@)
                    ==> r@[j].1@.subset_of(r@[i].0@),
    {
        crate::canonical_basis::index_canonical_basis(self)
    }

    /// The next preclosed set after `input`; see [`index_next_preclosure`].
    pub fn index_next_preclosure(&self, implications: &[(BitSet, BitSet)], input: &BitSet) -> (r: BitSet)
        ensures
            is_next_preclosure(implications@, input@, self.attributes@.len() as usize, r@),
    {
        crate::canonical_basis::index_next_preclosure(self, implications, input)
    }
}

} // verus!
