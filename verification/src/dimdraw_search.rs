//! The branch-and-bound of DimDraw: two linear extensions held as successor
//! bit matrices, grown edge by edge, with the number of agreements carried
//! along and every change recorded for undoing.
use crate::dimdraw::{
    automorphisms, closed_under, group_pairs_by_orbit, incomparable, incomparable_pairs,
    incomparable_pairs_spec, index_pairs, indexes_pairs, linear_order_matrix, matrix_bit,
    matrix_shape, transitive_closure, word_bit,
};
use crate::poset::{acyclic, edges_in_range, reaches as walk_reaches};
use crate::search_budget::SearchBudget;
use vstd::prelude::*;

verus! {

// ---- counting bits ------------------------------------------------------------

/// The number of one bits of `x`.
pub open spec fn popcount(x: u64) -> nat
    decreases x,
{
    if x == 0 {
        0
    } else {
        proof {
            lemma_shr_smaller(x);
        }
        (x & 1u64) as nat + popcount(x >> 1u64)
    }
}

pub proof fn lemma_shr_smaller(x: u64)
    requires
        x != 0,
    ensures
        (x >> 1u64) < x,
{
    assert(x != 0 ==> (x >> 1u64) < x) by (bit_vector);
}

/// `u64::count_ones`: the number of ones in the binary representation.
#[verifier::external_body]
fn count_ones(x: u64) -> (r: u32)
    ensures
        r as nat == popcount(x),
{
    x.count_ones()
}

/// A word holds at most 64 ones.
proof fn lemma_popcount_bound(x: u64)
    ensures
        popcount(x) <= 64,
{
    lemma_popcount_below(x, 64);
}

/// A word whose bits from `k` on are clear holds at most `k` ones.
proof fn lemma_popcount_below(x: u64, k: u64)
    requires
        k <= 64,
        k == 64 || (x >> k) == 0u64,
    ensures
        popcount(x) <= k,
    decreases x,
{
    if x != 0 {
        lemma_shr_smaller(x);
        assert(k >= 1) by {
            if k == 0 {
                assert((x >> 0u64) == x) by (bit_vector);
            }
        }
        let k1 = (k - 1) as u64;
        assert(k1 == 63 || ((x >> 1u64) >> k1) == 0u64) by (bit_vector)
            requires
                k <= 64,
                k >= 1,
                k == 64 || (x >> k) == 0u64,
                k1 == k - 1,
        ;
        assert(k1 == 63 ==> ((x >> 1u64) >> k1) == 0u64) by (bit_vector);
        lemma_popcount_below(x >> 1u64, k1);
        assert((x & 1u64) <= 1u64) by (bit_vector);
    }
}

/// Clearing bits clears ones: a word inside another holds at most as many.
proof fn lemma_popcount_subset(a: u64, b: u64)
    requires
        a & b == a,
    ensures
        popcount(a) <= popcount(b),
    decreases b,
{
    if a != 0 {
        assert(a != 0u64 && a & b == a ==> b != 0u64) by (bit_vector);
        lemma_shr_smaller(b);
        assert(a & b == a ==> ((a >> 1u64) & (b >> 1u64)) == (a >> 1u64) && (a & 1u64) <= (b & 1u64))
            by (bit_vector);
        lemma_popcount_subset(a >> 1u64, b >> 1u64);
    }
}

// ---- the two extensions ---------------------------------------------------------

/// Bit `b` of row `a` of extension `k`: the matrices of the two extensions
/// lie one after the other, `n` rows of `words` words each.
pub open spec fn ext_bit(m: Seq<u64>, n: nat, words: nat, k: nat, a: nat, b: nat) -> bool {
    matrix_bit(m, words, k * n + a, b)
}

/// The agreements counted in word `i` of the first extension: pairs both
/// extensions order the same way that the original order leaves open.
pub open spec fn agreement_word(m: Seq<u64>, no: Seq<u64>, stride: nat, i: int) -> nat {
    popcount(m[i] & m[stride + i] & no[i])
}

/// The agreements counted in the first `k` words.
pub open spec fn agreements_upto(m: Seq<u64>, no: Seq<u64>, stride: nat, k: nat) -> nat
    decreases k,
{
    if k == 0 {
        0
    } else {
        agreements_upto(m, no, stride, (k - 1) as nat) + agreement_word(m, no, stride, k - 1)
    }
}

/// The number of agreements of the two extensions.
pub open spec fn agreements(m: Seq<u64>, no: Seq<u64>, stride: nat) -> nat {
    agreements_upto(m, no, stride, stride)
}

proof fn lemma_agreements_bound(m: Seq<u64>, no: Seq<u64>, stride: nat, k: nat)
    ensures
        agreements_upto(m, no, stride, k) <= 64 * k,
    decreases k,
{
    if k > 0 {
        lemma_agreements_bound(m, no, stride, (k - 1) as nat);
        lemma_popcount_bound(m[k - 1] & m[stride + k - 1] & no[k - 1]);
    }
}

/// Changing the words at `i` and `stride + i` changes the count by what
/// word `i` counts.
proof fn lemma_agreements_update(m: Seq<u64>, m2: Seq<u64>, no: Seq<u64>, stride: nat, i: int, k: nat)
    requires
        0 <= i < stride,
        k <= stride,
        m.len() == 2 * stride,
        m2.len() == 2 * stride,
        forall|x: int| 0 <= x < 2 * stride && x != i && x != stride + i ==> m2[x] == m[x],
    ensures
        agreements_upto(m2, no, stride, k) + (if i < k { agreement_word(m, no, stride, i) } else { 0 })
            == agreements_upto(m, no, stride, k) + (if i < k { agreement_word(m2, no, stride, i) } else { 0 }),
    decreases k,
{
    if k > 0 {
        lemma_agreements_update(m, m2, no, stride, i, (k - 1) as nat);
        if k - 1 != i {
            assert(m2[k - 1] == m[k - 1]);
            assert(m2[stride + k - 1] == m[stride + k - 1]);
        }
    }
}

/// The undo trail `trail`, applied newest first down to `mark`.
pub open spec fn undo(m: Seq<u64>, trail: Seq<(u32, u64)>, mark: nat) -> Seq<u64>
    decreases trail.len(),
{
    if trail.len() <= mark {
        m
    } else {
        undo(m.update(trail.last().0 as int, trail.last().1), trail.drop_last(), mark)
    }
}

/// Recording a word's old value before overwriting it keeps what the trail
/// undoes to.
proof fn lemma_undo_record(m: Seq<u64>, trail: Seq<(u32, u64)>, mark: nat, i: int, x: u64)
    requires
        0 <= i < m.len(),
        i <= u32::MAX,
        mark <= trail.len(),
    ensures
        undo(m.update(i, x), trail.push((i as u32, m[i])), mark) == undo(m, trail, mark),
{
    let t2 = trail.push((i as u32, m[i]));
    assert(t2.drop_last() =~= trail);
    assert(m.update(i, x).update(i, m[i]) =~= m);
}

/// Two successive records undo to the first state.
proof fn lemma_undo_extend(m: Seq<u64>, trail: Seq<(u32, u64)>, mark: nat, mark2: nat)
    requires
        mark <= mark2 <= trail.len(),
    ensures
        undo(undo(m, trail, mark2), trail.take(mark2 as int), mark) == undo(m, trail, mark),
    decreases trail.len(),
{
    if trail.len() > mark2 {
        let m2 = m.update(trail.last().0 as int, trail.last().1);
        lemma_undo_extend(m2, trail.drop_last(), mark, mark2);
        assert(trail.drop_last().take(mark2 as int) =~= trail.take(mark2 as int));
    } else {
        assert(trail.take(mark2 as int) =~= trail);
    }
}

// ---- the solver -------------------------------------------------------------------

/// One symmetry, compiled into what the lexicographic test needs: for every
/// pair position, which position of the original word feeds it and how that
/// letter is rewritten.
pub struct Symmetry {
    pub source: Vec<u32>,
    pub rewrite: Vec<[u8; 4]>,
}

impl Symmetry {
    /// Its tables cover `npairs` positions, point inside them, and rewrite
    /// letters into letters.
    pub open spec fn wf(&self, npairs: nat) -> bool {
        &&& self.source@.len() == npairs
        &&& self.rewrite@.len() == npairs
        &&& forall|i: int| 0 <= i < npairs ==> #[trigger] self.source@[i] < npairs
        &&& forall|i: int, l: int| 0 <= i < npairs && 0 <= l < 4 ==> #[trigger] self.rewrite@[i]@[l] < 4
    }
}

/// The state of the branch-and-bound over pairs of linear extensions.
pub struct Solver {
    pub node_count: usize,
    pub words: usize,
    pub stride: usize,
    /// Both extensions as successor bit matrices, one after the other.
    pub matrices: Vec<u64>,
    /// Row `u` has bit `v` set exactly if `v` is not above `u` in the
    /// original order: the pairs an agreement is counted for.
    pub not_orig: Vec<u64>,
    /// Scratch buffer for the successor mask an edge propagates.
    pub mask: Vec<u64>,
    pub cost: u32,
    pub best_cost: u32,
    pub best: Vec<u64>,
    /// Words overwritten since the current branch started, newest last.
    pub trail: Vec<(u32, u64)>,
    /// Letters of the solution word for every pair the search has passed.
    pub word: Vec<u8>,
    /// How much of `word` is filled in.
    pub known: usize,
    pub symmetries: Vec<Symmetry>,
    /// Per symmetry: how far its comparison has got, and whether it already
    /// came out strictly in this branch's favour.
    pub lex_at: Vec<u32>,
    pub lex_done: Vec<bool>,
    pub lex_trail: Vec<(u32, u32, bool)>,
    pub nodes_explored: usize,
    pub timed_out: bool,
    /// The deadline in milliseconds from the start, or `None` if unbounded.
    pub limit_ms: Option<u64>,
    pub start_time: std::time::Instant,
}

/// Where word `j` of row `a` of extension `k` lies.
pub open spec fn slot(n: nat, words: nat, k: nat, a: nat, j: nat) -> int {
    ((k * n + a) * words + j) as int
}

/// Word `j` of row `a` of extension `k` after the edge `u < v` has been
/// added to it: rows at or below `u` take on everything at or above `v`.
pub open spec fn edge_word(m: Seq<u64>, n: nat, words: nat, k: nat, u: nat, v: nat, a: nat, j: nat) -> u64 {
    let old = m[slot(n, words, k, a, j)];
    let mask = m[slot(n, words, k, v, j)] | (if j == v / 64 {
        1u64 << ((v % 64) as u64)
    } else {
        0u64
    });
    if a == u || ext_bit(m, n, words, k, a, u) {
        old | mask
    } else {
        old
    }
}

/// Row `a`, word `j` of extension `k` sits at `k * stride + a * words + j`,
/// inside the two matrices, and nowhere else.
proof fn lemma_slot(k: nat, n: nat, words: nat, a: nat, j: nat)
    requires
        k < 2,
        a < n,
        j < words,
    ensures
        (k * n + a) * words + j == k * (n * words) + a * words + j,
        (k * n + a) * words + j < 2 * (n * words),
        k * (n * words) <= (k * n + a) * words + j < (k + 1) * (n * words),
        a * words + j < n * words,
{
    assert((k * n + a) * words + j == k * (n * words) + a * words + j) by (nonlinear_arith);
    assert(a * words + j < n * words) by (nonlinear_arith)
        requires
            a < n,
            j < words,
    ;
    assert(k * (n * words) + n * words <= 2 * (n * words)) by (nonlinear_arith)
        requires
            k < 2,
    ;
    assert((k + 1) * (n * words) == k * (n * words) + n * words) by (nonlinear_arith);
}

impl Solver {
    /// The sizes of the buffers agree, and every index they hold points
    /// inside what it indexes.
    pub open spec fn wf_shape(&self) -> bool {
        &&& self.node_count <= 64 * self.words
        &&& self.stride == self.node_count * self.words
        &&& 64 * self.stride < u32::MAX
        &&& self.matrices@.len() == 2 * self.stride
        &&& self.not_orig@.len() == self.stride
        &&& self.mask@.len() == self.words
        &&& self.best@.len() == 2 * self.stride
        &&& forall|t: int| 0 <= t < self.trail@.len() ==> (#[trigger] self.trail@[t]).0 < 2 * self.stride
        &&& self.known <= self.word@.len()
        &&& self.word@.len() <= u32::MAX
        &&& self.symmetries@.len() <= u32::MAX
        &&& forall|i: int| 0 <= i < self.word@.len() ==> #[trigger] self.word@[i] < 4
        &&& self.lex_at@.len() == self.symmetries@.len()
        &&& self.lex_done@.len() == self.symmetries@.len()
        &&& forall|g: int|
            0 <= g < self.symmetries@.len() ==> (#[trigger] self.symmetries@[g]).wf(self.word@.len())
                && self.lex_at@[g] <= self.word@.len()
        &&& forall|t: int|
            0 <= t < self.lex_trail@.len() ==> (#[trigger] self.lex_trail@[t]).0 < self.symmetries@.len()
                && self.lex_trail@[t].1 <= self.word@.len()
    }

    /// Well-formed, with the count of agreements up to date.
    pub open spec fn wf(&self) -> bool {
        &&& self.wf_shape()
        &&& self.cost == agreements(self.matrices@, self.not_orig@, self.stride as nat)
    }

    /// Bit `v` of row `u` of extension `matrix`.
    fn bit(&self, matrix: usize, u: usize, v: usize) -> (r: bool)
        requires
            self.wf_shape(),
            matrix < 2,
            u < self.node_count,
            v < 64 * self.words,
        ensures
            r == ext_bit(self.matrices@, self.node_count as nat, self.words as nat, matrix as nat, u as nat, v as nat),
    {
        proof {
            lemma_slot(matrix as nat, self.node_count as nat, self.words as nat, u as nat, (v / 64) as nat);
        }
        let i = matrix * self.stride + u * self.words + v / 64;
        (self.matrices[i] >> ((v % 64) as u64)) & 1u64 == 1u64
    }
}

impl Solver {
    /// Everything but the matrices, the trail and the cost is as in `other`.
    pub open spec fn same_search_state(&self, other: &Solver) -> bool {
        &&& self.node_count == other.node_count
        &&& self.words == other.words
        &&& self.stride == other.stride
        &&& self.not_orig@ == other.not_orig@
        &&& self.mask@.len() == other.mask@.len()
        &&& self.best_cost == other.best_cost
        &&& self.best@ == other.best@
        &&& self.word@ == other.word@
        &&& self.known == other.known
        &&& self.symmetries@ == other.symmetries@
        &&& self.lex_at@ == other.lex_at@
        &&& self.lex_done@ == other.lex_done@
        &&& self.lex_trail@ == other.lex_trail@
        &&& self.nodes_explored == other.nodes_explored
        &&& self.timed_out == other.timed_out
        &&& self.limit_ms == other.limit_ms
        &&& self.start_time == other.start_time
    }

    /// Overwrites word `idx` of the matrices with `new`, which keeps every
    /// bit of the old word, recording the old word and updating the count.
    fn write_word(&mut self, idx: usize, new: u64, Ghost(mark): Ghost<nat>, Ghost(orig): Ghost<Seq<u64>>)
        requires
            old(self).wf(),
            idx < 2 * old(self).stride,
            old(self).matrices@[idx as int] & new == old(self).matrices@[idx as int],
            mark <= old(self).trail@.len(),
            undo(old(self).matrices@, old(self).trail@, mark) == orig,
        ensures
            final(self).wf(),
            final(self).same_search_state(old(self)),
            final(self).mask@ == old(self).mask@,
            final(self).matrices@ == old(self).matrices@.update(idx as int, new),
            final(self).trail@ == old(self).trail@.push((idx as u32, old(self).matrices@[idx as int])),
            undo(final(self).matrices@, final(self).trail@, mark) == orig,
    {
        let stride = self.stride;
        let old_word = self.matrices[idx];
        let ghost m = self.matrices@;
        let ghost no = self.not_orig@;
        let i = if idx < stride {
            idx
        } else {
            idx - stride
        };
        let i_other = if idx < stride {
            idx + stride
        } else {
            idx - stride
        };
        let counted = self.matrices[i_other] & self.not_orig[i];
        self.trail.push((idx as u32, old_word));
        self.matrices.set(idx, new);
        let d_new = count_ones(new & counted);
        let d_old = count_ones(old_word & counted);
        proof {
            let m2 = self.matrices@;
            lemma_undo_record(m, old(self).trail@, mark, idx as int, new);
            assert((old_word & counted) & (new & counted) == (old_word & counted)) by (bit_vector)
                requires
                    old_word & new == old_word,
            ;
            lemma_popcount_subset(old_word & counted, new & counted);
            lemma_agreements_update(m, m2, no, stride as nat, i as int, stride as nat);
            let o = m[i_other as int];
            let x = no[i as int];
            if idx < stride {
                assert(new & (o & x) == (new & o) & x) by (bit_vector);
                assert(old_word & (o & x) == (old_word & o) & x) by (bit_vector);
                assert(m2[stride + i] == o);
            } else {
                assert(new & (o & x) == (o & new) & x) by (bit_vector);
                assert(old_word & (o & x) == (o & old_word) & x) by (bit_vector);
                assert(m2[i as int] == o);
            }
            lemma_agreements_bound(m2, no, stride as nat, stride as nat);
            assert forall|t: int| 0 <= t < self.trail@.len() implies (#[trigger] self.trail@[t]).0 < 2 * self.stride by {
                if t < old(self).trail@.len() {
                    assert(self.trail@[t] == old(self).trail@[t]);
                }
            }
        }
        self.cost = self.cost + (d_new - d_old);
    }
}

/// Rows before `r`, and the first `jr` words of row `r`, of extension `k`
/// hold the edge's words; the rest of the matrices is as in `m0`.
pub open spec fn edge_progress(
    m: Seq<u64>,
    m0: Seq<u64>,
    n: nat,
    words: nat,
    k: nat,
    u: nat,
    v: nat,
    r: nat,
    jr: nat,
) -> bool {
    &&& m.len() == m0.len()
    &&& forall|a: nat, j: nat|
        a < n && j < words ==> #[trigger] m[slot(n, words, k, a, j)] == if a < r || (a == r && j < jr) {
            edge_word(m0, n, words, k, u, v, a, j)
        } else {
            m0[slot(n, words, k, a, j)]
        }
    &&& forall|x: int| 0 <= x < m.len() && !(k * (n * words) <= x < (k + 1) * (n * words)) ==> #[trigger] m[x] == m0[x]
}

impl Solver {
    /// Adds `u < v` to extension `matrix`, propagating it to everything
    /// below `u` and above `v` and updating the count of agreements.
    /// Returns `false`, changing nothing, if `v < u` is already there.
    fn add_edge(&mut self, matrix: usize, u: usize, v: usize) -> (r: bool)
        requires
            old(self).wf(),
            matrix < 2,
            u < old(self).node_count,
            v < old(self).node_count,
            u != v,
        ensures
            final(self).wf(),
            final(self).same_search_state(old(self)),
            final(self).trail@.len() >= old(self).trail@.len(),
            final(self).trail@.take(old(self).trail@.len() as int) == old(self).trail@,
            undo(final(self).matrices@, final(self).trail@, old(self).trail@.len()) == old(self).matrices@,
            !r ==> final(self).matrices@ == old(self).matrices@,
            r <==> (ext_bit(old(self).matrices@, old(self).node_count as nat, old(self).words as nat, matrix as nat, u as nat, v as nat)
                || !ext_bit(old(self).matrices@, old(self).node_count as nat, old(self).words as nat, matrix as nat, v as nat, u as nat)),
            r && ext_bit(old(self).matrices@, old(self).node_count as nat, old(self).words as nat, matrix as nat, u as nat, v as nat)
                ==> final(self).matrices@ == old(self).matrices@,
            r && !ext_bit(old(self).matrices@, old(self).node_count as nat, old(self).words as nat, matrix as nat, u as nat, v as nat)
                ==> edge_progress(
                final(self).matrices@,
                old(self).matrices@,
                old(self).node_count as nat,
                old(self).words as nat,
                matrix as nat,
                u as nat,
                v as nat,
                old(self).node_count as nat,
                0,
            ),
    {
        if self.bit(matrix, u, v) {
            assert(self.trail@.take(self.trail@.len() as int) =~= self.trail@);
            return true;
        }
        if self.bit(matrix, v, u) {
            assert(self.trail@.take(self.trail@.len() as int) =~= self.trail@);
            return false;
        }
        let ghost m0 = self.matrices@;
        let ghost mark = self.trail@.len();
        let ghost t0 = self.trail@;
        let ghost n = self.node_count as nat;
        let ghost k = matrix as nat;
        let n_nodes = self.node_count;
        let words = self.words;
        let stride = self.stride;
        assert(matrix * stride <= stride) by (nonlinear_arith)
            requires
                matrix < 2,
        ;
        let base = matrix * stride;
        proof {
            assert(words > 0);
            lemma_slot(k, n, words as nat, v as nat, (v / 64) as nat);
            assert(base == k * (n * words));
        }
        if words == 1 {
            proof {
                lemma_slot(k, n, 1, v as nat, 0);
            }
            assert(v < 64);
            assert((v as nat) / 64 == 0 && (v as nat) % 64 == v);
            assert(base + v == slot(n, 1, k, v as nat, 0)) by {
                assert(base == k * (n * words));
                assert(k * (n * 1) + (v as nat) * 1 + 0 == (k * n + v) * 1 + 0) by (nonlinear_arith);
            }
            let mask = self.matrices[base + v] | (1u64 << (v as u64));
            assert(mask == m0[slot(n, 1, k, v as nat, 0)] | (if 0 == (v as nat) / 64 { 1u64 << ((v as nat % 64) as u64) } else { 0u64 }));
            let mut r: usize = 0;
            while r < n_nodes
                invariant
                    self.wf(),
                    self.same_search_state(old(self)),
                    n == self.node_count,
                    n_nodes == self.node_count,
                    words == self.words,
                    words == 1,
                    stride == self.stride,
                    base == k * (n * 1),
                    k == matrix,
                    matrix < 2,
                    u < n,
                    v < n,
                    u != v,
                    mark == t0.len(),
                    t0 == old(self).trail@,
                    m0 == old(self).matrices@,
                    !ext_bit(m0, n, 1, k, u as nat, v as nat),
                    mask == m0[slot(n, 1, k, v as nat, 0)] | (if 0 == (v as nat) / 64 { 1u64 << ((v as nat % 64) as u64) } else { 0u64 }),
                    r <= n,
                    self.trail@.len() >= mark,
                    self.trail@.take(mark as int) == t0,
                    undo(self.matrices@, self.trail@, mark) == m0,
                    edge_progress(self.matrices@, m0, n, 1, k, u as nat, v as nat, r as nat, 0),
                decreases n - r,
            {
                proof {
                    lemma_slot(k, n, 1, r as nat, 0);
                    lemma_slot(k, n, 1, u as nat, 0);
                }
                let old_word = self.matrices[base + r];
                assert(old_word == m0[slot(n, 1, k, r as nat, 0)]);
                let below = (old_word >> (u as u64)) & 1u64 == 1u64;
                assert(below == ext_bit(m0, n, 1, k, r as nat, u as nat));
                if r != u && !below {
                    proof {
                        assert(edge_progress(self.matrices@, m0, n, 1, k, u as nat, v as nat, (r + 1) as nat, 0));
                    }
                    r = r + 1;
                    continue;
                }
                let new = old_word | mask;
                if new != old_word {
                    assert(old_word & new == old_word) by (bit_vector)
                        requires
                            new == old_word | mask,
                    ;
                    let ghost before = self.matrices@;
                    self.write_word(base + r, new, Ghost(mark), Ghost(m0));
                    proof {
                        assert forall|t: int| 0 <= t < mark implies self.trail@[t] == t0[t] by {
                            assert(self.trail@.take(mark as int)[t] == t0[t]);
                        }
                        assert(self.trail@.take(mark as int) =~= t0);
                        assert forall|a: nat, j: nat| a < n && j < 1 implies #[trigger] self.matrices@[slot(n, 1, k, a, j)] == if a < r + 1 {
                            edge_word(m0, n, 1, k, u as nat, v as nat, a, j)
                        } else {
                            m0[slot(n, 1, k, a, j)]
                        } by {
                            lemma_slot(k, n, 1, a, j);
                            assert(k * n + a < 2 * n && k * n + r < 2 * n) by (nonlinear_arith)
                                requires
                                    k < 2,
                                    a < n,
                                    r < n,
                            ;
                            crate::dimdraw::lemma_index(k * n + a, j, 1, 2 * n);
                            crate::dimdraw::lemma_index(k * n + r as nat, 0, 1, 2 * n);
                        }
                        assert forall|x: int| 0 <= x < self.matrices@.len() && !(k * (n * 1) <= x < (k + 1) * (n * 1)) implies #[trigger] self.matrices@[x] == m0[x] by {
                            assert(x != base + r);
                            assert(self.matrices@[x] == before[x]);
                        }
                    }
                } else {
                    proof {
                        assert forall|a: nat, j: nat| a < n && j < 1 implies #[trigger] self.matrices@[slot(n, 1, k, a, j)] == if a < r + 1 {
                            edge_word(m0, n, 1, k, u as nat, v as nat, a, j)
                        } else {
                            m0[slot(n, 1, k, a, j)]
                        } by {
                            if a == r {
                                assert(j == 0);
                            }
                        }
                    }
                }
                r = r + 1;
            }
            return true;
        }
        let v_row = base + v * words;
        proof {
            lemma_slot(k, n, words as nat, v as nat, 0);
        }
        let mut j: usize = 0;
        while j < words
            invariant
                self.wf(),
                self.same_search_state(old(self)),
                self.matrices@ == m0,
                self.trail@ == t0,
                n == self.node_count,
                words == self.words,
                words > 0,
                stride == self.stride,
                base == k * (n * words),
                k == matrix,
                matrix < 2,
                v < n,
                v_row == base + v * words,
                m0 == old(self).matrices@,
                t0 == old(self).trail@,
                j <= words,
                forall|x: int| 0 <= x < j ==> #[trigger] self.mask@[x] == m0[slot(n, words as nat, k, v as nat, x as nat)],
            decreases words - j,
        {
            proof {
                lemma_slot(k, n, words as nat, v as nat, j as nat);
            }
            let w = self.matrices[v_row + j];
            self.mask.set(j, w);
            j = j + 1;
        }
        let vw = v / 64;
        let bitv = 1u64 << ((v % 64) as u64);
        let mv = self.mask[vw] | bitv;
        self.mask.set(vw, mv);
        let ghost maskw = self.mask@;
        assert forall|x: nat| x < words implies #[trigger] maskw[x as int] == m0[slot(n, words as nat, k, v as nat, x)] | (if x == (v as nat) / 64 {
            1u64 << ((v as nat % 64) as u64)
        } else {
            0u64
        }) by {
            let w0 = m0[slot(n, words as nat, k, v as nat, x)];
            assert(w0 | 0u64 == w0) by (bit_vector);
        }
        let mut r: usize = 0;
        while r < n_nodes
            invariant
                self.wf(),
                self.same_search_state(old(self)),
                self.mask@ == maskw,
                n == self.node_count,
                n_nodes == self.node_count,
                words == self.words,
                words > 0,
                stride == self.stride,
                base == k * (n * words),
                k == matrix,
                matrix < 2,
                u < n,
                v < n,
                u != v,
                mark == t0.len(),
                t0 == old(self).trail@,
                m0 == old(self).matrices@,
                !ext_bit(m0, n, words as nat, k, v as nat, u as nat),
                forall|x: nat| x < words ==> #[trigger] maskw[x as int] == m0[slot(n, words as nat, k, v as nat, x)] | (if x == (v as nat) / 64 {
                    1u64 << ((v as nat % 64) as u64)
                } else {
                    0u64
                }),
                r <= n,
                self.trail@.len() >= mark,
                self.trail@.take(mark as int) == t0,
                undo(self.matrices@, self.trail@, mark) == m0,
                edge_progress(self.matrices@, m0, n, words as nat, k, u as nat, v as nat, r as nat, 0),
            decreases n - r,
        {
            let selected = r == u || self.bit(matrix, r, u);
            proof {
                lemma_slot(k, n, words as nat, r as nat, (u / 64) as nat);
                assert(self.matrices@[slot(n, words as nat, k, r as nat, (u / 64) as nat)] == m0[slot(n, words as nat, k, r as nat, (u / 64) as nat)]);
                assert(selected == (r == u || ext_bit(m0, n, words as nat, k, r as nat, u as nat)));
            }
            if !selected {
                proof {
                    assert(edge_progress(self.matrices@, m0, n, words as nat, k, u as nat, v as nat, (r + 1) as nat, 0));
                }
                r = r + 1;
                continue;
            }
            let row = base + r * words;
            let mut j: usize = 0;
            while j < words
                invariant
                    self.wf(),
                    self.same_search_state(old(self)),
                    self.mask@ == maskw,
                    n == self.node_count,
                    words == self.words,
                    words > 0,
                    stride == self.stride,
                    base == k * (n * words),
                    row == base + r * words,
                    k == matrix,
                    matrix < 2,
                    u < n,
                    v < n,
                    r < n,
                    selected == (r == u || ext_bit(m0, n, words as nat, k, r as nat, u as nat)),
                    selected,
                    mark == t0.len(),
                    t0 == old(self).trail@,
                    m0 == old(self).matrices@,
                    forall|x: nat| x < words ==> #[trigger] maskw[x as int] == m0[slot(n, words as nat, k, v as nat, x)] | (if x == (v as nat) / 64 {
                        1u64 << ((v as nat % 64) as u64)
                    } else {
                        0u64
                    }),
                    j <= words,
                    self.trail@.len() >= mark,
                    self.trail@.take(mark as int) == t0,
                    undo(self.matrices@, self.trail@, mark) == m0,
                    edge_progress(self.matrices@, m0, n, words as nat, k, u as nat, v as nat, r as nat, j as nat),
                decreases words - j,
            {
                proof {
                    lemma_slot(k, n, words as nat, r as nat, j as nat);
                }
                let old_word = self.matrices[row + j];
                assert(old_word == m0[slot(n, words as nat, k, r as nat, j as nat)]);
                let new = old_word | self.mask[j];
                assert(new == edge_word(m0, n, words as nat, k, u as nat, v as nat, r as nat, j as nat));
                if new != old_word {
                    let ghost mw = self.mask[j as int];
                    assert(old_word & new == old_word) by (bit_vector)
                        requires
                            new == old_word | mw,
                    ;
                    let ghost before = self.matrices@;
                    self.write_word(row + j, new, Ghost(mark), Ghost(m0));
                    proof {
                        assert forall|t: int| 0 <= t < mark implies self.trail@[t] == t0[t] by {
                            assert(self.trail@.take(mark as int)[t] == t0[t]);
                        }
                        assert(self.trail@.take(mark as int) =~= t0);
                        assert forall|a: nat, jj: nat| a < n && jj < words implies #[trigger] self.matrices@[slot(n, words as nat, k, a, jj)] == if a < r || (a == r && jj < j + 1) {
                            edge_word(m0, n, words as nat, k, u as nat, v as nat, a, jj)
                        } else {
                            m0[slot(n, words as nat, k, a, jj)]
                        } by {
                            lemma_slot(k, n, words as nat, a, jj);
                            assert(k * n + a < 2 * n && k * n + r < 2 * n) by (nonlinear_arith)
                                requires
                                    k < 2,
                                    a < n,
                                    r < n,
                            ;
                            crate::dimdraw::lemma_index(k * n + a, jj, words as nat, 2 * n);
                            crate::dimdraw::lemma_index(k * n + r as nat, j as nat, words as nat, 2 * n);
                        }
                        assert forall|x: int| 0 <= x < self.matrices@.len() && !(k * (n * words) <= x < (k + 1) * (n * words)) implies #[trigger] self.matrices@[x] == m0[x] by {
                            assert(x != row + j);
                            assert(self.matrices@[x] == before[x]);
                        }
                    }
                } else {
                    proof {
                        assert forall|a: nat, jj: nat| a < n && jj < words implies #[trigger] self.matrices@[slot(n, words as nat, k, a, jj)] == if a < r || (a == r && jj < j + 1) {
                            edge_word(m0, n, words as nat, k, u as nat, v as nat, a, jj)
                        } else {
                            m0[slot(n, words as nat, k, a, jj)]
                        } by {}
                    }
                }
                j = j + 1;
            }
            proof {
                assert forall|a: nat, jj: nat| a < n && jj < words implies #[trigger] self.matrices@[slot(n, words as nat, k, a, jj)] == if a < r + 1 || (a == r + 1 && jj < 0) {
                    edge_word(m0, n, words as nat, k, u as nat, v as nat, a, jj)
                } else {
                    m0[slot(n, words as nat, k, a, jj)]
                } by {}
            }
            r = r + 1;
        }
        true
    }
}

/// The letter of a pair both extensions have ordered: 0 if only the first
/// puts `u` first, 1 if only the second does, 2 if both do, 3 if neither.
pub open spec fn letter_of(m: Seq<u64>, n: nat, words: nat, u: nat, v: nat) -> u8 {
    let a = ext_bit(m, n, words, 0, u, v);
    let b = ext_bit(m, n, words, 1, u, v);
    if a && !b {
        0
    } else if !a && b {
        1
    } else if a && b {
        2
    } else {
        3
    }
}

/// The lexicographic comparisons' trail, undone newest first down to
/// `mark`: each entry gives a symmetry and its position and state before.
pub open spec fn lex_undo(at: Seq<u32>, done: Seq<bool>, trail: Seq<(u32, u32, bool)>, mark: nat) -> (
    Seq<u32>,
    Seq<bool>,
)
    decreases trail.len(),
{
    if trail.len() <= mark {
        (at, done)
    } else {
        let e = trail.last();
        lex_undo(at.update(e.0 as int, e.1), done.update(e.0 as int, e.2), trail.drop_last(), mark)
    }
}

proof fn lemma_lex_undo_record(
    at: Seq<u32>,
    done: Seq<bool>,
    trail: Seq<(u32, u32, bool)>,
    mark: nat,
    g: int,
    new_at: u32,
    new_done: bool,
)
    requires
        0 <= g < at.len(),
        at.len() == done.len(),
        g <= u32::MAX,
        mark <= trail.len(),
    ensures
        lex_undo(at.update(g, new_at), done.update(g, new_done), trail.push((g as u32, at[g], done[g])), mark)
            == lex_undo(at, done, trail, mark),
{
    let t2 = trail.push((g as u32, at[g], done[g]));
    assert(t2.drop_last() =~= trail);
    assert(at.update(g, new_at).update(g, at[g]) =~= at);
    assert(done.update(g, new_done).update(g, done[g]) =~= done);
}

impl Solver {
    /// The letter of a pair both extensions have already ordered.
    fn letter(&self, u: usize, v: usize) -> (r: u8)
        requires
            self.wf_shape(),
            u < self.node_count,
            v < self.node_count,
        ensures
            r == letter_of(self.matrices@, self.node_count as nat, self.words as nat, u as nat, v as nat),
            r < 4,
    {
        let a = self.bit(0, u, v);
        let b = self.bit(1, u, v);
        if a && !b {
            0
        } else if !a && b {
            1
        } else if a && b {
            2
        } else {
            3
        }
    }

    /// Undoes the trail newest first down to `mark`, so that a word written
    /// several times in the branch gets back the value it had before.
    fn rewind(&mut self, mark: usize)
        requires
            old(self).wf_shape(),
            mark <= old(self).trail@.len(),
        ensures
            final(self).wf_shape(),
            final(self).same_search_state(old(self)),
            final(self).mask@ == old(self).mask@,
            final(self).cost == old(self).cost,
            final(self).matrices@ == undo(old(self).matrices@, old(self).trail@, mark as nat),
            final(self).trail@ == old(self).trail@.take(mark as int),
    {
        let ghost target = undo(self.matrices@, self.trail@, mark as nat);
        let ghost t0 = self.trail@;
        let mut t: usize = self.trail.len();
        assert(t0.take(t as int) =~= t0);
        while t > mark
            invariant
                self.wf_shape(),
                self.same_search_state(old(self)),
                self.mask@ == old(self).mask@,
                self.cost == old(self).cost,
                self.trail@ == t0,
                t0 == old(self).trail@,
                mark <= t <= t0.len(),
                undo(self.matrices@, t0.take(t as int), mark as nat) == target,
            decreases t,
        {
            let (index, previous) = self.trail[t - 1];
            proof {
                assert(t0.take(t as int).drop_last() =~= t0.take(t - 1));
                assert(t0.take(t as int).last() == t0[t - 1]);
                assert(t0[t - 1].0 < 2 * self.stride);
            }
            self.matrices.set(index as usize, previous);
            t = t - 1;
        }
        assert(t0.take(mark as int).len() == mark);
        self.trail.truncate(mark);
    }

    /// Restores the symmetries' comparisons to where they stood when the
    /// lexicographic trail held `mark` entries.
    fn rewind_symmetries(&mut self, mark: usize)
        requires
            old(self).wf_shape(),
            mark <= old(self).lex_trail@.len(),
        ensures
            final(self).wf_shape(),
            final(self).matrices@ == old(self).matrices@,
            final(self).trail@ == old(self).trail@,
            final(self).cost == old(self).cost,
            final(self).mask@ == old(self).mask@,
            final(self).node_count == old(self).node_count,
            final(self).words == old(self).words,
            final(self).stride == old(self).stride,
            final(self).not_orig@ == old(self).not_orig@,
            final(self).best_cost == old(self).best_cost,
            final(self).best@ == old(self).best@,
            final(self).word@ == old(self).word@,
            final(self).known == old(self).known,
            final(self).symmetries@ == old(self).symmetries@,
            final(self).nodes_explored == old(self).nodes_explored,
            final(self).timed_out == old(self).timed_out,
            final(self).limit_ms == old(self).limit_ms,
            final(self).start_time == old(self).start_time,
            (final(self).lex_at@, final(self).lex_done@) == lex_undo(
                old(self).lex_at@,
                old(self).lex_done@,
                old(self).lex_trail@,
                mark as nat,
            ),
            final(self).lex_trail@ == old(self).lex_trail@.take(mark as int),
    {
        let ghost target = lex_undo(self.lex_at@, self.lex_done@, self.lex_trail@, mark as nat);
        let ghost t0 = self.lex_trail@;
        while self.lex_trail.len() > mark
            invariant
                self.wf_shape(),
                self.matrices@ == old(self).matrices@,
                self.trail@ == old(self).trail@,
                self.cost == old(self).cost,
                self.mask@ == old(self).mask@,
                self.node_count == old(self).node_count,
                self.words == old(self).words,
                self.stride == old(self).stride,
                self.not_orig@ == old(self).not_orig@,
                self.best_cost == old(self).best_cost,
                self.best@ == old(self).best@,
                self.word@ == old(self).word@,
                self.known == old(self).known,
                self.symmetries@ == old(self).symmetries@,
                self.nodes_explored == old(self).nodes_explored,
                self.timed_out == old(self).timed_out,
                self.limit_ms == old(self).limit_ms,
                self.start_time == old(self).start_time,
                t0 == old(self).lex_trail@,
                mark <= self.lex_trail@.len() <= t0.len(),
                self.lex_trail@ == t0.take(self.lex_trail@.len() as int),
                lex_undo(self.lex_at@, self.lex_done@, self.lex_trail@, mark as nat) == target,
            decreases self.lex_trail@.len(),
        {
            let ghost before = self.lex_trail@;
            let (g, at, done) = self.lex_trail.pop().unwrap();
            proof {
                assert(before.drop_last() =~= self.lex_trail@);
                assert(before.last() == (g, at, done));
                assert(before.last() == before[before.len() - 1]);
                assert(self.lex_trail@ =~= t0.take(self.lex_trail@.len() as int));
            }
            proof {
                assert(before[before.len() - 1].0 < self.symmetries@.len());
                assert(before[before.len() - 1].1 <= self.word@.len());
            }
            let ghost at0 = self.lex_at@;
            self.lex_at.set(g as usize, at);
            self.lex_done.set(g as usize, done);
            proof {
                assert(self.lex_at@ == at0.update(g as int, at));
                assert forall|gg: int| 0 <= gg < self.symmetries@.len() implies (#[trigger] self.symmetries@[gg]).wf(
                    self.word@.len(),
                ) && self.lex_at@[gg] <= self.word@.len() by {
                    assert(self.symmetries@[gg].wf(self.word@.len()));
                    if gg != g as int {
                        assert(self.lex_at@[gg] == at0[gg]);
                        assert(at0[gg] <= self.word@.len());
                    }
                }
                assert forall|t: int| 0 <= t < self.lex_trail@.len() implies (#[trigger] self.lex_trail@[t]).0
                    < self.symmetries@.len() && self.lex_trail@[t].1 <= self.word@.len() by {
                    assert(self.lex_trail@[t] == before[t]);
                }
            }
        }
        assert(self.lex_trail@ =~= t0.take(mark as int));
    }
}

impl Solver {
    /// The solver with only the symmetries' comparisons changed.
    pub open spec fn same_but_lex(&self, other: &Solver) -> bool {
        &&& self.matrices@ == other.matrices@
        &&& self.trail@ == other.trail@
        &&& self.cost == other.cost
        &&& self.mask@ == other.mask@
        &&& self.node_count == other.node_count
        &&& self.words == other.words
        &&& self.stride == other.stride
        &&& self.not_orig@ == other.not_orig@
        &&& self.best_cost == other.best_cost
        &&& self.best@ == other.best@
        &&& self.word@ == other.word@
        &&& self.known == other.known
        &&& self.symmetries@ == other.symmetries@
        &&& self.nodes_explored == other.nodes_explored
        &&& self.timed_out == other.timed_out
        &&& self.limit_ms == other.limit_ms
        &&& self.start_time == other.start_time
    }

    /// Symmetry `g`'s comparison can go no further with the prefix known
    /// now: it is decided, or its position or that position's source lies
    /// beyond the known prefix.
    pub open spec fn comparison_stopped(&self, g: int) -> bool {
        let at = self.lex_at@[g] as int;
        ||| self.lex_done@[g]
        ||| at >= self.word@.len()
        ||| at >= self.known
        ||| self.symmetries@[g].source@[at] >= self.known
    }

    /// Symmetry `g`, still undecided, rewrites the known prefix to a word
    /// smaller at its current position.
    pub open spec fn outranks(&self, g: int) -> bool {
        let at = self.lex_at@[g] as int;
        let source = self.symmetries@[g].source@[at] as int;
        &&& !self.lex_done@[g]
        &&& at < self.word@.len()
        &&& at < self.known
        &&& source < self.known
        &&& self.word@[at] > self.symmetries@[g].rewrite@[at]@[self.word@[source] as int]
    }

    /// Advances every symmetry's comparison as far as the known prefix
    /// allows. Returns true once some symmetry carries this branch to a
    /// lexicographically smaller word, meaning its representative is reached
    /// elsewhere in the tree.
    fn outranked_by_a_symmetry(&mut self) -> (r: bool)
        requires
            old(self).wf(),
        ensures
            r ==> exists|g: int| 0 <= g < final(self).symmetries@.len() && #[trigger] final(self).outranks(g),
            !r ==> forall|g: int| 0 <= g < final(self).symmetries@.len() ==> #[trigger] final(self).comparison_stopped(g),
            final(self).wf(),
            final(self).same_but_lex(old(self)),
            final(self).lex_trail@.len() >= old(self).lex_trail@.len(),
            final(self).lex_trail@.take(old(self).lex_trail@.len() as int) == old(self).lex_trail@,
            lex_undo(final(self).lex_at@, final(self).lex_done@, final(self).lex_trail@, old(self).lex_trail@.len())
                == (old(self).lex_at@, old(self).lex_done@),
    {
        let ghost mark = self.lex_trail@.len();
        let ghost t0 = self.lex_trail@;
        let ghost base = (self.lex_at@, self.lex_done@);
        assert(self.lex_trail@.take(mark as int) =~= t0);
        let nsym = self.symmetries.len();
        let mut g: usize = 0;
        while g < nsym
            invariant
                self.wf(),
                self.same_but_lex(old(self)),
                nsym == self.symmetries@.len(),
                g <= nsym,
                t0 == old(self).lex_trail@,
                mark == t0.len(),
                base == (old(self).lex_at@, old(self).lex_done@),
                self.lex_trail@.len() >= mark,
                self.lex_trail@.take(mark as int) == t0,
                lex_undo(self.lex_at@, self.lex_done@, self.lex_trail@, mark) == base,
                forall|gg: int| 0 <= gg < g ==> #[trigger] self.comparison_stopped(gg),
            decreases nsym - g,
        {
            while !self.lex_done[g]
                invariant
                    self.wf(),
                    self.same_but_lex(old(self)),
                    nsym == self.symmetries@.len(),
                    g < nsym,
                    t0 == old(self).lex_trail@,
                    mark == t0.len(),
                    base == (old(self).lex_at@, old(self).lex_done@),
                    self.lex_trail@.len() >= mark,
                    self.lex_trail@.take(mark as int) == t0,
                    lex_undo(self.lex_at@, self.lex_done@, self.lex_trail@, mark) == base,
                    forall|gg: int| 0 <= gg < g ==> #[trigger] self.comparison_stopped(gg),
                ensures
                    self.comparison_stopped(g as int),
                decreases self.word@.len() - self.lex_at@[g as int] + (if self.lex_done@[g as int] {
                    0int
                } else {
                    1int
                }),
            {
                let ghost pre = *self;
                let at = self.lex_at[g] as usize;
                if at >= self.word.len() {
                    break;
                }
                assert(self.symmetries@[g as int].wf(self.word@.len()));
                let source = self.symmetries[g].source[at] as usize;
                if at >= self.known || source >= self.known {
                    break;
                }
                let ours = self.word[at];
                let letter = self.word[source];
                let theirs = self.symmetries[g].rewrite[at][letter as usize];
                let ghost before_trail = self.lex_trail@;
                let ghost before_at = self.lex_at@;
                let ghost before_done = self.lex_done@;
                let entry = (g as u32, self.lex_at[g], self.lex_done[g]);
                self.lex_trail.push(entry);
                proof {
                    assert forall|t: int| 0 <= t < self.lex_trail@.len() implies (#[trigger] self.lex_trail@[t]).0
                        < self.symmetries@.len() && self.lex_trail@[t].1 <= self.word@.len() by {
                        if t < before_trail.len() {
                            assert(self.lex_trail@[t] == before_trail[t]);
                        }
                    }
                    assert(self.lex_trail@.take(mark as int) =~= t0) by {
                        assert forall|t: int| 0 <= t < mark implies self.lex_trail@[t] == t0[t] by {
                            assert(before_trail.take(mark as int)[t] == t0[t]);
                        }
                    }
                }
                if ours < theirs {
                    self.lex_done.set(g, true);
                    proof {
                        lemma_lex_undo_record(before_at, before_done, before_trail, mark, g as int, before_at[g as int], true);
                        assert(before_at.update(g as int, before_at[g as int]) =~= before_at);
                    }
                } else if ours > theirs {
                    proof {
                        lemma_lex_undo_record(before_at, before_done, before_trail, mark, g as int, before_at[g as int], before_done[g as int]);
                        assert(before_at.update(g as int, before_at[g as int]) =~= before_at);
                        assert(before_done.update(g as int, before_done[g as int]) =~= before_done);
                        assert(self.lex_at@ == before_at && self.lex_done@ == before_done);
                        assert(self.outranks(g as int));
                    }
                    return true;
                } else {
                    let next = self.lex_at[g] + 1;
                    assert(next <= self.word@.len());
                    self.lex_at.set(g, next);
                    proof {
                        assert(self.lex_at@ == before_at.update(g as int, next));
                        assert forall|gg: int| 0 <= gg < self.symmetries@.len() implies self.lex_at@[gg] <= self.word@.len() by {
                            assert(self.symmetries@[gg].wf(self.word@.len()));
                            if gg != g {
                                assert(self.lex_at@[gg] == before_at[gg]);
                                assert(before_at[gg] <= self.word@.len());
                            } else {
                                assert(self.lex_at@[gg] == next);
                            }
                        }
                        lemma_lex_undo_record(before_at, before_done, before_trail, mark, g as int, next, before_done[g as int]);
                        assert(before_done.update(g as int, before_done[g as int]) =~= before_done);
                    }
                }
                proof {
                    assert forall|gg: int| 0 <= gg < g implies #[trigger] self.comparison_stopped(gg) by {
                        assert(pre.comparison_stopped(gg));
                        assert(self.lex_at@[gg] == pre.lex_at@[gg]);
                        assert(self.lex_done@[gg] == pre.lex_done@[gg]);
                    }
                }
            }
            g = g + 1;
        }
        false
    }

    /// The clock says the budget is spent; never without a budget.
    fn has_timed_out(&self) -> (r: bool)
        ensures
            self.limit_ms is None ==> !r,
    {
        match self.limit_ms {
            Some(ms) => crate::clock::expired(&self.start_time, ms),
            None => false,
        }
    }
}

/// The two extensions `m` are the best found so far, at cost `best_cost`.
pub open spec fn best_holds(s: &Solver) -> bool {
    s.best_cost == agreements(s.best@, s.not_orig@, s.stride as nat)
}

/// The incomparable pairs the search walks: distinct nodes of the order.
pub open spec fn pairs_ok(pairs: Seq<(usize, usize)>, n: nat) -> bool {
    forall|i: int| 0 <= i < pairs.len() ==> (#[trigger] pairs[i]).0 < n && pairs[i].1 < n && pairs[i].0 != pairs[i].1
}

impl Solver {
    /// What a call of the search leaves as it found: the extensions, the
    /// trail, the count, the known prefix and the comparisons.
    pub open spec fn search_frame(&self, other: &Solver) -> bool {
        &&& self.matrices@ == other.matrices@
        &&& self.trail@ == other.trail@
        &&& self.cost == other.cost
        &&& self.known == other.known
        &&& self.lex_at@ == other.lex_at@
        &&& self.lex_done@ == other.lex_done@
        &&& self.lex_trail@ == other.lex_trail@
        &&& self.node_count == other.node_count
        &&& self.words == other.words
        &&& self.stride == other.stride
        &&& self.not_orig@ == other.not_orig@
        &&& self.symmetries@ == other.symmetries@
        &&& self.limit_ms == other.limit_ms
        &&& self.start_time == other.start_time
        &&& self.word@.len() == other.word@.len()
        &&& self.mask@.len() == other.mask@.len()
    }

    /// What a call of the search may change: the best solution only for a
    /// cheaper one, the explored count only upwards, and a timeout sticks.
    pub open spec fn search_progress(&self, other: &Solver) -> bool {
        &&& self.best_cost <= other.best_cost
        &&& (self.best_cost < other.best_cost ==> best_holds(self))
        &&& (best_holds(other) ==> best_holds(self))
        &&& self.nodes_explored >= other.nodes_explored
        &&& (other.timed_out ==> self.timed_out)
        &&& (other.limit_ms is None ==> self.timed_out == other.timed_out)
    }

    /// Branch over the still-undecided incomparable pairs from `pair_index`
    /// on.
    fn search(&mut self, pair_index: usize, pairs: &[(usize, usize)])
        requires
            old(self).wf(),
            pairs@.len() == old(self).word@.len(),
            pair_index <= pairs@.len(),
            old(self).known <= pair_index,
            pairs_ok(pairs@, old(self).node_count as nat),
        ensures
            final(self).wf(),
            final(self).search_frame(old(self)),
            final(self).search_progress(old(self)),
        decreases pairs@.len() - pair_index, 1nat,
    {
        self.nodes_explored = self.nodes_explored.saturating_add(1);
        // Reading the clock costs about as much as visiting a node, so
        // sample it periodically.
        if self.nodes_explored & 1023usize == 0 && self.has_timed_out() {
            self.timed_out = true;
            return;
        }
        if self.cost >= self.best_cost {
            return;
        }
        let mut index = pair_index;
        while index < pairs.len()
            invariant
                self.wf(),
                pairs@.len() == self.word@.len(),
                pairs_ok(pairs@, self.node_count as nat),
                pair_index <= index <= pairs@.len(),
            decreases pairs@.len() - index,
        {
            let (u, v) = pairs[index];
            let decided_in_both = (self.bit(0, u, v) || self.bit(0, v, u)) && (self.bit(1, u, v) || self.bit(
                1,
                v,
                u,
            ));
            if decided_in_both {
                index = index + 1;
            } else {
                break;
            }
        }
        // Extend the known prefix of the solution word, then let every
        // symmetry compare as far as the prefix allows.
        let ghost entry = *self;
        let saved_known = self.known;
        let lex_mark = self.lex_trail.len();
        while self.known < index
            invariant
                self.wf(),
                self.matrices@ == entry.matrices@,
                self.trail@ == entry.trail@,
                self.cost == entry.cost,
                self.lex_at@ == entry.lex_at@,
                self.lex_done@ == entry.lex_done@,
                self.lex_trail@ == entry.lex_trail@,
                self.best_cost == entry.best_cost,
                self.best@ == entry.best@,
                self.node_count == entry.node_count,
                self.words == entry.words,
                self.stride == entry.stride,
                self.not_orig@ == entry.not_orig@,
                self.symmetries@ == entry.symmetries@,
                self.limit_ms == entry.limit_ms,
                self.start_time == entry.start_time,
                self.nodes_explored == entry.nodes_explored,
                self.timed_out == entry.timed_out,
                self.mask@ == entry.mask@,
                self.word@.len() == entry.word@.len(),
                pairs@.len() == self.word@.len(),
                pairs_ok(pairs@, self.node_count as nat),
                saved_known <= self.known <= index,
                index <= pairs@.len(),
            decreases index - self.known,
        {
            let (a, b) = pairs[self.known];
            let l = self.letter(a, b);
            let k = self.known;
            self.word.set(k, l);
            self.known = k + 1;
        }
        let ghost filled = *self;
        let outranked = self.outranked_by_a_symmetry();
        let ghost ranked = *self;
        assert(ranked.lex_trail@.len() >= lex_mark);
        if !outranked {
            if index == pairs.len() {
                self.best_cost = self.cost;
                let mut i: usize = 0;
                while i < self.matrices.len()
                    invariant
                        self.wf(),
                        self.same_but_lex_best(&filled),
                        self.lex_at@ == ranked.lex_at@,
                        self.lex_done@ == ranked.lex_done@,
                        self.lex_trail@ == ranked.lex_trail@,
                        ranked.lex_trail@.len() >= lex_mark,
                        self.best_cost == self.cost,
                        i <= self.matrices@.len(),
                        self.best@.len() == self.matrices@.len(),
                        forall|x: int| 0 <= x < i ==> #[trigger] self.best@[x] == self.matrices@[x],
                    decreases self.matrices@.len() - i,
                {
                    let w = self.matrices[i];
                    self.best.set(i, w);
                    i = i + 1;
                }
                assert(self.best@ =~= self.matrices@);
            } else {
                self.branch(index, pairs);
            }
        }
        self.rewind_symmetries(lex_mark);
        self.known = saved_known;
    }

    /// Every field but the comparisons and the best solution is as in `other`.
    pub open spec fn same_but_lex_best(&self, other: &Solver) -> bool {
        &&& self.matrices@ == other.matrices@
        &&& self.trail@ == other.trail@
        &&& self.cost == other.cost
        &&& self.mask@ == other.mask@
        &&& self.node_count == other.node_count
        &&& self.words == other.words
        &&& self.stride == other.stride
        &&& self.not_orig@ == other.not_orig@
        &&& self.word@ == other.word@
        &&& self.known == other.known
        &&& self.symmetries@ == other.symmetries@
        &&& self.nodes_explored == other.nodes_explored
        &&& self.timed_out == other.timed_out
        &&& self.limit_ms == other.limit_ms
        &&& self.start_time == other.start_time
    }

    #[verifier::rlimit(40)]
    fn branch(&mut self, index: usize, pairs: &[(usize, usize)])
        requires
            old(self).wf(),
            pairs@.len() == old(self).word@.len(),
            index < pairs@.len(),
            old(self).known <= index + 1,
            pairs_ok(pairs@, old(self).node_count as nat),
        ensures
            final(self).wf(),
            final(self).search_frame(old(self)),
            final(self).search_progress(old(self)),
        decreases pairs@.len() - index, 0nat,
    {
        let (u, v) = pairs[index];
        // Opposing orientations first (they cost nothing), then the two
        // agreements.
        let choices: [(usize, usize, usize, usize); 4] = [(u, v, v, u), (v, u, u, v), (u, v, u, v), (v, u, v, u)];
        let ghost start = *self;
        let mut choice: usize = 0;
        while choice < 4
            invariant
                self.wf(),
                self.search_frame(&start),
                self.search_progress(&start),
                start == *old(self),
                pairs@.len() == self.word@.len(),
                index < pairs@.len(),
                self.known <= index + 1,
                pairs_ok(pairs@, self.node_count as nat),
                u == pairs@[index as int].0,
                v == pairs@[index as int].1,
                choices@ == seq![(u, v, v, u), (v, u, u, v), (u, v, u, v), (v, u, v, u)],
            decreases 4 - choice,
        {
            // The last two choices make u and v agree, so any completion
            // below them costs at least one more than this node.
            proof {
                lemma_agreements_bound(self.matrices@, self.not_orig@, self.stride as nat, self.stride as nat);
            }
            if choice >= 2 && self.cost + 1 >= self.best_cost {
                break;
            }
            let (u1, v1, u2, v2) = choices[choice];
            let mark = self.trail.len();
            let saved_cost = self.cost;
            let ghost before = *self;
            let first = self.add_edge(0, u1, v1);
            if first {
                let ghost mid = *self;
                let second = self.add_edge(1, u2, v2);
                proof {
                    lemma_undo_extend(self.matrices@, self.trail@, mark as nat, mid.trail@.len());
                    assert(self.trail@.take(mid.trail@.len() as int).take(mark as int) =~= self.trail@.take(mark as int));
                    assert(self.trail@.take(mark as int) =~= before.trail@) by {
                        assert(mid.trail@.take(mark as int) == before.trail@);
                    }
                }
                if second {
                    let ghost ready = *self;
                    self.search(index + 1, pairs);
                    assert(self.matrices@ == ready.matrices@ && self.trail@ == ready.trail@);
                }
            }
            proof {
                assert(undo(self.matrices@, self.trail@, mark as nat) == before.matrices@);
            }
            self.rewind(mark);
            self.cost = saved_cost;
            proof {
                assert(self.trail@ =~= before.trail@);
                assert(self.matrices@ == before.matrices@);
                assert(self.not_orig@ == before.not_orig@);
                assert(self.stride == before.stride);
                assert(saved_cost == agreements(before.matrices@, before.not_orig@, before.stride as nat));
                assert(self.cost == agreements(self.matrices@, self.not_orig@, self.stride as nat));
                assert(self.wf_shape());
            }
            if self.timed_out {
                break;
            }
            choice = choice + 1;
        }
    }
}

// ---- compiling the symmetries ---------------------------------------------------

/// Relabelling a pair swaps the roles of its two nodes.
fn relabel(l: u8) -> (r: u8)
    requires
        l < 4,
    ensures
        r < 4,
        r == (if l == 0 {
            1u8
        } else if l == 1 {
            0u8
        } else if l == 2 {
            3u8
        } else {
            2u8
        }),
{
    if l == 0 {
        1
    } else if l == 1 {
        0
    } else if l == 2 {
        3
    } else {
        2
    }
}

/// Mirroring swaps which extension is the first.
fn mirror(l: u8) -> (r: u8)
    requires
        l < 4,
    ensures
        r < 4,
        r == (if l == 0 {
            1u8
        } else if l == 1 {
            0u8
        } else {
            l
        }),
{
    if l == 0 {
        1
    } else if l == 1 {
        0
    } else {
        l
    }
}

/// The listed position of the pair that `map` sends pair `i` to.
pub open spec fn image_slot(index_of: Seq<usize>, pairs: Seq<(usize, usize)>, n: nat, map: Seq<usize>, i: int) -> int {
    let a = map[pairs[i].0 as int];
    let b = map[pairs[i].1 as int];
    index_of[crate::dimdraw::min_of(a, b) * n + crate::dimdraw::max_of(a, b)] as int
}

/// How the four letters of a pair are rewritten when its nodes come out
/// swapped, the extensions mirrored, both or neither.
pub open spec fn letter_table(swapped: bool, mirrored: bool) -> Seq<u8> {
    if swapped && mirrored {
        seq![0u8, 1u8, 3u8, 2u8]
    } else if swapped {
        seq![1u8, 0u8, 3u8, 2u8]
    } else if mirrored {
        seq![1u8, 0u8, 2u8, 3u8]
    } else {
        seq![0u8, 1u8, 2u8, 3u8]
    }
}

/// Position `t` of `sym` as compiling `map` over the first `upto` pairs
/// leaves it: the last of them sent to `t`, with its letter table, or the
/// identity where none is.
pub open spec fn slot_compiled(
    sym_source: Seq<u32>,
    sym_rewrite: Seq<[u8; 4]>,
    index_of: Seq<usize>,
    pairs: Seq<(usize, usize)>,
    n: nat,
    map: Seq<usize>,
    mirrored: bool,
    upto: int,
    t: int,
) -> bool {
    if exists|i: int| 0 <= i < upto && image_slot(index_of, pairs, n, map, i) == t {
        let i = sym_source[t] as int;
        &&& 0 <= i < upto
        &&& image_slot(index_of, pairs, n, map, i) == t
        &&& forall|i2: int| i < i2 < upto ==> image_slot(index_of, pairs, n, map, i2) != t
        &&& sym_rewrite[t]@ == letter_table(map[pairs[i].0 as int] > map[pairs[i].1 as int], mirrored)
    } else {
        sym_source[t] == 0 && sym_rewrite[t]@ == seq![0u8, 1u8, 2u8, 3u8]
    }
}

/// `sym` is `map`, mirrored or not, compiled over all of `pairs`.
pub open spec fn compiled(
    sym: Symmetry,
    index_of: Seq<usize>,
    pairs: Seq<(usize, usize)>,
    n: nat,
    map: Seq<usize>,
    mirrored: bool,
) -> bool {
    &&& sym.source@.len() == pairs.len()
    &&& sym.rewrite@.len() == pairs.len()
    &&& forall|t: int|
        0 <= t < pairs.len() ==> #[trigger] slot_compiled(sym.source@, sym.rewrite@, index_of, pairs, n, map, mirrored, pairs.len() as int, t)
}

/// Writing pair `i` into its image's slot extends the compiled positions
/// from the first `i` pairs to the first `i + 1`.
proof fn lemma_slot_step(
    s0: Seq<u32>,
    r0: Seq<[u8; 4]>,
    s1: Seq<u32>,
    r1: Seq<[u8; 4]>,
    index_of: Seq<usize>,
    pairs: Seq<(usize, usize)>,
    n: nat,
    map: Seq<usize>,
    mirrored: bool,
    i: int,
    target: int,
    table: [u8; 4],
)
    requires
        0 <= i < pairs.len() <= u32::MAX,
        s0.len() == pairs.len(),
        r0.len() == pairs.len(),
        0 <= target < pairs.len(),
        forall|t: int| 0 <= t < pairs.len() ==> #[trigger] slot_compiled(s0, r0, index_of, pairs, n, map, mirrored, i, t),
        s1 == s0.update(target, i as u32),
        r1 == r0.update(target, table),
        image_slot(index_of, pairs, n, map, i) == target,
        table@ == letter_table(map[pairs[i].0 as int] > map[pairs[i].1 as int], mirrored),
    ensures
        forall|t: int| 0 <= t < pairs.len() ==> #[trigger] slot_compiled(s1, r1, index_of, pairs, n, map, mirrored, i + 1, t),
{
    assert forall|t: int| 0 <= t < pairs.len() implies #[trigger] slot_compiled(s1, r1, index_of, pairs, n, map, mirrored, i + 1, t) by {
        if t == target {
            assert(s1[t] == i as u32);
            assert(r1[t] == table);
        } else {
            assert(s1[t] == s0[t]);
            assert(r1[t] == r0[t]);
            assert(slot_compiled(s0, r0, index_of, pairs, n, map, mirrored, i, t));
            if exists|j: int| 0 <= j < i + 1 && image_slot(index_of, pairs, n, map, j) == t {
                let j = choose|j: int| 0 <= j < i + 1 && image_slot(index_of, pairs, n, map, j) == t;
                assert(j < i);
            }
        }
    }
}

/// One automorphism, mirrored or not, as a [`Symmetry`] over `pairs`.
fn compile_one(pairs: &Vec<(usize, usize)>, node_count: usize, index_of: &Vec<usize>, map: &Vec<usize>, mirrored: bool) -> (r: Symmetry)
    requires
        node_count * node_count <= usize::MAX,
        pairs@.len() <= u32::MAX,
        forall|i: int| 0 <= i < pairs@.len() ==> (#[trigger] pairs@[i]).0 < node_count && pairs@[i].1 < node_count,
        map@.len() == node_count,
        forall|x: int| 0 <= x < node_count ==> #[trigger] map@[x] < node_count,
        forall|i: int| 0 <= i < pairs@.len() ==> pairs@.contains(
            (
                crate::dimdraw::min_of(map@[#[trigger] pairs@[i].0 as int], map@[pairs@[i].1 as int]),
                crate::dimdraw::max_of(map@[pairs@[i].0 as int], map@[pairs@[i].1 as int]),
            ),
        ),
        indexes_pairs(index_of@, pairs@, node_count as nat),
        forall|i: int| 0 <= i < pairs@.len() ==> #[trigger] index_of@[pairs@[i].0 * node_count + pairs@[i].1] < pairs@.len(),
    ensures
        r.wf(pairs@.len()),
        compiled(r, index_of@, pairs@, node_count as nat, map@, mirrored),
{
    let len = pairs.len();
    let mut source: Vec<u32> = Vec::new();
    let mut rewrite: Vec<[u8; 4]> = Vec::new();
    let mut x: usize = 0;
    while x < len
        invariant
            x <= len,
            source@.len() == x,
            rewrite@.len() == x,
            forall|y: int| 0 <= y < x ==> #[trigger] source@[y] == 0,
            forall|y: int, l: int| 0 <= y < x && 0 <= l < 4 ==> #[trigger] rewrite@[y]@[l] < 4,
            forall|y: int| 0 <= y < x ==> #[trigger] rewrite@[y]@ == seq![0u8, 1u8, 2u8, 3u8],
        decreases len - x,
    {
        source.push(0);
        let identity: [u8; 4] = [0, 1, 2, 3];
        assert(identity@ =~= seq![0u8, 1u8, 2u8, 3u8]);
        rewrite.push(identity);
        x = x + 1;
    }
    let mut i: usize = 0;
    while i < len
        invariant
            len == pairs@.len(),
            len <= u32::MAX,
            node_count * node_count <= usize::MAX,
            forall|i: int| 0 <= i < pairs@.len() ==> (#[trigger] pairs@[i]).0 < node_count && pairs@[i].1 < node_count,
            map@.len() == node_count,
            forall|x: int| 0 <= x < node_count ==> #[trigger] map@[x] < node_count,
            forall|i: int| 0 <= i < pairs@.len() ==> pairs@.contains(
                (
                    crate::dimdraw::min_of(map@[#[trigger] pairs@[i].0 as int], map@[pairs@[i].1 as int]),
                    crate::dimdraw::max_of(map@[pairs@[i].0 as int], map@[pairs@[i].1 as int]),
                ),
            ),
            indexes_pairs(index_of@, pairs@, node_count as nat),
            forall|i: int| 0 <= i < pairs@.len() ==> #[trigger] index_of@[pairs@[i].0 * node_count + pairs@[i].1] < pairs@.len(),
            i <= len,
            source@.len() == len,
            rewrite@.len() == len,
            forall|y: int| 0 <= y < len ==> #[trigger] source@[y] < len,
            forall|y: int, l: int| 0 <= y < len && 0 <= l < 4 ==> #[trigger] rewrite@[y]@[l] < 4,
            forall|t: int|
                0 <= t < len ==> #[trigger] slot_compiled(source@, rewrite@, index_of@, pairs@, node_count as nat, map@, mirrored, i as int, t),
        decreases len - i,
    {
        let (u, v) = pairs[i];
        let a = map[u];
        let b = map[v];
        let lo = if a <= b {
            a
        } else {
            b
        };
        let hi = if a <= b {
            b
        } else {
            a
        };
        proof {
            assert(pairs@.contains((lo, hi)));
            let t = choose|t: int| 0 <= t < pairs@.len() && pairs@[t] == (lo, hi);
            assert(index_of@[pairs@[t].0 * node_count + pairs@[t].1] < pairs@.len());
            crate::dimdraw::lemma_index(lo as nat, hi as nat, node_count as nat, node_count as nat);
        }
        let target = index_of[lo * node_count + hi];
        let ghost s0 = source@;
        source.set(target, i as u32);
        let mut table: [u8; 4] = [0, 1, 2, 3];
        if a > b {
            table = [relabel(table[0]), relabel(table[1]), relabel(table[2]), relabel(table[3])];
        }
        if mirrored {
            table = [mirror(table[0]), mirror(table[1]), mirror(table[2]), mirror(table[3])];
        }
        assert(table@ =~= letter_table(a > b, mirrored));
        let ghost r0 = rewrite@;
        rewrite.set(target, table);
        proof {
            assert forall|y: int| 0 <= y < len implies #[trigger] source@[y] < len by {
                if y != target {
                    assert(source@[y] == s0[y]);
                }
            }
            assert forall|y: int, l: int| 0 <= y < len && 0 <= l < 4 implies #[trigger] rewrite@[y]@[l] < 4 by {
                if y != target {
                    assert(rewrite@[y] == r0[y]);
                }
            }
            assert(image_slot(index_of@, pairs@, node_count as nat, map@, i as int) == target as int);
            lemma_slot_step(s0, r0, source@, rewrite@, index_of@, pairs@, node_count as nat, map@, mirrored, i as int, target as int, table);
        }
        i = i + 1;
    }
    Symmetry { source, rewrite }
}

/// How many symmetries the first `k` maps compile to: two for a map that
/// moves a node, one (mirrored only) for one that moves none.
pub open spec fn sym_count(maps: Seq<Vec<usize>>, k: int) -> int
    decreases k,
{
    if k <= 0 {
        0
    } else {
        sym_count(maps, k - 1) + if crate::dimdraw::moves_a_node(maps[k - 1]@) {
            2int
        } else {
            1int
        }
    }
}

proof fn lemma_sym_count_mono(maps: Seq<Vec<usize>>, a: int, b: int)
    requires
        0 <= a <= b,
    ensures
        sym_count(maps, a) + (b - a) <= sym_count(maps, b),
    decreases b - a,
{
    if a < b {
        lemma_sym_count_mono(maps, a, b - 1);
    }
}

/// The map that keeps every one of `n` nodes.
pub open spec fn identity_map(n: nat) -> Seq<usize> {
    Seq::new(n, |y: int| y as usize)
}

/// Map `k` is compiled at its place in `r`: unmirrored then mirrored if it
/// moves a node, mirrored only if not.
pub open spec fn map_compiled(
    r: Seq<Symmetry>,
    index_of: Seq<usize>,
    pairs: Seq<(usize, usize)>,
    n: nat,
    maps: Seq<Vec<usize>>,
    k: int,
) -> bool {
    let b = 1 + sym_count(maps, k);
    if crate::dimdraw::moves_a_node(maps[k]@) {
        compiled(r[b], index_of, pairs, n, maps[k]@, false) && compiled(r[b + 1], index_of, pairs, n, maps[k]@, true)
    } else {
        compiled(r[b], index_of, pairs, n, maps[k]@, true)
    }
}

/// Compiles every automorphism, with and without mirroring the two
/// extensions, into a [`Symmetry`]. The identity without mirroring is left
/// out: it would only demand that the word not exceed itself. The mirrored
/// identity comes first, then for each map in turn its plain and its
/// mirrored form, the plain one only where the map moves a node.
pub fn compile_symmetries(pairs: &Vec<(usize, usize)>, node_count: usize, maps: &Vec<Vec<usize>>) -> (r: Vec<Symmetry>)
    requires
        node_count * node_count <= usize::MAX,
        pairs@.len() <= u32::MAX,
        forall|i: int| 0 <= i < pairs@.len() ==> (#[trigger] pairs@[i]).0 < node_count && pairs@[i].1 < node_count
            && pairs@[i].0 < pairs@[i].1,
        forall|k: int| 0 <= k < maps@.len() ==> #[trigger] maps@[k]@.len() == node_count && forall|x: int|
            0 <= x < node_count ==> #[trigger] maps@[k]@[x] < node_count,
        closed_under(pairs@, maps@, node_count as nat),
    ensures
        r@.len() <= 2 * maps@.len() + 1,
        forall|g: int| 0 <= g < r@.len() ==> (#[trigger] r@[g]).wf(pairs@.len()),
        r@.len() == 1 + sym_count(maps@, maps@.len() as int),
        exists|ix: Seq<usize>|
            #[trigger] indexes_pairs(ix, pairs@, node_count as nat) && compiled(
                r@[0],
                ix,
                pairs@,
                node_count as nat,
                identity_map(node_count as nat),
                true,
            ) && forall|k: int| 0 <= k < maps@.len() ==> #[trigger] map_compiled(r@, ix, pairs@, node_count as nat, maps@, k),
{
    let index_of = index_pairs(pairs, node_count);
    let mut identity: Vec<usize> = Vec::new();
    let mut x: usize = 0;
    while x < node_count
        invariant
            x <= node_count,
            identity@.len() == x,
            forall|y: int| 0 <= y < x ==> #[trigger] identity@[y] == y,
        decreases node_count - x,
    {
        identity.push(x);
        x = x + 1;
    }
    let mut out: Vec<Symmetry> = Vec::new();
    // The identity, mirrored only.
    proof {
        assert forall|i: int| 0 <= i < pairs@.len() implies pairs@.contains(
            (
                crate::dimdraw::min_of(identity@[#[trigger] pairs@[i].0 as int], identity@[pairs@[i].1 as int]),
                crate::dimdraw::max_of(identity@[pairs@[i].0 as int], identity@[pairs@[i].1 as int]),
            ),
        ) by {
            assert(identity@[pairs@[i].0 as int] == pairs@[i].0);
            assert(identity@[pairs@[i].1 as int] == pairs@[i].1);
        }
    }
    assert(identity@ =~= identity_map(node_count as nat));
    out.push(compile_one(pairs, node_count, &index_of, &identity, true));
    assert forall|q: int| 0 <= q < maps@.len() implies #[trigger] maps@[q]@.len() == node_count && forall|z: int|
        0 <= z < node_count ==> #[trigger] maps@[q]@[z] < node_count by {
        assert(maps@[q]@.len() == node_count);
    }
    assert(closed_under(pairs@, maps@, node_count as nat));
    assert(indexes_pairs(index_of@, pairs@, node_count as nat));
    assert(forall|i: int| 0 <= i < pairs@.len() ==> #[trigger] index_of@[pairs@[i].0 * node_count + pairs@[i].1] < pairs@.len());
    assert(out@.len() <= 1);
    assert(forall|g: int| 0 <= g < out@.len() ==> (#[trigger] out@[g]).wf(pairs@.len()));
    let mut k: usize = 0;
    while k < maps.len()
        invariant
            node_count * node_count <= usize::MAX,
            pairs@.len() <= u32::MAX,
            forall|i: int| 0 <= i < pairs@.len() ==> (#[trigger] pairs@[i]).0 < node_count && pairs@[i].1 < node_count,
            forall|q: int| 0 <= q < maps@.len() ==> #[trigger] maps@[q]@.len() == node_count && forall|z: int|
                0 <= z < node_count ==> #[trigger] maps@[q]@[z] < node_count,
            closed_under(pairs@, maps@, node_count as nat),
            indexes_pairs(index_of@, pairs@, node_count as nat),
            forall|i: int| 0 <= i < pairs@.len() ==> #[trigger] index_of@[pairs@[i].0 * node_count + pairs@[i].1] < pairs@.len(),
            k <= maps@.len(),
            out@.len() <= 2 * k + 1,
            forall|g: int| 0 <= g < out@.len() ==> (#[trigger] out@[g]).wf(pairs@.len()),
            out@.len() == 1 + sym_count(maps@, k as int),
            compiled(out@[0], index_of@, pairs@, node_count as nat, identity_map(node_count as nat), true),
            forall|q: int| 0 <= q < k ==> #[trigger] map_compiled(out@, index_of@, pairs@, node_count as nat, maps@, q),
        decreases maps@.len() - k,
    {
        let map = &maps[k];
        // A map that moves nothing is the identity, already compiled.
        let mut relabels_identically = true;
        let mut y: usize = 0;
        while y < node_count
            invariant
                map@.len() == node_count,
                y <= node_count,
                relabels_identically == forall|z: int| 0 <= z < y ==> map@[z] == z,
            decreases node_count - y,
        {
            if map[y] != y {
                relabels_identically = false;
            }
            y = y + 1;
        }
        proof {
            assert forall|i: int| 0 <= i < pairs@.len() implies pairs@.contains(
                (
                    crate::dimdraw::min_of(map@[#[trigger] pairs@[i].0 as int], map@[pairs@[i].1 as int]),
                    crate::dimdraw::max_of(map@[pairs@[i].0 as int], map@[pairs@[i].1 as int]),
                ),
            ) by {
                assert(maps@[k as int]@ == map@);
            }
        }
        let ghost o0 = out@;
        if !relabels_identically {
            let plain = compile_one(pairs, node_count, &index_of, map, false);
            out.push(plain);
            proof {
                assert(out@ == o0.push(plain));
                assert(compiled(out@[o0.len() as int], index_of@, pairs@, node_count as nat, map@, false));
            }
        }
        let ghost o1 = out@;
        let mirrored = compile_one(pairs, node_count, &index_of, map, true);
        out.push(mirrored);
        proof {
            assert(out@ == o1.push(mirrored));
            assert(compiled(out@[o1.len() as int], index_of@, pairs@, node_count as nat, map@, true));
            assert(o1.len() >= o0.len());
            assert(forall|j: int| 0 <= j < o0.len() ==> #[trigger] o1[j] == o0[j]);
            assert(forall|j: int| 0 <= j < o0.len() ==> #[trigger] out@[j] == o0[j]);
            if !relabels_identically {
                assert(compiled(out@[o0.len() as int], index_of@, pairs@, node_count as nat, map@, false));
                assert(o1.len() == o0.len() + 1);
            } else {
                assert(o1 == o0);
            }
        }
        proof {
            assert forall|g: int| 0 <= g < out@.len() implies (#[trigger] out@[g]).wf(pairs@.len()) by {
                if g < o0.len() {
                    assert(out@[g] == o0[g]);
                }
            }
            assert(map@ == maps@[k as int]@);
            assert(relabels_identically == !crate::dimdraw::moves_a_node(map@));
            lemma_sym_count_mono(maps@, 0, k as int);
            assert(out@[0] == o0[0]);
            assert forall|q: int| 0 <= q < k + 1 implies #[trigger] map_compiled(out@, index_of@, pairs@, node_count as nat, maps@, q) by {
                if q < k {
                    assert(map_compiled(o0, index_of@, pairs@, node_count as nat, maps@, q));
                    lemma_sym_count_mono(maps@, q + 1, k as int);
                    lemma_sym_count_mono(maps@, 0, q);
                    let b = 1 + sym_count(maps@, q);
                    assert(sym_count(maps@, q + 1) >= sym_count(maps@, q) + 1);
                    assert(o0.len() == 1 + sym_count(maps@, k as int));
                    assert(sym_count(maps@, q + 1) <= sym_count(maps@, k as int));
                    assert(b < o0.len());
                    assert(out@[b] == o1[b]);
                    assert(o1[b] == o0[b]);
                    if crate::dimdraw::moves_a_node(maps@[q]@) {
                        assert(out@[b + 1] == o1[b + 1]);
                        assert(o1[b + 1] == o0[b + 1]);
                    }
                }
            }
        }
        k = k + 1;
    }
    out
}

// ---- setting the search up and running it ----------------------------------------

/// What the search needs of the order: its closure, the incomparable pairs
/// grouped by orbit, and the compiled symmetries.
pub struct SearchSetup {
    pub node_count: usize,
    pub words: usize,
    pub closure: Vec<u64>,
    pub pairs: Vec<(usize, usize)>,
    pub symmetries: Vec<Symmetry>,
}

impl SearchSetup {
    pub open spec fn wf(&self) -> bool {
        &&& self.node_count >= 2
        &&& self.node_count <= 64 * self.words
        &&& 64 * (self.node_count * self.words) < u32::MAX
        &&& matrix_shape(self.closure@, self.node_count as nat, self.words as nat)
        &&& crate::dimdraw::strict_order(self.closure@, self.words as nat, self.node_count as nat)
        &&& pairs_ok(self.pairs@, self.node_count as nat)
        &&& self.pairs@.no_duplicates()
        &&& self.pairs@.len() <= self.node_count * self.node_count
        &&& forall|p: (usize, usize)|
            #[trigger] self.pairs@.contains(p) <==> (p.0 < p.1 < self.node_count && incomparable(
                self.closure@,
                self.words as nat,
                p.0 as nat,
                p.1 as nat,
            ))
        &&& self.symmetries@.len() <= 2 * crate::dimdraw::AUTOMORPHISM_CAP + 1
        &&& forall|g: int| 0 <= g < self.symmetries@.len() ==> (#[trigger] self.symmetries@[g]).wf(self.pairs@.len())
    }
}

/// The number of 64-bit words a row of `n` bits takes.
pub open spec fn words_for(n: nat) -> nat {
    n / 64 + if n % 64 == 0 {
        0nat
    } else {
        1nat
    }
}

/// Builds what the search needs from the covering edges of an order of
/// `node_count >= 2` nodes: `None` if an edge leaves the nodes, the edges
/// are cyclic, or the order is too large for the search's 32-bit counters.
pub fn prepare_search(node_count: usize, covering_edges: &[(u32, u32)]) -> (r: Option<SearchSetup>)
    requires
        node_count >= 2,
    ensures
        match r {
            Some(s) => {
                &&& s.wf()
                &&& s.node_count == node_count
                &&& s.words == words_for(node_count as nat)
                &&& edges_in_range(node_count as nat, covering_edges@)
                &&& acyclic(node_count as nat, covering_edges@)
                &&& forall|u: nat, v: nat|
                    u < node_count && v < 64 * s.words ==> (#[trigger] matrix_bit(s.closure@, s.words as nat, u, v)
                        <==> (v < node_count && walk_reaches(covering_edges@, u as int, v as int)))
            },
            None => {
                ||| !edges_in_range(node_count as nat, covering_edges@)
                ||| !acyclic(node_count as nat, covering_edges@)
                ||| 64 * (node_count * words_for(node_count as nat)) >= u32::MAX
            },
        },
{
    let words = node_count / 64 + if node_count % 64 == 0 {
        0
    } else {
        1
    };
    assert(words == words_for(node_count as nat));
    if node_count > 65536 {
        proof {
            assert(words * 64 >= node_count);
            assert(64 * (node_count * words) >= 64 * (65537 * 1025)) by (nonlinear_arith)
                requires
                    node_count > 65536,
                    words >= 1025,
            ;
        }
        return None;
    }
    assert(node_count * words <= 65536 * 1025) by (nonlinear_arith)
        requires
            node_count <= 65536,
            words <= 1025,
    ;
    let size: u64 = 64 * ((node_count * words) as u64);
    if size >= 0xffff_ffff {
        return None;
    }
    let closure = match transitive_closure(node_count, words, covering_edges) {
        Some(c) => c,
        None => return None,
    };
    assert(node_count * node_count <= 64 * (node_count * words)) by (nonlinear_arith)
        requires
            node_count <= 64 * words,
    ;
    let mut pairs = incomparable_pairs(node_count, words, closure.as_slice());
    let ghost m = closure@;
    proof {
        crate::dimdraw::lemma_closure_strict(m, words as nat, node_count as nat, covering_edges@);
        crate::dimdraw::lemma_incomparable_pairs_no_dup(m, words as nat, node_count as nat);
        crate::dimdraw::lemma_incomparable_pairs_contains(m, words as nat, node_count as nat);
        crate::dimdraw::lemma_upto_len(m, words as nat, node_count as nat, node_count as nat);
        assert(pairs@.len() <= node_count * node_count);
    }
    let maps = automorphisms(node_count, words, closure.as_slice());
    proof {
        crate::dimdraw::lemma_automorphisms_close(m, words as nat, node_count as nat, pairs@, maps@);
        assert forall|i: int| 0 <= i < pairs@.len() implies (#[trigger] pairs@[i]).0 < node_count && pairs@[i].1 < node_count by {
            assert(pairs@.contains(pairs@[i]));
        }
        assert forall|k: int| 0 <= k < maps@.len() implies #[trigger] maps@[k]@.len() == node_count && forall|z: int|
            0 <= z < node_count ==> #[trigger] maps@[k]@[z] < node_count by {
            assert(crate::dimdraw::is_automorphism(m, words as nat, node_count as nat, maps@[k]@));
        }
    }
    if maps.len() > 0 {
        let ghost before = pairs@;
        group_pairs_by_orbit(&mut pairs, node_count, maps.as_slice());
        proof {
            let keys = choose|keys: Seq<int>| #[trigger] crate::dimdraw::rearranged(pairs@, before, keys);
            crate::dimdraw::lemma_rearranged_contains(pairs@, before, keys);
            crate::dimdraw::lemma_permuted_no_dup(pairs@, before, keys);
            crate::dimdraw::lemma_automorphisms_close(m, words as nat, node_count as nat, pairs@, maps@);
        }
    }
    proof {
        assert forall|i: int| 0 <= i < pairs@.len() implies (#[trigger] pairs@[i]).0 < node_count && pairs@[i].1 < node_count
            && pairs@[i].0 < pairs@[i].1 by {
            assert(pairs@.contains(pairs@[i]));
        }
        assert forall|k: int| 0 <= k < maps@.len() implies #[trigger] maps@[k]@.len() == node_count && forall|z: int|
            0 <= z < node_count ==> #[trigger] maps@[k]@[z] < node_count by {
            assert(crate::dimdraw::is_automorphism(m, words as nat, node_count as nat, maps@[k]@));
        }
    }
    let symmetries = compile_symmetries(&pairs, node_count, &maps);
    Some(SearchSetup { node_count, words, closure, pairs, symmetries })
}

/// The one bits of row `a` of extension `k`, word by word up to `j`.
pub open spec fn row_ones(m: Seq<u64>, n: nat, words: nat, k: nat, a: nat, j: nat) -> nat
    decreases j,
{
    if j == 0 {
        0
    } else {
        row_ones(m, n, words, k, a, (j - 1) as nat) + popcount(m[slot(n, words, k, a, (j - 1) as nat)])
    }
}

/// How high node `a` stands in extension `k`: how many nodes are not above
/// it, less itself.
pub open spec fn height_of(m: Seq<u64>, n: nat, words: nat, k: nat, a: nat) -> nat {
    if n >= 1 + row_ones(m, n, words, k, a, words) {
        (n - 1 - row_ones(m, n, words, k, a, words)) as nat
    } else {
        0
    }
}

/// What the search ends with: the best pair of extensions, the heights of
/// the nodes in each, its cost, and how the search went.
pub struct SearchResult {
    pub best: Vec<u64>,
    pub heights_first: Vec<usize>,
    pub heights_second: Vec<usize>,
    pub best_cost: u32,
    pub explored_nodes: usize,
    pub timed_out: bool,
}

proof fn lemma_no_agreements(m: Seq<u64>, no: Seq<u64>, stride: nat, k: nat)
    requires
        k <= stride,
        forall|i: int| 0 <= i < k ==> #[trigger] (m[i] & m[stride + i] & no[i]) == 0u64,
    ensures
        agreements_upto(m, no, stride, k) == 0,
    decreases k,
{
    if k > 0 {
        lemma_no_agreements(m, no, stride, (k - 1) as nat);
        assert((m[k - 1] & m[stride + (k - 1)] & no[k - 1]) == 0u64);
        assert(popcount(0u64) == 0);
    }
}

impl Solver {
    /// Height of node `u` in extension `matrix` of the best solution.
    fn best_height(&self, matrix: usize, u: usize) -> (r: usize)
        requires
            self.wf(),
            matrix < 2,
            u < self.node_count,
        ensures
            r == height_of(self.best@, self.node_count as nat, self.words as nat, matrix as nat, u as nat),
    {
        let ghost n = self.node_count as nat;
        let ghost words = self.words as nat;
        let mut above: u32 = 0;
        let mut j: usize = 0;
        proof {
            assert(matrix * self.stride <= self.stride) by (nonlinear_arith)
                requires
                    matrix < 2,
            ;
        }
        while j < self.words
            invariant
                self.wf(),
                matrix < 2,
                u < self.node_count,
                n == self.node_count,
                words == self.words,
                j <= self.words,
                above as nat == row_ones(self.best@, n, words, matrix as nat, u as nat, j as nat),
                above <= 64 * j,
            decreases self.words - j,
        {
            proof {
                lemma_slot(matrix as nat, n, words, u as nat, j as nat);
                lemma_popcount_bound(self.best@[slot(n, words, matrix as nat, u as nat, j as nat)]);
                assert(64 * j + 64 <= 64 * self.words);
                assert(self.words <= self.stride) by (nonlinear_arith)
                    requires
                        self.stride == self.node_count * self.words,
                        self.node_count >= 1,
                ;
            }
            let w = self.best[matrix * self.stride + u * self.words + j];
            above = above + count_ones(w);
            j = j + 1;
        }
        proof {
            assert(self.words <= self.stride) by (nonlinear_arith)
                requires
                    self.stride == self.node_count * self.words,
                    self.node_count >= 1,
            ;
            assert(above <= 64 * self.words);
        }
        self.node_count.saturating_sub(1 + above as usize)
    }
}

/// Runs the branch-and-bound from the incumbent pair of linear extensions
/// `first` and `second` (listed bottom up), against the clock started at
/// `start_time`. Without seeding, the search starts from a bound no
/// solution reaches and has to find the optimum on its own.
pub fn run_search(
    setup: &SearchSetup,
    first: &[usize],
    second: &[usize],
    baseline_cost: u32,
    seed_from_annealing: bool,
    budget: SearchBudget,
    start_time: std::time::Instant,
) -> (r: SearchResult)
    requires
        setup.wf(),
        forall|i: int| 0 <= i < first@.len() ==> #[trigger] first@[i] < setup.node_count,
        forall|i: int| 0 <= i < second@.len() ==> #[trigger] second@[i] < setup.node_count,
    ensures
        r.heights_first@.len() == setup.node_count,
        r.heights_second@.len() == setup.node_count,
        r.best_cost <= if seed_from_annealing {
            baseline_cost as int
        } else {
            setup.pairs@.len() + 1int
        },
        budget is Unbounded ==> !r.timed_out,
        (match budget {
            SearchBudget::Milliseconds(ms) => ms == 0,
            SearchBudget::Unbounded => false,
        }) ==> r.timed_out && r.explored_nodes == 0 && r.best_cost == if seed_from_annealing {
            baseline_cost as int
        } else {
            setup.pairs@.len() + 1int
        },
        forall|u: int| 0 <= u < setup.node_count ==> #[trigger] r.heights_first@[u] == height_of(
            r.best@,
            setup.node_count as nat,
            setup.words as nat,
            0,
            u as nat,
        ),
        forall|u: int| 0 <= u < setup.node_count ==> #[trigger] r.heights_second@[u] == height_of(
            r.best@,
            setup.node_count as nat,
            setup.words as nat,
            1,
            u as nat,
        ),
{
    let n = setup.node_count;
    let words = setup.words;
    assert(n * words <= 64 * (n * words));
    let stride = n * words;
    assert(words <= stride) by (nonlinear_arith)
        requires
            stride == n * words,
            n >= 1,
    ;
    assert(2 * stride <= 64 * stride);
    let mut best = linear_order_matrix(first, n, words);
    let second_matrix = linear_order_matrix(second, n, words);
    let mut i: usize = 0;
    while i < stride
        invariant
            stride == n * words,
            second_matrix@.len() == stride,
            best@.len() == stride + i,
            i <= stride,
        decreases stride - i,
    {
        best.push(second_matrix[i]);
        i = i + 1;
    }
    // The original order sits in both extensions at the root; the pairs it
    // leaves incomparable are the ones an agreement is charged for.
    let mut matrices: Vec<u64> = Vec::new();
    let mut t: usize = 0;
    let two_strides = 2 * stride;
    while t < two_strides
        invariant
            two_strides == 2 * stride,
            stride == n * words,
            setup.closure@.len() == stride,
            t <= 2 * stride,
            matrices@.len() == t,
            forall|x: int| 0 <= x < t ==> #[trigger] matrices@[x] == setup.closure@[if x < stride { x } else { x - stride }],
        decreases 2 * stride - t,
    {
        let w = if t < stride {
            setup.closure[t]
        } else {
            setup.closure[t - stride]
        };
        matrices.push(w);
        t = t + 1;
    }
    let mut not_orig: Vec<u64> = Vec::new();
    let mut x: usize = 0;
    while x < stride
        invariant
            stride == n * words,
            setup.closure@.len() == stride,
            n <= 64 * words,
            words <= stride,
            64 * stride < u32::MAX,
            x <= stride,
            not_orig@.len() == x,
            forall|y: int| 0 <= y < x ==> (#[trigger] not_orig@[y] & setup.closure@[y]) == 0u64,
        decreases stride - x,
    {
        let j = x % words;
        assert((j + 1) * 64 <= 64 * words);
        let sh = (n % 64) as u64;
        assert(sh < 64 ==> (1u64 << sh) >= 1u64) by (bit_vector);
        let in_range = if (j + 1) * 64 <= n {
            u64::MAX
        } else {
            (1u64 << sh) - 1
        };
        let c = setup.closure[x];
        let w = in_range & !c;
        assert((in_range & !c) & c == 0u64) by (bit_vector);
        not_orig.push(w);
        x = x + 1;
    }
    proof {
        assert forall|y: int| 0 <= y < stride implies #[trigger] (matrices@[y] & matrices@[stride + y] & not_orig@[y]) == 0u64 by {
            let c = setup.closure@[y];
            let no = not_orig@[y];
            assert(matrices@[y] == c && matrices@[stride + y] == c);
            assert((no & c) == 0u64 ==> (c & c & no) == 0u64) by (bit_vector);
        }
        lemma_no_agreements(matrices@, not_orig@, stride as nat, stride as nat);
        assert(n * n <= 64 * stride) by (nonlinear_arith)
            requires
                n <= 64 * words,
                stride == n * words,
        ;
    }
    let npairs = setup.pairs.len();
    let mut word: Vec<u8> = Vec::new();
    let mut p: usize = 0;
    while p < npairs
        invariant
            p <= npairs,
            word@.len() == p,
            forall|y: int| 0 <= y < p ==> #[trigger] word@[y] == 0u8,
        decreases npairs - p,
    {
        word.push(0u8);
        p = p + 1;
    }
    let nsym = setup.symmetries.len();
    let mut symmetries: Vec<Symmetry> = Vec::new();
    let mut lex_at: Vec<u32> = Vec::new();
    let mut lex_done: Vec<bool> = Vec::new();
    let mut g: usize = 0;
    while g < nsym
        invariant
            nsym == setup.symmetries@.len(),
            forall|h: int| 0 <= h < nsym ==> (#[trigger] setup.symmetries@[h]).wf(npairs as nat),
            g <= nsym,
            symmetries@.len() == g,
            lex_at@.len() == g,
            lex_done@.len() == g,
            forall|h: int| 0 <= h < g ==> (#[trigger] symmetries@[h]).wf(npairs as nat) && lex_at@[h] == 0,
        decreases nsym - g,
    {
        let sym = &setup.symmetries[g];
        symmetries.push(copy_symmetry(sym, Ghost(npairs as nat)));
        lex_at.push(0);
        lex_done.push(false);
        g = g + 1;
    }
    let mut mask: Vec<u64> = Vec::new();
    let mut q: usize = 0;
    while q < words
        invariant
            q <= words,
            mask@.len() == q,
        decreases words - q,
    {
        mask.push(0);
        q = q + 1;
    }
    let best_cost = if seed_from_annealing {
        baseline_cost
    } else {
        npairs as u32 + 1
    };
    let mut solver = Solver {
        node_count: n,
        words,
        stride,
        matrices,
        not_orig,
        mask,
        cost: 0,
        best_cost,
        best,
        trail: Vec::new(),
        word,
        known: 0,
        symmetries,
        lex_at,
        lex_done,
        lex_trail: Vec::new(),
        nodes_explored: 0,
        timed_out: false,
        limit_ms: budget.limit_ms(),
        start_time,
    };
    // A zero budget takes the incumbent as it stands.
    let no_time = match budget {
        SearchBudget::Milliseconds(ms) => ms == 0,
        SearchBudget::Unbounded => false,
    };
    if no_time {
        solver.timed_out = true;
    } else {
        solver.search(0, setup.pairs.as_slice());
    }
    let mut heights_first: Vec<usize> = Vec::new();
    let mut heights_second: Vec<usize> = Vec::new();
    let mut u: usize = 0;
    while u < n
        invariant
            solver.wf(),
            n == solver.node_count,
            words == solver.words,
            u <= n,
            heights_first@.len() == u,
            heights_second@.len() == u,
            forall|a: int| 0 <= a < u ==> #[trigger] heights_first@[a] == height_of(solver.best@, n as nat, words as nat, 0, a as nat),
            forall|a: int| 0 <= a < u ==> #[trigger] heights_second@[a] == height_of(solver.best@, n as nat, words as nat, 1, a as nat),
            budget is Unbounded ==> !solver.timed_out,
            no_time ==> solver.timed_out && solver.nodes_explored == 0 && solver.best_cost == best_cost,
            solver.best_cost <= best_cost,
        decreases n - u,
    {
        heights_first.push(solver.best_height(0, u));
        heights_second.push(solver.best_height(1, u));
        u = u + 1;
    }
    SearchResult {
        best: solver.best,
        heights_first,
        heights_second,
        best_cost: solver.best_cost,
        explored_nodes: solver.nodes_explored,
        timed_out: solver.timed_out,
    }
}

/// A copy of a symmetry's tables.
fn copy_symmetry(sym: &Symmetry, Ghost(npairs): Ghost<nat>) -> (r: Symmetry)
    requires
        sym.wf(npairs),
    ensures
        r.wf(npairs),
{
    let mut source: Vec<u32> = Vec::new();
    let mut rewrite: Vec<[u8; 4]> = Vec::new();
    let mut i: usize = 0;
    while i < sym.source.len()
        invariant
            sym.wf(npairs),
            i <= npairs,
            source@.len() == i,
            rewrite@.len() == i,
            forall|y: int| 0 <= y < i ==> #[trigger] source@[y] < npairs,
            forall|y: int, l: int| 0 <= y < i && 0 <= l < 4 ==> #[trigger] rewrite@[y]@[l] < 4,
        decreases npairs - i,
    {
        source.push(sym.source[i]);
        let row = sym.rewrite[i];
        let table: [u8; 4] = [row[0], row[1], row[2], row[3]];
        assert(table@[0] == row@[0] && table@[1] == row@[1] && table@[2] == row@[2] && table@[3] == row@[3]);
        rewrite.push(table);
        proof {
            assert forall|y: int, l: int| 0 <= y < i + 1 && 0 <= l < 4 implies #[trigger] rewrite@[y]@[l] < 4 by {
                if y == i {
                    assert(rewrite@[y] == table);
                    assert(sym.rewrite@[i as int]@[l] < 4);
                }
            }
        }
        i = i + 1;
    }
    Symmetry { source, rewrite }
}

} // verus!
