//! The SAT side of the order dimension: the clauses that ask for `k`
//! linear extensions, and the `splr` solver that answers them.
use crate::dimension::{get_var, sat_var};
use crate::poset::{acyclic, is_topological, narrow_edges, Poset};
use vstd::prelude::*;

verus! {

/// What the solver says of a clause set.
pub enum SatAnswer {
    /// Satisfiable, with a satisfying assignment: one literal per variable,
    /// in variable order.
    Satisfiable(Vec<i32>),
    /// Unsatisfiable.
    Unsatisfiable,
    /// The solver stopped with an error.
    Failed,
}

/// Some literal of `clause` is set in `model`.
pub open spec fn clause_satisfied(model: Seq<i32>, clause: Seq<i32>) -> bool {
    exists|t: int| 0 <= t < clause.len() && model.contains(#[trigger] clause[t])
}

/// `model` sets variable `i + 1` at place `i`, to true or to false.
pub open spec fn is_assignment(model: Seq<i32>) -> bool {
    forall|i: int| 0 <= i < model.len() ==> #[trigger] model[i] == i + 1 || model[i] == -(i + 1)
}

/// `model` satisfies every clause.
pub open spec fn satisfies(model: Seq<i32>, clauses: Seq<Seq<i32>>) -> bool {
    forall|c: int| 0 <= c < clauses.len() ==> clause_satisfied(model, #[trigger] clauses[c])
}

/// The clauses, by their views.
pub open spec fn clause_views(clauses: Seq<Vec<i32>>) -> Seq<Seq<i32>> {
    clauses.map_values(|c: Vec<i32>| c@)
}

/// `splr::Certificate::try_from` on a clause list, read as three answers.
/// As its documentation states, a satisfiable answer carries an assignment,
/// in variable order, that satisfies every clause, and an unsatisfiable one
/// means that no assignment does. Of an error nothing is claimed.
#[verifier::external_body]
fn solve_clauses(clauses: Vec<Vec<i32>>) -> (r: SatAnswer)
    requires
        forall|c: int, t: int|
            0 <= c < clauses@.len() && 0 <= t < clauses@[c]@.len() ==> #[trigger] clauses@[c]@[t] != 0
                && clauses@[c]@[t] != i32::MIN,
    ensures
        match r {
            SatAnswer::Satisfiable(model) => is_assignment(model@) && satisfies(model@, clause_views(clauses@)),
            SatAnswer::Unsatisfiable => forall|model: Seq<i32>|
                #[trigger] is_assignment(model) ==> !satisfies(model, clause_views(clauses@)),
            SatAnswer::Failed => true,
        },
{
    match splr::Certificate::try_from(clauses) {
        Ok(splr::Certificate::SAT(model)) => SatAnswer::Satisfiable(model),
        Ok(splr::Certificate::UNSAT) => SatAnswer::Unsatisfiable,
        Err(_) => SatAnswer::Failed,
    }
}

/// `clause` for extension `i`: each variable moved up by `offset`, keeping
/// its sign.
pub open spec fn shifted(clause: Seq<i32>, offset: int) -> Seq<i32> {
    clause.map_values(
        |v: i32|
            if v > 0 {
                (v + offset) as i32
            } else {
                (v - offset) as i32
            },
    )
}

/// The base clauses for the first `k` extensions, extension by extension.
pub open spec fn extension_clauses(base: Seq<Seq<i32>>, n_inc: nat, k: nat) -> Seq<Seq<i32>>
    decreases k,
{
    if k == 0 {
        Seq::empty()
    } else {
        extension_clauses(base, n_inc, (k - 1) as nat) + base.map_values(
            |c: Seq<i32>| shifted(c, (k - 1) * n_inc),
        )
    }
}

/// Variable `var` of each of the `k` extensions, as literals of `sign`.
pub open spec fn linking_clause(n_inc: nat, k: nat, var: int, sign: int) -> Seq<i32> {
    Seq::new(k, |i: int| (sign * (var + i * n_inc)) as i32)
}

/// For each of the variables `1..=m`: the clause that some extension sets
/// it, and the clause that some extension clears it.
pub open spec fn linking_clauses(n_inc: nat, k: nat, m: nat) -> Seq<Seq<i32>>
    decreases m,
{
    if m == 0 {
        Seq::empty()
    } else {
        linking_clauses(n_inc, k, (m - 1) as nat).push(linking_clause(n_inc, k, m as int, 1)).push(
            linking_clause(n_inc, k, m as int, -1),
        )
    }
}

/// The clauses asking for `k` extensions: the base clauses for each, and
/// for each incomparable pair, that the extensions do not all orient it
/// the same way.
pub open spec fn clauses_for(base: Seq<Seq<i32>>, n_inc: nat, k: nat) -> Seq<Seq<i32>> {
    extension_clauses(base, n_inc, k) + linking_clauses(n_inc, k, n_inc)
}

/// The literals of `base` name variables `1..=n_inc`.
pub open spec fn literals_within(base: Seq<Seq<i32>>, n_inc: nat) -> bool {
    forall|c: int, t: int|
        0 <= c < base.len() && 0 <= t < base[c].len() ==> -n_inc <= #[trigger] base[c][t] <= n_inc
            && base[c][t] != 0
}

/// No literal is zero or `i32::MIN`: what the solver reads as a literal.
pub open spec fn literals_valid(clauses: Seq<Vec<i32>>) -> bool {
    forall|c: int, t: int|
        0 <= c < clauses.len() && 0 <= t < clauses[c]@.len() ==> #[trigger] clauses[c]@[t] != 0 && clauses[c]@[t]
            != i32::MIN
}

/// Builds the clauses asking for `k` linear extensions from the base
/// clauses of one: the base clauses shifted to each extension's variables,
/// then for each variable the two clauses that link the extensions.
pub fn clauses_for_k(base_clauses: &[Vec<i32>], n_inc: usize, k: usize) -> (r: Vec<Vec<i32>>)
    requires
        literals_within(clause_views(base_clauses@), n_inc as nat),
        k * n_inc <= i32::MAX,
        n_inc <= i32::MAX,
    ensures
        clause_views(r@) == clauses_for(clause_views(base_clauses@), n_inc as nat, k as nat),
        literals_valid(r@),
{
    let ghost base = clause_views(base_clauses@);
    let mut clauses: Vec<Vec<i32>> = Vec::new();
    let mut i: usize = 0;
    while i < k
        invariant
            base == clause_views(base_clauses@),
            literals_within(base, n_inc as nat),
            k * n_inc <= i32::MAX,
            i <= k,
            clause_views(clauses@) == extension_clauses(base, n_inc as nat, i as nat),
            literals_valid(clauses@),
        decreases k - i,
    {
        proof {
            assert(i * n_inc <= k * n_inc) by (nonlinear_arith)
                requires
                    i <= k,
            ;
            assert(i * n_inc + n_inc <= k * n_inc) by (nonlinear_arith)
                requires
                    i < k,
            ;
        }
        let offset = (i * n_inc) as i32;
        let ghost start = clauses@;
        let mut c: usize = 0;
        while c < base_clauses.len()
            invariant
                base == clause_views(base_clauses@),
                literals_within(base, n_inc as nat),
                offset == i * n_inc,
                i * n_inc + n_inc <= i32::MAX,
                c <= base_clauses@.len(),
                clause_views(start) == extension_clauses(base, n_inc as nat, i as nat),
                clauses@.len() == start.len() + c,
                forall|x: int| 0 <= x < start.len() ==> #[trigger] clauses@[x] == start[x],
                forall|x: int| 0 <= x < c ==> (#[trigger] clauses@[start.len() + x])@ == shifted(base[x], i * n_inc),
                literals_valid(clauses@),
            decreases base_clauses@.len() - c,
        {
            let clause = &base_clauses[c];
            assert(clause@ == base[c as int]);
            let mut shifted_clause: Vec<i32> = Vec::new();
            let mut t: usize = 0;
            while t < clause.len()
                invariant
                    clause@ == base[c as int],
                    c < base.len(),
                    literals_within(base, n_inc as nat),
                    offset == i * n_inc,
                    i * n_inc + n_inc <= i32::MAX,
                    t <= clause@.len(),
                    shifted_clause@ == shifted(clause@, i * n_inc).take(t as int),
                    forall|x: int| 0 <= x < t ==> #[trigger] shifted_clause@[x] != 0 && shifted_clause@[x] != i32::MIN,
                decreases clause@.len() - t,
            {
                let v = clause[t];
                assert(-n_inc <= base[c as int][t as int] <= n_inc);
                let w = if v > 0 {
                    v + offset
                } else {
                    v - offset
                };
                shifted_clause.push(w);
                assert(shifted_clause@ =~= shifted(clause@, i * n_inc).take(t + 1));
                t = t + 1;
            }
            assert(shifted_clause@ =~= shifted(clause@, i * n_inc));
            clauses.push(shifted_clause);
            c = c + 1;
        }
        proof {
            let shifted_block = base.map_values(|cl: Seq<i32>| shifted(cl, i * n_inc));
            assert(clause_views(clauses@) =~= clause_views(start) + shifted_block) by {
                assert forall|x: int| 0 <= x < clauses@.len() implies clause_views(clauses@)[x] == (clause_views(start)
                    + shifted_block)[x] by {
                    if x >= start.len() {
                        assert(clauses@[start.len() + (x - start.len())] == clauses@[x]);
                    }
                }
            }
        }
        i = i + 1;
    }
    let ghost blocks = clauses@;
    assert(literals_valid(clauses@));
    let mut var: usize = 1;
    while var <= n_inc
        invariant
            base == clause_views(base_clauses@),
            k * n_inc <= i32::MAX,
            n_inc <= i32::MAX,
            1 <= var <= n_inc + 1,
            clause_views(blocks) == extension_clauses(base, n_inc as nat, k as nat),
            clauses@.len() == blocks.len() + 2 * (var - 1),
            forall|x: int| 0 <= x < blocks.len() ==> #[trigger] clauses@[x] == blocks[x],
            literals_valid(clauses@),
            clause_views(clauses@.subrange(blocks.len() as int, clauses@.len() as int)) == linking_clauses(
                n_inc as nat,
                k as nat,
                (var - 1) as nat,
            ),
        decreases n_inc + 1 - var,
    {
        let ghost before = clauses@;
        let mut pos_clause: Vec<i32> = Vec::new();
        let mut neg_clause: Vec<i32> = Vec::new();
        let mut e: usize = 0;
        while e < k
            invariant
                k * n_inc <= i32::MAX,
                1 <= var <= n_inc,
                e <= k,
                pos_clause@ == linking_clause(n_inc as nat, k as nat, var as int, 1).take(e as int),
                neg_clause@ == linking_clause(n_inc as nat, k as nat, var as int, -1).take(e as int),
                forall|x: int| 0 <= x < e ==> #[trigger] pos_clause@[x] > 0 && neg_clause@[x] < 0 && neg_clause@[x] != i32::MIN,
            decreases k - e,
        {
            proof {
                assert(e * n_inc + n_inc <= k * n_inc) by (nonlinear_arith)
                    requires
                        e < k,
                ;
            }
            let v = (var + e * n_inc) as i32;
            pos_clause.push(v);
            neg_clause.push(-v);
            assert(pos_clause@ =~= linking_clause(n_inc as nat, k as nat, var as int, 1).take(e + 1));
            assert(neg_clause@ =~= linking_clause(n_inc as nat, k as nat, var as int, -1).take(e + 1));
            e = e + 1;
        }
        assert(pos_clause@ =~= linking_clause(n_inc as nat, k as nat, var as int, 1));
        assert(neg_clause@ =~= linking_clause(n_inc as nat, k as nat, var as int, -1));
        let ghost pos = pos_clause@;
        let ghost neg = neg_clause@;
        clauses.push(pos_clause);
        clauses.push(neg_clause);
        proof {
            assert forall|c: int, t: int|
                0 <= c < clauses@.len() && 0 <= t < clauses@[c]@.len() implies #[trigger] clauses@[c]@[t] != 0
                && clauses@[c]@[t] != i32::MIN by {
                if c < before.len() {
                    assert(clauses@[c] == before[c]);
                } else if c == before.len() {
                    assert(clauses@[c]@ == pos);
                    assert(pos[t] > 0);
                } else {
                    assert(clauses@[c]@ == neg);
                    assert(pos.len() == neg.len());
                    assert(pos[t] > 0);
                    assert(neg[t] < 0 && neg[t] != i32::MIN);
                }
            }
            let tail0 = before.subrange(blocks.len() as int, before.len() as int);
            let tail1 = clauses@.subrange(blocks.len() as int, clauses@.len() as int);
            assert(tail1 =~= tail0.push(clauses@[before.len() as int]).push(clauses@[before.len() + 1int]));
            assert(clause_views(tail1) =~= clause_views(tail0).push(linking_clause(n_inc as nat, k as nat, var as int, 1)).push(
                linking_clause(n_inc as nat, k as nat, var as int, -1),
            ));
        }
        var = var + 1;
    }
    proof {
        let tail = clauses@.subrange(blocks.len() as int, clauses@.len() as int);
        assert(clauses@ =~= blocks + tail);
        assert(clause_views(clauses@) =~= clause_views(blocks) + clause_views(tail));
    }
    clauses
}

/// Solves the clauses asking for `k` linear extensions: a satisfying
/// assignment if the solver finds one, `None` if it finds the clauses
/// unsatisfiable or fails.
pub fn solve_for_k(base_clauses: &[Vec<i32>], n_inc: usize, k: usize) -> (r: Option<Vec<i32>>)
    requires
        literals_within(clause_views(base_clauses@), n_inc as nat),
        k * n_inc <= i32::MAX,
        n_inc <= i32::MAX,
    ensures
        match r {
            Some(model) => is_assignment(model@) && satisfies(
                model@,
                clauses_for(clause_views(base_clauses@), n_inc as nat, k as nat),
            ),
            None => true,
        },
{
    let clauses = clauses_for_k(base_clauses, n_inc, k);
    match solve_clauses(clauses) {
        SatAnswer::Satisfiable(model) => Some(model),
        SatAnswer::Unsatisfiable => None,
        SatAnswer::Failed => None,
    }
}

// ---- the clauses of one linear extension ------------------------------------------

/// The literal of orienting `(a, b)` in the first extension: the variable of
/// the pair where it is listed as `(a, b)`, its negation where it is listed
/// as `(b, a)`, none where it is not listed.
pub open spec fn literal_of(pairs: Seq<(u32, u32)>, a: u32, b: u32) -> Option<int> {
    if pairs.contains((a, b)) {
        Some((choose|i: int| 0 <= i < pairs.len() && pairs[i] == (a, b)) + 1)
    } else if pairs.contains((b, a)) {
        Some(-((choose|i: int| 0 <= i < pairs.len() && pairs[i] == (b, a)) + 1))
    } else {
        None
    }
}

/// The clause, if any, that pair `p = (a, c)` and the middle node `b` give:
/// orienting `a` before `b` and `b` before `c` puts `a` before `c`, unless
/// the order itself already rules the middle step out.
pub open spec fn transitivity_clause<T>(poset: &Poset<T>, pairs: Seq<(u32, u32)>, p: int, b: u32) -> Seq<Seq<i32>> {
    let (a, c) = pairs[p];
    let ac = p + 1;
    match (literal_of(pairs, a, b), literal_of(pairs, b, c)) {
        (Some(ab), Some(bc)) => seq![seq![(-ab) as i32, (-bc) as i32, ac as i32]],
        (None, Some(bc)) => if poset.leq(b as int, a as int) {
            Seq::empty()
        } else {
            seq![seq![(-bc) as i32, ac as i32]]
        },
        (Some(ab), None) => if poset.leq(c as int, b as int) {
            Seq::empty()
        } else {
            seq![seq![(-ab) as i32, ac as i32]]
        },
        (None, None) => Seq::empty(),
    }
}

/// The clauses of pair `p` with the middle nodes below `k`.
pub open spec fn transitivity_row<T>(poset: &Poset<T>, pairs: Seq<(u32, u32)>, p: int, k: nat) -> Seq<Seq<i32>>
    decreases k,
{
    if k == 0 {
        Seq::empty()
    } else {
        transitivity_row(poset, pairs, p, (k - 1) as nat) + transitivity_clause(poset, pairs, p, (k - 1) as u32)
    }
}

/// The clauses of the first `k` pairs.
pub open spec fn transitivity_upto<T>(poset: &Poset<T>, pairs: Seq<(u32, u32)>, k: nat) -> Seq<Seq<i32>>
    decreases k,
{
    if k == 0 {
        Seq::empty()
    } else {
        transitivity_upto(poset, pairs, (k - 1) as nat) + transitivity_row(poset, pairs, k - 1, poset.nodes@.len())
    }
}

/// The clause, if any, that the comparable pair `(u, v)`, `u < v`, and the
/// middle node `b` give: `v` before `b` and `b` before `u` cannot both hold.
pub open spec fn anti_clause(pairs: Seq<(u32, u32)>, u: u32, v: u32, b: u32) -> Seq<Seq<i32>> {
    match (literal_of(pairs, v, b), literal_of(pairs, b, u)) {
        (Some(vb), Some(bu)) => seq![seq![(-vb) as i32, (-bu) as i32]],
        _ => Seq::empty(),
    }
}

/// The clauses of the comparable pair `(u, v)` with the middle nodes below `k`.
pub open spec fn anti_row(pairs: Seq<(u32, u32)>, u: u32, v: u32, k: nat) -> Seq<Seq<i32>>
    decreases k,
{
    if k == 0 {
        Seq::empty()
    } else {
        anti_row(pairs, u, v, (k - 1) as nat) + anti_clause(pairs, u, v, (k - 1) as u32)
    }
}

/// The clauses of the first `k` comparable pairs.
pub open spec fn anti_upto<T>(poset: &Poset<T>, pairs: Seq<(u32, u32)>, k: nat) -> Seq<Seq<i32>>
    decreases k,
{
    if k == 0 {
        Seq::empty()
    } else {
        let (u, v) = poset.transitive_edges@[k - 1];
        anti_upto(poset, pairs, (k - 1) as nat) + anti_row(pairs, u, v, poset.nodes@.len())
    }
}

/// The base clauses of one linear extension over the incomparable pairs.
pub open spec fn transitivity_clauses<T>(poset: &Poset<T>, pairs: Seq<(u32, u32)>) -> Seq<Seq<i32>> {
    transitivity_upto(poset, pairs, pairs.len()) + anti_upto(poset, pairs, poset.transitive_edges@.len())
}

/// `get_var` in the first extension gives `literal_of`.
fn literal(a: u32, b: u32, pairs: &[(u32, u32)]) -> (r: Option<i32>)
    requires
        pairs@.no_duplicates(),
        pairs@.len() <= i32::MAX,
    ensures
        match (r, literal_of(pairs@, a, b)) {
            (Some(x), Some(y)) => x == y,
            (None, None) => true,
            _ => false,
        },
        match r {
            Some(x) => x != 0 && -pairs@.len() <= x <= pairs@.len(),
            None => true,
        },
{
    let r = get_var(a, b, pairs, pairs.len(), 0);
    proof {
        let ps = pairs@;
        if ps.contains((a, b)) {
            let i = choose|i: int| 0 <= i < ps.len() && ps[i] == (a, b);
            let j = choose|j: int| 0 <= j < ps.len() && ps[j] == (a, b) && r == Some((j + 1) as i32);
            assert(i == j);
        } else if ps.contains((b, a)) {
            let i = choose|i: int| 0 <= i < ps.len() && ps[i] == (b, a);
            let j = choose|j: int| 0 <= j < ps.len() && ps[j] == (b, a) && r == Some((-(j + 1)) as i32);
            assert(i == j);
        }
    }
    r
}

/// Builds the transitivity clauses for the SAT encoding of one linear
/// extension, over the listed incomparable pairs, variable `i + 1` orienting
/// `incomparable[i]` as listed: for each pair `(a, c)` and middle node `b`,
/// orienting `a` before `b` before `c` forces `a` before `c`; for each
/// comparable `u < v` and middle node `b`, `v` before `b` before `u` is ruled
/// out.
pub fn build_transitivity_clauses<T>(poset: &Poset<T>, incomparable: &[(u32, u32)]) -> (r: Vec<Vec<i32>>)
    requires
        incomparable@.no_duplicates(),
        incomparable@.len() <= i32::MAX,
        poset.nodes@.len() <= u32::MAX,
    ensures
        clause_views(r@) == transitivity_clauses(poset, incomparable@),
        literals_within(clause_views(r@), incomparable@.len()),
{
    let n = poset.nodes.len();
    let n_pairs = incomparable.len();
    let ghost ps = incomparable@;
    let mut clauses: Vec<Vec<i32>> = Vec::new();
    let mut p: usize = 0;
    while p < n_pairs
        invariant
            n == poset.nodes@.len(),
            n <= u32::MAX,
            n_pairs == ps.len(),
            ps == incomparable@,
            ps.no_duplicates(),
            n_pairs <= i32::MAX,
            p <= n_pairs,
            clause_views(clauses@) == transitivity_upto(poset, ps, p as nat),
            literals_within(clause_views(clauses@), n_pairs as nat),
        decreases n_pairs - p,
    {
        let (a, c) = incomparable[p];
        let ac_var = (p + 1) as i32;
        let ghost start = clause_views(clauses@);
        let mut b: usize = 0;
        while b < n
            invariant
                n == poset.nodes@.len(),
                n <= u32::MAX,
                n_pairs == ps.len(),
                ps == incomparable@,
                ps.no_duplicates(),
                n_pairs <= i32::MAX,
                p < n_pairs,
                (a, c) == ps[p as int],
                ac_var == p + 1,
                b <= n,
                start == transitivity_upto(poset, ps, p as nat),
                clause_views(clauses@) == start + transitivity_row(poset, ps, p as int, b as nat),
                literals_within(clause_views(clauses@), n_pairs as nat),
            decreases n - b,
        {
            let bb = b as u32;
            let ab_var = literal(a, bb, incomparable);
            let bc_var = literal(bb, c, incomparable);
            let ghost before = clauses@;
            let ghost added = transitivity_clause(poset, ps, p as int, bb);
            match (ab_var, bc_var) {
                (Some(ab), Some(bc)) => {
                    let (nab, nbc) = (-ab, -bc);
                    clauses.push(vec![nab, nbc, ac_var]);
                },
                (None, Some(bc)) => {
                    if !poset.is_leq(bb, a) {
                        let nbc = -bc;
                        clauses.push(vec![nbc, ac_var]);
                    }
                },
                (Some(ab), None) => {
                    if !poset.is_leq(c, bb) {
                        let nab = -ab;
                        clauses.push(vec![nab, ac_var]);
                    }
                },
                (None, None) => {},
            }
            proof {
                assert(((b + 1) - 1) as u32 == bb);
                assert(clause_views(clauses@) =~= clause_views(before) + added);
                assert(clause_views(clauses@) =~= start + transitivity_row(poset, ps, p as int, (b + 1) as nat));
            }
            b = b + 1;
        }
        p = p + 1;
    }
    let edges = &poset.transitive_edges;
    let mut e: usize = 0;
    let ghost first = clause_views(clauses@);
    assert(first == transitivity_upto(poset, ps, ps.len()));
    while e < edges.len()
        invariant
            n == poset.nodes@.len(),
            n <= u32::MAX,
            n_pairs == ps.len(),
            ps == incomparable@,
            ps.no_duplicates(),
            n_pairs <= i32::MAX,
            edges@ == poset.transitive_edges@,
            e <= edges@.len(),
            first == transitivity_upto(poset, ps, ps.len()),
            clause_views(clauses@) == first + anti_upto(poset, ps, e as nat),
            literals_within(clause_views(clauses@), n_pairs as nat),
        decreases edges@.len() - e,
    {
        let (u, v) = edges[e];
        let ghost start = clause_views(clauses@);
        let mut b: usize = 0;
        while b < n
            invariant
                n == poset.nodes@.len(),
                n <= u32::MAX,
                n_pairs == ps.len(),
                ps == incomparable@,
                ps.no_duplicates(),
                n_pairs <= i32::MAX,
                b <= n,
                clause_views(clauses@) == start + anti_row(ps, u, v, b as nat),
                literals_within(clause_views(clauses@), n_pairs as nat),
            decreases n - b,
        {
            let bb = b as u32;
            let vb_var = literal(v, bb, incomparable);
            let bu_var = literal(bb, u, incomparable);
            let ghost before = clauses@;
            match (vb_var, bu_var) {
                (Some(vb), Some(bu)) => {
                    let (nvb, nbu) = (-vb, -bu);
                    clauses.push(vec![nvb, nbu]);
                },
                _ => {},
            }
            proof {
                assert(((b + 1) - 1) as u32 == bb);
                assert(clause_views(clauses@) =~= clause_views(before) + anti_clause(ps, u, v, bb));
                assert(clause_views(clauses@) =~= start + anti_row(ps, u, v, (b + 1) as nat));
            }
            b = b + 1;
        }
        proof {
            assert(edges@[e as int] == (u, v));
            assert(clause_views(clauses@) =~= first + anti_upto(poset, ps, (e + 1) as nat));
        }
        e = e + 1;
    }
    assert(clause_views(clauses@) =~= transitivity_clauses(poset, ps));
    clauses
}

// ---- reading a realizer off a model -------------------------------------------------

/// How extension `e` orients pair `i`: as listed if the model sets its
/// variable, reversed if not.
pub open spec fn oriented(model: Seq<i32>, pairs: Seq<(u32, u32)>, n_inc: nat, e: nat, i: int) -> (usize, usize) {
    if model.contains(sat_var(i, n_inc, e) as i32) {
        (pairs[i].0 as usize, pairs[i].1 as usize)
    } else {
        (pairs[i].1 as usize, pairs[i].0 as usize)
    }
}

/// The edges extension `e` must respect: the order, and each incomparable
/// pair as the model orients it.
pub open spec fn extension_edges<T>(
    poset: &Poset<T>,
    model: Seq<i32>,
    pairs: Seq<(u32, u32)>,
    n_inc: nat,
    e: nat,
) -> Seq<(usize, usize)> {
    poset.transitive_edges@.map_values(|p: (u32, u32)| (p.0 as usize, p.1 as usize)) + Seq::new(
        pairs.len(),
        |i: int| oriented(model, pairs, n_inc, e, i),
    )
}

/// The nodes `0..n` in index order.
pub open spec fn index_order(n: nat) -> Seq<usize> {
    Seq::new(n, |i: int| i as usize)
}

/// Whether `model` sets literal `v`.
fn model_sets(model: &[i32], v: i32) -> (r: bool)
    ensures
        r == model@.contains(v),
{
    let mut i: usize = 0;
    while i < model.len()
        invariant
            i <= model@.len(),
            forall|j: int| 0 <= j < i ==> model@[j] != v,
        decreases model@.len() - i,
    {
        if model[i] == v {
            return true;
        }
        i = i + 1;
    }
    false
}

/// Decodes a SAT model into `k` linear extensions: extension `e` is a
/// linear extension of the order together with each incomparable pair as
/// the model orients it there, or the nodes in index order if those edges
/// are cyclic.
pub fn decode_sat_realizer<T>(poset: &Poset<T>, k: usize, model: &[i32], incomparable: &[(u32, u32)], n_inc: usize) -> (r:
    Vec<Vec<usize>>)
    requires
        poset.wf(),
        forall|i: int| 0 <= i < incomparable@.len() ==> (#[trigger] incomparable@[i]).0 < poset.nodes@.len()
            && incomparable@[i].1 < poset.nodes@.len(),
        incomparable@.len() + k * n_inc <= i32::MAX,
    ensures
        r@.len() == k,
        forall|e: int|
            0 <= e < k ==> {
                let edges = narrow_edges(extension_edges(poset, model@, incomparable@, n_inc as nat, e as nat));
                ||| is_topological(poset.nodes@.len(), edges, #[trigger] r@[e]@)
                ||| (!acyclic(poset.nodes@.len(), edges) && r@[e]@ == index_order(poset.nodes@.len()))
            },
{
    let n = poset.nodes.len();
    let mut realizer: Vec<Vec<usize>> = Vec::new();
    let mut ext: usize = 0;
    while ext < k
        invariant
            poset.wf(),
            n == poset.nodes@.len(),
            forall|i: int| 0 <= i < incomparable@.len() ==> (#[trigger] incomparable@[i]).0 < n && incomparable@[i].1 < n,
            incomparable@.len() + k * n_inc <= i32::MAX,
            ext <= k,
            realizer@.len() == ext,
            forall|e: int|
                0 <= e < ext ==> {
                    let edges = narrow_edges(extension_edges(poset, model@, incomparable@, n_inc as nat, e as nat));
                    ||| is_topological(n as nat, edges, #[trigger] realizer@[e]@)
                    ||| (!acyclic(n as nat, edges) && realizer@[e]@ == index_order(n as nat))
                },
        decreases k - ext,
    {
        let ghost want = extension_edges(poset, model@, incomparable@, n_inc as nat, ext as nat);
        let ghost order_edges = poset.transitive_edges@.map_values(|p: (u32, u32)| (p.0 as usize, p.1 as usize));
        let mut edges: Vec<(usize, usize)> = Vec::new();
        let mut t: usize = 0;
        while t < poset.transitive_edges.len()
            invariant
                poset.wf(),
                n == poset.nodes@.len(),
                t <= poset.transitive_edges@.len(),
                order_edges == poset.transitive_edges@.map_values(|p: (u32, u32)| (p.0 as usize, p.1 as usize)),
                edges@ == order_edges.take(t as int),
                forall|j: int| 0 <= j < edges@.len() ==> #[trigger] edges@[j].0 < n && edges@[j].1 < n,
            decreases poset.transitive_edges@.len() - t,
        {
            let (u, v) = poset.transitive_edges[t];
            proof {
                assert(poset.transitive_edges@.contains((u, v)));
                crate::poset::lemma_transitive_edge_in_range(poset, u, v);
            }
            edges.push((u as usize, v as usize));
            assert(edges@ =~= order_edges.take(t + 1));
            t = t + 1;
        }
        assert(edges@ =~= order_edges);
        proof {
            assert(k * n_inc >= ext * n_inc) by (nonlinear_arith)
                requires
                    ext < k,
            ;
        }
        let mut i: usize = 0;
        while i < incomparable.len()
            invariant
                n == poset.nodes@.len(),
                forall|i: int| 0 <= i < incomparable@.len() ==> (#[trigger] incomparable@[i]).0 < n && incomparable@[i].1 < n,
                incomparable@.len() + ext * n_inc <= i32::MAX,
                i <= incomparable@.len(),
                want == order_edges + Seq::new(
                    incomparable@.len(),
                    |j: int| oriented(model@, incomparable@, n_inc as nat, ext as nat, j),
                ),
                edges@ == want.take(order_edges.len() + i),
                forall|j: int| 0 <= j < edges@.len() ==> #[trigger] edges@[j].0 < n && edges@[j].1 < n,
            decreases incomparable@.len() - i,
        {
            let (a, b) = incomparable[i];
            let var = (i + 1 + ext * n_inc) as i32;
            assert(var == sat_var(i as int, n_inc as nat, ext as nat) as i32);
            if model_sets(model, var) {
                edges.push((a as usize, b as usize));
            } else {
                edges.push((b as usize, a as usize));
            }
            assert(edges@ =~= want.take(order_edges.len() + i + 1));
            i = i + 1;
        }
        assert(edges@ =~= want);
        let le = match crate::poset::Poset::<T>::linear_extension_static(n, edges.as_slice()) {
            Some(o) => o,
            None => {
                let mut o: Vec<usize> = Vec::new();
                let mut x: usize = 0;
                while x < n
                    invariant
                        x <= n,
                        o@ == index_order(x as nat),
                    decreases n - x,
                {
                    o.push(x);
                    assert(o@ =~= index_order((x + 1) as nat));
                    x = x + 1;
                }
                o
            },
        };
        realizer.push(le);
        proof {
            assert(realizer@[ext as int] == le);
        }
        ext = ext + 1;
    }
    realizer
}

} // verus!
