use vstd::prelude::*;
use crate::error::AppError;
use crate::model::{Candidate, Circuit, Examiner, Station};
use crate::lp;
use crate::program::{
    BinaryProgram, LinearConstraint, LinearSpec, all_in_range, constraints_of, feasible, lemma_all_in_range_append, lemma_views_append,
    lemma_sum_bounds, lemma_views_push, linear_value, linear_views, optimal, point_of,
    program_well_formed, terms_in_range,
};
use vstd::arithmetic::div_mod::{lemma_fundamental_div_mod, lemma_fundamental_div_mod_converse, lemma_multiply_divide_lt};

verus! {

/// The people placed at one station of one circuit, as indices into the
/// circuit, station, candidate and examiner lists the solver was given.
#[derive(Debug, Clone, Copy, PartialEq, Eq, Structural)]
pub struct Placement {
    pub circuit: usize,
    pub station: usize,
    pub candidate_1: usize,
    pub candidate_2: usize,
    pub examiner: usize,
}

/// The solver's unit of output: two candidates and one examiner at one
/// station of one circuit.
#[derive(Debug, Clone, Copy, PartialEq, Eq, Structural)]
pub struct StationAllocation {
    pub circuit_id: u128,
    pub station_id: u128,
    pub candidate_1: u128,
    pub candidate_2: u128,
    pub examiner: u128,
}

/// The indices below `n` at which `row` holds, in ascending order.
pub open spec fn chosen(row: Seq<bool>, n: int) -> Seq<int>
    decreases n,
{
    if n <= 0 {
        seq![]
    } else {
        chosen(row, n - 1) + if row[n - 1] { seq![n - 1] } else { seq![] }
    }
}

/// A complete assignment: position `k` is station `k % n_stations` of circuit
/// `k / n_stations`, and every position of every circuit is present once.
/// It holds two different candidates and one examiner; nobody is placed at
/// two positions; female-only circuits hold female-only candidates and
/// female examiners only.
pub open spec fn assignment_valid(
    circuits: Seq<Circuit>,
    n_stations: int,
    candidates: Seq<Candidate>,
    examiners: Seq<Examiner>,
    p: Seq<Placement>,
) -> bool {
    &&& p.len() == circuits.len() * n_stations
    &&& forall|k: int| 0 <= k < p.len() ==> {
        &&& #[trigger] p[k].circuit == k / n_stations
        &&& p[k].station == k % n_stations
        &&& p[k].circuit < circuits.len()
        &&& p[k].station < n_stations
        &&& p[k].candidate_1 < p[k].candidate_2 < candidates.len()
        &&& p[k].examiner < examiners.len()
    }
    &&& forall|k1: int, k2: int| 0 <= k1 < p.len() && 0 <= k2 < p.len() && k1 != k2 ==> {
        &&& #[trigger] p[k1].candidate_1 != #[trigger] p[k2].candidate_1
        &&& p[k1].candidate_1 != p[k2].candidate_2
        &&& p[k1].candidate_2 != p[k2].candidate_1
        &&& p[k1].candidate_2 != p[k2].candidate_2
        &&& p[k1].examiner != p[k2].examiner
    }
    &&& forall|k: int| 0 <= k < p.len() && #[trigger] circuits[p[k].circuit as int].female_only ==> {
        &&& candidates[p[k].candidate_1 as int].female_only
        &&& candidates[p[k].candidate_2 as int].female_only
        &&& examiners[p[k].examiner as int].female
    }
}

/// Whether the first `n` positions of the placement tables hold exactly two
/// candidates and one examiner each, nobody twice, and respect female-only
/// circuits.
pub open spec fn rows_valid(
    circuits: Seq<Circuit>,
    n_stations: int,
    candidates: Seq<Candidate>,
    examiners: Seq<Examiner>,
    cand_at: Seq<Seq<bool>>,
    exam_at: Seq<Seq<bool>>,
    n: int,
) -> bool {
    let nk = candidates.len() as int;
    let ne = examiners.len() as int;
    &&& forall|k: int| 0 <= k < n ==> {
        &&& #[trigger] cand_at[k].len() == nk
        &&& exam_at[k].len() == ne
        &&& chosen(cand_at[k], nk).len() == 2
        &&& chosen(exam_at[k], ne).len() == 1
    }
    &&& forall|k1: int, k2: int, i: int|
        0 <= k1 < n && 0 <= k2 < n && k1 != k2 && 0 <= i < nk
            && #[trigger] cand_at[k1][i] ==> !#[trigger] cand_at[k2][i]
    &&& forall|k1: int, k2: int, e: int|
        0 <= k1 < n && 0 <= k2 < n && k1 != k2 && 0 <= e < ne
            && #[trigger] exam_at[k1][e] ==> !#[trigger] exam_at[k2][e]
    &&& forall|k: int, i: int|
        0 <= k < n && 0 <= i < nk && circuits[k / n_stations].female_only
            && #[trigger] cand_at[k][i] ==> candidates[i].female_only
    &&& forall|k: int, e: int|
        0 <= k < n && 0 <= e < ne && circuits[k / n_stations].female_only
            && #[trigger] exam_at[k][e] ==> examiners[e].female
}

/// Whether the placement tables read back from the solver (`cand_at[k][i]`:
/// candidate `i` sits at position `k`; `exam_at[k][e]` likewise) describe a
/// complete assignment: one row per station of every circuit, exactly two
/// candidates and one examiner per position, nobody twice, female-only
/// circuits respected.
pub open spec fn tables_valid(
    circuits: Seq<Circuit>,
    n_stations: int,
    candidates: Seq<Candidate>,
    examiners: Seq<Examiner>,
    cand_at: Seq<Seq<bool>>,
    exam_at: Seq<Seq<bool>>,
) -> bool {
    &&& cand_at.len() == circuits.len() * n_stations
    &&& exam_at.len() == cand_at.len()
    &&& rows_valid(circuits, n_stations, candidates, examiners, cand_at, exam_at, cand_at.len() as int)
}

/// The placement that valid tables give at position `k`: the two candidates
/// in index order and the examiner.
pub open spec fn placement_at(
    n_stations: int,
    nk: int,
    ne: int,
    cand_at: Seq<Seq<bool>>,
    exam_at: Seq<Seq<bool>>,
    k: int,
) -> Placement {
    Placement {
        circuit: (k / n_stations) as usize,
        station: (k % n_stations) as usize,
        candidate_1: chosen(cand_at[k], nk)[0] as usize,
        candidate_2: chosen(cand_at[k], nk)[1] as usize,
        examiner: chosen(exam_at[k], ne)[0] as usize,
    }
}

proof fn lemma_chosen(row: Seq<bool>, n: int)
    requires
        0 <= n <= row.len(),
    ensures
        forall|j: int| 0 <= j < chosen(row, n).len() ==> 0 <= #[trigger] chosen(row, n)[j] < n && row[chosen(row, n)[j]],
        forall|j1: int, j2: int| 0 <= j1 < j2 < chosen(row, n).len() ==> #[trigger] chosen(row, n)[j1] < #[trigger] chosen(row, n)[j2],
        forall|i: int| 0 <= i < n && #[trigger] row[i] ==> chosen(row, n).contains(i),
    decreases n,
{
    if n > 0 {
        lemma_chosen(row, n - 1);
        let prev = chosen(row, n - 1);
        let cur = chosen(row, n);
        assert forall|i: int| 0 <= i < n && #[trigger] row[i] implies cur.contains(i) by {
            if i < n - 1 {
                let j = choose|j: int| 0 <= j < prev.len() && prev[j] == i;
                assert(cur[j] == i);
            } else {
                assert(cur[cur.len() - 1] == i);
            }
        }
    }
}

proof fn lemma_tables_give_assignment(
    circuits: Seq<Circuit>,
    n_stations: int,
    candidates: Seq<Candidate>,
    examiners: Seq<Examiner>,
    cand_at: Seq<Seq<bool>>,
    exam_at: Seq<Seq<bool>>,
)
    requires
        tables_valid(circuits, n_stations, candidates, examiners, cand_at, exam_at),
        circuits.len() <= usize::MAX,
        candidates.len() <= usize::MAX,
        examiners.len() <= usize::MAX,
        0 <= n_stations <= usize::MAX,
    ensures
        assignment_valid(circuits, n_stations, candidates, examiners,
            Seq::new(cand_at.len(), |k: int| placement_at(n_stations, candidates.len() as int,
                examiners.len() as int, cand_at, exam_at, k))),
{
    let nk = candidates.len() as int;
    let ne = examiners.len() as int;
    let p = Seq::new(cand_at.len(), |k: int| placement_at(n_stations, nk, ne, cand_at, exam_at, k));
    assert forall|k: int| 0 <= k < p.len() implies {
        &&& #[trigger] p[k].circuit == k / n_stations
        &&& p[k].station == k % n_stations
        &&& p[k].circuit < circuits.len()
        &&& p[k].station < n_stations
        &&& p[k].candidate_1 < p[k].candidate_2 < nk
        &&& p[k].examiner < ne
        &&& circuits[p[k].circuit as int].female_only ==> {
            &&& candidates[p[k].candidate_1 as int].female_only
            &&& candidates[p[k].candidate_2 as int].female_only
            &&& examiners[p[k].examiner as int].female
        }
    } by {
        assert(cand_at[k].len() == nk);
        lemma_chosen(cand_at[k], nk);
        lemma_chosen(exam_at[k], ne);
        assert(0 < n_stations && k < n_stations * circuits.len()) by (nonlinear_arith)
            requires
                0 <= k < circuits.len() * n_stations,
                0 <= n_stations;
        lemma_multiply_divide_lt(k, n_stations, circuits.len() as int);
        let rc = chosen(cand_at[k], nk);
        assert(rc[0] < rc[1]);
        assert(cand_at[k][rc[0]] && cand_at[k][rc[1]]);
        assert(exam_at[k][chosen(exam_at[k], ne)[0]]);
    }
    assert forall|k1: int, k2: int| 0 <= k1 < p.len() && 0 <= k2 < p.len() && k1 != k2 implies {
        &&& #[trigger] p[k1].candidate_1 != #[trigger] p[k2].candidate_1
        &&& p[k1].candidate_1 != p[k2].candidate_2
        &&& p[k1].candidate_2 != p[k2].candidate_1
        &&& p[k1].candidate_2 != p[k2].candidate_2
        &&& p[k1].examiner != p[k2].examiner
    } by {
        assert(cand_at[k1].len() == nk);
        assert(cand_at[k2].len() == nk);
        lemma_chosen(cand_at[k1], nk);
        lemma_chosen(cand_at[k2], nk);
        lemma_chosen(exam_at[k1], ne);
        lemma_chosen(exam_at[k2], ne);
        let r1 = chosen(cand_at[k1], nk);
        let r2 = chosen(cand_at[k2], nk);
        let s1 = chosen(exam_at[k1], ne);
        let s2 = chosen(exam_at[k2], ne);
        assert(cand_at[k1][r1[0]] && cand_at[k1][r1[1]]);
        assert(cand_at[k2][r2[0]] && cand_at[k2][r2[1]]);
        assert(exam_at[k1][s1[0]] && exam_at[k2][s2[0]]);
    }
}

/// The indices at which `row` holds, in ascending order.
fn chosen_indices(row: &Vec<bool>) -> (r: Vec<usize>)
    ensures
        r@.len() == chosen(row@, row@.len() as int).len(),
        forall|j: int| 0 <= j < r@.len() ==> r@[j] == chosen(row@, row@.len() as int)[j],
{
    let mut r: Vec<usize> = Vec::new();
    let mut i: usize = 0;
    while i < row.len()
        invariant
            i <= row@.len(),
            r@.len() == chosen(row@, i as int).len(),
            forall|j: int| 0 <= j < r@.len() ==> r@[j] == chosen(row@, i as int)[j],
        decreases row@.len() - i,
    {
        if row[i] {
            r.push(i);
        }
        i = i + 1;
    }
    r
}

/// The rows of a table as plain values.
pub open spec fn tables_view(t: Seq<Vec<bool>>) -> Seq<Seq<bool>> {
    t.map_values(|row: Vec<bool>| row@)
}

/// Reads a complete assignment out of the solver's placement tables:
/// `cand_at[k][i]` says whether candidate `i` sits at position `k` (station
/// `k % stations.len()` of circuit `k / stations.len()`), `exam_at[k][e]`
/// likewise for examiner `e`. Any table that breaks a structural invariant
/// (a wrong count at a position, someone placed twice, a female-only circuit
/// breached, a table of the wrong shape) is an internal-consistency failure,
/// never a partial result.
pub fn read_placements(
    circuits: &Vec<Circuit>,
    stations: &Vec<Station>,
    candidates: &Vec<Candidate>,
    examiners: &Vec<Examiner>,
    cand_at: &Vec<Vec<bool>>,
    exam_at: &Vec<Vec<bool>>,
) -> (r: Result<Vec<Placement>, AppError>)
    ensures
        r is Ok <==> tables_valid(circuits@, stations@.len() as int, candidates@, examiners@, tables_view(cand_at@), tables_view(exam_at@)),
        r is Err ==> r->Err_0 == AppError::InternalConsistency,
        r is Ok ==> r->Ok_0@ == Seq::new(cand_at@.len(), |k: int| placement_at(stations@.len() as int,
            candidates@.len() as int, examiners@.len() as int, tables_view(cand_at@), tables_view(exam_at@), k)),
        r is Ok ==> assignment_valid(circuits@, stations@.len() as int, candidates@, examiners@, r->Ok_0@),
{
    let ns = stations.len();
    let nk = candidates.len();
    let ne = examiners.len();
    let n_positions = cand_at.len();
    match circuits.len().checked_mul(ns) {
        Some(expected) => {
            if expected != n_positions || exam_at.len() != n_positions {
                return Err(AppError::InternalConsistency);
            }
        },
        None => {
            return Err(AppError::InternalConsistency);
        },
    }
    let ghost cs = circuits@;
    let ghost ks = candidates@;
    let ghost es = examiners@;
    let ghost ct = tables_view(cand_at@);
    let ghost et = tables_view(exam_at@);
    let mut cand_used: Vec<bool> = Vec::new();
    let mut i: usize = 0;
    while i < nk
        invariant
            i <= nk,
            cand_used@.len() == i,
            forall|j: int| 0 <= j < i ==> !cand_used@[j],
        decreases nk - i,
    {
        cand_used.push(false);
        i = i + 1;
    }
    let mut exam_used: Vec<bool> = Vec::new();
    let mut e: usize = 0;
    while e < ne
        invariant
            e <= ne,
            exam_used@.len() == e,
            forall|j: int| 0 <= j < e ==> !exam_used@[j],
        decreases ne - e,
    {
        exam_used.push(false);
        e = e + 1;
    }
    let mut out: Vec<Placement> = Vec::new();
    let mut k: usize = 0;
    while k < n_positions
        invariant
            cs == circuits@, ks == candidates@, es == examiners@, ct == tables_view(cand_at@), et == tables_view(exam_at@),
            ns == stations@.len(), nk == ks.len(), ne == es.len(),
            n_positions == ct.len(), et.len() == ct.len(),
            ct.len() == cs.len() * ns,
            k <= n_positions,
            cand_used@.len() == nk,
            exam_used@.len() == ne,
            forall|i: int| 0 <= i < nk ==> (#[trigger] cand_used@[i] <==> exists|k1: int| 0 <= k1 < k && #[trigger] ct[k1][i]),
            forall|e: int| 0 <= e < ne ==> (#[trigger] exam_used@[e] <==> exists|k1: int| 0 <= k1 < k && #[trigger] et[k1][e]),
            rows_valid(cs, ns as int, ks, es, ct, et, k as int),
            out@ == Seq::new(k as nat, |k1: int| placement_at(ns as int, nk as int, ne as int, ct, et, k1)),
        decreases n_positions - k,
    {
        let row_c = &cand_at[k];
        let row_e = &exam_at[k];
        assert(ct[k as int] == row_c@ && et[k as int] == row_e@);
        if row_c.len() != nk || row_e.len() != ne {
            return Err(AppError::InternalConsistency);
        }
        let in_row_c = chosen_indices(row_c);
        let in_row_e = chosen_indices(row_e);
        if in_row_c.len() != 2 || in_row_e.len() != 1 {
            return Err(AppError::InternalConsistency);
        }
        let i1 = in_row_c[0];
        let i2 = in_row_c[1];
        let e1 = in_row_e[0];
        proof {
            lemma_chosen(ct[k as int], nk as int);
            lemma_chosen(et[k as int], ne as int);
            assert(ct[k as int][i1 as int] && ct[k as int][i2 as int] && et[k as int][e1 as int]);
        }
        if cand_used[i1] || cand_used[i2] || exam_used[e1] {
            proof {
                if cand_used@[i1 as int] {
                    let k1 = choose|k1: int| 0 <= k1 < k && #[trigger] ct[k1][i1 as int];
                    assert(ct[k1][i1 as int] && ct[k as int][i1 as int]);
                } else if cand_used@[i2 as int] {
                    let k1 = choose|k1: int| 0 <= k1 < k && #[trigger] ct[k1][i2 as int];
                    assert(ct[k1][i2 as int] && ct[k as int][i2 as int]);
                } else {
                    let k1 = choose|k1: int| 0 <= k1 < k && #[trigger] et[k1][e1 as int];
                    assert(et[k1][e1 as int] && et[k as int][e1 as int]);
                }
            }
            return Err(AppError::InternalConsistency);
        }
        proof {
            assert(0 < ns && k < ns * cs.len()) by (nonlinear_arith)
                requires
                    0 <= k < cs.len() * ns;
            lemma_multiply_divide_lt(k as int, ns as int, cs.len() as int);
        }
        let c = k / ns;
        if circuits[c].female_only
            && !(candidates[i1].female_only && candidates[i2].female_only && examiners[e1].female) {
            return Err(AppError::InternalConsistency);
        }
        let ghost old_cand_used = cand_used@;
        let ghost old_exam_used = exam_used@;
        cand_used.set(i1, true);
        cand_used.set(i2, true);
        exam_used.set(e1, true);
        out.push(Placement { circuit: c, station: k % ns, candidate_1: i1, candidate_2: i2, examiner: e1 });
        proof {
            let rc = chosen(ct[k as int], nk as int);
            let re = chosen(et[k as int], ne as int);
            assert forall|i: int| 0 <= i < nk && #[trigger] ct[k as int][i] implies i == i1 || i == i2 by {
                assert(rc.contains(i));
            }
            assert forall|e: int| 0 <= e < ne && #[trigger] et[k as int][e] implies e == e1 by {
                assert(re.contains(e));
            }
            assert forall|i: int| 0 <= i < nk implies (#[trigger] cand_used@[i] <==> exists|k1: int| 0 <= k1 < k + 1 && #[trigger] ct[k1][i]) by {
                if cand_used@[i] && !old_cand_used[i] {
                    assert(ct[k as int][i]);
                }
                if exists|k1: int| 0 <= k1 < k + 1 && #[trigger] ct[k1][i] {
                    let k1 = choose|k1: int| 0 <= k1 < k + 1 && #[trigger] ct[k1][i];
                    if k1 < k {
                        assert(old_cand_used[i]);
                    }
                }
            }
            assert forall|e: int| 0 <= e < ne implies (#[trigger] exam_used@[e] <==> exists|k1: int| 0 <= k1 < k + 1 && #[trigger] et[k1][e]) by {
                if exam_used@[e] && !old_exam_used[e] {
                    assert(et[k as int][e]);
                }
                if exists|k1: int| 0 <= k1 < k + 1 && #[trigger] et[k1][e] {
                    let k1 = choose|k1: int| 0 <= k1 < k + 1 && #[trigger] et[k1][e];
                    if k1 < k {
                        assert(old_exam_used[e]);
                    }
                }
            }
            assert forall|k1: int, k2: int, i: int|
                0 <= k1 < k + 1 && 0 <= k2 < k + 1 && k1 != k2 && 0 <= i < nk
                    && #[trigger] ct[k1][i] implies !#[trigger] ct[k2][i] by {
                if k1 == k && ct[k2][i] {
                    assert(!old_cand_used[i]);
                } else if k2 == k && ct[k2][i] {
                    assert(!old_cand_used[i]);
                }
            }
            assert forall|k1: int, k2: int, e: int|
                0 <= k1 < k + 1 && 0 <= k2 < k + 1 && k1 != k2 && 0 <= e < ne
                    && #[trigger] et[k1][e] implies !#[trigger] et[k2][e] by {
                if k1 == k && et[k2][e] {
                    assert(!old_exam_used[e]);
                } else if k2 == k && et[k2][e] {
                    assert(!old_exam_used[e]);
                }
            }
            assert(out@ =~= Seq::new((k + 1) as nat, |k1: int| placement_at(ns as int, nk as int, ne as int, ct, et, k1)));
        }
        k = k + 1;
    }
    proof {
        lemma_tables_give_assignment(cs, ns as int, ks, es, ct, et);
        assert(out@ =~= Seq::new(ct.len(), |k1: int| placement_at(ns as int, nk as int, ne as int, ct, et, k1)));
    }
    Ok(out)
}

/// Whether candidate `a` names `b` as preferred partner: an exact,
/// case-sensitive match on `b`'s shortcode.
pub open spec fn prefers(a: Candidate, b: Candidate) -> bool {
    a.partner_pref is Some && a.partner_pref->Some_0@ == b.shortcode@
}

/// The objective weight of placing `a` and `b` together: one for each
/// satisfied directional preference.
pub open spec fn pair_weight_of(a: Candidate, b: Candidate) -> int {
    (if prefers(a, b) { 1int } else { 0int }) + (if prefers(b, a) { 1int } else { 0int })
}

/// The objective weight of placing `a` and `b` together: one for each of the
/// two who names the other as preferred partner.
pub fn pair_weight(a: &Candidate, b: &Candidate) -> (r: i32)
    ensures
        r == pair_weight_of(*a, *b),
{
    let mut w: i32 = 0;
    match &a.partner_pref {
        Some(p) => {
            if p.eq(&b.shortcode) {
                w = w + 1;
            }
        },
        None => {},
    }
    match &b.partner_pref {
        Some(p) => {
            if p.eq(&a.shortcode) {
                w = w + 1;
            }
        },
        None => {},
    }
    w
}

/// Whether placement `p` points into the given lists.
pub open spec fn placement_in_range(
    circuits: Seq<Circuit>,
    stations: Seq<Station>,
    candidates: Seq<Candidate>,
    examiners: Seq<Examiner>,
    p: Placement,
) -> bool {
    &&& p.circuit < circuits.len()
    &&& p.station < stations.len()
    &&& p.candidate_1 < candidates.len()
    &&& p.candidate_2 < candidates.len()
    &&& p.examiner < examiners.len()
}

/// The identities that placement `p` names.
pub open spec fn allocation_of(
    circuits: Seq<Circuit>,
    stations: Seq<Station>,
    candidates: Seq<Candidate>,
    examiners: Seq<Examiner>,
    p: Placement,
) -> StationAllocation {
    StationAllocation {
        circuit_id: circuits[p.circuit as int].id,
        station_id: stations[p.station as int].id,
        candidate_1: candidates[p.candidate_1 as int].id,
        candidate_2: candidates[p.candidate_2 as int].id,
        examiner: examiners[p.examiner as int].id,
    }
}

/// Whether `r` is what a complete, valid assignment of the given people to
/// the given circuits and stations looks like by identity.
pub open spec fn allocation_sound(
    circuits: Seq<Circuit>,
    stations: Seq<Station>,
    candidates: Seq<Candidate>,
    examiners: Seq<Examiner>,
    r: Seq<StationAllocation>,
) -> bool {
    exists|p: Seq<Placement>| #[trigger] assignment_valid(circuits, stations.len() as int, candidates, examiners, p)
        && r == p.map_values(|q: Placement| allocation_of(circuits, stations, candidates, examiners, q))
}

/// Turns placements by index into allocations by identity.
pub fn allocations_of(
    circuits: &Vec<Circuit>,
    stations: &Vec<Station>,
    candidates: &Vec<Candidate>,
    examiners: &Vec<Examiner>,
    placements: &Vec<Placement>,
) -> (r: Vec<StationAllocation>)
    requires
        forall|k: int| 0 <= k < placements@.len()
            ==> placement_in_range(circuits@, stations@, candidates@, examiners@, #[trigger] placements@[k]),
    ensures
        r@ == placements@.map_values(|q: Placement| allocation_of(circuits@, stations@, candidates@, examiners@, q)),
{
    let mut r: Vec<StationAllocation> = Vec::new();
    let mut k: usize = 0;
    while k < placements.len()
        invariant
            k <= placements@.len(),
            forall|k1: int| 0 <= k1 < placements@.len()
                ==> placement_in_range(circuits@, stations@, candidates@, examiners@, #[trigger] placements@[k1]),
            r@ == placements@.take(k as int).map_values(|q: Placement| allocation_of(circuits@, stations@, candidates@, examiners@, q)),
        decreases placements@.len() - k,
    {
        let p = placements[k];
        r.push(StationAllocation {
            circuit_id: circuits[p.circuit].id,
            station_id: stations[p.station].id,
            candidate_1: candidates[p.candidate_1].id,
            candidate_2: candidates[p.candidate_2].id,
            examiner: examiners[p.examiner].id,
        });
        proof {
            assert(placements@.take(k + 1) =~= placements@.take(k as int).push(p));
        }
        k = k + 1;
    }
    proof {
        assert(placements@.take(k as int) =~= placements@);
    }
    r
}



/// The variable of candidate `i` at position `k`.
pub open spec fn cand_var(nk: int, k: int, i: int) -> int {
    k * nk + i
}

/// The variable of examiner `e` at position `k`, after all `kk * nk`
/// candidate variables.
pub open spec fn exam_var(kk: int, nk: int, ne: int, k: int, e: int) -> int {
    kk * nk + k * ne + e
}

/// The first pairing variable, after all candidate and examiner variables.
pub open spec fn pair_base(kk: int, nk: int, ne: int) -> int {
    kk * nk + kk * ne
}

/// How many variables the program of `kk` positions has: one per candidate
/// and per examiner at every position, and one per ordered pair of
/// candidates at every position.
pub open spec fn slot_n_vars(kk: int, nk: int, ne: int) -> int {
    pair_base(kk, nk, ne) + kk * nk * nk
}

/// Pairing variable `pair_base + t` stands for candidates `pair_first(nk, t)`
/// and `pair_second(nk, t)` at position `pair_position(nk, t)`.
pub open spec fn pair_position(nk: int, t: int) -> int {
    (t / nk) / nk
}

pub open spec fn pair_first(nk: int, t: int) -> int {
    (t / nk) % nk
}

pub open spec fn pair_second(nk: int, t: int) -> int {
    t % nk
}

/// The terms `coeff * x[base + i]` for `i < n`.
pub open spec fn block_terms(base: int, n: int, coeff: i32) -> Seq<(usize, i32)> {
    Seq::new(n as nat, |i: int| ((base + i) as usize, coeff))
}

/// The terms `coeff * x[first + k * stride]` for `k < count`.
pub open spec fn strided_terms(first: int, stride: int, count: int, coeff: i32) -> Seq<(usize, i32)> {
    Seq::new(count as nat, |k: int| ((first + k * stride) as usize, coeff))
}

/// Whether candidate `i` is kept out of position `k` by a female-only circuit.
pub open spec fn cand_barred(circuits: Seq<Circuit>, ns: int, candidates: Seq<Candidate>, k: int, i: int) -> bool {
    circuits[k / ns].female_only && !candidates[i].female_only
}

/// Whether examiner `e` is kept out of position `k` by a female-only circuit.
pub open spec fn exam_barred(circuits: Seq<Circuit>, ns: int, examiners: Seq<Examiner>, k: int, e: int) -> bool {
    circuits[k / ns].female_only && !examiners[e].female
}

/// The weight of pairing variable `t` in the objective: the pair's
/// preference weight for two different candidates in index order, else 0.
pub open spec fn pair_coeff(candidates: Seq<Candidate>, t: int) -> i32 {
    let nk = candidates.len() as int;
    let i = pair_first(nk, t);
    let j = pair_second(nk, t);
    if i < j { pair_weight_of(candidates[i], candidates[j]) as i32 } else { 0 }
}

/// Whether pairing variable `t` stands for two different candidates in
/// index order; the others are held at 0.
pub open spec fn pair_used(nk: int, t: int) -> bool {
    pair_first(nk, t) < pair_second(nk, t)
}

/// Row five at position `k`: the variables of the people a female-only
/// circuit keeps out sum to at most 0.
pub open spec fn female_row(
    circuits: Seq<Circuit>,
    ns: int,
    candidates: Seq<Candidate>,
    examiners: Seq<Examiner>,
    kk: int,
    k: int,
) -> LinearSpec {
    let nk = candidates.len() as int;
    let ne = examiners.len() as int;
    (
        Seq::new(nk as nat, |i: int| ((k * nk + i) as usize,
            if cand_barred(circuits, ns, candidates, k, i) { 1i32 } else { 0i32 }))
        + Seq::new(ne as nat, |e: int| ((kk * nk + k * ne + e) as usize,
            if exam_barred(circuits, ns, examiners, k, e) { 1i32 } else { 0i32 })),
        0i32,
    )
}

/// The coefficient of a candidate's variable in the rows of pairing variable
/// `t`: -1 where it stands for a pair, else 0.
pub open spec fn pair_neg(nk: int, t: int) -> i32 {
    if pair_used(nk, t) { -1i32 } else { 0i32 }
}

/// `x[base + t] <= x[first]`.
pub open spec fn pair_row_first(base: int, nk: int, t: int) -> LinearSpec {
    (seq![((base + t) as usize, 1i32),
        (cand_var(nk, pair_position(nk, t), pair_first(nk, t)) as usize, pair_neg(nk, t))], 0i32)
}

/// `x[base + t] <= x[second]`.
pub open spec fn pair_row_second(base: int, nk: int, t: int) -> LinearSpec {
    (seq![((base + t) as usize, 1i32),
        (cand_var(nk, pair_position(nk, t), pair_second(nk, t)) as usize, pair_neg(nk, t))], 0i32)
}

/// `x[first] + x[second] - x[base + t] <= 1`.
pub open spec fn pair_row_both(base: int, nk: int, t: int) -> LinearSpec {
    let c = if pair_used(nk, t) { 1i32 } else { 0i32 };
    (seq![(cand_var(nk, pair_position(nk, t), pair_first(nk, t)) as usize, c),
        (cand_var(nk, pair_position(nk, t), pair_second(nk, t)) as usize, c),
        ((base + t) as usize, pair_neg(nk, t))], c)
}

/// The objective term of pairing variable `t`.
pub open spec fn pair_objective(candidates: Seq<Candidate>, base: int, t: int) -> (usize, i32) {
    ((base + t) as usize, pair_coeff(candidates, t))
}

/// The objective: every pairing variable times its weight.
pub open spec fn slot_objective(circuits: Seq<Circuit>, ns: int, candidates: Seq<Candidate>, examiners: Seq<Examiner>) -> Seq<(usize, i32)> {
    let kk = circuits.len() * ns;
    let nk = candidates.len() as int;
    let base = pair_base(kk, nk, examiners.len() as int);
    Seq::new((kk * nk * nk) as nat, |t: int| pair_objective(candidates, base, t))
}

/// The constraints of the slot's integer program, all of the form
/// `sum <= rhs`:
/// 1. every position holds at most two candidates and, negated, at least two;
/// 2. every position holds at most one examiner and at least one;
/// 3. every candidate is placed at most once;
/// 4. every examiner is placed at most once;
/// 5. at every position of a female-only circuit, the variables of the other
///    candidates and examiners sum to at most 0;
/// 6. a pairing variable is at most each of its two candidates' variables and
///    at least their sum less one; pairing variables that stand for no pair
///    of different candidates in index order are at most 0.
pub open spec fn slot_constraints(circuits: Seq<Circuit>, ns: int, candidates: Seq<Candidate>, examiners: Seq<Examiner>) -> Seq<LinearSpec> {
    let kk = circuits.len() * ns;
    let nk = candidates.len() as int;
    let ne = examiners.len() as int;
    let base = pair_base(kk, nk, ne);
    let np = kk * nk * nk;
    Seq::new(kk as nat, |k: int| (block_terms(k * nk, nk, 1), 2i32))
        + Seq::new(kk as nat, |k: int| (block_terms(k * nk, nk, -1i32), -2i32))
        + Seq::new(kk as nat, |k: int| (block_terms(kk * nk + k * ne, ne, 1), 1i32))
        + Seq::new(kk as nat, |k: int| (block_terms(kk * nk + k * ne, ne, -1i32), -1i32))
        + Seq::new(nk as nat, |i: int| (strided_terms(i, nk, kk, 1), 1i32))
        + Seq::new(ne as nat, |e: int| (strided_terms(kk * nk + e, ne, kk, 1), 1i32))
        + Seq::new(kk as nat, |k: int| female_row(circuits, ns, candidates, examiners, kk, k))
        + Seq::new(np as nat, |t: int| pair_row_first(base, nk, t))
        + Seq::new(np as nat, |t: int| pair_row_second(base, nk, t))
        + Seq::new(np as nat, |t: int| pair_row_both(base, nk, t))
}

/// Whether the slot's program fits in machine words.
pub open spec fn slot_fits(circuits: Seq<Circuit>, ns: int, candidates: Seq<Candidate>, examiners: Seq<Examiner>) -> bool {
    &&& circuits.len() * ns <= usize::MAX
    &&& slot_n_vars(circuits.len() * ns, candidates.len() as int, examiners.len() as int) <= usize::MAX
}

/// Whether `p` is the slot's integer program.
pub open spec fn is_slot_program(
    p: &BinaryProgram,
    circuits: Seq<Circuit>,
    ns: int,
    candidates: Seq<Candidate>,
    examiners: Seq<Examiner>,
) -> bool {
    &&& p.n_vars == slot_n_vars(circuits.len() * ns, candidates.len() as int, examiners.len() as int)
    &&& p.objective@ == slot_objective(circuits, ns, candidates, examiners)
    &&& constraints_of(p) == slot_constraints(circuits, ns, candidates, examiners)
}

/// The placement tables that point `x` gives: candidate `i` sits at
/// position `k` where its variable is 1.
pub open spec fn cand_table(x: Seq<int>, kk: int, nk: int) -> Seq<Seq<bool>> {
    Seq::new(kk as nat, |k: int| Seq::new(nk as nat, |i: int| x[cand_var(nk, k, i)] == 1))
}

pub open spec fn exam_table(x: Seq<int>, kk: int, nk: int, ne: int) -> Seq<Seq<bool>> {
    Seq::new(kk as nat, |k: int| Seq::new(ne as nat, |e: int| x[exam_var(kk, nk, ne, k, e)] == 1))
}

proof fn lemma_cell(k: int, i: int, kk: int, n: int)
    requires
        0 <= k < kk,
        0 <= i < n,
    ensures
        0 <= k * n + i < kk * n,
        k * n <= kk * n - n,
{
    assert(0 <= k * n + i < kk * n && k * n <= kk * n - n) by (nonlinear_arith)
        requires
            0 <= k < kk,
            0 <= i < n;
}

fn block(base: usize, n: usize, coeff: i32) -> (r: Vec<(usize, i32)>)
    requires
        base + n <= usize::MAX,
    ensures
        r@ == block_terms(base as int, n as int, coeff),
{
    let mut r: Vec<(usize, i32)> = Vec::new();
    let mut i: usize = 0;
    while i < n
        invariant
            i <= n,
            base + n <= usize::MAX,
            r@ =~= block_terms(base as int, i as int, coeff),
        decreases n - i,
    {
        r.push((base + i, coeff));
        i = i + 1;
        assert(r@ =~= block_terms(base as int, i as int, coeff));
    }
    r
}

/// For every position `k`, the constraint `coeff * (x[first + k * width] +
/// ... + x[first + k * width + width - 1]) <= rhs`.
fn position_blocks(kk: usize, first: usize, width: usize, coeff: i32, rhs: i32, n_vars: usize) -> (r: Vec<LinearConstraint>)
    requires
        first + kk * width <= n_vars,
    ensures
        linear_views(r@) == Seq::new(kk as nat, |k: int| (block_terms(first + k * width, width as int, coeff), rhs)),
        all_in_range(linear_views(r@), n_vars as int),
{
    let mut r: Vec<LinearConstraint> = Vec::new();
    let mut k: usize = 0;
    while k < kk
        invariant
            k <= kk,
            first + kk * width <= n_vars,
            linear_views(r@) =~= Seq::new(k as nat, |k1: int| (block_terms(first + k1 * width, width as int, coeff), rhs)),
            all_in_range(linear_views(r@), n_vars as int),
        decreases kk - k,
    {
        assert(k * width + width <= kk * width) by (nonlinear_arith)
            requires
                k < kk;
        let terms = block(first + k * width, width, coeff);
        let ghost before = r@;
        let c = LinearConstraint { terms, rhs };
        assert(terms_in_range(c.terms@, n_vars as int));
        r.push(c);
        proof {
            lemma_views_push(before, c);
        }
        k = k + 1;
        assert(linear_views(r@) =~= Seq::new(k as nat, |k1: int| (block_terms(first + k1 * width, width as int, coeff), rhs)));
    }
    r
}

/// For every `i < n`, the constraint `x[first + i] + x[first + n + i] + ...
/// + x[first + (kk - 1) * n + i] <= 1`: the `i`-th person of `n` is placed at
/// most once over `kk` positions.
fn columns(n: usize, first: usize, kk: usize, n_vars: usize) -> (r: Vec<LinearConstraint>)
    requires
        first + kk * n <= n_vars,
    ensures
        linear_views(r@) == Seq::new(n as nat, |i: int| (strided_terms(first + i, n as int, kk as int, 1), 1i32)),
        all_in_range(linear_views(r@), n_vars as int),
{
    let mut r: Vec<LinearConstraint> = Vec::new();
    let mut i: usize = 0;
    while i < n
        invariant
            i <= n,
            first + kk * n <= n_vars,
            linear_views(r@) =~= Seq::new(i as nat, |i1: int| (strided_terms(first + i1, n as int, kk as int, 1), 1i32)),
            all_in_range(linear_views(r@), n_vars as int),
        decreases n - i,
    {
        let mut terms: Vec<(usize, i32)> = Vec::new();
        let mut k: usize = 0;
        while k < kk
            invariant
                i < n,
                k <= kk,
                first + kk * n <= n_vars,
                terms@ =~= strided_terms(first + i, n as int, k as int, 1),
            decreases kk - k,
        {
            proof {
                lemma_cell(k as int, i as int, kk as int, n as int);
            }
            terms.push((first + k * n + i, 1));
            k = k + 1;
            assert(terms@ =~= strided_terms(first + i, n as int, k as int, 1));
        }
        proof {
            assert forall|t: int| 0 <= t < terms@.len() implies (#[trigger] terms@[t]).0 < n_vars by {
                lemma_cell(t, i as int, kk as int, n as int);
            }
        }
        let ghost before = r@;
        let c = LinearConstraint { terms, rhs: 1 };
        r.push(c);
        proof {
            lemma_views_push(before, c);
        }
        i = i + 1;
        assert(linear_views(r@) =~= Seq::new(i as nat, |i1: int| (strided_terms(first + i1, n as int, kk as int, 1), 1i32)));
    }
    r
}


/// Constraint five for every position: the variables of the people a
/// female-only circuit keeps out sum to at most 0.
fn female_rows(
    circuits: &Vec<Circuit>,
    ns: usize,
    candidates: &Vec<Candidate>,
    examiners: &Vec<Examiner>,
    kk: usize,
    n_vars: usize,
) -> (r: Vec<LinearConstraint>)
    requires
        kk == circuits@.len() * ns,
        kk * candidates@.len() + kk * examiners@.len() <= n_vars,
    ensures
        linear_views(r@) == Seq::new(kk as nat, |k: int| female_row(circuits@, ns as int, candidates@, examiners@, kk as int, k)),
        all_in_range(linear_views(r@), n_vars as int),
{
    let nk = candidates.len();
    let ne = examiners.len();
    let mut r: Vec<LinearConstraint> = Vec::new();
    let mut k: usize = 0;
    while k < kk
        invariant
            k <= kk,
            nk == candidates@.len(),
            ne == examiners@.len(),
            kk == circuits@.len() * ns,
            kk * nk + kk * ne <= n_vars,
            linear_views(r@) =~= Seq::new(k as nat, |k1: int| female_row(circuits@, ns as int, candidates@, examiners@, kk as int, k1)),
            all_in_range(linear_views(r@), n_vars as int),
        decreases kk - k,
    {
        proof {
            assert(0 < ns && k < ns * circuits@.len()) by (nonlinear_arith)
                requires
                    0 <= k < circuits@.len() * ns;
            lemma_multiply_divide_lt(k as int, ns as int, circuits@.len() as int);
        }
        let female_only = circuits[k / ns].female_only;
        let mut terms: Vec<(usize, i32)> = Vec::new();
        let mut i: usize = 0;
        while i < nk
            invariant
                k < kk,
                i <= nk,
                nk == candidates@.len(),
                kk * nk + kk * ne <= n_vars,
                female_only == circuits@[k as int / ns as int].female_only,
                terms@ =~= Seq::new(i as nat, |i1: int| ((k * nk + i1) as usize,
                    if cand_barred(circuits@, ns as int, candidates@, k as int, i1) { 1i32 } else { 0i32 })),
                forall|t: int| 0 <= t < terms@.len() ==> (#[trigger] terms@[t]).0 < n_vars,
            decreases nk - i,
        {
            proof {
                lemma_cell(k as int, i as int, kk as int, nk as int);
            }
            let coeff: i32 = if female_only && !candidates[i].female_only { 1 } else { 0 };
            terms.push((k * nk + i, coeff));
            i = i + 1;
        }
        let ghost cand_part = terms@;
        let mut e: usize = 0;
        while e < ne
            invariant
                k < kk,
                e <= ne,
                ne == examiners@.len(),
                kk * nk + kk * ne <= n_vars,
                female_only == circuits@[k as int / ns as int].female_only,
                cand_part =~= Seq::new(nk as nat, |i1: int| ((k * nk + i1) as usize,
                    if cand_barred(circuits@, ns as int, candidates@, k as int, i1) { 1i32 } else { 0i32 })),
                terms@ =~= cand_part + Seq::new(e as nat, |e1: int| ((kk * nk + k * ne + e1) as usize,
                    if exam_barred(circuits@, ns as int, examiners@, k as int, e1) { 1i32 } else { 0i32 })),
                forall|t: int| 0 <= t < terms@.len() ==> (#[trigger] terms@[t]).0 < n_vars,
            decreases ne - e,
        {
            proof {
                lemma_cell(k as int, e as int, kk as int, ne as int);
            }
            let coeff: i32 = if female_only && !examiners[e].female { 1 } else { 0 };
            terms.push((kk * nk + k * ne + e, coeff));
            e = e + 1;
        }
        let ghost before = r@;
        let c = LinearConstraint { terms, rhs: 0 };
        assert(terms_in_range(c.terms@, n_vars as int));
        r.push(c);
        proof {
            lemma_views_push(before, c);
            assert(c.terms@ =~= female_row(circuits@, ns as int, candidates@, examiners@, kk as int, k as int).0);
        }
        k = k + 1;
    }
    r
}

/// Constraint six and the objective, for every pairing variable
/// `base + t`: rows `x[base + t] <= x[first]`, `x[base + t] <= x[second]`,
/// `x[first] + x[second] - x[base + t] <= 1`, and the objective terms.
fn pair_rows(
    candidates: &Vec<Candidate>,
    kk: usize,
    base: usize,
    n_vars: usize,
) -> (r: (Vec<LinearConstraint>, Vec<LinearConstraint>, Vec<LinearConstraint>, Vec<(usize, i32)>))
    requires
        base + kk * candidates@.len() * candidates@.len() == n_vars,
        kk * candidates@.len() <= base,
    ensures
        ({
            let nk = candidates@.len() as int;
            let np = kk * nk * nk;
            &&& linear_views(r.0@) == Seq::new(np as nat, |t: int| pair_row_first(base as int, nk, t))
            &&& linear_views(r.1@) == Seq::new(np as nat, |t: int| pair_row_second(base as int, nk, t))
            &&& linear_views(r.2@) == Seq::new(np as nat, |t: int| pair_row_both(base as int, nk, t))
            &&& r.3@ == Seq::new(np as nat, |t: int| pair_objective(candidates@, base as int, t))
            &&& all_in_range(linear_views(r.0@), n_vars as int)
            &&& all_in_range(linear_views(r.1@), n_vars as int)
            &&& all_in_range(linear_views(r.2@), n_vars as int)
            &&& terms_in_range(r.3@, n_vars as int)
        }),
{
    let nk = candidates.len();
    let np = n_vars - base;
    let mut below_first: Vec<LinearConstraint> = Vec::new();
    let mut below_second: Vec<LinearConstraint> = Vec::new();
    let mut above_both: Vec<LinearConstraint> = Vec::new();
    let mut objective: Vec<(usize, i32)> = Vec::new();
    let mut t: usize = 0;
    while t < np
        invariant
            t <= np,
            nk == candidates@.len(),
            np == kk * nk * nk,
            base + np == n_vars,
            kk * nk <= base,
            linear_views(below_first@) =~= Seq::new(t as nat, |t1: int| pair_row_first(base as int, nk as int, t1)),
            linear_views(below_second@) =~= Seq::new(t as nat, |t1: int| pair_row_second(base as int, nk as int, t1)),
            linear_views(above_both@) =~= Seq::new(t as nat, |t1: int| pair_row_both(base as int, nk as int, t1)),
            objective@ =~= Seq::new(t as nat, |t1: int| pair_objective(candidates@, base as int, t1)),
            all_in_range(linear_views(below_first@), n_vars as int),
            all_in_range(linear_views(below_second@), n_vars as int),
            all_in_range(linear_views(above_both@), n_vars as int),
            terms_in_range(objective@, n_vars as int),
        decreases np - t,
    {
        let q = t / nk;
        let j = t % nk;
        let i = q % nk;
        proof {
            assert(0 < nk && t < nk * (kk * nk)) by (nonlinear_arith)
                requires
                    0 <= t < kk * nk * nk;
            lemma_multiply_divide_lt(t as int, nk as int, (kk * nk) as int);
            lemma_fundamental_div_mod(q as int, nk as int);
            assert(q / nk * nk == q - i) by (nonlinear_arith)
                requires
                    q == nk * (q / nk) + i;
            assert(q < nk * kk) by (nonlinear_arith)
                requires
                    q < kk * nk;
            lemma_multiply_divide_lt(q as int, nk as int, kk as int);
            lemma_cell((q / nk) as int, j as int, kk as int, nk as int);
            let nki = nk as int;
            let ti = t as int;
            assert(pair_position(nki, ti) == q / nk && pair_first(nki, ti) == i && pair_second(nki, ti) == j);
            assert(cand_var(nki, pair_position(nki, ti), pair_first(nki, ti)) == q);
            assert(cand_var(nki, pair_position(nki, ti), pair_second(nki, ti)) == q - i + j);
        }
        // candidates i and j at position q / nk have variables q and q - i + j
        let a = q;
        let b = q - i + j;
        let used = i < j;
        let c: i32 = if used { 1 } else { 0 };
        let neg: i32 = if used { -1 } else { 0 };
        let weight: i32 = if used { pair_weight(&candidates[i], &candidates[j]) } else { 0 };
        let ghost bf = below_first@;
        let ghost bs = below_second@;
        let ghost ab = above_both@;
        let mut t0: Vec<(usize, i32)> = Vec::new();
        t0.push((base + t, 1));
        t0.push((a, neg));
        let mut t1: Vec<(usize, i32)> = Vec::new();
        t1.push((base + t, 1));
        t1.push((b, neg));
        let mut t2: Vec<(usize, i32)> = Vec::new();
        t2.push((a, c));
        t2.push((b, c));
        t2.push((base + t, neg));
        let c0 = LinearConstraint { terms: t0, rhs: 0 };
        let c1 = LinearConstraint { terms: t1, rhs: 0 };
        let c2 = LinearConstraint { terms: t2, rhs: c };
        proof {
            assert(c0.terms@ =~= pair_row_first(base as int, nk as int, t as int).0);
            assert(c1.terms@ =~= pair_row_second(base as int, nk as int, t as int).0);
            assert(c2.terms@ =~= pair_row_both(base as int, nk as int, t as int).0);
        }
        below_first.push(c0);
        below_second.push(c1);
        above_both.push(c2);
        objective.push((base + t, weight));
        proof {
            lemma_views_push(bf, c0);
            lemma_views_push(bs, c1);
            lemma_views_push(ab, c2);
        }
        t = t + 1;
    }
    (below_first, below_second, above_both, objective)
}


/// Puts `b` after `a`, keeping track of the plain values and their range.
fn append_rows(a: &mut Vec<LinearConstraint>, b: &mut Vec<LinearConstraint>, n_vars: usize)
    requires
        all_in_range(linear_views(old(a)@), n_vars as int),
        all_in_range(linear_views(old(b)@), n_vars as int),
    ensures
        linear_views(final(a)@) == linear_views(old(a)@) + linear_views(old(b)@),
        all_in_range(linear_views(final(a)@), n_vars as int),
{
    proof {
        lemma_views_append(old(a)@, old(b)@);
        lemma_all_in_range_append(linear_views(old(a)@), linear_views(old(b)@), n_vars as int);
    }
    a.append(b);
}

/// Builds the slot's integer program, as `slot_objective` and
/// `slot_constraints` state it.
fn build_slot_program(
    circuits: &Vec<Circuit>,
    ns: usize,
    candidates: &Vec<Candidate>,
    examiners: &Vec<Examiner>,
    kk: usize,
    n_vars: usize,
) -> (p: BinaryProgram)
    requires
        kk == circuits@.len() * ns,
        n_vars == slot_n_vars(kk as int, candidates@.len() as int, examiners@.len() as int),
    ensures
        is_slot_program(&p, circuits@, ns as int, candidates@, examiners@),
        program_well_formed(p.n_vars as int, p.objective@, constraints_of(&p)),
{
    let nk = candidates.len();
    let ne = examiners.len();
    assert(0 <= kk * nk * nk) by (nonlinear_arith);
    assert(0 <= kk * ne) by (nonlinear_arith);
    assert(0 <= kk * nk) by (nonlinear_arith);
    let base_e = kk * nk;
    let base_p = base_e + kk * ne;
    let mut rows = position_blocks(kk, 0, nk, 1, 2, n_vars);
    let mut more = position_blocks(kk, 0, nk, -1, -2, n_vars);
    append_rows(&mut rows, &mut more, n_vars);
    let mut more = position_blocks(kk, base_e, ne, 1, 1, n_vars);
    append_rows(&mut rows, &mut more, n_vars);
    let mut more = position_blocks(kk, base_e, ne, -1, -1, n_vars);
    append_rows(&mut rows, &mut more, n_vars);
    let mut more = columns(nk, 0, kk, n_vars);
    append_rows(&mut rows, &mut more, n_vars);
    let mut more = columns(ne, base_e, kk, n_vars);
    append_rows(&mut rows, &mut more, n_vars);
    let mut more = female_rows(circuits, ns, candidates, examiners, kk, n_vars);
    append_rows(&mut rows, &mut more, n_vars);
    let (mut first, mut second, mut both, objective) = pair_rows(candidates, kk, base_p, n_vars);
    append_rows(&mut rows, &mut first, n_vars);
    append_rows(&mut rows, &mut second, n_vars);
    append_rows(&mut rows, &mut both, n_vars);
    let p = BinaryProgram { n_vars, objective, constraints: rows };
    proof {
        let nki = nk as int;
        let kki = kk as int;
        assert(Seq::new(kk as nat, |k: int| (block_terms(0 + k * nk, nki, 1i32), 2i32))
            =~= Seq::new(kk as nat, |k: int| (block_terms(k * nki, nki, 1i32), 2i32)));
        assert(Seq::new(kk as nat, |k: int| (block_terms(0 + k * nk, nki, -1i32), -2i32))
            =~= Seq::new(kk as nat, |k: int| (block_terms(k * nki, nki, -1i32), -2i32)));
        assert(Seq::new(nk as nat, |i: int| (strided_terms(0 + i, nki, kki, 1), 1i32))
            =~= Seq::new(nk as nat, |i: int| (strided_terms(i, nki, kki, 1), 1i32)));
        assert(constraints_of(&p) =~= slot_constraints(circuits@, ns as int, candidates@, examiners@));
    }
    p
}

/// The placement table of candidates that a solution gives.
fn cand_rows(values: &Vec<i64>, kk: usize, nk: usize) -> (r: Vec<Vec<bool>>)
    requires
        values@.len() >= kk * nk,
        kk * nk <= usize::MAX,
    ensures
        tables_view(r@) == cand_table(point_of(values@), kk as int, nk as int),
        r@.len() == kk,
{
    let mut r: Vec<Vec<bool>> = Vec::new();
    let mut k: usize = 0;
    while k < kk
        invariant
            k <= kk,
            values@.len() >= kk * nk,
            kk * nk <= usize::MAX,
            tables_view(r@) =~= Seq::new(k as nat, |k1: int| cand_table(point_of(values@), kk as int, nk as int)[k1]),
        decreases kk - k,
    {
        let mut row: Vec<bool> = Vec::new();
        let mut i: usize = 0;
        while i < nk
            invariant
                k < kk,
                i <= nk,
                values@.len() >= kk * nk,
            kk * nk <= usize::MAX,
                row@ =~= Seq::new(i as nat, |i1: int| point_of(values@)[cand_var(nk as int, k as int, i1)] == 1),
            decreases nk - i,
        {
            proof {
                lemma_cell(k as int, i as int, kk as int, nk as int);
            }
            row.push(values[k * nk + i] == 1);
            i = i + 1;
        }
        let ghost before = r@;
        r.push(row);
        proof {
            assert(tables_view(r@) =~= tables_view(before).push(row@));
        }
        k = k + 1;
    }
    r
}

/// The placement table of examiners that a solution gives.
fn exam_rows(values: &Vec<i64>, kk: usize, nk: usize, ne: usize) -> (r: Vec<Vec<bool>>)
    requires
        values@.len() >= kk * nk + kk * ne,
        kk * nk + kk * ne <= usize::MAX,
    ensures
        tables_view(r@) == exam_table(point_of(values@), kk as int, nk as int, ne as int),
        r@.len() == kk,
{
    let mut r: Vec<Vec<bool>> = Vec::new();
    let mut k: usize = 0;
    while k < kk
        invariant
            k <= kk,
            values@.len() >= kk * nk + kk * ne,
            kk * nk + kk * ne <= usize::MAX,
            tables_view(r@) =~= Seq::new(k as nat, |k1: int| exam_table(point_of(values@), kk as int, nk as int, ne as int)[k1]),
        decreases kk - k,
    {
        let mut row: Vec<bool> = Vec::new();
        let mut e: usize = 0;
        while e < ne
            invariant
                k < kk,
                e <= ne,
                values@.len() >= kk * nk + kk * ne,
            kk * nk + kk * ne <= usize::MAX,
                row@ =~= Seq::new(e as nat, |e1: int| point_of(values@)[exam_var(kk as int, nk as int, ne as int, k as int, e1)] == 1),
            decreases ne - e,
        {
            proof {
                lemma_cell(k as int, e as int, kk as int, ne as int);
            }
            row.push(values[kk * nk + k * ne + e] == 1);
            e = e + 1;
        }
        let ghost before = r@;
        r.push(row);
        proof {
            assert(tables_view(r@) =~= tables_view(before).push(row@));
        }
        k = k + 1;
    }
    r
}


/// What a successful `allocate_stations` returns for solution point `x`:
/// the placements that `x`'s tables give, by identity.
pub open spec fn allocations_from_point(
    circuits: Seq<Circuit>,
    stations: Seq<Station>,
    candidates: Seq<Candidate>,
    examiners: Seq<Examiner>,
    x: Seq<int>,
) -> Seq<StationAllocation> {
    let ns = stations.len() as int;
    let kk = circuits.len() * ns;
    let nk = candidates.len() as int;
    let ne = examiners.len() as int;
    Seq::new(kk as nat, |k: int| placement_at(ns, nk, ne, cand_table(x, kk, nk), exam_table(x, kk, nk, ne), k))
        .map_values(|q: Placement| allocation_of(circuits, stations, candidates, examiners, q))
}

/// Assigns two candidates and one examiner to every station of every circuit
/// of a slot, maximising the number of satisfied partner preferences.
///
/// The integer program handed to the solver is `slot_objective` and
/// `slot_constraints`: a 0/1 variable for every candidate and every examiner
/// at every position (station `k % stations.len()` of circuit
/// `k / stations.len()`), and one for every two candidates at every
/// position. Whatever the solver returns is checked in full by
/// `read_placements` before it is reported.
pub fn allocate_stations(
    circuits: &Vec<Circuit>,
    stations: &Vec<Station>,
    candidates: &Vec<Candidate>,
    examiners: &Vec<Examiner>,
) -> (r: Result<Vec<StationAllocation>, AppError>)
    ensures
        !slot_fits(circuits@, stations@.len() as int, candidates@, examiners@)
            ==> r == Err::<Vec<StationAllocation>, AppError>(AppError::InternalConsistency),
        r == Err::<Vec<StationAllocation>, AppError>(AppError::Infeasible) ==> {
            let ns = stations@.len() as int;
            &&& slot_fits(circuits@, ns, candidates@, examiners@)
            &&& forall|x: Seq<int>| !#[trigger] feasible(
                slot_n_vars(circuits@.len() * ns, candidates@.len() as int, examiners@.len() as int),
                slot_constraints(circuits@, ns, candidates@, examiners@), x)
        },
        r is Ok ==> {
            let ns = stations@.len() as int;
            let kk = circuits@.len() * ns;
            let nk = candidates@.len() as int;
            let ne = examiners@.len() as int;
            &&& slot_fits(circuits@, ns, candidates@, examiners@)
            &&& exists|x: Seq<int>| #[trigger] optimal(slot_n_vars(kk, nk, ne),
                    slot_objective(circuits@, ns, candidates@, examiners@),
                    slot_constraints(circuits@, ns, candidates@, examiners@), x)
                && tables_valid(circuits@, ns, candidates@, examiners@, cand_table(x, kk, nk), exam_table(x, kk, nk, ne))
                && r->Ok_0@ == allocations_from_point(circuits@, stations@, candidates@, examiners@, x)
        },
        r is Ok ==> allocation_sound(circuits@, stations@, candidates@, examiners@, r->Ok_0@),
        // the result scores at least as well as every valid assignment
        r is Ok ==> exists|p: Seq<Placement>| {
            &&& #[trigger] assignment_valid(circuits@, stations@.len() as int, candidates@, examiners@, p)
            &&& r->Ok_0@ == p.map_values(|q: Placement| allocation_of(circuits@, stations@, candidates@, examiners@, q))
            &&& forall|q: Seq<Placement>| #[trigger] assignment_valid(circuits@, stations@.len() as int, candidates@, examiners@, q)
                ==> preference_score(circuits@, stations@.len() as int, candidates@, examiners@, q)
                    <= preference_score(circuits@, stations@.len() as int, candidates@, examiners@, p)
        },
        slot_fits(circuits@, stations@.len() as int, candidates@, examiners@) ==> r is Ok
            || r == Err::<Vec<StationAllocation>, AppError>(AppError::Infeasible)
            || r == Err::<Vec<StationAllocation>, AppError>(AppError::SolverFailure),
        // where a valid assignment exists, only a solver failure stops success
        slot_fits(circuits@, stations@.len() as int, candidates@, examiners@)
            && (exists|q: Seq<Placement>| #[trigger] assignment_valid(circuits@, stations@.len() as int, candidates@, examiners@, q))
            ==> r is Ok || r == Err::<Vec<StationAllocation>, AppError>(AppError::SolverFailure),
{
    let ns = stations.len();
    let nk = candidates.len();
    let ne = examiners.len();
    let kk = match circuits.len().checked_mul(ns) {
        Some(n) => n,
        None => {
            return Err(AppError::InternalConsistency);
        },
    };
    let kn = match kk.checked_mul(nk) {
        Some(n) => n,
        None => {
            proof {
                assert(0 <= kk * nk * nk && 0 <= kk * ne) by (nonlinear_arith)
                    requires
                        0 <= kk, 0 <= nk, 0 <= ne;
            }
            return Err(AppError::InternalConsistency);
        },
    };
    let ke = match kk.checked_mul(ne) {
        Some(n) => n,
        None => {
            proof {
                assert(0 <= kk * nk * nk) by (nonlinear_arith)
                    requires
                        0 <= kk, 0 <= nk;
            }
            return Err(AppError::InternalConsistency);
        },
    };
    let knn = match kn.checked_mul(nk) {
        Some(n) => n,
        None => {
            return Err(AppError::InternalConsistency);
        },
    };
    let n_vars = match kn.checked_add(ke) {
        Some(n) => match n.checked_add(knn) {
            Some(m) => m,
            None => {
                return Err(AppError::InternalConsistency);
            },
        },
        None => {
            proof {
                assert(0 <= kk * nk * nk) by (nonlinear_arith)
                    requires
                        0 <= kk, 0 <= nk;
            }
            return Err(AppError::InternalConsistency);
        },
    };
    let program = build_slot_program(circuits, ns, candidates, examiners, kk, n_vars);
    let values = match lp::solve_binary(&program) {
        Ok(v) => v,
        Err(infeasible) => {
            if infeasible {
                proof {
                    assert forall|q: Seq<Placement>|
                        !#[trigger] assignment_valid(circuits@, ns as int, candidates@, examiners@, q) by {
                        if assignment_valid(circuits@, ns as int, candidates@, examiners@, q) {
                            lemma_assignment_feasible(circuits@, ns as int, candidates@, examiners@, q);
                        }
                    }
                }
                return Err(AppError::Infeasible);
            } else {
                return Err(AppError::SolverFailure);
            }
        },
    };
    let ghost x = point_of(values@);
    assert(values@.len() == n_vars);
    proof {
        lemma_feasible_tables_valid(circuits@, ns as int, candidates@, examiners@, x);
    }
    let cand_at = cand_rows(&values, kk, nk);
    let exam_at = exam_rows(&values, kk, nk, ne);
    let placements = read_placements(circuits, stations, candidates, examiners, &cand_at, &exam_at)?;
    let r = allocations_of(circuits, stations, candidates, examiners, &placements);
    proof {
        let p = placements@;
        assert(assignment_valid(circuits@, stations@.len() as int, candidates@, examiners@, p));
        assert forall|k: int| 0 <= k < p.len()
            implies placement_in_range(circuits@, stations@, candidates@, examiners@, #[trigger] p[k]) by {
            assert(p[k].circuit == k / (stations@.len() as int));
        }
        assert(r@ == allocations_from_point(circuits@, stations@, candidates@, examiners@, x));
        assert(p =~= placements_of_point(circuits@, ns as int, candidates@, examiners@, x));
        assert forall|q2: Seq<Placement>| #[trigger] assignment_valid(circuits@, ns as int, candidates@, examiners@, q2)
            implies preference_score(circuits@, ns as int, candidates@, examiners@, q2)
                <= preference_score(circuits@, ns as int, candidates@, examiners@, p) by {
            lemma_optimal_point_best(circuits@, ns as int, candidates@, examiners@, x, q2);
        }
    }
    Ok(r)
}


/// Where each family of rows sits in `slot_constraints`.
proof fn lemma_slot_rows(circuits: Seq<Circuit>, ns: int, candidates: Seq<Candidate>, examiners: Seq<Examiner>)
    requires
        0 <= ns,
    ensures
        ({
            let cs = slot_constraints(circuits, ns, candidates, examiners);
            let kk = circuits.len() * ns;
            let nk = candidates.len() as int;
            let ne = examiners.len() as int;
            &&& forall|k: int| 0 <= k < kk ==> #[trigger] cs[k] == (block_terms(k * nk, nk, 1i32), 2i32)
            &&& forall|k: int| 0 <= k < kk ==> #[trigger] cs[kk + k] == (block_terms(k * nk, nk, -1i32), -2i32)
            &&& forall|k: int| 0 <= k < kk ==> #[trigger] cs[2 * kk + k] == (block_terms(kk * nk + k * ne, ne, 1i32), 1i32)
            &&& forall|k: int| 0 <= k < kk ==> #[trigger] cs[3 * kk + k] == (block_terms(kk * nk + k * ne, ne, -1i32), -1i32)
            &&& forall|i: int| 0 <= i < nk ==> #[trigger] cs[4 * kk + i] == (strided_terms(i, nk, kk, 1), 1i32)
            &&& forall|e: int| 0 <= e < ne ==> #[trigger] cs[4 * kk + nk + e] == (strided_terms(kk * nk + e, ne, kk, 1), 1i32)
            &&& forall|k: int| 0 <= k < kk ==> #[trigger] cs[4 * kk + nk + ne + k]
                == female_row(circuits, ns, candidates, examiners, kk, k)
            &&& forall|t: int| 0 <= t < kk * nk * nk ==> #[trigger] cs[5 * kk + nk + ne + t]
                == pair_row_first(pair_base(kk, nk, ne), nk, t)
            &&& forall|t: int| 0 <= t < kk * nk * nk ==> #[trigger] cs[5 * kk + nk + ne + kk * nk * nk + t]
                == pair_row_second(pair_base(kk, nk, ne), nk, t)
            &&& forall|t: int| 0 <= t < kk * nk * nk ==> #[trigger] cs[5 * kk + nk + ne + 2 * (kk * nk * nk) + t]
                == pair_row_both(pair_base(kk, nk, ne), nk, t)
            &&& cs.len() == 5 * kk + nk + ne + 3 * (kk * nk * nk)
        }),
{
    let kk = circuits.len() * ns;
    let nk = candidates.len() as int;
    assert(kk >= 0 && kk * nk * nk >= 0) by (nonlinear_arith)
        requires
            ns >= 0,
            circuits.len() >= 0,
            nk >= 0,
            kk == circuits.len() * ns;
}

/// A row of 0/1 variables sums to the number of them that are 1.
proof fn lemma_block_count(base: int, m: int, c: i32, x: Seq<int>, row: Seq<bool>)
    requires
        0 <= base,
        0 <= m <= row.len(),
        base + m <= x.len(),
        x.len() <= usize::MAX,
        forall|i: int| 0 <= i < m ==> (#[trigger] row[i] <==> x[base + i] == 1),
        forall|v: int| 0 <= v < x.len() ==> #[trigger] x[v] == 0 || x[v] == 1,
    ensures
        linear_value(block_terms(base, m, c), x) == c * chosen(row, m).len(),
    decreases m,
{
    if m > 0 {
        lemma_block_count(base, m - 1, c, x, row);
        assert(block_terms(base, m, c).drop_last() =~= block_terms(base, m - 1, c));
        let v = x[base + m - 1];
        let n0 = chosen(row, m - 1).len() as int;
        assert(chosen(row, m).len() == n0 + if row[m - 1] { 1int } else { 0int });
        assert(c * n0 + c * v == c * (n0 + v)) by (nonlinear_arith);
    }
}


/// A feasible point of the slot's program puts exactly two candidates and
/// one examiner at position `k`.
proof fn lemma_feasible_counts(
    circuits: Seq<Circuit>,
    ns: int,
    candidates: Seq<Candidate>,
    examiners: Seq<Examiner>,
    x: Seq<int>,
    k: int,
)
    requires
        0 <= ns,
        slot_fits(circuits, ns, candidates, examiners),
        feasible(slot_n_vars(circuits.len() * ns, candidates.len() as int, examiners.len() as int),
            slot_constraints(circuits, ns, candidates, examiners), x),
        0 <= k < circuits.len() * ns,
    ensures
        chosen(cand_table(x, circuits.len() * ns, candidates.len() as int)[k], candidates.len() as int).len() == 2,
        chosen(exam_table(x, circuits.len() * ns, candidates.len() as int, examiners.len() as int)[k],
            examiners.len() as int).len() == 1,
{
    let kk = circuits.len() * ns;
    let nk = candidates.len() as int;
    let ne = examiners.len() as int;
    let cs = slot_constraints(circuits, ns, candidates, examiners);
    lemma_slot_rows(circuits, ns, candidates, examiners);
    assert(k * nk + nk <= kk * nk && k * ne + ne <= kk * ne && 0 <= k * nk && 0 <= k * ne
        && 0 <= kk * nk * nk) by (nonlinear_arith)
        requires
            0 <= k < kk,
            nk >= 0,
            ne >= 0;
    let crow = cand_table(x, kk, nk)[k];
    let erow = exam_table(x, kk, nk, ne)[k];
    assert(linear_value(cs[k].0, x) <= cs[k].1);
    assert(linear_value(cs[kk + k].0, x) <= cs[kk + k].1);
    assert(linear_value(cs[2 * kk + k].0, x) <= cs[2 * kk + k].1);
    assert(linear_value(cs[3 * kk + k].0, x) <= cs[3 * kk + k].1);
    lemma_block_count(k * nk, nk, 1i32, x, crow);
    lemma_block_count(k * nk, nk, -1i32, x, crow);
    lemma_block_count(kk * nk + k * ne, ne, 1i32, x, erow);
    lemma_block_count(kk * nk + k * ne, ne, -1i32, x, erow);
}

/// A feasible point of the slot's program places no candidate at two
/// positions.
proof fn lemma_feasible_cand_once(
    circuits: Seq<Circuit>,
    ns: int,
    candidates: Seq<Candidate>,
    examiners: Seq<Examiner>,
    x: Seq<int>,
    k1: int,
    k2: int,
    i: int,
)
    requires
        0 <= ns,
        slot_fits(circuits, ns, candidates, examiners),
        feasible(slot_n_vars(circuits.len() * ns, candidates.len() as int, examiners.len() as int),
            slot_constraints(circuits, ns, candidates, examiners), x),
        0 <= k1 < k2 < circuits.len() * ns,
        0 <= i < candidates.len(),
    ensures
        !(x[cand_var(candidates.len() as int, k1, i)] == 1 && x[cand_var(candidates.len() as int, k2, i)] == 1),
{
    let kk = circuits.len() * ns;
    let nk = candidates.len() as int;
    let ne = examiners.len() as int;
    let cs = slot_constraints(circuits, ns, candidates, examiners);
    lemma_slot_rows(circuits, ns, candidates, examiners);
    let terms = strided_terms(i, nk, kk, 1);
    assert(0 <= kk * ne && 0 <= kk * nk * nk) by (nonlinear_arith)
        requires
            0 <= kk,
            nk >= 0,
            ne >= 0;
    assert forall|t: int| 0 <= t < terms.len() implies (#[trigger] terms[t]).0 < x.len() by {
        lemma_cell(t, i, kk, nk);
    }
    lemma_cell(k1, i, kk, nk);
    lemma_cell(k2, i, kk, nk);
    assert(linear_value(cs[4 * kk + i].0, x) <= cs[4 * kk + i].1);
    lemma_sum_bounds(terms, x);
    assert(terms[k1] == ((i + k1 * nk) as usize, 1i32));
    assert(terms[k2] == ((i + k2 * nk) as usize, 1i32));
}

/// A feasible point of the slot's program places no examiner at two
/// positions.
proof fn lemma_feasible_exam_once(
    circuits: Seq<Circuit>,
    ns: int,
    candidates: Seq<Candidate>,
    examiners: Seq<Examiner>,
    x: Seq<int>,
    k1: int,
    k2: int,
    e: int,
)
    requires
        0 <= ns,
        slot_fits(circuits, ns, candidates, examiners),
        feasible(slot_n_vars(circuits.len() * ns, candidates.len() as int, examiners.len() as int),
            slot_constraints(circuits, ns, candidates, examiners), x),
        0 <= k1 < k2 < circuits.len() * ns,
        0 <= e < examiners.len(),
    ensures
        !(x[exam_var(circuits.len() * ns, candidates.len() as int, examiners.len() as int, k1, e)] == 1
            && x[exam_var(circuits.len() * ns, candidates.len() as int, examiners.len() as int, k2, e)] == 1),
{
    let kk = circuits.len() * ns;
    let nk = candidates.len() as int;
    let ne = examiners.len() as int;
    let cs = slot_constraints(circuits, ns, candidates, examiners);
    lemma_slot_rows(circuits, ns, candidates, examiners);
    let terms = strided_terms(kk * nk + e, ne, kk, 1);
    assert(0 <= kk * nk && 0 <= kk * nk * nk) by (nonlinear_arith)
        requires
            0 <= kk,
            nk >= 0;
    assert forall|t: int| 0 <= t < terms.len() implies (#[trigger] terms[t]).0 < x.len() by {
        lemma_cell(t, e, kk, ne);
    }
    lemma_cell(k1, e, kk, ne);
    lemma_cell(k2, e, kk, ne);
    assert(linear_value(cs[4 * kk + nk + e].0, x) <= cs[4 * kk + nk + e].1);
    lemma_sum_bounds(terms, x);
    assert(terms[k1] == ((kk * nk + e + k1 * ne) as usize, 1i32));
    assert(terms[k2] == ((kk * nk + e + k2 * ne) as usize, 1i32));
    assert(terms[k1].0 as int == exam_var(kk, nk, ne, k1, e));
    assert(terms[k2].0 as int == exam_var(kk, nk, ne, k2, e));
    assert(linear_value(terms, x) >= terms[k1].1 * x[terms[k1].0 as int] + terms[k2].1 * x[terms[k2].0 as int]);
}

/// A feasible point of the slot's program keeps female-only circuits closed
/// to everybody else.
proof fn lemma_feasible_female(
    circuits: Seq<Circuit>,
    ns: int,
    candidates: Seq<Candidate>,
    examiners: Seq<Examiner>,
    x: Seq<int>,
    k: int,
)
    requires
        0 <= ns,
        slot_fits(circuits, ns, candidates, examiners),
        feasible(slot_n_vars(circuits.len() * ns, candidates.len() as int, examiners.len() as int),
            slot_constraints(circuits, ns, candidates, examiners), x),
        0 <= k < circuits.len() * ns,
    ensures
        forall|i: int| 0 <= i < candidates.len() && cand_barred(circuits, ns, candidates, k, i)
            ==> x[#[trigger] cand_var(candidates.len() as int, k, i)] != 1,
        forall|e: int| 0 <= e < examiners.len() && exam_barred(circuits, ns, examiners, k, e)
            ==> x[#[trigger] exam_var(circuits.len() * ns, candidates.len() as int, examiners.len() as int, k, e)] != 1,
{
    let kk = circuits.len() * ns;
    let nk = candidates.len() as int;
    let ne = examiners.len() as int;
    let cs = slot_constraints(circuits, ns, candidates, examiners);
    lemma_slot_rows(circuits, ns, candidates, examiners);
    let terms = female_row(circuits, ns, candidates, examiners, kk, k).0;
    assert(0 <= kk * nk * nk && 0 <= kk * ne && 0 <= kk * nk) by (nonlinear_arith)
        requires
            0 <= kk,
            nk >= 0,
            ne >= 0;
    assert forall|t: int| 0 <= t < terms.len() implies (#[trigger] terms[t]).0 < x.len() by {
        if t < nk {
            lemma_cell(k, t, kk, nk);
        } else {
            lemma_cell(k, t - nk, kk, ne);
        }
    }
    assert(linear_value(cs[4 * kk + nk + ne + k].0, x) <= cs[4 * kk + nk + ne + k].1);
    lemma_sum_bounds(terms, x);
    assert forall|i: int| 0 <= i < candidates.len() && cand_barred(circuits, ns, candidates, k, i)
        implies x[#[trigger] cand_var(nk, k, i)] != 1 by {
        lemma_cell(k, i, kk, nk);
        assert(terms[i] == ((k * nk + i) as usize, 1i32));
    }
    assert forall|e: int| 0 <= e < examiners.len() && exam_barred(circuits, ns, examiners, k, e)
        implies x[#[trigger] exam_var(kk, nk, ne, k, e)] != 1 by {
        lemma_cell(k, e, kk, ne);
        assert(terms[nk + e] == ((kk * nk + k * ne + e) as usize, 1i32));
    }
}


/// Every feasible point of the slot's program gives placement tables that
/// describe a complete, valid assignment.
pub proof fn lemma_feasible_tables_valid(
    circuits: Seq<Circuit>,
    ns: int,
    candidates: Seq<Candidate>,
    examiners: Seq<Examiner>,
    x: Seq<int>,
)
    requires
        0 <= ns,
        slot_fits(circuits, ns, candidates, examiners),
        feasible(slot_n_vars(circuits.len() * ns, candidates.len() as int, examiners.len() as int),
            slot_constraints(circuits, ns, candidates, examiners), x),
    ensures
        tables_valid(circuits, ns, candidates, examiners,
            cand_table(x, circuits.len() * ns, candidates.len() as int),
            exam_table(x, circuits.len() * ns, candidates.len() as int, examiners.len() as int)),
{
    let kk = circuits.len() * ns;
    let nk = candidates.len() as int;
    let ne = examiners.len() as int;
    let ct = cand_table(x, kk, nk);
    let et = exam_table(x, kk, nk, ne);
    assert(kk >= 0) by (nonlinear_arith)
        requires
            ns >= 0,
            circuits.len() >= 0,
            kk == circuits.len() * ns;
    assert forall|k: int| 0 <= k < kk implies {
        &&& #[trigger] ct[k].len() == nk
        &&& et[k].len() == ne
        &&& chosen(ct[k], nk).len() == 2
        &&& chosen(et[k], ne).len() == 1
    } by {
        lemma_feasible_counts(circuits, ns, candidates, examiners, x, k);
    }
    assert forall|k1: int, k2: int, i: int|
        0 <= k1 < kk && 0 <= k2 < kk && k1 != k2 && 0 <= i < nk && #[trigger] ct[k1][i] implies !#[trigger] ct[k2][i] by {
        if k1 < k2 {
            lemma_feasible_cand_once(circuits, ns, candidates, examiners, x, k1, k2, i);
        } else {
            lemma_feasible_cand_once(circuits, ns, candidates, examiners, x, k2, k1, i);
        }
    }
    assert forall|k1: int, k2: int, e: int|
        0 <= k1 < kk && 0 <= k2 < kk && k1 != k2 && 0 <= e < ne && #[trigger] et[k1][e] implies !#[trigger] et[k2][e] by {
        if k1 < k2 {
            lemma_feasible_exam_once(circuits, ns, candidates, examiners, x, k1, k2, e);
        } else {
            lemma_feasible_exam_once(circuits, ns, candidates, examiners, x, k2, k1, e);
        }
    }
    assert forall|k: int, i: int|
        0 <= k < kk && 0 <= i < nk && circuits[k / ns].female_only && #[trigger] ct[k][i]
        implies candidates[i].female_only by {
        lemma_feasible_female(circuits, ns, candidates, examiners, x, k);
        assert(x[cand_var(nk, k, i)] == 1);
    }
    assert forall|k: int, e: int|
        0 <= k < kk && 0 <= e < ne && circuits[k / ns].female_only && #[trigger] et[k][e]
        implies examiners[e].female by {
        lemma_feasible_female(circuits, ns, candidates, examiners, x, k);
        assert(x[exam_var(kk, nk, ne, k, e)] == 1);
    }
}


/// The number of set entries of a row set exactly at `a` and `b`.
proof fn lemma_chosen_two(row: Seq<bool>, n: int, a: int, b: int)
    requires
        0 <= a < b,
        0 <= n <= row.len(),
        forall|i: int| 0 <= i < row.len() ==> (#[trigger] row[i] <==> i == a || i == b),
    ensures
        chosen(row, n).len() == if n > b { 2int } else if n > a { 1int } else { 0int },
    decreases n,
{
    if n > 0 {
        lemma_chosen_two(row, n - 1, a, b);
    }
}

/// The number of set entries of a row set exactly at `a`.
proof fn lemma_chosen_one(row: Seq<bool>, n: int, a: int)
    requires
        0 <= a,
        0 <= n <= row.len(),
        forall|i: int| 0 <= i < row.len() ==> (#[trigger] row[i] <==> i == a),
    ensures
        chosen(row, n).len() == if n > a { 1int } else { 0int },
    decreases n,
{
    if n > 0 {
        lemma_chosen_one(row, n - 1, a);
    }
}

/// Terms that each contribute 0 sum to 0.
proof fn lemma_zero_sum(terms: Seq<(usize, i32)>, x: Seq<int>)
    requires
        forall|t: int| 0 <= t < terms.len() ==> (#[trigger] terms[t]).1 * x[terms[t].0 as int] == 0,
    ensures
        linear_value(terms, x) == 0,
    decreases terms.len(),
{
    if terms.len() > 0 {
        let init = terms.drop_last();
        assert forall|t: int| 0 <= t < init.len() implies (#[trigger] init[t]).1 * x[init[t].0 as int] == 0 by {
            assert(init[t] == terms[t]);
        }
        lemma_zero_sum(init, x);
        assert(terms.last() == terms[terms.len() - 1]);
    }
}

/// A column of 0/1 values with at most one 1 sums to at most 1, and to 0
/// where none is 1.
proof fn lemma_column_sum(first: int, stride: int, m: int, x: Seq<int>)
    requires
        0 <= m,
        forall|k: int| 0 <= k < m ==> 0 <= #[trigger] (first + k * stride) < x.len() && first + k * stride <= usize::MAX,
        forall|k: int| 0 <= k < m ==> x[#[trigger] (first + k * stride)] == 0 || x[first + k * stride] == 1,
        forall|k1: int, k2: int| 0 <= k1 < m && 0 <= k2 < m && k1 != k2
            ==> !(x[#[trigger] (first + k1 * stride)] == 1 && x[#[trigger] (first + k2 * stride)] == 1),
    ensures
        linear_value(strided_terms(first, stride, m, 1), x) <= 1,
        (forall|k: int| 0 <= k < m ==> x[#[trigger] (first + k * stride)] == 0)
            ==> linear_value(strided_terms(first, stride, m, 1), x) == 0,
    decreases m,
{
    if m > 0 {
        lemma_column_sum(first, stride, m - 1, x);
        assert(strided_terms(first, stride, m, 1).drop_last() =~= strided_terms(first, stride, m - 1, 1));
        let last = first + (m - 1) * stride;
        if x[last] == 1 {
            assert forall|k: int| 0 <= k < m - 1 implies x[#[trigger] (first + k * stride)] == 0 by {
                assert(!(x[first + k * stride] == 1 && x[first + (m - 1) * stride] == 1));
            }
        }
    }
}


/// The 0/1 point of the slot's program that assignment `q` stands for: a
/// candidate's or examiner's variable is 1 where `q` places them, a pairing
/// variable where `q` places its two candidates together.
pub open spec fn assignment_point(
    circuits: Seq<Circuit>,
    ns: int,
    candidates: Seq<Candidate>,
    examiners: Seq<Examiner>,
    q: Seq<Placement>,
) -> Seq<int> {
    let kk = circuits.len() * ns;
    let nk = candidates.len() as int;
    let ne = examiners.len() as int;
    let base = pair_base(kk, nk, ne);
    Seq::new(slot_n_vars(kk, nk, ne) as nat, |v: int|
        if v < kk * nk {
            if q[v / nk].candidate_1 == v % nk || q[v / nk].candidate_2 == v % nk { 1int } else { 0int }
        } else if v < base {
            if q[(v - kk * nk) / ne].examiner == (v - kk * nk) % ne { 1int } else { 0int }
        } else {
            let t = v - base;
            if q[pair_position(nk, t)].candidate_1 == pair_first(nk, t)
                && q[pair_position(nk, t)].candidate_2 == pair_second(nk, t) { 1int } else { 0int }
        })
}

proof fn lemma_value_two(a: (usize, i32), b: (usize, i32), x: Seq<int>)
    ensures
        linear_value(seq![a, b], x) == a.1 * x[a.0 as int] + b.1 * x[b.0 as int],
{
    reveal_with_fuel(linear_value, 3);
    assert(seq![a, b].drop_last() =~= seq![a]);
    assert(seq![a].drop_last() =~= Seq::<(usize, i32)>::empty());
}

proof fn lemma_value_three(a: (usize, i32), b: (usize, i32), c: (usize, i32), x: Seq<int>)
    ensures
        linear_value(seq![a, b, c], x) == a.1 * x[a.0 as int] + b.1 * x[b.0 as int] + c.1 * x[c.0 as int],
{
    assert(seq![a, b, c].drop_last() =~= seq![a, b]);
    lemma_value_two(a, b, x);
}

/// The values of `assignment_point` at each kind of variable.
proof fn lemma_assignment_point(
    circuits: Seq<Circuit>,
    ns: int,
    candidates: Seq<Candidate>,
    examiners: Seq<Examiner>,
    q: Seq<Placement>,
)
    requires
        0 <= ns,
    ensures
        ({
            let x = assignment_point(circuits, ns, candidates, examiners, q);
            let kk = circuits.len() * ns;
            let nk = candidates.len() as int;
            let ne = examiners.len() as int;
            &&& x.len() == slot_n_vars(kk, nk, ne)
            &&& forall|v: int| 0 <= v < x.len() ==> #[trigger] x[v] == 0 || x[v] == 1
            &&& forall|k: int, i: int| 0 <= k < kk && 0 <= i < nk ==> #[trigger] x[cand_var(nk, k, i)]
                == if q[k].candidate_1 == i || q[k].candidate_2 == i { 1int } else { 0int }
            &&& forall|k: int, e: int| 0 <= k < kk && 0 <= e < ne ==> #[trigger] x[exam_var(kk, nk, ne, k, e)]
                == if q[k].examiner == e { 1int } else { 0int }
            &&& forall|t: int| 0 <= t < kk * nk * nk ==> #[trigger] x[pair_base(kk, nk, ne) + t]
                == if q[pair_position(nk, t)].candidate_1 == pair_first(nk, t)
                    && q[pair_position(nk, t)].candidate_2 == pair_second(nk, t) { 1int } else { 0int }
        }),
{
    let x = assignment_point(circuits, ns, candidates, examiners, q);
    let kk = circuits.len() * ns;
    let nk = candidates.len() as int;
    let ne = examiners.len() as int;
    assert(kk >= 0 && kk * nk * nk >= 0 && kk * nk >= 0 && kk * ne >= 0) by (nonlinear_arith)
        requires
            ns >= 0,
            circuits.len() >= 0,
            nk >= 0,
            ne >= 0,
            kk == circuits.len() * ns;
    assert forall|k: int, i: int| 0 <= k < kk && 0 <= i < nk implies #[trigger] x[cand_var(nk, k, i)]
        == if q[k].candidate_1 == i || q[k].candidate_2 == i { 1int } else { 0int } by {
        lemma_cell(k, i, kk, nk);
        lemma_fundamental_div_mod_converse(k * nk + i, nk, k, i);
    }
    assert forall|k: int, e: int| 0 <= k < kk && 0 <= e < ne implies #[trigger] x[exam_var(kk, nk, ne, k, e)]
        == if q[k].examiner == e { 1int } else { 0int } by {
        lemma_cell(k, e, kk, ne);
        lemma_fundamental_div_mod_converse(k * ne + e, ne, k, e);
    }
}


/// The rows of position `k` hold at the point of a valid assignment.
proof fn lemma_point_rows(
    circuits: Seq<Circuit>,
    ns: int,
    candidates: Seq<Candidate>,
    examiners: Seq<Examiner>,
    q: Seq<Placement>,
    k: int,
)
    requires
        0 <= ns,
        slot_fits(circuits, ns, candidates, examiners),
        assignment_valid(circuits, ns, candidates, examiners, q),
        0 <= k < circuits.len() * ns,
    ensures
        ({
            let x = assignment_point(circuits, ns, candidates, examiners, q);
            let kk = circuits.len() * ns;
            let nk = candidates.len() as int;
            let ne = examiners.len() as int;
            &&& linear_value(block_terms(k * nk, nk, 1i32), x) <= 2
            &&& linear_value(block_terms(k * nk, nk, -1i32), x) <= -2
            &&& linear_value(block_terms(kk * nk + k * ne, ne, 1i32), x) <= 1
            &&& linear_value(block_terms(kk * nk + k * ne, ne, -1i32), x) <= -1
            &&& linear_value(female_row(circuits, ns, candidates, examiners, kk, k).0, x) <= 0
        }),
{
    let x = assignment_point(circuits, ns, candidates, examiners, q);
    let kk = circuits.len() * ns;
    let nk = candidates.len() as int;
    let ne = examiners.len() as int;
    lemma_assignment_point(circuits, ns, candidates, examiners, q);
    assert(k * nk + nk <= kk * nk && k * ne + ne <= kk * ne && 0 <= k * nk && 0 <= k * ne
        && 0 <= kk * nk * nk) by (nonlinear_arith)
        requires
            0 <= k < kk,
            nk >= 0,
            ne >= 0;
    let p = q[k];
    assert(p.circuit == k / ns);
    let crow = Seq::new(nk as nat, |i: int| x[k * nk + i] == 1);
    assert forall|i: int| 0 <= i < crow.len() implies (#[trigger] crow[i] <==> i == p.candidate_1 || i == p.candidate_2) by {
        assert(x[cand_var(nk, k, i)] == 1 <==> (i == p.candidate_1 || i == p.candidate_2));
    }
    lemma_chosen_two(crow, nk, p.candidate_1 as int, p.candidate_2 as int);
    lemma_block_count(k * nk, nk, 1i32, x, crow);
    lemma_block_count(k * nk, nk, -1i32, x, crow);
    let erow = Seq::new(ne as nat, |e: int| x[kk * nk + k * ne + e] == 1);
    assert forall|e: int| 0 <= e < erow.len() implies (#[trigger] erow[e] <==> e == p.examiner) by {
        assert(x[exam_var(kk, nk, ne, k, e)] == 1 <==> e == p.examiner);
    }
    lemma_chosen_one(erow, ne, p.examiner as int);
    lemma_block_count(kk * nk + k * ne, ne, 1i32, x, erow);
    lemma_block_count(kk * nk + k * ne, ne, -1i32, x, erow);
    let terms = female_row(circuits, ns, candidates, examiners, kk, k).0;
    assert forall|t: int| 0 <= t < terms.len() implies (#[trigger] terms[t]).1 * x[terms[t].0 as int] == 0 by {
        if t < nk {
            lemma_cell(k, t, kk, nk);
            assert(x[cand_var(nk, k, t)] == if p.candidate_1 == t || p.candidate_2 == t { 1int } else { 0int });
        } else {
            lemma_cell(k, t - nk, kk, ne);
            assert(x[exam_var(kk, nk, ne, k, t - nk)] == if p.examiner == t - nk { 1int } else { 0int });
        }
    }
    lemma_zero_sum(terms, x);
}

/// The "at most once" rows hold at the point of a valid assignment.
proof fn lemma_point_columns(
    circuits: Seq<Circuit>,
    ns: int,
    candidates: Seq<Candidate>,
    examiners: Seq<Examiner>,
    q: Seq<Placement>,
)
    requires
        0 <= ns,
        slot_fits(circuits, ns, candidates, examiners),
        assignment_valid(circuits, ns, candidates, examiners, q),
    ensures
        ({
            let x = assignment_point(circuits, ns, candidates, examiners, q);
            let kk = circuits.len() * ns;
            let nk = candidates.len() as int;
            let ne = examiners.len() as int;
            &&& forall|i: int| 0 <= i < nk ==> linear_value(#[trigger] strided_terms(i, nk, kk, 1), x) <= 1
            &&& forall|e: int| 0 <= e < ne ==> linear_value(#[trigger] strided_terms(kk * nk + e, ne, kk, 1), x) <= 1
        }),
{
    let x = assignment_point(circuits, ns, candidates, examiners, q);
    let kk = circuits.len() * ns;
    let nk = candidates.len() as int;
    let ne = examiners.len() as int;
    lemma_assignment_point(circuits, ns, candidates, examiners, q);
    assert(0 <= kk * nk * nk && 0 <= kk * ne && 0 <= kk * nk && 0 <= kk) by (nonlinear_arith)
        requires
            kk == circuits.len() * ns,
            0 <= ns,
            nk >= 0,
            ne >= 0;
    assert forall|i: int| 0 <= i < nk implies linear_value(#[trigger] strided_terms(i, nk, kk, 1), x) <= 1 by {
        assert forall|k: int| 0 <= k < kk implies 0 <= #[trigger] (i + k * nk) < x.len() && i + k * nk <= usize::MAX
            && (x[i + k * nk] == 0 || x[i + k * nk] == 1) by {
            lemma_cell(k, i, kk, nk);
        }
        assert forall|k1: int, k2: int| 0 <= k1 < kk && 0 <= k2 < kk && k1 != k2
            implies !(x[#[trigger] (i + k1 * nk)] == 1 && x[#[trigger] (i + k2 * nk)] == 1) by {
            assert(x[cand_var(nk, k1, i)] == if q[k1].candidate_1 == i || q[k1].candidate_2 == i { 1int } else { 0int });
            assert(x[cand_var(nk, k2, i)] == if q[k2].candidate_1 == i || q[k2].candidate_2 == i { 1int } else { 0int });
            assert(q[k1].candidate_1 != q[k2].candidate_1);
        }
        lemma_column_sum(i, nk, kk, x);
    }
    assert forall|e: int| 0 <= e < ne implies linear_value(#[trigger] strided_terms(kk * nk + e, ne, kk, 1), x) <= 1 by {
        assert forall|k: int| 0 <= k < kk implies 0 <= #[trigger] (kk * nk + e + k * ne) < x.len()
            && kk * nk + e + k * ne <= usize::MAX
            && (x[kk * nk + e + k * ne] == 0 || x[kk * nk + e + k * ne] == 1) by {
            lemma_cell(k, e, kk, ne);
        }
        assert forall|k1: int, k2: int| 0 <= k1 < kk && 0 <= k2 < kk && k1 != k2
            implies !(x[#[trigger] (kk * nk + e + k1 * ne)] == 1 && x[#[trigger] (kk * nk + e + k2 * ne)] == 1) by {
            assert(x[exam_var(kk, nk, ne, k1, e)] == if q[k1].examiner == e { 1int } else { 0int });
            assert(x[exam_var(kk, nk, ne, k2, e)] == if q[k2].examiner == e { 1int } else { 0int });
            assert(q[k1].candidate_1 != q[k2].candidate_1);
            assert(q[k1].examiner != q[k2].examiner);
        }
        lemma_column_sum(kk * nk + e, ne, kk, x);
    }
}


/// The rows of pairing variable `t` hold at the point of a valid assignment.
proof fn lemma_point_pair(
    circuits: Seq<Circuit>,
    ns: int,
    candidates: Seq<Candidate>,
    examiners: Seq<Examiner>,
    q: Seq<Placement>,
    t: int,
)
    requires
        0 <= ns,
        slot_fits(circuits, ns, candidates, examiners),
        assignment_valid(circuits, ns, candidates, examiners, q),
        0 <= t < circuits.len() * ns * candidates.len() * candidates.len(),
    ensures
        ({
            let x = assignment_point(circuits, ns, candidates, examiners, q);
            let kk = circuits.len() * ns;
            let nk = candidates.len() as int;
            let base = pair_base(kk, nk, examiners.len() as int);
            &&& linear_value(pair_row_first(base, nk, t).0, x) <= pair_row_first(base, nk, t).1
            &&& linear_value(pair_row_second(base, nk, t).0, x) <= pair_row_second(base, nk, t).1
            &&& linear_value(pair_row_both(base, nk, t).0, x) <= pair_row_both(base, nk, t).1
        }),
{
    let x = assignment_point(circuits, ns, candidates, examiners, q);
    let kk = circuits.len() * ns;
    let nk = candidates.len() as int;
    let ne = examiners.len() as int;
    let base = pair_base(kk, nk, ne);
    lemma_assignment_point(circuits, ns, candidates, examiners, q);
    assert(0 <= kk) by (nonlinear_arith)
        requires
            kk == circuits.len() * ns,
            0 <= ns;
    assert(0 < nk && t < nk * (kk * nk) && 0 <= kk * ne && 0 <= kk * nk) by (nonlinear_arith)
        requires
            0 <= t < kk * nk * nk,
            0 <= ne,
            0 <= kk,
            0 <= nk;
    lemma_multiply_divide_lt(t, nk, kk * nk);
    let qq = t / nk;
    assert(qq < nk * kk) by (nonlinear_arith)
        requires
            qq < kk * nk;
    lemma_multiply_divide_lt(qq, nk, kk);
    let k = pair_position(nk, t);
    let i = pair_first(nk, t);
    let j = pair_second(nk, t);
    lemma_cell(k, i, kk, nk);
    lemma_cell(k, j, kk, nk);
    let p = q[k];
    let pp = x[base + t];
    let a = x[cand_var(nk, k, i)];
    let b = x[cand_var(nk, k, j)];
    assert(pp == if p.candidate_1 == i && p.candidate_2 == j { 1int } else { 0int });
    assert(a == if p.candidate_1 == i || p.candidate_2 == i { 1int } else { 0int });
    assert(b == if p.candidate_1 == j || p.candidate_2 == j { 1int } else { 0int });
    assert(p.candidate_1 < p.candidate_2) by {
        assert(p.circuit == k / ns);
    }
    let c = if pair_used(nk, t) { 1i32 } else { 0i32 };
    let ca = (cand_var(nk, k, i) as usize, pair_neg(nk, t));
    let cb = (cand_var(nk, k, j) as usize, pair_neg(nk, t));
    lemma_value_two(((base + t) as usize, 1i32), ca, x);
    lemma_value_two(((base + t) as usize, 1i32), cb, x);
    lemma_value_three((cand_var(nk, k, i) as usize, c), (cand_var(nk, k, j) as usize, c),
        ((base + t) as usize, pair_neg(nk, t)), x);
    assert(0 <= kk * nk * nk) by (nonlinear_arith)
        requires
            0 <= kk,
            0 <= nk;
    assert(((base + t) as usize) as int == base + t);
    assert((cand_var(nk, k, i) as usize) as int == cand_var(nk, k, i));
    assert((cand_var(nk, k, j) as usize) as int == cand_var(nk, k, j));
    assert(pair_used(nk, t) == (i < j));
    assert(linear_value(pair_row_first(base, nk, t).0, x) == pp + pair_neg(nk, t) * a);
    assert(linear_value(pair_row_second(base, nk, t).0, x) == pp + pair_neg(nk, t) * b);
    assert(linear_value(pair_row_both(base, nk, t).0, x) == c * a + c * b + pair_neg(nk, t) * pp);
    if i < j {
        assert(pp + -1 * a <= 0);
        assert(pp + -1 * b <= 0);
        assert(1 * a + 1 * b + -1 * pp <= 1);
    } else {
        assert(pp == 0);
        assert(0 * a + 0 * b + 0 * pp == 0);
    }
}

/// The point of a valid assignment is a feasible point of the slot's
/// program: wherever a valid assignment exists, the program is feasible.
pub proof fn lemma_assignment_feasible(
    circuits: Seq<Circuit>,
    ns: int,
    candidates: Seq<Candidate>,
    examiners: Seq<Examiner>,
    q: Seq<Placement>,
)
    requires
        0 <= ns,
        slot_fits(circuits, ns, candidates, examiners),
        assignment_valid(circuits, ns, candidates, examiners, q),
    ensures
        feasible(slot_n_vars(circuits.len() * ns, candidates.len() as int, examiners.len() as int),
            slot_constraints(circuits, ns, candidates, examiners),
            assignment_point(circuits, ns, candidates, examiners, q)),
{
    let x = assignment_point(circuits, ns, candidates, examiners, q);
    let kk = circuits.len() * ns;
    let nk = candidates.len() as int;
    let ne = examiners.len() as int;
    let np = kk * nk * nk;
    let cs = slot_constraints(circuits, ns, candidates, examiners);
    lemma_slot_rows(circuits, ns, candidates, examiners);
    lemma_assignment_point(circuits, ns, candidates, examiners, q);
    lemma_point_columns(circuits, ns, candidates, examiners, q);
    assert forall|c: int| 0 <= c < cs.len() implies linear_value((#[trigger] cs[c]).0, x) <= cs[c].1 by {
        if c < 4 * kk {
            let k = c % kk;
            assert(k == c - (c / kk) * kk) by {
                lemma_fundamental_div_mod(c, kk);
            }
            if c < kk {
                lemma_point_rows(circuits, ns, candidates, examiners, q, c);
            } else if c < 2 * kk {
                lemma_point_rows(circuits, ns, candidates, examiners, q, c - kk);
                assert(cs[kk + (c - kk)] == cs[c]);
            } else if c < 3 * kk {
                lemma_point_rows(circuits, ns, candidates, examiners, q, c - 2 * kk);
                assert(cs[2 * kk + (c - 2 * kk)] == cs[c]);
            } else {
                lemma_point_rows(circuits, ns, candidates, examiners, q, c - 3 * kk);
                assert(cs[3 * kk + (c - 3 * kk)] == cs[c]);
            }
        } else if c < 4 * kk + nk {
            assert(cs[4 * kk + (c - 4 * kk)] == cs[c]);
        } else if c < 4 * kk + nk + ne {
            assert(cs[4 * kk + nk + (c - 4 * kk - nk)] == cs[c]);
        } else if c < 5 * kk + nk + ne {
            lemma_point_rows(circuits, ns, candidates, examiners, q, c - 4 * kk - nk - ne);
            assert(cs[4 * kk + nk + ne + (c - 4 * kk - nk - ne)] == cs[c]);
        } else if c < 5 * kk + nk + ne + np {
            let t = c - (5 * kk + nk + ne);
            lemma_point_pair(circuits, ns, candidates, examiners, q, t);
            assert(cs[5 * kk + nk + ne + t] == cs[c]);
        } else if c < 5 * kk + nk + ne + 2 * np {
            let t = c - (5 * kk + nk + ne + np);
            lemma_point_pair(circuits, ns, candidates, examiners, q, t);
            assert(cs[5 * kk + nk + ne + np + t] == cs[c]);
        } else {
            let t = c - (5 * kk + nk + ne + 2 * np);
            lemma_point_pair(circuits, ns, candidates, examiners, q, t);
            assert(cs[5 * kk + nk + ne + 2 * np + t] == cs[c]);
        }
    }
}


/// The assignment that point `x`'s tables give, by index.
pub open spec fn placements_of_point(
    circuits: Seq<Circuit>,
    ns: int,
    candidates: Seq<Candidate>,
    examiners: Seq<Examiner>,
    x: Seq<int>,
) -> Seq<Placement> {
    let kk = circuits.len() * ns;
    let nk = candidates.len() as int;
    let ne = examiners.len() as int;
    Seq::new(kk as nat, |k: int| placement_at(ns, nk, ne, cand_table(x, kk, nk), exam_table(x, kk, nk, ne), k))
}

/// The preference score of an assignment: the objective of the slot's
/// program at the assignment's point, the sum of the pair weights of the two
/// candidates at every position.
pub open spec fn preference_score(
    circuits: Seq<Circuit>,
    ns: int,
    candidates: Seq<Candidate>,
    examiners: Seq<Examiner>,
    q: Seq<Placement>,
) -> int {
    linear_value(slot_objective(circuits, ns, candidates, examiners),
        assignment_point(circuits, ns, candidates, examiners, q))
}

/// A feasible point of the slot's program is the point of the assignment
/// that its tables give.
proof fn lemma_feasible_is_point(
    circuits: Seq<Circuit>,
    ns: int,
    candidates: Seq<Candidate>,
    examiners: Seq<Examiner>,
    x: Seq<int>,
)
    requires
        0 <= ns,
        slot_fits(circuits, ns, candidates, examiners),
        feasible(slot_n_vars(circuits.len() * ns, candidates.len() as int, examiners.len() as int),
            slot_constraints(circuits, ns, candidates, examiners), x),
    ensures
        x == assignment_point(circuits, ns, candidates, examiners,
            placements_of_point(circuits, ns, candidates, examiners, x)),
{
    let kk = circuits.len() * ns;
    let nk = candidates.len() as int;
    let ne = examiners.len() as int;
    let base = pair_base(kk, nk, ne);
    let q = placements_of_point(circuits, ns, candidates, examiners, x);
    let y = assignment_point(circuits, ns, candidates, examiners, q);
    let cs = slot_constraints(circuits, ns, candidates, examiners);
    let ct = cand_table(x, kk, nk);
    let et = exam_table(x, kk, nk, ne);
    lemma_slot_rows(circuits, ns, candidates, examiners);
    lemma_assignment_point(circuits, ns, candidates, examiners, q);
    assert(0 <= kk && 0 <= kk * nk && 0 <= kk * ne && 0 <= kk * nk * nk) by (nonlinear_arith)
        requires
            kk == circuits.len() * ns,
            0 <= ns,
            0 <= nk,
            0 <= ne;
    // at position k, candidate i is placed in q exactly where x sets its variable
    assert forall|k: int, i: int| 0 <= k < kk && 0 <= i < nk implies
        (x[#[trigger] cand_var(nk, k, i)] == 1 <==> (q[k].candidate_1 == i || q[k].candidate_2 == i))
        && (q[k].candidate_1 as int) < (q[k].candidate_2 as int) by {
        lemma_feasible_counts(circuits, ns, candidates, examiners, x, k);
        lemma_chosen(ct[k], nk);
        let ch = chosen(ct[k], nk);
        assert(nk <= kk * nk && ne <= kk * ne) by (nonlinear_arith)
            requires
                0 <= k < kk,
                0 <= nk,
                0 <= ne;
        assert(q[k] == placement_at(ns, nk, ne, ct, et, k));
        assert(q[k].candidate_1 as int == ch[0]);
        assert(q[k].candidate_2 as int == ch[1]);
        assert(ch[0] < ch[1]);
        assert(ct[k][i] == (x[cand_var(nk, k, i)] == 1));
        if x[cand_var(nk, k, i)] == 1 {
            assert(ch.contains(i));
        }
        assert(ct[k][ch[0]] && ct[k][ch[1]]);
    }
    assert forall|k: int, e: int| 0 <= k < kk && 0 <= e < ne implies
        (x[#[trigger] exam_var(kk, nk, ne, k, e)] == 1 <==> q[k].examiner == e) by {
        lemma_feasible_counts(circuits, ns, candidates, examiners, x, k);
        lemma_chosen(et[k], ne);
        let ch = chosen(et[k], ne);
        assert(nk <= kk * nk && ne <= kk * ne) by (nonlinear_arith)
            requires
                0 <= k < kk,
                0 <= nk,
                0 <= ne;
        assert(q[k] == placement_at(ns, nk, ne, ct, et, k));
        assert(q[k].examiner as int == ch[0]);
        assert(et[k][e] == (x[exam_var(kk, nk, ne, k, e)] == 1));
        if x[exam_var(kk, nk, ne, k, e)] == 1 {
            assert(ch.contains(e));
        }
        assert(et[k][ch[0]]);
    }
    assert forall|v: int| 0 <= v < x.len() implies x[v] == #[trigger] y[v] by {
        if v < kk * nk {
            assert(v < nk * kk) by (nonlinear_arith)
                requires
                    v < kk * nk;
            lemma_multiply_divide_lt(v, nk, kk);
            lemma_fundamental_div_mod(v, nk);
            let k = v / nk;
            let i = v % nk;
            assert(v == cand_var(nk, k, i)) by (nonlinear_arith)
                requires
                    v == nk * k + i;
            assert(x[v] == 0 || x[v] == 1);
            assert(y[cand_var(nk, k, i)] == if q[k].candidate_1 == i || q[k].candidate_2 == i { 1int } else { 0int });
            assert(x[v] == y[v]);
        } else if v < base {
            let w = v - kk * nk;
            assert(w < ne * kk) by (nonlinear_arith)
                requires
                    w < kk * ne;
            lemma_multiply_divide_lt(w, ne, kk);
            lemma_fundamental_div_mod(w, ne);
            let k = w / ne;
            let e = w % ne;
            assert(v == exam_var(kk, nk, ne, k, e)) by (nonlinear_arith)
                requires
                    w == ne * k + e,
                    v == w + kk * nk;
            assert(x[v] == 0 || x[v] == 1);
            assert(y[exam_var(kk, nk, ne, k, e)] == if q[k].examiner == e { 1int } else { 0int });
            assert(x[v] == y[v]);
        } else {
            let t = v - base;
            assert(0 < nk && t < nk * (kk * nk)) by (nonlinear_arith)
                requires
                    0 <= t < kk * nk * nk,
                    0 <= kk,
                    0 <= nk;
            lemma_multiply_divide_lt(t, nk, kk * nk);
            let qq = t / nk;
            assert(qq < nk * kk) by (nonlinear_arith)
                requires
                    qq < kk * nk;
            lemma_multiply_divide_lt(qq, nk, kk);
            let k = pair_position(nk, t);
            let i = pair_first(nk, t);
            let j = pair_second(nk, t);
            lemma_cell(k, i, kk, nk);
            lemma_cell(k, j, kk, nk);
            let pp = x[base + t];
            let a = x[cand_var(nk, k, i)];
            let b = x[cand_var(nk, k, j)];
            assert(cs[5 * kk + nk + ne + t] == pair_row_first(base, nk, t));
            assert(cs[5 * kk + nk + ne + kk * nk * nk + t] == pair_row_second(base, nk, t));
            assert(cs[5 * kk + nk + ne + 2 * (kk * nk * nk) + t] == pair_row_both(base, nk, t));
            assert(linear_value(cs[5 * kk + nk + ne + t].0, x) <= cs[5 * kk + nk + ne + t].1);
            assert(linear_value(cs[5 * kk + nk + ne + kk * nk * nk + t].0, x)
                <= cs[5 * kk + nk + ne + kk * nk * nk + t].1);
            assert(linear_value(cs[5 * kk + nk + ne + 2 * (kk * nk * nk) + t].0, x)
                <= cs[5 * kk + nk + ne + 2 * (kk * nk * nk) + t].1);
            let c = if pair_used(nk, t) { 1i32 } else { 0i32 };
            lemma_value_two(((base + t) as usize, 1i32), (cand_var(nk, k, i) as usize, pair_neg(nk, t)), x);
            lemma_value_two(((base + t) as usize, 1i32), (cand_var(nk, k, j) as usize, pair_neg(nk, t)), x);
            lemma_value_three((cand_var(nk, k, i) as usize, c), (cand_var(nk, k, j) as usize, c),
                ((base + t) as usize, pair_neg(nk, t)), x);
            assert(((base + t) as usize) as int == base + t);
            assert((cand_var(nk, k, i) as usize) as int == cand_var(nk, k, i));
            assert((cand_var(nk, k, j) as usize) as int == cand_var(nk, k, j));
            assert(x[base + t] == 0 || x[base + t] == 1);
            assert(a == 0 || a == 1);
            assert(b == 0 || b == 1);
            assert(y[base + t] == if q[k].candidate_1 == i && q[k].candidate_2 == j { 1int } else { 0int });
            assert(a == 1 <==> (q[k].candidate_1 == i || q[k].candidate_2 == i));
            assert(b == 1 <==> (q[k].candidate_1 == j || q[k].candidate_2 == j));
            assert((q[k].candidate_1 as int) < (q[k].candidate_2 as int));
            assert(pair_used(nk, t) == (i < j));
            assert(pair_row_first(base, nk, t).0 == seq![((base + t) as usize, 1i32), (cand_var(nk, k, i) as usize, pair_neg(nk, t))]);
            assert(pair_row_second(base, nk, t).0 == seq![((base + t) as usize, 1i32), (cand_var(nk, k, j) as usize, pair_neg(nk, t))]);
            assert(pair_row_both(base, nk, t).0 == seq![(cand_var(nk, k, i) as usize, c), (cand_var(nk, k, j) as usize, c),
                ((base + t) as usize, pair_neg(nk, t))]);
            assert(1i32 * pp == pp);
            assert(linear_value(pair_row_first(base, nk, t).0, x) == pp + pair_neg(nk, t) * a);
            assert(linear_value(pair_row_second(base, nk, t).0, x) == pp + pair_neg(nk, t) * b);
            assert(linear_value(pair_row_both(base, nk, t).0, x) == c * a + c * b + pair_neg(nk, t) * pp);
            if i < j {
                assert(pp - a <= 0 && pp - b <= 0 && a + b - pp <= 1);
            } else {
                assert(pp <= 0);
            }
            assert(x[v] == y[v]);
        }
    }
    assert(x =~= y);
}

/// No valid assignment scores more than the one read from an optimal point
/// of the slot's program.
pub proof fn lemma_optimal_point_best(
    circuits: Seq<Circuit>,
    ns: int,
    candidates: Seq<Candidate>,
    examiners: Seq<Examiner>,
    x: Seq<int>,
    q: Seq<Placement>,
)
    requires
        0 <= ns,
        slot_fits(circuits, ns, candidates, examiners),
        optimal(slot_n_vars(circuits.len() * ns, candidates.len() as int, examiners.len() as int),
            slot_objective(circuits, ns, candidates, examiners),
            slot_constraints(circuits, ns, candidates, examiners), x),
        assignment_valid(circuits, ns, candidates, examiners, q),
    ensures
        preference_score(circuits, ns, candidates, examiners, q)
            <= preference_score(circuits, ns, candidates, examiners,
                placements_of_point(circuits, ns, candidates, examiners, x)),
{
    lemma_assignment_feasible(circuits, ns, candidates, examiners, q);
    lemma_feasible_is_point(circuits, ns, candidates, examiners, x);
}

/// No two candidates share an identity.
pub open spec fn candidate_ids_distinct(candidates: Seq<Candidate>) -> bool {
    forall|i: int, j: int| 0 <= i < candidates.len() && 0 <= j < candidates.len() && i != j
        ==> #[trigger] candidates[i].id != #[trigger] candidates[j].id
}

/// No two examiners share an identity.
pub open spec fn examiner_ids_distinct(examiners: Seq<Examiner>) -> bool {
    forall|i: int, j: int| 0 <= i < examiners.len() && 0 <= j < examiners.len() && i != j
        ==> #[trigger] examiners[i].id != #[trigger] examiners[j].id
}

/// No two circuits share an identity.
pub open spec fn circuit_ids_distinct(circuits: Seq<Circuit>) -> bool {
    forall|i: int, j: int| 0 <= i < circuits.len() && 0 <= j < circuits.len() && i != j
        ==> #[trigger] circuits[i].id != #[trigger] circuits[j].id
}

/// No two stations share an identity.
pub open spec fn station_ids_distinct(stations: Seq<Station>) -> bool {
    forall|i: int, j: int| 0 <= i < stations.len() && 0 <= j < stations.len() && i != j
        ==> #[trigger] stations[i].id != #[trigger] stations[j].id
}

/// Station saturation: a sound allocation has exactly one record for every
/// station of every circuit, at index `c * stations.len() + s` for station
/// `s` of circuit `c`, and each record holds two different candidates and
/// an examiner.
pub proof fn lemma_station_saturation(
    circuits: Seq<Circuit>,
    stations: Seq<Station>,
    candidates: Seq<Candidate>,
    examiners: Seq<Examiner>,
    r: Seq<StationAllocation>,
)
    requires
        allocation_sound(circuits, stations, candidates, examiners, r),
        candidate_ids_distinct(candidates),
        circuit_ids_distinct(circuits),
        station_ids_distinct(stations),
    ensures
        r.len() == circuits.len() * stations.len(),
        forall|k: int, c: int, s: int| 0 <= k < r.len() && 0 <= c < circuits.len() && 0 <= s < stations.len()
            && (#[trigger] r[k]).circuit_id == #[trigger] circuits[c].id && r[k].station_id == #[trigger] stations[s].id
            ==> k == c * stations.len() + s,
        forall|c: int, s: int| 0 <= c < circuits.len() && 0 <= s < stations.len() ==> {
            let a = #[trigger] r[c * stations.len() + s];
            &&& a.circuit_id == circuits[c].id
            &&& a.station_id == stations[s].id
            &&& a.candidate_1 != a.candidate_2
        },
{
    let p = choose|p: Seq<Placement>| #[trigger] assignment_valid(circuits, stations.len() as int, candidates, examiners, p)
        && r == p.map_values(|q: Placement| allocation_of(circuits, stations, candidates, examiners, q));
    let ns = stations.len() as int;
    assert forall|c: int, s: int| 0 <= c < circuits.len() && 0 <= s < stations.len() implies {
        let a = #[trigger] r[c * stations.len() + s];
        &&& a.circuit_id == circuits[c].id
        &&& a.station_id == stations[s].id
        &&& a.candidate_1 != a.candidate_2
    } by {
        let k = c * ns + s;
        assert(0 <= k < circuits.len() * ns) by (nonlinear_arith)
            requires
                0 <= c < circuits.len(),
                0 <= s < ns,
                k == c * ns + s;
        lemma_fundamental_div_mod_converse(k, ns, c, s);
        assert(p[k].circuit == k / ns);
    }
    assert forall|k: int, c: int, s: int| 0 <= k < r.len() && 0 <= c < circuits.len() && 0 <= s < stations.len()
        && (#[trigger] r[k]).circuit_id == #[trigger] circuits[c].id && r[k].station_id == #[trigger] stations[s].id
        implies k == c * stations.len() + s by {
        assert(p[k].circuit == k / ns);
        assert(k / ns == c);
        assert(k % ns == s);
        lemma_fundamental_div_mod(k, ns);
        assert(k == c * ns + s) by (nonlinear_arith)
            requires
                k == ns * (k / ns) + k % ns,
                k / ns == c,
                k % ns == s;
    }
}

/// Exclusivity: in a sound allocation no candidate and no examiner appears
/// at two stations, nor twice at one.
pub proof fn lemma_exclusivity(
    circuits: Seq<Circuit>,
    stations: Seq<Station>,
    candidates: Seq<Candidate>,
    examiners: Seq<Examiner>,
    r: Seq<StationAllocation>,
)
    requires
        allocation_sound(circuits, stations, candidates, examiners, r),
        candidate_ids_distinct(candidates),
        examiner_ids_distinct(examiners),
    ensures
        forall|k: int| 0 <= k < r.len() ==> (#[trigger] r[k]).candidate_1 != r[k].candidate_2,
        forall|k1: int, k2: int| 0 <= k1 < r.len() && 0 <= k2 < r.len() && k1 != k2 ==> {
            &&& (#[trigger] r[k1]).candidate_1 != (#[trigger] r[k2]).candidate_1
            &&& r[k1].candidate_1 != r[k2].candidate_2
            &&& r[k1].candidate_2 != r[k2].candidate_1
            &&& r[k1].candidate_2 != r[k2].candidate_2
            &&& r[k1].examiner != r[k2].examiner
        },
{
    let p = choose|p: Seq<Placement>| #[trigger] assignment_valid(circuits, stations.len() as int, candidates, examiners, p)
        && r == p.map_values(|q: Placement| allocation_of(circuits, stations, candidates, examiners, q));
    assert forall|k1: int, k2: int| 0 <= k1 < r.len() && 0 <= k2 < r.len() && k1 != k2 implies {
        &&& (#[trigger] r[k1]).candidate_1 != (#[trigger] r[k2]).candidate_1
        &&& r[k1].candidate_1 != r[k2].candidate_2
        &&& r[k1].candidate_2 != r[k2].candidate_1
        &&& r[k1].candidate_2 != r[k2].candidate_2
        &&& r[k1].examiner != r[k2].examiner
    } by {
        assert(p[k1].candidate_1 != p[k2].candidate_1);
        assert(p[k1].circuit == k1 / (stations.len() as int));
        assert(p[k2].circuit == k2 / (stations.len() as int));
    }
    assert forall|k: int| 0 <= k < r.len() implies (#[trigger] r[k]).candidate_1 != r[k].candidate_2 by {
        assert(p[k].circuit == k / (stations.len() as int));
    }
}

/// Gender containment: in a sound allocation every candidate placed in a
/// female-only circuit is female-only and every examiner there is female.
pub proof fn lemma_gender_containment(
    circuits: Seq<Circuit>,
    stations: Seq<Station>,
    candidates: Seq<Candidate>,
    examiners: Seq<Examiner>,
    r: Seq<StationAllocation>,
)
    requires
        allocation_sound(circuits, stations, candidates, examiners, r),
        candidate_ids_distinct(candidates),
        examiner_ids_distinct(examiners),
    ensures
        forall|k: int, i: int| 0 <= k < r.len() && 0 <= i < candidates.len()
            && circuits[k / stations.len() as int].female_only
            && (candidates[i].id == (#[trigger] r[k]).candidate_1 || candidates[i].id == r[k].candidate_2)
            ==> #[trigger] candidates[i].female_only,
        forall|k: int, e: int| 0 <= k < r.len() && 0 <= e < examiners.len()
            && circuits[k / stations.len() as int].female_only
            && examiners[e].id == (#[trigger] r[k]).examiner
            ==> #[trigger] examiners[e].female,
{
    let p = choose|p: Seq<Placement>| #[trigger] assignment_valid(circuits, stations.len() as int, candidates, examiners, p)
        && r == p.map_values(|q: Placement| allocation_of(circuits, stations, candidates, examiners, q));
    assert forall|k: int, i: int| 0 <= k < r.len() && 0 <= i < candidates.len()
        && circuits[k / stations.len() as int].female_only
        && (candidates[i].id == (#[trigger] r[k]).candidate_1 || candidates[i].id == r[k].candidate_2)
        implies #[trigger] candidates[i].female_only by {
        assert(p[k].circuit == k / (stations.len() as int));
    }
    assert forall|k: int, e: int| 0 <= k < r.len() && 0 <= e < examiners.len()
        && circuits[k / stations.len() as int].female_only
        && examiners[e].id == (#[trigger] r[k]).examiner
        implies #[trigger] examiners[e].female by {
        assert(p[k].circuit == k / (stations.len() as int));
    }
}

} // verus!
