//! What holds of the seeds of a run, and of two runs under the same settings.

use vstd::prelude::*;

use crate::engine::Cell;
use crate::features::TailFit;
use crate::ranking::{
    is_ranking, same_entry, the_null_is_determined_by_its_seed,
    the_ranking_is_determined_by_the_records, Aggregated, Gates, PermutationNull, Weights,
};
use crate::seed_laws::{nearby_integers_change_the_seed, nearby_numbers_change_the_seed};
use crate::types::{variant_text, Account, N_RISK_GEOS};
use crate::walk::{
    fold_seed, is_evaluation, joined, records_of, rows_of, DailyPnlRow, FoldOutcome, FoldRecord,
    Market, RunConfig, EVAL_PHASE, FUNDED_PHASE, MAX_YEAR,
};
use crate::walk_laws::{
    a_run_is_reproducible, answers_alike, same_outcome, same_record, same_records, same_row,
};

verus! {

// ---------------------------------------------------------------------------
// Seeds
// ---------------------------------------------------------------------------

/// Whether two cells have the same variant, direction, filter and regime.
pub open spec fn same_kind(c: Cell, d: Cell) -> bool {
    &&& c.variant == d.variant
    &&& c.fmode@ == d.fmode@
    &&& c.regime@ == d.regime@
    &&& c.dir@ == d.dir@
}

/// Whether two cells have the same multiples and thresholds.
pub open spec fn same_levels(c: Cell, d: Cell) -> bool {
    &&& c.lux == d.lux
    &&& c.rr == d.rr
    &&& c.hmin == d.hmin
    &&& c.emax == d.emax
}

/// Whether two values lie less than 435 apart.
pub open spec fn near(a: int, b: int) -> bool {
    -435 < a - b < 435
}

/// Two simulations of one account product that differ in the window, the test
/// year, the geometry or the phase, or in several of them, draw from different
/// seeds, where windows and years lie less than 435 apart.
pub proof fn simulations_have_different_seeds(
    m: Market,
    c: Cell,
    d: Cell,
    cfg: RunConfig,
    ax: Account,
    year_c: int,
    year_d: int,
    rg_c: usize,
    rg_d: usize,
    phase_c: i64,
    phase_d: i64,
)
    requires
        same_kind(c, d),
        same_levels(c, d),
        near(c.window as int, d.window as int),
        near(year_c, year_d),
        -MAX_YEAR <= year_c <= MAX_YEAR,
        -MAX_YEAR <= year_d <= MAX_YEAR,
        rg_c < N_RISK_GEOS,
        rg_d < N_RISK_GEOS,
        phase_c == EVAL_PHASE || phase_c == FUNDED_PHASE,
        phase_d == EVAL_PHASE || phase_d == FUNDED_PHASE,
        (c.window, year_c, rg_c, phase_c) != (d.window, year_d, rg_d, phase_d),
    ensures
        fold_seed(m, c, cfg, ax, year_c, rg_c, phase_c) != fold_seed(
            m,
            d,
            cfg,
            ax,
            year_d,
            rg_d,
            phase_d,
        ),
{
    let parts = seq![m.sym@, variant_text(c.variant), c.fmode@, c.regime@, c.dir@, ax.key@];
    let nums = seq![
        (10 * c.lux) as i64,
        (10 * c.rr) as i64,
        (10 * c.hmin) as i64,
        (10 * c.emax) as i64,
    ];
    let a = seq![c.window as i64, year_c as i64, rg_c as i64, phase_c];
    let b = seq![d.window as i64, year_d as i64, rg_d as i64, phase_d];
    assert(a != b) by {
        if a == b {
            assert(a[0] == b[0] && a[1] == b[1] && a[2] == b[2] && a[3] == b[3]);
        }
    }
    nearby_integers_change_the_seed(cfg.rng_seed, parts, nums, a, b);
}

/// Two cells that differ in a multiple or a threshold, or in several of them, are
/// simulated from different seeds, where each lies less than 4.35 from the other's.
pub proof fn levels_have_different_seeds(
    m: Market,
    c: Cell,
    d: Cell,
    cfg: RunConfig,
    ax: Account,
    test_year: int,
    rg: usize,
    phase: i64,
)
    requires
        same_kind(c, d),
        c.window == d.window,
        c.in_range(),
        d.in_range(),
        near(c.lux as int, d.lux as int),
        near(c.rr as int, d.rr as int),
        near(c.hmin as int, d.hmin as int),
        near(c.emax as int, d.emax as int),
        !same_levels(c, d),
    ensures
        fold_seed(m, c, cfg, ax, test_year, rg, phase) != fold_seed(
            m,
            d,
            cfg,
            ax,
            test_year,
            rg,
            phase,
        ),
{
    let parts = seq![m.sym@, variant_text(c.variant), c.fmode@, c.regime@, c.dir@, ax.key@];
    let a = seq![
        (10 * c.lux) as i64,
        (10 * c.rr) as i64,
        (10 * c.hmin) as i64,
        (10 * c.emax) as i64,
    ];
    let b = seq![
        (10 * d.lux) as i64,
        (10 * d.rr) as i64,
        (10 * d.hmin) as i64,
        (10 * d.emax) as i64,
    ];
    let steps = seq![c.lux - d.lux, c.rr - d.rr, c.hmin - d.hmin, c.emax - d.emax];
    let ints = seq![c.window as i64, test_year as i64, rg as i64, phase];
    assert(a != b) by {
        if a == b {
            assert(a[0] == b[0] && a[1] == b[1] && a[2] == b[2] && a[3] == b[3]);
        }
    }
    nearby_numbers_change_the_seed(cfg.rng_seed, parts, a, b, ints, steps, 10);
}

// ---------------------------------------------------------------------------
// Two runs
// ---------------------------------------------------------------------------

/// Whether two sequences of daily rows are the same.
pub open spec fn same_rows(a: Seq<DailyPnlRow>, b: Seq<DailyPnlRow>) -> bool {
    &&& a.len() == b.len()
    &&& forall|k: int| 0 <= k < a.len() ==> same_row(#[trigger] a[k], b[k])
}

/// Whether two sequences of outcomes report the same.
pub open spec fn same_outcomes(a: Seq<FoldOutcome>, b: Seq<FoldOutcome>) -> bool {
    &&& a.len() == b.len()
    &&& forall|k: int| 0 <= k < a.len() ==> same_outcome(#[trigger] a[k], b[k])
}

proof fn lemma_joined_records(a: Seq<Vec<FoldRecord>>, b: Seq<Vec<FoldRecord>>)
    requires
        a.len() == b.len(),
        forall|x: int| 0 <= x < a.len() ==> same_records((#[trigger] a[x])@, b[x]@),
    ensures
        same_records(joined(a), joined(b)),
    decreases a.len(),
{
    if a.len() > 0 {
        let (pa, pb) = (a.drop_last(), b.drop_last());
        assert forall|x: int| 0 <= x < pa.len() implies same_records(
            (#[trigger] pa[x])@,
            pb[x]@,
        ) by {
            assert(same_records(a[x]@, b[x]@));
        }
        lemma_joined_records(pa, pb);
        assert(same_records(a[a.len() - 1]@, b[a.len() - 1]@));
        lemma_records_add(joined(pa), joined(pb), a.last()@, b.last()@);
    }
}

proof fn lemma_records_add(
    a: Seq<FoldRecord>,
    b: Seq<FoldRecord>,
    c: Seq<FoldRecord>,
    d: Seq<FoldRecord>,
)
    requires
        same_records(a, b),
        same_records(c, d),
    ensures
        same_records(a + c, b + d),
{
    assert forall|k: int| 0 <= k < (a + c).len() implies same_record(
        #[trigger] (a + c)[k],
        (b + d)[k],
    ) by {
        if k < a.len() {
            assert(same_record(a[k], b[k]));
        } else {
            assert(same_record(c[k - a.len()], d[k - a.len()]));
        }
    }
}

proof fn lemma_reports(a: Seq<FoldOutcome>, b: Seq<FoldOutcome>)
    requires
        same_outcomes(a, b),
    ensures
        same_records(records_of(a), records_of(b)),
        same_rows(rows_of(a), rows_of(b)),
    decreases a.len(),
{
    if a.len() > 0 {
        let (pa, pb) = (a.drop_last(), b.drop_last());
        let (la, lb) = (a.last(), b.last());
        assert forall|k: int| 0 <= k < pa.len() implies same_outcome(#[trigger] pa[k], pb[k]) by {
            assert(same_outcome(a[k], b[k]));
        }
        lemma_reports(pa, pb);
        assert(same_outcome(a[a.len() - 1], b[a.len() - 1]));
        lemma_joined_records(la.records@, lb.records@);
        lemma_records_add(records_of(pa), records_of(pb), joined(la.records@), joined(lb.records@));
        let (ra, rb) = (rows_of(pa), rows_of(pb));
        assert forall|k: int| 0 <= k < rows_of(a).len() implies same_row(
            #[trigger] rows_of(a)[k],
            rows_of(b)[k],
        ) by {
            if k < ra.len() {
                assert(same_row(ra[k], rb[k]));
            } else {
                assert(same_row(la.daily@[k - ra.len()], lb.daily@[k - ra.len()]));
            }
        }
    }
}

proof fn lemma_joined_outcomes(a: Seq<Vec<FoldOutcome>>, b: Seq<Vec<FoldOutcome>>)
    requires
        a.len() == b.len(),
        forall|i: int| 0 <= i < a.len() ==> same_outcomes((#[trigger] a[i])@, b[i]@),
    ensures
        same_outcomes(joined(a), joined(b)),
    decreases a.len(),
{
    if a.len() > 0 {
        let (pa, pb) = (a.drop_last(), b.drop_last());
        assert forall|i: int| 0 <= i < pa.len() implies same_outcomes(
            (#[trigger] pa[i])@,
            pb[i]@,
        ) by {
            assert(same_outcomes(a[i]@, b[i]@));
        }
        lemma_joined_outcomes(pa, pb);
        let (x, y) = (a.last()@, b.last()@);
        assert(same_outcomes(a[a.len() - 1]@, b[a.len() - 1]@));
        let (ja, jb) = (joined(pa), joined(pb));
        assert forall|k: int| 0 <= k < joined(a).len() implies same_outcome(
            #[trigger] joined(a)[k],
            joined(b)[k],
        ) by {
            if k < ja.len() {
                assert(same_outcome(ja[k], jb[k]));
            } else {
                assert(same_outcome(x[k - ja.len()], y[k - ja.len()]));
            }
        }
    }
}

/// Whether each cell's outcomes are an evaluation of it.
pub open spec fn are_evaluations<F: Fn(&TailFit) -> i128>(
    r: Seq<Vec<FoldOutcome>>,
    m: Market,
    cells: Seq<Cell>,
    cfg: RunConfig,
    min_year: int,
    max_year: int,
    accounts: Seq<Account>,
    rg_evals: Seq<usize>,
    rg_fundeds: Seq<usize>,
    fit: F,
) -> bool {
    &&& r.len() == cells.len()
    &&& forall|i: int|
        0 <= i < r.len() ==> is_evaluation(
            (#[trigger] r[i])@,
            m,
            cells[i],
            cfg,
            min_year,
            max_year,
            accounts,
            rg_evals,
            rg_fundeds,
            fit,
        )
}

/// Two evaluations of an instrument's cells under the same settings and seed
/// collect the same records and the same daily rows, in the same order, whatever
/// threads they ran on, as long as the fit answers one thing to one tail.
pub proof fn two_runs_collect_the_same<F: Fn(&TailFit) -> i128>(
    r: Seq<Vec<FoldOutcome>>,
    s: Seq<Vec<FoldOutcome>>,
    m: Market,
    cells: Seq<Cell>,
    cfg: RunConfig,
    min_year: int,
    max_year: int,
    accounts: Seq<Account>,
    rg_evals: Seq<usize>,
    rg_fundeds: Seq<usize>,
    fit: F,
)
    requires
        are_evaluations(
            r,
            m,
            cells,
            cfg,
            min_year,
            max_year,
            accounts,
            rg_evals,
            rg_fundeds,
            fit,
        ),
        are_evaluations(
            s,
            m,
            cells,
            cfg,
            min_year,
            max_year,
            accounts,
            rg_evals,
            rg_fundeds,
            fit,
        ),
        answers_alike(fit),
    ensures
        same_records(records_of(joined(r)), records_of(joined(s))),
        same_rows(rows_of(joined(r)), rows_of(joined(s))),
{
    assert forall|i: int| 0 <= i < r.len() implies same_outcomes((#[trigger] r[i])@, s[i]@) by {
        a_run_is_reproducible(
            r[i]@,
            s[i]@,
            m,
            cells[i],
            cfg,
            min_year,
            max_year,
            accounts,
            rg_evals,
            rg_fundeds,
            fit,
        );
    }
    lemma_joined_outcomes(r, s);
    lemma_reports(joined(r), joined(s));
}

/// Two runs that collected the same records of each instrument rank the same
/// configurations in the same places, with the same figures, and count the same
/// passers under the permutation null.
pub proof fn two_runs_rank_the_same(
    x: Seq<Vec<FoldRecord>>,
    y: Seq<Vec<FoldRecord>>,
    w: Weights,
    gates: Gates,
    a: Seq<Aggregated>,
    b: Seq<Aggregated>,
    rng_seed: u64,
    n_perm: int,
    p: PermutationNull,
    q: PermutationNull,
)
    requires
        x.len() == y.len(),
        forall|i: int| 0 <= i < x.len() ==> same_records((#[trigger] x[i])@, y[i]@),
        joined(x).len() <= usize::MAX,
        is_ranking(a, joined(x), w, gates),
        is_ranking(b, joined(y), w, gates),
        p.is_of(joined(x), gates, rng_seed, n_perm),
        q.is_of(joined(y), gates, rng_seed, n_perm),
    ensures
        a.len() == b.len(),
        forall|i: int| 0 <= i < a.len() ==> same_entry(#[trigger] a[i], b[i]),
        p.counts@ == q.counts@,
{
    lemma_joined_records(x, y);
    the_ranking_is_determined_by_the_records(a, b, joined(x), joined(y), w, gates);
    the_null_is_determined_by_its_seed(joined(x), joined(y), gates, rng_seed, n_perm, p, q);
}

} // verus!
