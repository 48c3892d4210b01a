//! What the thresholds, figures and groups of the ranking mean.

use vstd::prelude::*;

use crate::num::{
    count_where, in_order, ints, lemma_nearest_within, nearest, smallest, total, Fraction,
};
use crate::order::all_below;
use crate::ranking::{
    all_gates, bear_total, blowups, clears, column, failed_gates, fails, is_bearish, is_positive,
    is_ranking, looks_like_noise, mean, measured, outcome_of, outcomes_at, outranks, pass_rates,
    reportable, rounded, score, tails, Aggregated, Gate, Gates, Measure, Outcome, Summary, Weights,
};
use crate::stat_laws::{
    a_count_is_what_a_filter_keeps, an_ordered_sample_holds_the_same_values,
    extremes_are_among_the_values, the_nearest_is_off_by_at_most_a_half,
};
use crate::walk::{months_of, FoldRecord};

verus! {

// ---------------------------------------------------------------------------
// Thresholds
// ---------------------------------------------------------------------------

/// The folds of the bear year.
pub open spec fn bears(s: Seq<Outcome>) -> Seq<Outcome> {
    s.filter(|o: Outcome| o.is_bear)
}

/// Whether a configuration misses a threshold.
pub open spec fn misses(s: Seq<Outcome>, g: Gates, gate: Gate) -> bool {
    match gate {
        Gate::Folds => s.len() < g.e1_min_folds,
        Gate::WorstPass => exists|i: int|
            0 <= i < s.len() && (#[trigger] s[i]).pass < g.e2_min_worst_pass,
        Gate::Blowup => total(s.map_values(|o: Outcome| o.blowup as int)) > g.e3_max_blowup
            * s.len(),
        Gate::TailExtraction => total(s.map_values(|o: Outcome| o.p5 as int)) < g.e4_min_p5_ext
            * s.len(),
        Gate::PositiveFolds => s.filter(|o: Outcome| o.ev > 0).len() < g.e5_min_positive_ev_folds,
        Gate::BearYear => bears(s).len() > 0 && total(bears(s).map_values(|o: Outcome| o.ev as int))
            < g.e6_min_bear_ev * bears(s).len(),
        Gate::NoBearYear => bears(s).len() == 0,
    }
}

proof fn lemma_bear_total(s: Seq<Outcome>)
    ensures
        bear_total(s) == total(bears(s).map_values(|o: Outcome| o.ev as int)),
    decreases s.len(),
{
    reveal(Seq::filter);
    let f = |o: Outcome| o.ev as int;
    let b = |o: Outcome| o.is_bear;
    if s.len() == 0 {
        assert(bears(s).map_values(f) =~= Seq::<int>::empty());
    } else {
        let t = s.drop_last();
        lemma_bear_total(t);
        if s.last().is_bear {
            assert(b(s.last()));
            assert(bears(s) =~= bears(t).push(s.last()));
            let m = bears(s).map_values(f);
            assert(m.drop_last() =~= bears(t).map_values(f));
            assert(m.last() == s.last().ev);
        } else {
            assert(!b(s.last()));
            assert(bears(s) =~= bears(t));
        }
    }
}

/// A configuration with folds fails exactly the gates whose thresholds it misses.
pub proof fn a_gate_fails_on_its_threshold(s: Seq<Outcome>, g: Gates, gate: Gate)
    requires
        s.len() > 0,
    ensures
        fails(s, g, gate) <==> misses(s, g, gate),
{
    lemma_bear_total(s);
    a_count_is_what_a_filter_keeps(s, is_bearish());
    a_count_is_what_a_filter_keeps(s, is_positive());
    assert(is_bearish() =~= (|o: Outcome| o.is_bear));
    assert(is_positive() =~= (|o: Outcome| o.ev > 0));
    assert(blowups(s) =~= s.map_values(|o: Outcome| o.blowup as int));
    assert(tails(s) =~= s.map_values(|o: Outcome| o.p5 as int));
    let p = pass_rates(s);
    extremes_are_among_the_values(p);
    let k = p.index_of(smallest(p));
    assert(p[k] == s[k].pass);
    if misses(s, g, Gate::WorstPass) {
        let i = choose|i: int| 0 <= i < s.len() && (#[trigger] s[i]).pass < g.e2_min_worst_pass;
        assert(p[i] == s[i].pass);
    }
}

/// A configuration is deployable exactly where it has folds and misses no
/// threshold.
pub proof fn a_deployable_configuration_meets_every_threshold(s: Seq<Outcome>, g: Gates)
    ensures
        clears(s, g) <==> {
            &&& s.len() > 0
            &&& forall|gate: Gate| !#[trigger] misses(s, g, gate)
        },
{
    if s.len() > 0 {
        assert forall|gate: Gate| fails(s, g, gate) == #[trigger] misses(s, g, gate) by {
            a_gate_fails_on_its_threshold(s, g, gate);
        }
        let all = all_gates();
        assert forall|i: int| 0 <= i < 7 implies fails(s, g, #[trigger] all[i]) == misses(
            s,
            g,
            all[i],
        ) by {
        }
        if clears(s, g) {
            assert forall|gate: Gate| !#[trigger] misses(s, g, gate) by {
                let i: int = place(gate);
                assert(all[i] == gate);
            }
        }
    }
}

/// The place of a gate in a report.
pub open spec fn place(gate: Gate) -> int {
    match gate {
        Gate::Folds => 0,
        Gate::WorstPass => 1,
        Gate::Blowup => 2,
        Gate::TailExtraction => 3,
        Gate::PositiveFolds => 4,
        Gate::BearYear => 5,
        Gate::NoBearYear => 6,
    }
}

proof fn lemma_reported(s: Seq<Outcome>, g: Gates, n: int)
    requires
        0 <= n <= 7,
    ensures
        forall|gate: Gate| #[trigger]
            failed_gates(s, g, n).contains(gate) <==> place(gate) < n && fails(s, g, gate),
        forall|i: int, j: int|
            0 <= i < j < failed_gates(s, g, n).len() ==> place(#[trigger] failed_gates(s, g, n)[i])
                < place(#[trigger] failed_gates(s, g, n)[j]),
    decreases n,
{
    let f = failed_gates(s, g, n);
    if n > 0 {
        lemma_reported(s, g, n - 1);
        let before = failed_gates(s, g, n - 1);
        let x = all_gates()[n - 1];
        assert(place(x) == n - 1);
        assert forall|gate: Gate| place(gate) == n - 1 implies gate == x by {
            assert(all_gates()[place(gate)] == gate);
        }
        assert forall|gate: Gate| #[trigger] f.contains(gate) <==> place(gate) < n && fails(
            s,
            g,
            gate,
        ) by {
            if f.contains(gate) {
                let i = f.index_of(gate);
                if i < before.len() {
                    assert(before[i] == gate);
                    assert(before.contains(gate));
                }
            }
            if place(gate) < n && fails(s, g, gate) {
                if place(gate) < n - 1 {
                    assert(before.contains(gate));
                    let i = before.index_of(gate);
                    assert(f[i] == gate);
                } else {
                    assert(f[f.len() - 1] == gate);
                }
            }
        }
        assert forall|i: int, j: int| 0 <= i < j < f.len() implies place(#[trigger] f[i]) < place(
            #[trigger] f[j],
        ) by {
            assert(before[i] == f[i]);
            assert(before.contains(before[i]));
            if j < before.len() {
                assert(before[j] == f[j]);
            }
        }
    }
}

/// A report lists the missed thresholds, each once, in their order.
pub proof fn a_report_lists_the_missed_thresholds(s: Seq<Outcome>, g: Gates)
    requires
        s.len() > 0,
    ensures
        forall|gate: Gate| #[trigger]
            failed_gates(s, g, 7).contains(gate) <==> misses(s, g, gate),
        forall|i: int, j: int|
            0 <= i < j < failed_gates(s, g, 7).len() ==> place(#[trigger] failed_gates(s, g, 7)[i])
                < place(#[trigger] failed_gates(s, g, 7)[j]),
{
    lemma_reported(s, g, 7);
    assert forall|gate: Gate| #[trigger]
        failed_gates(s, g, 7).contains(gate) <==> misses(s, g, gate) by {
        a_gate_fails_on_its_threshold(s, g, gate);
    }
}

// ---------------------------------------------------------------------------
// Measures
// ---------------------------------------------------------------------------

/// Whether a whole number is the nearest to a fraction, halves rounded up.
pub open spec fn rounds(v: int, num: int, den: int) -> bool {
    den > 0 && -den < 2 * (v * den - num) <= den
}

/// The measures of a record are its own figures, rounded to their units.
pub proof fn measures_are_rounded_figures(r: FoldRecord)
    requires
        r.in_range(),
    ensures
        rounds(
            measured(r, Measure::Ev),
            r.ev.ev_per_attempt.num as int,
            r.ev.ev_per_attempt.den as int,
        ),
        rounds(
            measured(r, Measure::Pass),
            r.ev.pass_rate.num * 1_000_000_000_000_000_000,
            r.ev.pass_rate.den as int,
        ),
        rounds(
            measured(r, Measure::Blowup),
            r.funded.blowup_rate.num * 1_000_000_000_000_000_000,
            r.funded.blowup_rate.den as int,
        ),
        measured(r, Measure::P5) == r.funded.p5_ext,
        measured(r, Measure::MeanExt) == r.funded.mean_ext,
        rounds(
            measured(r, Measure::Months),
            months_of(r.funded).num * 1_000_000_000_000,
            months_of(r.funded).den as int,
        ),
        rounds(
            measured(r, Measure::Realized),
            r.realized.monthly_ev_1ct.num * 1_000_000,
            r.realized.monthly_ev_1ct.den as int,
        ),
        rounds(
            measured(r, Measure::Coverage),
            r.realized.n_days_traded * 100_000_000,
            r.total_period_days as int,
        ),
        measured(r, Measure::Trades) == r.realized.n_trades,
        rounds(
            measured(r, Measure::LegacyError),
            r.ev.legacy_error.num as int,
            r.ev.legacy_error.den as int,
        ),
{
    let f = r.ev.ev_per_attempt;
    the_nearest_is_off_by_at_most_a_half(f.num as int, f.den as int);
    let p = r.ev.pass_rate;
    the_nearest_is_off_by_at_most_a_half(p.num * 1_000_000_000_000_000_000, p.den as int);
    let b = r.funded.blowup_rate;
    the_nearest_is_off_by_at_most_a_half(b.num * 1_000_000_000_000_000_000, b.den as int);
    let m = months_of(r.funded);
    the_nearest_is_off_by_at_most_a_half(m.num * 1_000_000_000_000, m.den as int);
    let e = r.realized.monthly_ev_1ct;
    the_nearest_is_off_by_at_most_a_half(e.num * 1_000_000, e.den as int);
    the_nearest_is_off_by_at_most_a_half(
        r.realized.n_days_traded * 100_000_000,
        r.total_period_days as int,
    );
    let l = r.ev.legacy_error;
    the_nearest_is_off_by_at_most_a_half(l.num as int, l.den as int);
}

/// The thresholds read of a record its expected value per attempt, pass rate and
/// blowup rate, rounded, its fifth percentile, and whether it tests the bear year.
pub proof fn an_outcome_reads_its_record(r: FoldRecord, bear_year: i32)
    requires
        r.in_range(),
    ensures
        ({
            let o = outcome_of(r, bear_year);
            &&& o.ev == measured(r, Measure::Ev)
            &&& o.pass == measured(r, Measure::Pass)
            &&& o.blowup == measured(r, Measure::Blowup)
            &&& o.p5 == r.funded.p5_ext
            &&& o.is_bear <==> r.test_year == bear_year
        }),
{
    let f = r.ev.ev_per_attempt;
    lemma_nearest_within(f.num as int, f.den as int, 130_000_000_000_000_000_000_000_000);
    let p = r.ev.pass_rate;
    lemma_nearest_within(
        p.num * 1_000_000_000_000_000_000,
        p.den as int,
        1_000_000_000_000_000_000,
    );
    let b = r.funded.blowup_rate;
    lemma_nearest_within(
        b.num * 1_000_000_000_000_000_000,
        b.den as int,
        1_000_000_000_000_000_000,
    );
}

// ---------------------------------------------------------------------------
// Figures of a configuration
// ---------------------------------------------------------------------------

/// A measure on the given records, in order.
pub open spec fn values(folds: Seq<FoldRecord>, idx: Seq<usize>, what: Measure) -> Seq<int> {
    Seq::new(idx.len(), |i: int| measured(folds[idx[i] as int], what))
}

/// Whether a fraction is the mean of a measure: the sum over the count.
pub open spec fn averages(
    f: Fraction,
    folds: Seq<FoldRecord>,
    idx: Seq<usize>,
    what: Measure,
) -> bool {
    f.num == total(values(folds, idx, what)) && f.den == idx.len()
}

/// Whether a value is the lowest of a measure: one of them, and none is lower.
pub open spec fn is_worst(v: int, s: Seq<int>) -> bool {
    s.contains(v) && forall|i: int| 0 <= i < s.len() ==> v <= #[trigger] s[i]
}

proof fn lemma_measured_fits(r: FoldRecord, what: Measure)
    requires
        r.in_range(),
    ensures
        -1_000_000_000_000_000_000_000_000_000_000 <= measured(r, what)
            <= 1_000_000_000_000_000_000_000_000_000_000,
{
    let most = 1_000_000_000_000_000_000_000_000_000_000;
    match what {
        Measure::Ev => {
            let f = r.ev.ev_per_attempt;
            lemma_nearest_within(f.num as int, f.den as int, 130_000_000_000_000_000_000_000_000);
        },
        Measure::LegacyError => {
            let f = r.ev.legacy_error;
            lemma_nearest_within(f.num as int, f.den as int, 130_000_000_000_000_000_000_000_000);
        },
        Measure::Pass => {
            let p = r.ev.pass_rate;
            lemma_nearest_within(p.num * 1_000_000_000_000_000_000, p.den as int, most);
        },
        Measure::Blowup => {
            let p = r.funded.blowup_rate;
            lemma_nearest_within(p.num * 1_000_000_000_000_000_000, p.den as int, most);
        },
        Measure::Months => {
            let m = months_of(r.funded);
            lemma_nearest_within(m.num * 1_000_000_000_000, m.den as int, most);
        },
        Measure::Realized => {
            let m = r.realized.monthly_ev_1ct;
            lemma_nearest_within(m.num * 1_000_000, m.den as int, most);
        },
        Measure::Coverage => {
            lemma_nearest_within(
                r.realized.n_days_traded * 100_000_000,
                r.total_period_days as int,
                most,
            );
        },
        _ => {},
    }
}

proof fn lemma_values_total(folds: Seq<FoldRecord>, idx: Seq<usize>, what: Measure)
    requires
        reportable(folds),
        all_below(idx, folds.len() as int),
    ensures
        ints(column(folds, idx, what)) == values(folds, idx, what),
        -(1_000_000_000_000_000_000_000_000_000_000 * idx.len()) <= total(
            values(folds, idx, what),
        ) <= 1_000_000_000_000_000_000_000_000_000_000 * idx.len(),
    decreases idx.len(),
{
    let v = values(folds, idx, what);
    assert forall|i: int| 0 <= i < idx.len() implies ints(column(folds, idx, what))[i] == v[i] by {
        assert(idx[i] < folds.len());
        lemma_measured_fits(folds[idx[i] as int], what);
    }
    assert(ints(column(folds, idx, what)) =~= v);
    if idx.len() > 0 {
        let past = idx.drop_last();
        lemma_values_total(folds, past, what);
        assert(v.drop_last() =~= values(folds, past, what));
        assert(idx[idx.len() - 1] < folds.len());
        lemma_measured_fits(folds[idx.last() as int], what);
    }
}

proof fn lemma_averages(f: Fraction, folds: Seq<FoldRecord>, idx: Seq<usize>, what: Measure)
    requires
        reportable(folds),
        all_below(idx, folds.len() as int),
        idx.len() <= 40_000_000,
        f == mean(column(folds, idx, what)),
    ensures
        averages(f, folds, idx, what),
{
    lemma_values_total(folds, idx, what);
}

proof fn lemma_is_worst(v: int, folds: Seq<FoldRecord>, idx: Seq<usize>, what: Measure)
    requires
        reportable(folds),
        all_below(idx, folds.len() as int),
        0 < idx.len(),
        v == in_order(column(folds, idx, what))[0],
    ensures
        is_worst(v, values(folds, idx, what)),
{
    broadcast use vstd::seq_lib::group_to_multiset_ensures;

    lemma_values_total(folds, idx, what);
    let c = column(folds, idx, what);
    let t = in_order(c);
    let s = values(folds, idx, what);
    an_ordered_sample_holds_the_same_values(c);
    assert(t.contains(t[0]));
    assert(c.to_multiset().count(t[0]) > 0);
    assert(c.contains(t[0]));
    let k = c.index_of(t[0]);
    assert(ints(c)[k] == c[k]);
    assert(s[k] == v);
    assert forall|i: int| 0 <= i < s.len() implies v <= #[trigger] s[i] by {
        assert(ints(c)[i] == c[i]);
        assert(c.contains(c[i]));
        assert(t.to_multiset().count(c[i]) > 0);
        assert(t.contains(c[i]));
        let j = t.index_of(c[i]);
        assert(t[0] <= t[j]);
    }
}

/// A configuration's figures are means, medians and extremes over its folds, and
/// counts of those with a positive expected value or in the bear year.
pub proof fn a_summary_describes_its_folds(
    s: Summary,
    folds: Seq<FoldRecord>,
    idx: Seq<usize>,
    w: Weights,
    bear_year: i32,
)
    requires
        s.is_of(folds, idx, w, bear_year),
        reportable(folds),
        all_below(idx, folds.len() as int),
        0 < idx.len() <= 40_000_000,
    ensures
        s.folds == idx.len(),
        averages(s.avg_ev_per_attempt, folds, idx, Measure::Ev),
        averages(s.avg_pass, folds, idx, Measure::Pass),
        averages(s.avg_blowup, folds, idx, Measure::Blowup),
        averages(s.avg_p5_ext, folds, idx, Measure::P5),
        averages(s.avg_mean_ext, folds, idx, Measure::MeanExt),
        averages(s.avg_months_held, folds, idx, Measure::Months),
        averages(s.avg_realized_monthly_ev, folds, idx, Measure::Realized),
        averages(s.avg_coverage, folds, idx, Measure::Coverage),
        averages(s.avg_n_trades, folds, idx, Measure::Trades),
        averages(s.avg_legacy_error, folds, idx, Measure::LegacyError),
        is_worst(s.worst_ev_per_attempt as int, values(folds, idx, Measure::Ev)),
        is_worst(s.worst_pass as int, values(folds, idx, Measure::Pass)),
        is_worst(s.worst_realized_monthly_ev as int, values(folds, idx, Measure::Realized)),
        s.positive_ev_folds == idx.filter(
            |i: usize| measured(folds[i as int], Measure::Ev) > 0,
        ).len(),
        ({
            let own = idx.filter(|i: usize| folds[i as int].test_year == bear_year);
            &&& s.bear_ev is Some <==> own.len() > 0
            &&& s.bear_ev matches Some(f) ==> averages(f, folds, own, Measure::Ev)
        }),
{
    lemma_averages(s.avg_ev_per_attempt, folds, idx, Measure::Ev);
    lemma_averages(s.avg_pass, folds, idx, Measure::Pass);
    lemma_averages(s.avg_blowup, folds, idx, Measure::Blowup);
    lemma_averages(s.avg_p5_ext, folds, idx, Measure::P5);
    lemma_averages(s.avg_mean_ext, folds, idx, Measure::MeanExt);
    lemma_averages(s.avg_months_held, folds, idx, Measure::Months);
    lemma_averages(s.avg_realized_monthly_ev, folds, idx, Measure::Realized);
    lemma_averages(s.avg_coverage, folds, idx, Measure::Coverage);
    lemma_averages(s.avg_n_trades, folds, idx, Measure::Trades);
    lemma_averages(s.avg_legacy_error, folds, idx, Measure::LegacyError);
    lemma_is_worst(s.worst_ev_per_attempt as int, folds, idx, Measure::Ev);
    lemma_is_worst(s.worst_pass as int, folds, idx, Measure::Pass);
    lemma_is_worst(s.worst_realized_monthly_ev as int, folds, idx, Measure::Realized);
    lemma_fold_counts(folds, idx, bear_year);
}

proof fn lemma_fold_counts(folds: Seq<FoldRecord>, idx: Seq<usize>, bear_year: i32)
    requires
        reportable(folds),
        all_below(idx, folds.len() as int),
    ensures
        ({
            let o = outcomes_at(folds, idx, bear_year);
            let own = idx.filter(|i: usize| folds[i as int].test_year == bear_year);
            &&& count_where(o, is_positive()) == idx.filter(
                |i: usize| measured(folds[i as int], Measure::Ev) > 0,
            ).len()
            &&& count_where(o, is_bearish()) == own.len()
            &&& bear_total(o) == total(values(folds, own, Measure::Ev))
        }),
    decreases idx.len(),
{
    reveal(Seq::filter);
    let o = outcomes_at(folds, idx, bear_year);
    let p = |i: usize| measured(folds[i as int], Measure::Ev) > 0;
    let b = |i: usize| folds[i as int].test_year == bear_year;
    let own = idx.filter(b);
    if idx.len() == 0 {
        assert(values(folds, own, Measure::Ev) =~= Seq::<int>::empty());
    } else {
        let past = idx.drop_last();
        lemma_fold_counts(folds, past, bear_year);
        let x = idx.last();
        assert(idx[idx.len() - 1] < folds.len());
        an_outcome_reads_its_record(folds[x as int], bear_year);
        assert(o.drop_last() =~= outcomes_at(folds, past, bear_year));
        assert(o.last() == outcome_of(folds[x as int], bear_year));
        assert(p(x) == is_positive()(o.last()));
        assert(b(x) == is_bearish()(o.last()));
        if b(x) {
            let v = values(folds, own, Measure::Ev);
            assert(own == past.filter(b).push(x));
            assert(v.drop_last() =~= values(folds, past.filter(b), Measure::Ev));
            assert(v.last() == measured(folds[x as int], Measure::Ev));
        }
    }
}

/// A score weighs the mean expected value per attempt and the mean realised
/// expectancy, each rounded, by their own weights.
pub proof fn a_score_weighs_two_means(
    s: Summary,
    folds: Seq<FoldRecord>,
    idx: Seq<usize>,
    w: Weights,
    bear_year: i32,
) -> (r: (int, int))
    requires
        s.is_of(folds, idx, w, bear_year),
        reportable(folds),
        all_below(idx, folds.len() as int),
        0 < idx.len() <= 40_000_000,
    ensures
        rounds(r.0, total(values(folds, idx, Measure::Ev)), idx.len() as int),
        rounds(r.1, total(values(folds, idx, Measure::Realized)), idx.len() as int),
        s.combined_score == w.mc * r.0 + w.realized * r.1,
{
    lemma_values_total(folds, idx, Measure::Ev);
    lemma_values_total(folds, idx, Measure::Realized);
    let n = idx.len() as int;
    let a = total(values(folds, idx, Measure::Ev));
    let b = total(values(folds, idx, Measure::Realized));
    the_nearest_is_off_by_at_most_a_half(a, n);
    the_nearest_is_off_by_at_most_a_half(b, n);
    (nearest(a, n), nearest(b, n))
}

// ---------------------------------------------------------------------------
// Order
// ---------------------------------------------------------------------------

/// Of two configurations in a ranking, the earlier one is the deployable one if
/// only one is; else it has the higher score, or the same score and a worst
/// expected value that is no lower.
pub proof fn the_ranking_goes_by_readiness_score_and_worst_fold(
    r: Seq<Aggregated>,
    folds: Seq<FoldRecord>,
    w: Weights,
    gates: Gates,
    i: int,
    j: int,
)
    requires
        is_ranking(r, folds, w, gates),
        0 <= i < j < r.len(),
    ensures
        r[j].deploy_ready ==> r[i].deploy_ready,
        r[i].deploy_ready == r[j].deploy_ready ==> r[i].summary.combined_score
            >= r[j].summary.combined_score,
        r[i].deploy_ready == r[j].deploy_ready && r[i].summary.combined_score
            == r[j].summary.combined_score ==> r[i].summary.worst_ev_per_attempt
            >= r[j].summary.worst_ev_per_attempt,
{
    assert(outranks(
        r[i].deploy_ready,
        r[i].summary,
        r[i].key@,
        r[j].deploy_ready,
        r[j].summary,
        r[j].key@,
    ));
}

/// A passing set is noise up to half as many again as chance gives: never beyond
/// that, always where chance gives at least as many, and with any number that is
/// noise, every smaller one.
pub proof fn noise_reaches_half_as_far_again_as_chance(a: int, b: int, mean: Fraction)
    requires
        0 <= a <= b,
        mean.den > 0,
        mean.num >= 0,
    ensures
        b * mean.den <= mean.num ==> looks_like_noise(b, mean),
        b * mean.den > mean.num + mean.num / 2 ==> !looks_like_noise(b, mean),
        looks_like_noise(b, mean) ==> looks_like_noise(a, mean),
{
    let (d, n) = (mean.den as int, mean.num as int);
    assert(a * d <= b * d) by (nonlinear_arith)
        requires
            a <= b,
            d > 0,
    ;
    assert(2 * a * d == 2 * (a * d) && 2 * b * d == 2 * (b * d)) by (nonlinear_arith);
}

} // verus!
