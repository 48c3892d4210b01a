//! Aggregation over folds, gates, ranking, and the permutation null.

use rand::rngs::StdRng;
use vstd::prelude::*;
use vstd::string::StringExecFns;

use crate::draws::{draw_below, rng_from_seed, seeded_draw, upcoming};
use crate::engine::Cell;
use crate::ev::{is_value, MAX_EV, MAX_RATE_DEN};
use crate::num::{
    count_where, in_order, ints, lemma_in_order_bounds, lemma_nearest_within, nearest, round_div,
    smallest, sorted, total, Fraction, Ratio, MILLION, RATE, TRILLION,
};
use crate::order::{
    alike, all_below, are_classes, comes_before, group_positions, held, is_preorder,
    lemma_ascending_positions, lemma_classes_agree, lemma_classes_unique, lemma_positions_once, positions,
    sort_positions, text_le, texts_are_totally_ordered,
};
use crate::stats::{
    addable, median, median_of, sample_reach, sum_of, MAX_SAMPLE, MAX_SAMPLE_LEN,
};
use crate::text::{
    append_hundredths, append_thousandths, append_whole, hundredths_text, thousandths_text,
    whole_text,
};
use crate::types::{rg_name, rg_word, variant_text};
use crate::walk::{months_of, variant_name, FoldRecord};
use crate::walk_laws::{same_record, same_records};

verus! {

// ---------------------------------------------------------------------------
// Gates
// ---------------------------------------------------------------------------

/// What the thresholds read of one fold, independent of the configuration.
#[derive(Clone, Copy, Debug, PartialEq, Eq, Structural)]
pub struct Outcome {
    /// Expected value per attempt, in millionths of a micro-dollar.
    pub ev: i128,
    /// Evaluation pass rate, `RATE` to one.
    pub pass: i64,
    /// Funded blowup rate, `RATE` to one.
    pub blowup: i64,
    /// Fifth percentile of the extraction, in micro-dollars.
    pub p5: i64,
    /// Whether the fold tests the designated bear year.
    pub is_bear: bool,
}

/// Thresholds, aligned to the objective.
#[derive(Clone, Copy, Debug, PartialEq, Eq, Structural)]
pub struct Gates {
    /// Minimum out-of-sample folds.
    pub e1_min_folds: usize,
    /// Minimum evaluation pass rate in the worst fold, `RATE` to one.
    pub e2_min_worst_pass: i64,
    /// Maximum mean funded-account blowup rate, `RATE` to one.
    pub e3_max_blowup: i64,
    /// Minimum mean fifth percentile of the extraction, in micro-dollars.
    pub e4_min_p5_ext: i64,
    /// Minimum folds with positive expected value per attempt.
    pub e5_min_positive_ev_folds: usize,
    /// Minimum mean expected value per attempt in the bear year, in millionths of
    /// a micro-dollar.
    pub e6_min_bear_ev: i128,
    pub bear_year: i32,
}

/// What keeps a configuration from being deployed.
#[derive(Clone, Copy, Debug, PartialEq, Eq, Structural)]
pub enum Gate {
    /// Too few folds.
    Folds,
    /// The worst pass rate is too low.
    WorstPass,
    /// The mean blowup rate is too high.
    Blowup,
    /// The mean fifth percentile of the extraction is too low.
    TailExtraction,
    /// Too few folds have positive expected value.
    PositiveFolds,
    /// The bear year's expected value is too low.
    BearYear,
    /// No fold tests the bear year.
    NoBearYear,
}

impl Gates {
    /// A bear-year threshold that exact comparisons admit.
    pub open spec fn in_range(self) -> bool {
        -MAX_SAMPLE <= self.e6_min_bear_ev <= MAX_SAMPLE
    }

    /// Whether the threshold is one that exact comparisons admit.
    pub fn is_in_range(&self) -> (r: bool)
        ensures
            r == self.in_range(),
    {
        -MAX_SAMPLE <= self.e6_min_bear_ev && self.e6_min_bear_ev <= MAX_SAMPLE
    }
}

impl Outcome {
    /// Amounts small enough to be added up.
    pub open spec fn in_range(self) -> bool {
        -MAX_SAMPLE <= self.ev <= MAX_SAMPLE
    }
}

pub open spec fn evs(s: Seq<Outcome>) -> Seq<int> {
    s.map_values(|o: Outcome| o.ev as int)
}

pub open spec fn pass_rates(s: Seq<Outcome>) -> Seq<int> {
    s.map_values(|o: Outcome| o.pass as int)
}

pub open spec fn blowups(s: Seq<Outcome>) -> Seq<int> {
    s.map_values(|o: Outcome| o.blowup as int)
}

pub open spec fn tails(s: Seq<Outcome>) -> Seq<int> {
    s.map_values(|o: Outcome| o.p5 as int)
}

/// A fold with positive expected value.
pub open spec fn is_positive() -> spec_fn(Outcome) -> bool {
    |o: Outcome| o.ev > 0
}

/// A fold of the bear year.
pub open spec fn is_bearish() -> spec_fn(Outcome) -> bool {
    |o: Outcome| o.is_bear
}

/// The expected values of bear-year folds together.
pub open spec fn bear_total(s: Seq<Outcome>) -> int
    decreases s.len(),
{
    if s.len() == 0 {
        0
    } else {
        bear_total(s.drop_last()) + if s.last().is_bear {
            s.last().ev as int
        } else {
            0
        }
    }
}

/// Whether a configuration with the given outcomes fails a gate.
pub open spec fn fails(s: Seq<Outcome>, g: Gates, gate: Gate) -> bool {
    let bears = count_where(s, is_bearish());
    match gate {
        Gate::Folds => s.len() < g.e1_min_folds,
        Gate::WorstPass => smallest(pass_rates(s)) < g.e2_min_worst_pass,
        Gate::Blowup => total(blowups(s)) > g.e3_max_blowup * s.len(),
        Gate::TailExtraction => total(tails(s)) < g.e4_min_p5_ext * s.len(),
        Gate::PositiveFolds => count_where(s, is_positive()) < g.e5_min_positive_ev_folds,
        Gate::BearYear => bears > 0 && bear_total(s) < g.e6_min_bear_ev * bears,
        Gate::NoBearYear => bears == 0,
    }
}

/// The gates, in the order they are reported.
pub open spec fn all_gates() -> Seq<Gate> {
    seq![
        Gate::Folds,
        Gate::WorstPass,
        Gate::Blowup,
        Gate::TailExtraction,
        Gate::PositiveFolds,
        Gate::BearYear,
        Gate::NoBearYear,
    ]
}

/// The gates among the first `n` that a configuration fails.
pub open spec fn failed_gates(s: Seq<Outcome>, g: Gates, n: int) -> Seq<Gate>
    decreases n,
{
    if n <= 0 {
        Seq::empty()
    } else {
        let before = failed_gates(s, g, n - 1);
        if fails(s, g, all_gates()[n - 1]) {
            before.push(all_gates()[n - 1])
        } else {
            before
        }
    }
}

/// Whether a configuration has folds and clears every gate.
pub open spec fn clears(s: Seq<Outcome>, g: Gates) -> bool {
    s.len() > 0 && forall|i: int| 0 <= i < 7 ==> !fails(s, g, #[trigger] all_gates()[i])
}

/// The sums over a configuration's outcomes that the gates read.
#[derive(Clone, Copy, Debug)]
struct Tally {
    n: usize,
    worst_pass: i64,
    blow_sum: i128,
    p5_sum: i128,
    positive: usize,
    bear_sum: i128,
    bear_n: usize,
}

/// The most that rates or amounts of `n` folds can add up to.
spec fn narrow_reach(n: int) -> int {
    0x8000_0000_0000_0000 * n
}

impl Tally {
    /// Whether these are the sums over the given outcomes.
    spec fn describes(self, s: Seq<Outcome>) -> bool {
        &&& self.n == s.len()
        &&& s.len() > 0 ==> self.worst_pass == smallest(pass_rates(s))
        &&& self.blow_sum == total(blowups(s))
        &&& self.p5_sum == total(tails(s))
        &&& self.positive == count_where(s, is_positive())
        &&& self.bear_sum == bear_total(s)
        &&& self.bear_n == count_where(s, is_bearish())
        &&& self.positive <= self.n
        &&& self.bear_n <= self.n
        &&& -narrow_reach(s.len() as int) <= self.blow_sum <= narrow_reach(s.len() as int)
        &&& -narrow_reach(s.len() as int) <= self.p5_sum <= narrow_reach(s.len() as int)
        &&& -sample_reach(s.len() as int) <= self.bear_sum <= sample_reach(s.len() as int)
    }

    /// The sums over no outcome.
    fn new() -> (r: Self)
        ensures
            r.describes(Seq::empty()),
    {
        proof {
            let none = Seq::<Outcome>::empty();
            assert(blowups(none) =~= Seq::<int>::empty());
            assert(tails(none) =~= Seq::<int>::empty());
        }
        Tally {
            n: 0,
            worst_pass: 0,
            blow_sum: 0,
            p5_sum: 0,
            positive: 0,
            bear_sum: 0,
            bear_n: 0,
        }
    }

    /// Add an outcome to those summed so far.
    fn take_in(&mut self, o: &Outcome, Ghost(s): Ghost<Seq<Outcome>>)
        requires
            old(self).describes(s),
            o.in_range(),
            s.len() < MAX_SAMPLE_LEN,
        ensures
            final(self).describes(s.push(*o)),
    {
        proof {
            let now = s.push(*o);
            assert(now.drop_last() =~= s);
            assert(blowups(now) =~= blowups(s).push(o.blowup as int));
            assert(blowups(now).drop_last() =~= blowups(s));
            assert(tails(now) =~= tails(s).push(o.p5 as int));
            assert(tails(now).drop_last() =~= tails(s));
            assert(pass_rates(now) =~= pass_rates(s).push(o.pass as int));
            assert(pass_rates(now).drop_last() =~= pass_rates(s));
        }
        if self.n == 0 || o.pass < self.worst_pass {
            self.worst_pass = o.pass;
        }
        self.n = self.n + 1;
        self.blow_sum = self.blow_sum + o.blowup as i128;
        self.p5_sum = self.p5_sum + o.p5 as i128;
        if o.ev > 0 {
            self.positive = self.positive + 1;
        }
        if o.is_bear {
            self.bear_sum = self.bear_sum + o.ev;
            self.bear_n = self.bear_n + 1;
        }
    }

    fn fails_gate(&self, g: &Gates, gate: Gate, Ghost(s): Ghost<Seq<Outcome>>) -> (r: bool)
        requires
            self.describes(s),
            g.in_range(),
            0 < s.len() <= MAX_SAMPLE_LEN,
        ensures
            r == fails(s, *g, gate),
    {
        let n: i128 = self.n as i128;
        let bears: i128 = self.bear_n as i128;
        let blow: i128 = g.e3_max_blowup as i128;
        let p5: i128 = g.e4_min_p5_ext as i128;
        let bear: i128 = g.e6_min_bear_ev;
        proof {
            lemma_scaled(blow as int, n as int, 0x8000_0000_0000_0000);
            lemma_scaled(p5 as int, n as int, 0x8000_0000_0000_0000);
            lemma_scaled(bear as int, bears as int, 1_000_000_000_000_000_000_000_000_000_000);
        }
        match gate {
            Gate::Folds => self.n < g.e1_min_folds,
            Gate::WorstPass => self.worst_pass < g.e2_min_worst_pass,
            Gate::Blowup => self.blow_sum > blow * n,
            Gate::TailExtraction => self.p5_sum < p5 * n,
            Gate::PositiveFolds => self.positive < g.e5_min_positive_ev_folds,
            Gate::BearYear => self.bear_n > 0 && self.bear_sum < bear * bears,
            Gate::NoBearYear => self.bear_n == 0,
        }
    }

    /// The gates that the outcomes fail.
    fn reasons(&self, g: &Gates, Ghost(s): Ghost<Seq<Outcome>>) -> (r: Vec<Gate>)
        requires
            self.describes(s),
            g.in_range(),
            0 < s.len() <= MAX_SAMPLE_LEN,
        ensures
            r@ == failed_gates(s, *g, 7),
            r@.len() == 0 <==> clears(s, *g),
    {
        let gates: [Gate; 7] = [
            Gate::Folds,
            Gate::WorstPass,
            Gate::Blowup,
            Gate::TailExtraction,
            Gate::PositiveFolds,
            Gate::BearYear,
            Gate::NoBearYear,
        ];
        let mut out: Vec<Gate> = Vec::new();
        let mut i: usize = 0;
        while i < 7
            invariant
                self.describes(s),
                g.in_range(),
                0 < s.len() <= MAX_SAMPLE_LEN,
                gates@ == all_gates(),
                i <= 7,
                out@ == failed_gates(s, *g, i as int),
                out@.len() == 0 <==> forall|k: int|
                    0 <= k < i ==> !fails(s, *g, #[trigger] all_gates()[k]),
            decreases 7 - i,
        {
            let gate: Gate = gates[i];
            proof {
                assert(gate == all_gates()[i as int]);
            }
            if self.fails_gate(g, gate, Ghost(s)) {
                out.push(gate);
            }
            i = i + 1;
        }
        out
    }
}

proof fn lemma_scaled(x: int, n: int, most: int)
    requires
        -most <= x <= most,
        0 <= n <= 40_000_000,
        0 <= most,
    ensures
        -(most * 40_000_000) <= x * n <= most * 40_000_000,
{
    assert(-(most * 40_000_000) <= x * n <= most * 40_000_000) by (nonlinear_arith)
        requires
            -most <= x <= most,
            0 <= n <= 40_000_000,
            0 <= most,
    ;
}

// ---------------------------------------------------------------------------
// Counting
// ---------------------------------------------------------------------------

/// The outcomes of one group, in order.
pub open spec fn outcomes_of_group(
    group_of: Seq<usize>,
    outcomes: Seq<Outcome>,
    g: usize,
) -> Seq<Outcome>
    decreases group_of.len(),
{
    if group_of.len() == 0 {
        Seq::empty()
    } else {
        let before = outcomes_of_group(group_of.drop_last(), outcomes.drop_last(), g);
        if group_of.last() == g {
            before.push(outcomes.last())
        } else {
            before
        }
    }
}

/// How many of the first `n` groups clear every gate.
pub open spec fn passers(
    group_of: Seq<usize>,
    outcomes: Seq<Outcome>,
    n: int,
    gates: Gates,
) -> nat
    decreases n,
{
    if n <= 0 {
        0
    } else {
        passers(group_of, outcomes, n - 1, gates) + if clears(
            outcomes_of_group(group_of, outcomes, (n - 1) as usize),
            gates,
        ) {
            1nat
        } else {
            0
        }
    }
}

proof fn lemma_group_len(group_of: Seq<usize>, outcomes: Seq<Outcome>, g: usize)
    ensures
        outcomes_of_group(group_of, outcomes, g).len() <= group_of.len(),
    decreases group_of.len(),
{
    if group_of.len() > 0 {
        lemma_group_len(group_of.drop_last(), outcomes.drop_last(), g);
    }
}

/// Count configurations clearing every gate, given a grouping and a set of
/// per-fold outcomes.
pub fn count_passers(
    group_of: &Vec<usize>,
    outcomes: &Vec<Outcome>,
    n_groups: usize,
    gates: &Gates,
) -> (r: usize)
    requires
        group_of@.len() == outcomes@.len(),
        outcomes@.len() <= MAX_SAMPLE_LEN,
        all_below(group_of@, n_groups as int),
        forall|i: int| 0 <= i < outcomes@.len() ==> (#[trigger] outcomes@[i]).in_range(),
        gates.in_range(),
    ensures
        r == passers(group_of@, outcomes@, n_groups as int, *gates),
        r <= n_groups,
{
    let mut tallies: Vec<Tally> = Vec::new();
    let mut g: usize = 0;
    while g < n_groups
        invariant
            g <= n_groups,
            tallies@.len() == g,
            forall|k: int| 0 <= k < g ==> (#[trigger] tallies@[k]).describes(Seq::empty()),
        decreases n_groups - g,
    {
        tallies.push(Tally::new());
        g = g + 1;
    }
    let mut i: usize = 0;
    proof {
        assert forall|k: int| 0 <= k < n_groups implies (#[trigger] tallies@[k]).describes(
            outcomes_of_group(group_of@.take(0), outcomes@.take(0), k as usize),
        ) by {}
    }
    while i < outcomes.len()
        invariant
            group_of@.len() == outcomes@.len(),
            outcomes@.len() <= MAX_SAMPLE_LEN,
            all_below(group_of@, n_groups as int),
            forall|k: int| 0 <= k < outcomes@.len() ==> (#[trigger] outcomes@[k]).in_range(),
            i <= outcomes@.len(),
            tallies@.len() == n_groups,
            forall|k: int|
                0 <= k < n_groups ==> (#[trigger] tallies@[k]).describes(
                    outcomes_of_group(
                        group_of@.take(i as int),
                        outcomes@.take(i as int),
                        k as usize,
                    ),
                ),
        decreases outcomes@.len() - i,
    {
        let at: usize = group_of[i];
        let o: Outcome = outcomes[i];
        let ghost past = outcomes_of_group(group_of@.take(i as int), outcomes@.take(i as int), at);
        proof {
            assert(group_of@[i as int] < n_groups);
            lemma_group_len(group_of@.take(i as int), outcomes@.take(i as int), at);
            assert(group_of@.take(i + 1).drop_last() =~= group_of@.take(i as int));
            assert(outcomes@.take(i + 1).drop_last() =~= outcomes@.take(i as int));
        }
        let mut t: Tally = tallies[at];
        t.take_in(&o, Ghost(past));
        tallies.set(at, t);
        i = i + 1;
    }
    proof {
        assert(group_of@.take(outcomes@.len() as int) =~= group_of@);
        assert(outcomes@.take(outcomes@.len() as int) =~= outcomes@);
    }
    let mut count: usize = 0;
    g = 0;
    while g < n_groups
        invariant
            outcomes@.len() <= MAX_SAMPLE_LEN,
            group_of@.len() == outcomes@.len(),
            gates.in_range(),
            g <= n_groups,
            tallies@.len() == n_groups,
            forall|k: int|
                0 <= k < n_groups ==> (#[trigger] tallies@[k]).describes(
                    outcomes_of_group(group_of@, outcomes@, k as usize),
                ),
            count == passers(group_of@, outcomes@, g as int, *gates),
            count <= g,
        decreases n_groups - g,
    {
        let t: Tally = tallies[g];
        let ghost mine = outcomes_of_group(group_of@, outcomes@, g);
        proof {
            lemma_group_len(group_of@, outcomes@, g);
            assert(tallies@[g as int].describes(mine));
        }
        if t.n > 0 && t.reasons(gates, Ghost(mine)).len() == 0 {
            count = count + 1;
        }
        g = g + 1;
    }
    count
}

// ---------------------------------------------------------------------------
// Measures of a record
// ---------------------------------------------------------------------------

/// What is averaged over the folds of a configuration.
#[derive(Clone, Copy, Debug, PartialEq, Eq, Structural)]
pub enum Measure {
    /// Expected value per attempt, in millionths of a micro-dollar.
    Ev,
    /// Evaluation pass rate, `RATE` to one.
    Pass,
    /// Funded blowup rate, `RATE` to one.
    Blowup,
    /// Fifth percentile of the extraction, in micro-dollars.
    P5,
    /// Mean extraction, in micro-dollars.
    MeanExt,
    /// Months of platform fees, in trillionths.
    Months,
    /// Realised monthly expectancy at one contract, in millionths of a
    /// micro-dollar.
    Realized,
    /// Share of the test days that traded, in millionths of a percent.
    Coverage,
    /// Trades of the test year.
    Trades,
    /// Error of the flat cost formula, in millionths of a micro-dollar.
    LegacyError,
}

/// A rate, `RATE` to one, to the nearest.
pub open spec fn rate_of(r: Ratio) -> int {
    nearest(r.num * RATE, r.den as int)
}

/// A fraction to the nearest whole number.
pub open spec fn rounded(f: Fraction) -> int {
    nearest(f.num as int, f.den as int)
}

/// The value of a measure on a record, to the nearest.
pub open spec fn measured(r: FoldRecord, what: Measure) -> int {
    match what {
        Measure::Ev => rounded(r.ev.ev_per_attempt),
        Measure::Pass => rate_of(r.ev.pass_rate),
        Measure::Blowup => rate_of(r.funded.blowup_rate),
        Measure::P5 => r.funded.p5_ext as int,
        Measure::MeanExt => r.funded.mean_ext as int,
        Measure::Months => nearest(
            months_of(r.funded).num * TRILLION,
            months_of(r.funded).den as int,
        ),
        Measure::Realized => nearest(
            r.realized.monthly_ev_1ct.num * MILLION,
            r.realized.monthly_ev_1ct.den as int,
        ),
        Measure::Coverage => nearest(
            r.realized.n_days_traded * 100_000_000,
            r.total_period_days as int,
        ),
        Measure::Trades => r.realized.n_trades as int,
        Measure::LegacyError => rounded(r.ev.legacy_error),
    }
}

fn months_measure(r: &FoldRecord) -> (v: i128)
    requires
        r.in_range(),
    ensures
        v == measured(*r, Measure::Months),
        -MAX_SAMPLE <= v <= MAX_SAMPLE,
{
    let months: Ratio = r.funded.months_held();
    proof {
        lemma_nearest_within(
            months.num * 1_000_000_000_000,
            months.den as int,
            1_000_000_000_000_000_000_000_000_000_000_000,
        );
        lemma_nearest_within(
            months.num * 1_000_000_000_000,
            months.den as int,
            1_000_000_000_000_000_000_000_000_000_000,
        );
    }
    round_div(months.num as i128 * 1_000_000_000_000, months.den as i128)
}

fn realized_measure(r: &FoldRecord) -> (v: i128)
    requires
        r.in_range(),
    ensures
        v == measured(*r, Measure::Realized),
        -5_000_000_000_000_000_000_000_000 <= v <= 5_000_000_000_000_000_000_000_000,
{
    let m: Fraction = r.realized.monthly_ev_1ct;
    proof {
        lemma_nearest_within(
            m.num * 1_000_000,
            m.den as int,
            5_000_000_000_000_000_000_000_000,
        );
    }
    round_div(m.num * 1_000_000, m.den)
}

fn coverage_measure(r: &FoldRecord) -> (v: i128)
    requires
        r.in_range(),
    ensures
        v == measured(*r, Measure::Coverage),
        -MAX_SAMPLE <= v <= MAX_SAMPLE,
{
    let n: i128 = r.realized.n_days_traded as i128;
    let d: i128 = r.total_period_days as i128;
    proof {
        lemma_nearest_within(
            n * 100_000_000,
            d as int,
            1_000_000_000_000_000_000_000_000_000_000,
        );
    }
    round_div(n * 100_000_000, d)
}

fn rate_measure(x: Ratio) -> (v: i64)
    requires
        0 < x.den <= MAX_RATE_DEN,
        0 <= x.num <= x.den,
    ensures
        v == rate_of(x),
        0 <= v <= RATE,
{
    proof {
        lemma_nearest_within(
            x.num * 1_000_000_000_000_000_000,
            x.den as int,
            1_000_000_000_000_000_000,
        );
        assert(nearest(x.num * 1_000_000_000_000_000_000, x.den as int) >= 0)
            by (nonlinear_arith)
            requires
                x.num >= 0,
                x.den > 0,
        ;
    }
    round_div(x.num as i128 * 1_000_000_000_000_000_000, x.den as i128) as i64
}

fn value_measure(f: &Fraction) -> (v: i128)
    requires
        is_value(*f),
    ensures
        v == rounded(*f),
        -MAX_EV <= v <= MAX_EV,
{
    proof {
        lemma_nearest_within(f.num as int, f.den as int, 130_000_000_000_000_000_000_000_000);
    }
    round_div(f.num, f.den)
}

/// The value of a measure on a record.
pub fn measure(r: &FoldRecord, what: Measure) -> (v: i128)
    requires
        r.in_range(),
    ensures
        v == measured(*r, what),
        -MAX_SAMPLE <= v <= MAX_SAMPLE,
{
    match what {
        Measure::Ev => value_measure(&r.ev.ev_per_attempt),
        Measure::Pass => rate_measure(r.ev.pass_rate) as i128,
        Measure::Blowup => rate_measure(r.funded.blowup_rate) as i128,
        Measure::P5 => r.funded.p5_ext as i128,
        Measure::MeanExt => r.funded.mean_ext as i128,
        Measure::Months => months_measure(r),
        Measure::Realized => realized_measure(r),
        Measure::Coverage => coverage_measure(r),
        Measure::Trades => r.realized.n_trades as i128,
        Measure::LegacyError => value_measure(&r.ev.legacy_error),
    }
}

/// What the thresholds read of a record.
pub open spec fn outcome_of(r: FoldRecord, bear_year: i32) -> Outcome {
    Outcome {
        ev: rounded(r.ev.ev_per_attempt) as i128,
        pass: rate_of(r.ev.pass_rate) as i64,
        blowup: rate_of(r.funded.blowup_rate) as i64,
        p5: r.funded.p5_ext,
        is_bear: r.test_year == bear_year,
    }
}

/// What the thresholds read of a record.
pub fn outcome(r: &FoldRecord, bear_year: i32) -> (o: Outcome)
    requires
        r.in_range(),
    ensures
        o == outcome_of(*r, bear_year),
        o.in_range(),
{
    Outcome {
        ev: value_measure(&r.ev.ev_per_attempt),
        pass: rate_measure(r.ev.pass_rate),
        blowup: rate_measure(r.funded.blowup_rate),
        p5: r.funded.p5_ext,
        is_bear: r.test_year == bear_year,
    }
}

// ---------------------------------------------------------------------------
// Grouping
// ---------------------------------------------------------------------------

/// The text that identifies a configuration: the strategy, the geometries and
/// the account product, but not the test year.
pub open spec fn group_text(r: FoldRecord) -> Seq<char> {
    let c = r.cell;
    r.instrument@ + "|"@ + variant_text(c.variant) + "|"@ + whole_text(c.window as int) + "|"@
        + hundredths_text(c.rr as int) + "|"@ + c.dir@ + "|"@ + hundredths_text(c.lux as int)
        + "|"@ + c.fmode@ + "|"@ + thousandths_text(10 * c.hmin) + "|"@ + thousandths_text(
        10 * c.emax,
    ) + "|"@ + c.regime@ + "|"@ + rg_word(r.rg_eval as int) + "|"@ + rg_word(r.rg_funded as int)
        + "|"@ + r.account@
}

/// The text that identifies the configuration of a record.
pub fn group_key(r: &FoldRecord) -> (s: String)
    requires
        r.in_range(),
    ensures
        s@ == group_text(*r),
{
    let c: Cell = r.cell;
    let variant: String = variant_name(c.variant);
    let mut s: String = r.instrument.as_str().to_owned();
    s.append("|");
    s.append(variant.as_str());
    s.append("|");
    append_whole(&mut s, c.window as i64);
    s.append("|");
    append_hundredths(&mut s, c.rr);
    s.append("|");
    s.append(c.dir);
    s.append("|");
    append_hundredths(&mut s, c.lux);
    s.append("|");
    s.append(c.fmode);
    s.append("|");
    append_thousandths(&mut s, 10 * c.hmin);
    s.append("|");
    append_thousandths(&mut s, 10 * c.emax);
    s.append("|");
    s.append(c.regime);
    s.append("|");
    s.append(rg_name(r.rg_eval));
    s.append("|");
    s.append(rg_name(r.rg_funded));
    s.append("|");
    s.append(r.account.as_str());
    s
}

/// Whether all records are fit for averaging.
pub open spec fn reportable(folds: Seq<FoldRecord>) -> bool {
    &&& folds.len() <= MAX_SAMPLE_LEN
    &&& forall|i: int| 0 <= i < folds.len() ==> (#[trigger] folds[i]).in_range()
}

/// The order of configurations by their identifying texts.
pub open spec fn by_key(folds: Seq<FoldRecord>) -> spec_fn(usize, usize) -> bool {
    |a: usize, b: usize| text_le(group_text(folds[a as int]), group_text(folds[b as int]))
}

/// Whether one text comes before another or is the same.
spec fn key_le(keys: &Vec<String>, a: usize, b: usize) -> bool {
    text_le(keys@[a as int]@, keys@[b as int]@)
}

fn keys_of(folds: &Vec<FoldRecord>) -> (r: Vec<String>)
    requires
        reportable(folds@),
    ensures
        r@.len() == folds@.len(),
        forall|i: int| 0 <= i < r@.len() ==> (#[trigger] r@[i])@ == group_text(folds@[i]),
{
    let mut r: Vec<String> = Vec::new();
    let mut i: usize = 0;
    while i < folds.len()
        invariant
            reportable(folds@),
            i <= folds@.len(),
            r@.len() == i,
            forall|k: int| 0 <= k < i ==> (#[trigger] r@[k])@ == group_text(folds@[k]),
        decreases folds@.len() - i,
    {
        r.push(group_key(&folds[i]));
        i = i + 1;
    }
    r
}

/// The records of each configuration, the configurations in the order of their
/// identifying texts.
pub fn configurations(folds: &Vec<FoldRecord>) -> (r: Vec<Vec<usize>>)
    requires
        reportable(folds@),
    ensures
        are_classes(r@, by_key(folds@), folds@.len() as int),
{
    let n: usize = folds.len();
    let keys: Vec<String> = keys_of(folds);
    let ghost rel = by_key(folds@);
    proof {
        assert forall|a: usize, b: usize| #![trigger rel(a, b)] a < n && b < n implies rel(a, b)
            || rel(b, a) by {
            texts_are_totally_ordered(
                group_text(folds@[a as int]),
                group_text(folds@[b as int]),
                group_text(folds@[a as int]),
            );
        }
        assert forall|a: usize, b: usize, c: usize|
            #![trigger rel(a, b), rel(b, c)]
            a < n && b < n && c < n && rel(a, b) && rel(b, c) implies rel(a, c) by {
            texts_are_totally_ordered(
                group_text(folds@[a as int]),
                group_text(folds@[b as int]),
                group_text(folds@[c as int]),
            );
        }
    }
    let le = |a: usize, b: usize| -> (o: bool)
        requires
            a < keys@.len(),
            b < keys@.len(),
        ensures
            o == key_le(&keys, a, b),
        { comes_before(keys[a].as_str(), keys[b].as_str()) };
    group_positions(n, le, Ghost(rel))
}

// ---------------------------------------------------------------------------
// Aggregation
// ---------------------------------------------------------------------------

/// Weights of the ranking, in millionths.
#[derive(Clone, Copy, Debug, PartialEq, Eq, Structural)]
pub struct Weights {
    /// Weight on the naked one-contract signal expectancy.
    pub realized: i64,
    /// Weight on expected value per evaluation attempt.
    pub mc: i64,
}

impl Weights {
    /// Weights that exact scores admit.
    pub open spec fn in_range(self) -> bool {
        &&& -1_000_000_000_000 <= self.realized <= 1_000_000_000_000
        &&& -1_000_000_000_000 <= self.mc <= 1_000_000_000_000
    }

    /// Whether exact scores admit the weights.
    pub fn is_in_range(&self) -> (r: bool)
        ensures
            r == self.in_range(),
    {
        -1_000_000_000_000 <= self.realized && self.realized <= 1_000_000_000_000
            && -1_000_000_000_000 <= self.mc && self.mc <= 1_000_000_000_000
    }
}

/// A measure on the given records, in order.
pub open spec fn column(folds: Seq<FoldRecord>, idx: Seq<usize>, what: Measure) -> Seq<i128> {
    idx.map_values(|i: usize| measured(folds[i as int], what) as i128)
}

/// The mean of a column.
pub open spec fn mean(col: Seq<i128>) -> Fraction {
    Fraction { num: total(ints(col)) as i128, den: col.len() as i128 }
}

/// The outcomes of the given records, in order.
pub open spec fn outcomes_at(
    folds: Seq<FoldRecord>,
    idx: Seq<usize>,
    bear_year: i32,
) -> Seq<Outcome> {
    idx.map_values(|i: usize| outcome_of(folds[i as int], bear_year))
}

/// The ranking score, in millionths of a millionth of a micro-dollar: the weighted
/// sum of the mean expected value per attempt and the mean realised expectancy,
/// both to the nearest millionth of a micro-dollar.
pub open spec fn score(folds: Seq<FoldRecord>, idx: Seq<usize>, w: Weights) -> int {
    w.mc * nearest(total(ints(column(folds, idx, Measure::Ev))), idx.len() as int) + w.realized
        * nearest(total(ints(column(folds, idx, Measure::Realized))), idx.len() as int)
}

/// The figures of one configuration over its folds.
#[derive(Clone, Copy, Debug)]
pub struct Summary {
    pub folds: usize,
    pub avg_ev_per_attempt: Fraction,
    pub median_ev_per_attempt: Fraction,
    pub worst_ev_per_attempt: i128,
    pub positive_ev_folds: usize,
    /// `None` where no fold tests the bear year.
    pub bear_ev: Option<Fraction>,
    pub avg_pass: Fraction,
    pub worst_pass: i128,
    pub avg_blowup: Fraction,
    pub avg_p5_ext: Fraction,
    pub avg_mean_ext: Fraction,
    pub avg_months_held: Fraction,
    pub avg_realized_monthly_ev: Fraction,
    pub worst_realized_monthly_ev: i128,
    pub avg_coverage: Fraction,
    pub avg_n_trades: Fraction,
    pub avg_legacy_error: Fraction,
    pub combined_score: i128,
}

impl Summary {
    /// Whether these are the figures of the given records.
    pub open spec fn is_of(
        self,
        folds: Seq<FoldRecord>,
        idx: Seq<usize>,
        w: Weights,
        bear_year: i32,
    ) -> bool {
        let evs = column(folds, idx, Measure::Ev);
        let outcomes = outcomes_at(folds, idx, bear_year);
        let bears = count_where(outcomes, is_bearish());
        &&& self.folds == idx.len()
        &&& self.avg_ev_per_attempt == mean(evs)
        &&& median_of(in_order(evs)) == Some(
            (self.median_ev_per_attempt.num as int, self.median_ev_per_attempt.den as int),
        )
        &&& self.worst_ev_per_attempt == in_order(evs)[0]
        &&& self.positive_ev_folds == count_where(outcomes, is_positive())
        &&& self.bear_ev is Some <==> bears > 0
        &&& self.bear_ev matches Some(b) ==> b.num == bear_total(outcomes) && b.den == bears
        &&& self.avg_pass == mean(column(folds, idx, Measure::Pass))
        &&& self.worst_pass == in_order(column(folds, idx, Measure::Pass))[0]
        &&& self.avg_blowup == mean(column(folds, idx, Measure::Blowup))
        &&& self.avg_p5_ext == mean(column(folds, idx, Measure::P5))
        &&& self.avg_mean_ext == mean(column(folds, idx, Measure::MeanExt))
        &&& self.avg_months_held == mean(column(folds, idx, Measure::Months))
        &&& self.avg_realized_monthly_ev == mean(column(folds, idx, Measure::Realized))
        &&& self.worst_realized_monthly_ev == in_order(column(folds, idx, Measure::Realized))[0]
        &&& self.avg_coverage == mean(column(folds, idx, Measure::Coverage))
        &&& self.avg_n_trades == mean(column(folds, idx, Measure::Trades))
        &&& self.avg_legacy_error == mean(column(folds, idx, Measure::LegacyError))
        &&& self.combined_score == score(folds, idx, w)
    }
}

fn column_of(folds: &Vec<FoldRecord>, idx: &Vec<usize>, what: Measure) -> (r: Vec<i128>)
    requires
        reportable(folds@),
        all_below(idx@, folds@.len() as int),
    ensures
        r@ == column(folds@, idx@, what),
        r@.len() == idx@.len(),
        addable(r@),
{
    let mut r: Vec<i128> = Vec::new();
    let mut i: usize = 0;
    while i < idx.len()
        invariant
            reportable(folds@),
            all_below(idx@, folds@.len() as int),
            i <= idx@.len(),
            r@.len() == i,
            forall|k: int| 0 <= k < i ==> #[trigger] r@[k] == column(folds@, idx@, what)[k],
            addable(r@),
        decreases idx@.len() - i,
    {
        let at: usize = idx[i];
        r.push(measure(&folds[at], what));
        i = i + 1;
    }
    proof {
        assert(r@ =~= column(folds@, idx@, what));
    }
    r
}

fn mean_measure(folds: &Vec<FoldRecord>, idx: &Vec<usize>, what: Measure) -> (r: Fraction)
    requires
        reportable(folds@),
        all_below(idx@, folds@.len() as int),
        0 < idx@.len() <= MAX_SAMPLE_LEN,
    ensures
        r == mean(column(folds@, idx@, what)),
        r.den == idx@.len(),
        r.num == total(ints(column(folds@, idx@, what))),
        -sample_reach(idx@.len() as int) <= r.num <= sample_reach(idx@.len() as int),
{
    let col: Vec<i128> = column_of(folds, idx, what);
    Fraction { num: sum_of(&col), den: col.len() as i128 }
}

fn worst_measure(folds: &Vec<FoldRecord>, idx: &Vec<usize>, what: Measure) -> (r: i128)
    requires
        reportable(folds@),
        all_below(idx@, folds@.len() as int),
        0 < idx@.len(),
    ensures
        r == in_order(column(folds@, idx@, what))[0],
{
    let col: Vec<i128> = column_of(folds, idx, what);
    let s: Vec<i128> = sorted(&col);
    s[0]
}

fn median_ev(folds: &Vec<FoldRecord>, idx: &Vec<usize>) -> (r: Fraction)
    requires
        reportable(folds@),
        all_below(idx@, folds@.len() as int),
        0 < idx@.len(),
    ensures
        median_of(in_order(column(folds@, idx@, Measure::Ev))) == Some(
            (r.num as int, r.den as int),
        ),
{
    let col: Vec<i128> = column_of(folds, idx, Measure::Ev);
    let s: Vec<i128> = sorted(&col);
    proof {
        lemma_in_order_bounds(
            col@,
            -1_000_000_000_000_000_000_000_000_000_000,
            1_000_000_000_000_000_000_000_000_000_000,
        );
    }
    match median(s.as_slice()) {
        Some(m) => m,
        None => Fraction { num: 0, den: 1 },
    }
}

fn tally_of(folds: &Vec<FoldRecord>, idx: &Vec<usize>, bear_year: i32) -> (r: Tally)
    requires
        reportable(folds@),
        all_below(idx@, folds@.len() as int),
        idx@.len() <= MAX_SAMPLE_LEN,
    ensures
        r.describes(outcomes_at(folds@, idx@, bear_year)),
{
    let mut t: Tally = Tally::new();
    let mut i: usize = 0;
    let ghost all = outcomes_at(folds@, idx@, bear_year);
    proof {
        assert(all.take(0) =~= Seq::<Outcome>::empty());
    }
    while i < idx.len()
        invariant
            reportable(folds@),
            all_below(idx@, folds@.len() as int),
            idx@.len() <= MAX_SAMPLE_LEN,
            all == outcomes_at(folds@, idx@, bear_year),
            i <= idx@.len(),
            t.describes(all.take(i as int)),
        decreases idx@.len() - i,
    {
        let at: usize = idx[i];
        let o: Outcome = outcome(&folds[at], bear_year);
        t.take_in(&o, Ghost(all.take(i as int)));
        proof {
            assert(all.take(i + 1) =~= all.take(i as int).push(o));
        }
        i = i + 1;
    }
    proof {
        assert(all.take(idx@.len() as int) =~= all);
    }
    t
}

fn score_of(ev: &Fraction, realized: &Fraction, w: &Weights) -> (r: i128)
    requires
        w.in_range(),
        0 < ev.den <= MAX_SAMPLE_LEN,
        realized.den == ev.den,
        -(MAX_EV * ev.den) <= ev.num <= MAX_EV * ev.den,
        -(5_000_000_000_000_000_000_000_000 * realized.den) <= realized.num
            <= 5_000_000_000_000_000_000_000_000 * realized.den,
    ensures
        r == w.mc * nearest(ev.num as int, ev.den as int) + w.realized * nearest(
            realized.num as int,
            realized.den as int,
        ),
{
    proof {
        lemma_nearest_within(
            ev.num as int,
            ev.den as int,
            130_000_000_000_000_000_000_000_000,
        );
        lemma_nearest_within(
            realized.num as int,
            realized.den as int,
            5_000_000_000_000_000_000_000_000,
        );
    }
    let a: i128 = round_div(ev.num, ev.den);
    let b: i128 = round_div(realized.num, realized.den);
    let wa: i128 = w.mc as i128;
    let wb: i128 = w.realized as i128;
    proof {
        assert(-130_000_000_000_000_000_000_000_000_000_000_000_000 <= wa * a
            <= 130_000_000_000_000_000_000_000_000_000_000_000_000) by (nonlinear_arith)
            requires
                -1_000_000_000_000 <= wa <= 1_000_000_000_000,
                -130_000_000_000_000_000_000_000_000 <= a
                    <= 130_000_000_000_000_000_000_000_000,
        ;
        assert(-5_000_000_000_000_000_000_000_000_000_000_000_000 <= wb * b
            <= 5_000_000_000_000_000_000_000_000_000_000_000_000) by (nonlinear_arith)
            requires
                -1_000_000_000_000 <= wb <= 1_000_000_000_000,
                -5_000_000_000_000_000_000_000_000 <= b <= 5_000_000_000_000_000_000_000_000,
        ;
    }
    wa * a + wb * b
}

proof fn lemma_column_total(folds: Seq<FoldRecord>, idx: Seq<usize>)
    requires
        reportable(folds),
        all_below(idx, folds.len() as int),
    ensures
        ({
            let sum = total(ints(column(folds, idx, Measure::Realized)));
            -(5_000_000_000_000_000_000_000_000 * idx.len()) <= sum
                <= 5_000_000_000_000_000_000_000_000 * idx.len()
        }),
        ({
            let sum = total(ints(column(folds, idx, Measure::Ev)));
            -(130_000_000_000_000_000_000_000_000 * idx.len()) <= sum
                <= 130_000_000_000_000_000_000_000_000 * idx.len()
        }),
    decreases idx.len(),
{
    let naked = column(folds, idx, Measure::Realized);
    let ev = column(folds, idx, Measure::Ev);
    if idx.len() > 0 {
        let past = idx.drop_last();
        lemma_column_total(folds, past);
        let r = folds[idx.last() as int];
        assert(r.in_range());
        let m = r.realized.monthly_ev_1ct;
        lemma_nearest_within(
            m.num * 1_000_000,
            m.den as int,
            5_000_000_000_000_000_000_000_000,
        );
        let v = r.ev.ev_per_attempt;
        lemma_nearest_within(v.num as int, v.den as int, 130_000_000_000_000_000_000_000_000);
        assert(ints(naked).drop_last() =~= ints(column(folds, past, Measure::Realized)));
        assert(ints(naked).last() == measured(r, Measure::Realized));
        assert(ints(ev).drop_last() =~= ints(column(folds, past, Measure::Ev)));
        assert(ints(ev).last() == measured(r, Measure::Ev));
    } else {
        assert(ints(naked) =~= Seq::<int>::empty());
        assert(ints(ev) =~= Seq::<int>::empty());
    }
}

/// The figures of the given records.
pub fn summarise(folds: &Vec<FoldRecord>, idx: &Vec<usize>, w: &Weights, bear_year: i32) -> (r:
    Summary)
    requires
        reportable(folds@),
        all_below(idx@, folds@.len() as int),
        0 < idx@.len() <= MAX_SAMPLE_LEN,
        w.in_range(),
    ensures
        r.is_of(folds@, idx@, *w, bear_year),
{
    let t: Tally = tally_of(folds, idx, bear_year);
    let avg_ev: Fraction = mean_measure(folds, idx, Measure::Ev);
    let avg_realized: Fraction = mean_measure(folds, idx, Measure::Realized);
    proof {
        lemma_column_total(folds@, idx@);
    }
    Summary {
        folds: idx.len(),
        avg_ev_per_attempt: avg_ev,
        median_ev_per_attempt: median_ev(folds, idx),
        worst_ev_per_attempt: worst_measure(folds, idx, Measure::Ev),
        positive_ev_folds: t.positive,
        bear_ev: if t.bear_n > 0 {
            Some(Fraction { num: t.bear_sum, den: t.bear_n as i128 })
        } else {
            None
        },
        avg_pass: mean_measure(folds, idx, Measure::Pass),
        worst_pass: worst_measure(folds, idx, Measure::Pass),
        avg_blowup: mean_measure(folds, idx, Measure::Blowup),
        avg_p5_ext: mean_measure(folds, idx, Measure::P5),
        avg_mean_ext: mean_measure(folds, idx, Measure::MeanExt),
        avg_months_held: mean_measure(folds, idx, Measure::Months),
        avg_realized_monthly_ev: avg_realized,
        worst_realized_monthly_ev: worst_measure(folds, idx, Measure::Realized),
        avg_coverage: mean_measure(folds, idx, Measure::Coverage),
        avg_n_trades: mean_measure(folds, idx, Measure::Trades),
        avg_legacy_error: mean_measure(folds, idx, Measure::LegacyError),
        combined_score: score_of(&avg_ev, &avg_realized, w),
    }
}

/// One configuration, over all its folds.
#[derive(Debug)]
pub struct Aggregated {
    pub instrument: String,
    pub cell: Cell,
    pub rg_eval: usize,
    pub rg_funded: usize,
    pub account: String,
    /// Stable identity of the configuration, the last tiebreaker of the ranking.
    pub key: String,
    /// The positions of its records.
    pub members: Vec<usize>,
    pub summary: Summary,
    pub deploy_ready: bool,
    /// The gates it fails.
    pub reasons: Vec<Gate>,
}

impl Aggregated {
    /// Whether this is a configuration of the given records: it has exactly the
    /// records of its key, and the figures and gates of those.
    pub open spec fn is_of(self, folds: Seq<FoldRecord>, w: Weights, g: Gates) -> bool {
        let idx = self.members@;
        let head = folds[idx[0] as int];
        let outcomes = outcomes_at(folds, idx, g.bear_year);
        &&& idx.len() > 0
        &&& forall|i: int, j: int| 0 <= i < j < idx.len() ==> idx[i] < idx[j]
        &&& forall|x: usize| #[trigger]
            idx.contains(x) <==> x < folds.len() && group_text(folds[x as int]) == self.key@
        &&& self.instrument@ == head.instrument@
        &&& self.cell == head.cell
        &&& self.rg_eval == head.rg_eval
        &&& self.rg_funded == head.rg_funded
        &&& self.account@ == head.account@
        &&& self.summary.is_of(folds, idx, w, g.bear_year)
        &&& self.deploy_ready == clears(outcomes, g)
        &&& self.reasons@ == failed_gates(outcomes, g, 7)
    }
}

/// Whether a configuration ranks before another: deployable first, then by score,
/// then by the worst expected value, then by key.
pub open spec fn outranks(
    a_ready: bool,
    a: Summary,
    a_key: Seq<char>,
    b_ready: bool,
    b: Summary,
    b_key: Seq<char>,
) -> bool {
    if a_ready != b_ready {
        a_ready
    } else if a.combined_score != b.combined_score {
        a.combined_score > b.combined_score
    } else if a.worst_ev_per_attempt != b.worst_ev_per_attempt {
        a.worst_ev_per_attempt > b.worst_ev_per_attempt
    } else {
        text_le(a_key, b_key)
    }
}

/// Whether configurations stand in ranking order.
pub open spec fn ranked(s: Seq<Aggregated>) -> bool {
    forall|i: int, j: int|
        0 <= i < j < s.len() ==> outranks(
            (#[trigger] s[i]).deploy_ready,
            s[i].summary,
            s[i].key@,
            (#[trigger] s[j]).deploy_ready,
            s[j].summary,
            s[j].key@,
        )
}

/// Whether a configuration of the list has the given record.
pub open spec fn ranks_record(s: Seq<Aggregated>, x: usize) -> bool {
    exists|k: int| 0 <= k < s.len() && (#[trigger] s[k]).members@.contains(x)
}

/// Whether a list is a ranking of the configurations of the given records.
pub open spec fn is_ranking(
    r: Seq<Aggregated>,
    folds: Seq<FoldRecord>,
    w: Weights,
    gates: Gates,
) -> bool {
    &&& forall|k: int| 0 <= k < r.len() ==> (#[trigger] r[k]).is_of(folds, w, gates)
    &&& forall|i: int, j: int|
        0 <= i < j < r.len() ==> (#[trigger] r[i]).key@ != (#[trigger] r[j]).key@
    &&& forall|x: usize| x < folds.len() ==> #[trigger] ranks_record(r, x)
    &&& ranked(r)
}

/// The ranking of groups by what was worked out for each.
spec fn group_outranks(
    ready: &Vec<bool>,
    summaries: &Vec<Summary>,
    keys: &Vec<String>,
    a: usize,
    b: usize,
) -> bool {
    outranks(
        ready@[a as int],
        summaries@[a as int],
        keys@[a as int]@,
        ready@[b as int],
        summaries@[b as int],
        keys@[b as int]@,
    )
}

proof fn lemma_class_members(
    groups: Seq<Vec<usize>>,
    folds: Seq<FoldRecord>,
    g: int,
)
    requires
        are_classes(groups, by_key(folds), folds.len() as int),
        folds.len() <= usize::MAX,
        0 <= g < groups.len(),
    ensures
        groups[g]@.len() > 0,
        groups[g]@.len() <= folds.len(),
        all_below(groups[g]@, folds.len() as int),
        forall|i: int, j: int| 0 <= i < j < groups[g]@.len() ==> groups[g]@[i] < groups[g]@[j],
        forall|x: usize| #[trigger]
            groups[g]@.contains(x) <==> x < folds.len() && group_text(folds[x as int])
                == group_text(folds[groups[g]@[0] as int]),
{
    let n = folds.len() as int;
    let idx = groups[g]@;
    let all = positions(n);
    assert forall|x: usize| #[trigger] all.contains(x) <==> x < n by {
        if x < n {
            assert(all[x as int] == x);
        }
    }
    assert forall|i: int| 0 <= i < idx.len() implies (#[trigger] idx[i]) < n by {
        assert(idx.contains(idx[i]));
        assert(all.contains(idx[i]));
    }
    assert forall|x: usize| #[trigger] idx.contains(x) <==> x < n && group_text(folds[x as int])
        == group_text(folds[idx[0] as int]) by {
        let a = group_text(folds[x as int]);
        let b = group_text(folds[idx[0] as int]);
        texts_are_totally_ordered(a, b, a);
        assert(groups[g]@.contains(x) <==> all.contains(x) && alike(by_key(folds), x, idx[0]));
    }
    assert forall|i: int, j: int| 0 <= i < j < idx.len() implies idx[i] < idx[j] by {
        assert(groups[g]@[i] < groups[g]@[j]);
    }
    lemma_ascending_len(idx, n);
}

proof fn lemma_ascending_len(s: Seq<usize>, n: int)
    requires
        forall|i: int, j: int| 0 <= i < j < s.len() ==> s[i] < s[j],
        all_below(s, n),
    ensures
        s.len() <= n || n < 0 && s.len() == 0,
    decreases s.len(),
{
    if s.len() > 0 {
        let t = s.drop_last();
        assert forall|i: int| 0 <= i < t.len() implies (#[trigger] t[i]) < s.last() by {
            assert(s[i] < s[s.len() - 1]);
        }
        assert(s[s.len() - 1] < n);
        lemma_ascending_len(t, s.last() as int);
    }
}

/// Group the records by configuration, work out each configuration's figures,
/// apply the gates and rank.
pub fn aggregate(folds: &Vec<FoldRecord>, w: &Weights, gates: &Gates) -> (r: Vec<Aggregated>)
    requires
        reportable(folds@),
        w.in_range(),
        gates.in_range(),
    ensures
        is_ranking(r@, folds@, *w, *gates),
{
    let groups: Vec<Vec<usize>> = configurations(folds);
    let n: usize = groups.len();
    let mut keys: Vec<String> = Vec::new();
    let mut summaries: Vec<Summary> = Vec::new();
    let mut ready: Vec<bool> = Vec::new();
    let mut g: usize = 0;
    while g < n
        invariant
            reportable(folds@),
            w.in_range(),
            gates.in_range(),
            are_classes(groups@, by_key(folds@), folds@.len() as int),
            n == groups@.len(),
            g <= n,
            keys@.len() == g,
            summaries@.len() == g,
            ready@.len() == g,
            forall|k: int|
                0 <= k < g ==> (#[trigger] keys@[k])@ == group_text(
                    folds@[groups@[k]@[0] as int],
                ),
            forall|k: int|
                0 <= k < g ==> (#[trigger] summaries@[k]).is_of(
                    folds@,
                    groups@[k]@,
                    *w,
                    gates.bear_year,
                ),
            forall|k: int|
                0 <= k < g ==> #[trigger] ready@[k] == clears(
                    outcomes_at(folds@, groups@[k]@, gates.bear_year),
                    *gates,
                ),
        decreases n - g,
    {
        proof {
            lemma_class_members(groups@, folds@, g as int);
        }
        let head: usize = groups[g][0];
        keys.push(group_key(&folds[head]));
        summaries.push(summarise(folds, &groups[g], w, gates.bear_year));
        let t: Tally = tally_of(folds, &groups[g], gates.bear_year);
        let ghost outcomes = outcomes_at(folds@, groups@[g as int]@, gates.bear_year);
        ready.push(t.reasons(gates, Ghost(outcomes)).len() == 0);
        g = g + 1;
    }
    let ghost rel = |a: usize, b: usize| group_outranks(&ready, &summaries, &keys, a, b);
    proof {
        assert forall|a: usize, b: usize| #![trigger rel(a, b)] a < n && b < n implies rel(a, b)
            || rel(b, a) by {
            texts_are_totally_ordered(keys@[a as int]@, keys@[b as int]@, keys@[a as int]@);
        }
        assert forall|a: usize, b: usize, c: usize|
            #![trigger rel(a, b), rel(b, c)]
            a < n && b < n && c < n && rel(a, b) && rel(b, c) implies rel(a, c) by {
            texts_are_totally_ordered(keys@[a as int]@, keys@[b as int]@, keys@[c as int]@);
        }
    }
    let le = |a: usize, b: usize| -> (o: bool)
        requires
            a < ready@.len(),
            b < ready@.len(),
            ready@.len() == summaries@.len(),
            ready@.len() == keys@.len(),
        ensures
            o == group_outranks(&ready, &summaries, &keys, a, b),
        {
            if ready[a] != ready[b] {
                ready[a]
            } else if summaries[a].combined_score != summaries[b].combined_score {
                summaries[a].combined_score > summaries[b].combined_score
            } else if summaries[a].worst_ev_per_attempt != summaries[b].worst_ev_per_attempt {
                summaries[a].worst_ev_per_attempt > summaries[b].worst_ev_per_attempt
            } else {
                comes_before(keys[a].as_str(), keys[b].as_str())
            }
        };
    let order: Vec<usize> = sort_positions(n, le, Ghost(rel));
    proof {
        lemma_positions_once(order@, n as int);
    }
    let mut out: Vec<Aggregated> = Vec::new();
    let mut i: usize = 0;
    while i < n
        invariant
            reportable(folds@),
            w.in_range(),
            gates.in_range(),
            are_classes(groups@, by_key(folds@), folds@.len() as int),
            n == groups@.len(),
            keys@.len() == n,
            summaries@.len() == n,
            ready@.len() == n,
            order@.len() == n,
            all_below(order@, n as int),
            forall|k: int|
                0 <= k < n ==> (#[trigger] keys@[k])@ == group_text(
                    folds@[groups@[k]@[0] as int],
                ),
            forall|k: int|
                0 <= k < n ==> (#[trigger] summaries@[k]).is_of(
                    folds@,
                    groups@[k]@,
                    *w,
                    gates.bear_year,
                ),
            forall|k: int|
                0 <= k < n ==> #[trigger] ready@[k] == clears(
                    outcomes_at(folds@, groups@[k]@, gates.bear_year),
                    *gates,
                ),
            i <= n,
            out@.len() == i,
            forall|k: int|
                0 <= k < i ==> {
                    let at = order@[k] as int;
                    &&& (#[trigger] out@[k]).is_of(folds@, *w, *gates)
                    &&& out@[k].members@ == groups@[at]@
                    &&& out@[k].key@ == keys@[at]@
                    &&& out@[k].summary == summaries@[at]
                    &&& out@[k].deploy_ready == ready@[at]
                },
        decreases n - i,
    {
        let at: usize = order[i];
        proof {
            lemma_class_members(groups@, folds@, at as int);
        }
        let members: Vec<usize> = copy_positions(&groups[at]);
        let head: usize = members[0];
        let t: Tally = tally_of(folds, &members, gates.bear_year);
        let ghost outcomes = outcomes_at(folds@, members@, gates.bear_year);
        let reasons: Vec<Gate> = t.reasons(gates, Ghost(outcomes));
        out.push(
            Aggregated {
                instrument: folds[head].instrument.clone(),
                cell: folds[head].cell,
                rg_eval: folds[head].rg_eval,
                rg_funded: folds[head].rg_funded,
                account: folds[head].account.clone(),
                key: keys[at].clone(),
                members,
                summary: summaries[at],
                deploy_ready: ready[at],
                reasons,
            },
        );
        i = i + 1;
    }
    proof {
        assert forall|i: int, j: int| 0 <= i < j < out@.len() implies (#[trigger] out@[i]).key@ != (
        #[trigger] out@[j]).key@ by {
            let a = order@[i] as int;
            let b = order@[j] as int;
            assert(a != b);
            let ha = groups@[a]@[0];
            let hb = groups@[b]@[0];
            texts_are_totally_ordered(
                group_text(folds@[ha as int]),
                group_text(folds@[hb as int]),
                group_text(folds@[ha as int]),
            );
            if a < b {
                assert(!by_key(folds@)(groups@[b]@[0], groups@[a]@[0]));
            } else {
                assert(!by_key(folds@)(groups@[a]@[0], groups@[b]@[0]));
            }
        }
        assert forall|x: usize| x < folds@.len() implies #[trigger] ranks_record(out@, x) by {
            let all = positions(folds@.len() as int);
            assert(all[x as int] == x);
            assert(all.contains(x));
            assert(held(groups@, x));
            let g = choose|g: int| 0 <= g < groups@.len() && (#[trigger] groups@[g])@.contains(x);
            assert(order@.contains(g as usize));
            let k = choose|k: int| 0 <= k < order@.len() && order@[k] == g as usize;
            assert(out@[k].members@.contains(x));
        }
        assert forall|i: int, j: int| 0 <= i < j < out@.len() implies outranks(
            (#[trigger] out@[i]).deploy_ready,
            out@[i].summary,
            out@[i].key@,
            (#[trigger] out@[j]).deploy_ready,
            out@[j].summary,
            out@[j].key@,
        ) by {
            assert(rel(order@[i], order@[j]));
        }
    }
    out
}

fn copy_positions(v: &Vec<usize>) -> (r: Vec<usize>)
    ensures
        r@ == v@,
{
    let mut r: Vec<usize> = Vec::new();
    let mut i: usize = 0;
    while i < v.len()
        invariant
            i <= v@.len(),
            r@ == v@.take(i as int),
        decreases v@.len() - i,
    {
        proof {
            assert(v@.take(i + 1) =~= v@.take(i as int).push(v@[i as int]));
        }
        r.push(v[i]);
        i = i + 1;
    }
    proof {
        assert(v@.take(v@.len() as int) =~= v@);
    }
    r
}

// ---------------------------------------------------------------------------
// Permutation null
// ---------------------------------------------------------------------------

/// Two elements of a sequence exchanged.
pub open spec fn swapped(s: Seq<usize>, i: int, j: int) -> Seq<usize> {
    s.update(i, s[j]).update(j, s[i])
}

/// The positions `idx` of a sequence shuffled: for each of them from the `k`-th
/// down to the second, its element exchanged with that of the picked one.
pub open spec fn shuffled(s: Seq<usize>, idx: Seq<usize>, picks: Seq<usize>, k: int) -> Seq<usize>
    decreases k,
{
    if k < 1 {
        s
    } else {
        shuffled(swapped(s, idx[k] as int, idx[picks[k] as int] as int), idx, picks, k - 1)
    }
}

/// Whether every pick is no later than its position.
pub open spec fn picks_fit(picks: Seq<usize>, n: int) -> bool {
    &&& picks.len() == n
    &&& forall|k: int| 0 <= k < n ==> (#[trigger] picks[k]) <= k
}

/// Fisher-Yates over the given positions, with the given picks.
pub fn shuffle_stratum(source: &mut Vec<usize>, idx: &Vec<usize>, picks: &Vec<usize>)
    requires
        all_below(idx@, old(source)@.len() as int),
        picks_fit(picks@, idx@.len() as int),
    ensures
        final(source)@ == shuffled(old(source)@, idx@, picks@, idx@.len() - 1),
        final(source)@.len() == old(source)@.len(),
{
    if idx.len() == 0 {
        return ;
    }
    let ghost end = shuffled(source@, idx@, picks@, idx@.len() - 1);
    let mut k: usize = idx.len() - 1;
    while k >= 1
        invariant
            all_below(idx@, source@.len() as int),
            picks_fit(picks@, idx@.len() as int),
            k < idx@.len(),
            source@.len() == old(source)@.len(),
            shuffled(source@, idx@, picks@, k as int) == end,
        decreases k,
    {
        let a: usize = idx[k];
        let b: usize = idx[picks[k]];
        let x: usize = source[a];
        let y: usize = source[b];
        let ghost before = source@;
        source.set(a, y);
        source.set(b, x);
        proof {
            assert(source@ =~= swapped(before, a as int, b as int));
        }
        k = k - 1;
    }
}

proof fn lemma_swap_keeps(s: Seq<usize>, i: int, j: int)
    requires
        0 <= i < s.len(),
        0 <= j < s.len(),
    ensures
        swapped(s, i, j).to_multiset() == s.to_multiset(),
{
    broadcast use vstd::seq_lib::group_to_multiset_ensures;

    if i != j {
        assert(swapped(s, i, j).to_multiset() =~= s.to_multiset());
    } else {
        assert(swapped(s, i, j) =~= s);
    }
}

/// A shuffle moves elements among its own positions only: the sequence keeps its
/// elements, every other position keeps its own, and each shuffled position
/// receives the element of one of them.
pub proof fn a_shuffle_stays_within_its_positions(
    s: Seq<usize>,
    idx: Seq<usize>,
    picks: Seq<usize>,
    k: int,
)
    requires
        all_below(idx, s.len() as int),
        picks_fit(picks, idx.len() as int),
        k < idx.len(),
    ensures
        shuffled(s, idx, picks, k).len() == s.len(),
        shuffled(s, idx, picks, k).to_multiset() == s.to_multiset(),
        forall|x: usize|
            x < s.len() && !idx.contains(x) ==> #[trigger] shuffled(s, idx, picks, k)[x as int]
                == s[x as int],
        forall|x: usize|
            idx.contains(x) ==> #[trigger] receives_from(shuffled(s, idx, picks, k), s, idx, x),
    decreases k,
{
    if k >= 1 {
        let a = idx[k];
        let b = idx[picks[k] as int];
        let t = swapped(s, a as int, b as int);
        assert(idx.contains(a));
        assert(idx.contains(b));
        lemma_swap_keeps(s, a as int, b as int);
        a_shuffle_stays_within_its_positions(t, idx, picks, k - 1);
        let end = shuffled(s, idx, picks, k);
        assert(end == shuffled(t, idx, picks, k - 1));
        assert forall|x: usize| idx.contains(x) implies #[trigger] receives_from(
            end,
            s,
            idx,
            x,
        ) by {
            assert(receives_from(end, t, idx, x));
            lemma_received_before_swap(end, s, idx, a, b, x);
        }
        assert forall|x: usize| x < s.len() && !idx.contains(x) implies #[trigger] end[x as int]
            == s[x as int] by {
            assert(end[x as int] == t[x as int]);
        }
    } else {
        assert forall|x: usize| idx.contains(x) implies #[trigger] receives_from(
            s,
            s,
            idx,
            x,
        ) by {
            assert(idx.contains(x) && s[x as int] == s[x as int]);
        }
    }
}

proof fn lemma_received_before_swap(
    end: Seq<usize>,
    s: Seq<usize>,
    idx: Seq<usize>,
    a: usize,
    b: usize,
    x: usize,
)
    requires
        all_below(idx, s.len() as int),
        idx.contains(a),
        idx.contains(b),
        receives_from(end, swapped(s, a as int, b as int), idx, x),
    ensures
        receives_from(end, s, idx, x),
{
    let t = swapped(s, a as int, b as int);
    let y = choose|y: usize| #[trigger] idx.contains(y) && end[x as int] == t[y as int];
    let k = choose|k: int| 0 <= k < idx.len() && idx[k] == y;
    assert(idx[k] < s.len());
    if y == b {
        assert(idx.contains(a) && end[x as int] == s[a as int]);
    } else if y == a {
        assert(idx.contains(b) && end[x as int] == s[b as int]);
    } else {
        assert(idx.contains(y) && end[x as int] == s[y as int]);
    }
}

/// Whether a position received the element that some position of `idx` had.
pub open spec fn receives_from(end: Seq<usize>, s: Seq<usize>, idx: Seq<usize>, x: usize) -> bool {
    exists|y: usize| #[trigger] idx.contains(y) && end[x as int] == s[y as int]
}

/// The order of records by test year and account product.
pub open spec fn by_stratum(folds: Seq<FoldRecord>) -> spec_fn(usize, usize) -> bool {
    |a: usize, b: usize|
        folds[a as int].test_year < folds[b as int].test_year || (folds[a as int].test_year
            == folds[b as int].test_year && text_le(
            folds[a as int].account@,
            folds[b as int].account@,
        ))
}

/// Whether two records test the same year on the same account product.
pub open spec fn same_stratum(folds: Seq<FoldRecord>, a: int, b: int) -> bool {
    folds[a].test_year == folds[b].test_year && folds[a].account@ == folds[b].account@
}

spec fn stratum_le(folds: &Vec<FoldRecord>, a: usize, b: usize) -> bool {
    by_stratum(folds@)(a, b)
}

/// The records of each test year and account product.
pub fn strata_of(folds: &Vec<FoldRecord>) -> (r: Vec<Vec<usize>>)
    ensures
        are_classes(r@, by_stratum(folds@), folds@.len() as int),
{
    let n: usize = folds.len();
    let ghost rel = by_stratum(folds@);
    proof {
        assert forall|a: usize, b: usize| #![trigger rel(a, b)] a < n && b < n implies rel(a, b)
            || rel(b, a) by {
            texts_are_totally_ordered(
                folds@[a as int].account@,
                folds@[b as int].account@,
                folds@[a as int].account@,
            );
        }
        assert forall|a: usize, b: usize, c: usize|
            #![trigger rel(a, b), rel(b, c)]
            a < n && b < n && c < n && rel(a, b) && rel(b, c) implies rel(a, c) by {
            texts_are_totally_ordered(
                folds@[a as int].account@,
                folds@[b as int].account@,
                folds@[c as int].account@,
            );
        }
    }
    let le = |a: usize, b: usize| -> (o: bool)
        requires
            a < folds@.len(),
            b < folds@.len(),
        ensures
            o == stratum_le(folds, a, b),
        {
            folds[a].test_year < folds[b].test_year || (folds[a].test_year == folds[b].test_year
                && comes_before(folds[a].account.as_str(), folds[b].account.as_str()))
        };
    group_positions(n, le, Ghost(rel))
}

/// Whether `group_of` gives every position the number of its group.
pub open spec fn numbers_groups(
    group_of: Seq<usize>,
    groups: Seq<Vec<usize>>,
    n: int,
) -> bool {
    &&& group_of.len() == n
    &&& all_below(group_of, groups.len() as int)
    &&& forall|g: int, x: usize|
        0 <= g < groups.len() && #[trigger] groups[g]@.contains(x) ==> group_of[x as int] == g
}

/// Whether every position below `n` is in exactly one group.
pub open spec fn is_partition(groups: Seq<Vec<usize>>, n: int) -> bool {
    &&& forall|g: int| 0 <= g < groups.len() ==> all_below((#[trigger] groups[g])@, n)
    &&& forall|g: int, h: int, x: usize|
        #![trigger groups[g]@.contains(x), groups[h]@.contains(x)]
        0 <= g < groups.len() && 0 <= h < groups.len() && groups[g]@.contains(x)
            && groups[h]@.contains(x) ==> g == h
    &&& forall|x: usize| x < n ==> #[trigger] held(groups, x)
}

fn mark(r: &mut Vec<usize>, at: &Vec<usize>, g: usize)
    requires
        all_below(at@, old(r)@.len() as int),
    ensures
        final(r)@.len() == old(r)@.len(),
        forall|x: usize| #[trigger] at@.contains(x) ==> final(r)@[x as int] == g,
        forall|x: usize|
            x < old(r)@.len() && !at@.contains(x) ==> #[trigger] final(r)@[x as int] == old(
                r,
            )@[x as int],
{
    let ghost before = r@;
    let mut k: usize = 0;
    while k < at.len()
        invariant
            all_below(at@, r@.len() as int),
            r@.len() == before.len(),
            k <= at@.len(),
            forall|x: usize|
                x < before.len() && !at@.contains(x) ==> #[trigger] r@[x as int] == before[x as int],
            forall|j: int| 0 <= j < k ==> r@[#[trigger] at@[j] as int] == g,
        decreases at@.len() - k,
    {
        let x: usize = at[k];
        proof {
            assert(at@.contains(at@[k as int]));
        }
        r.set(x, g);
        k = k + 1;
    }
    proof {
        assert forall|x: usize| #[trigger] at@.contains(x) implies r@[x as int] == g by {
            let j = choose|j: int| 0 <= j < at@.len() && at@[j] == x;
            assert(r@[at@[j] as int] == g);
        }
    }
}

/// The number of the group of each position.
pub fn group_numbers(groups: &Vec<Vec<usize>>, n: usize) -> (r: Vec<usize>)
    requires
        is_partition(groups@, n as int),
    ensures
        numbers_groups(r@, groups@, n as int),
{
    let mut r: Vec<usize> = Vec::new();
    let mut i: usize = 0;
    while i < n
        invariant
            i <= n,
            r@.len() == i,
        decreases n - i,
    {
        r.push(0);
        i = i + 1;
    }
    let mut g: usize = 0;
    while g < groups.len()
        invariant
            is_partition(groups@, n as int),
            r@.len() == n,
            g <= groups@.len(),
            forall|h: int, x: usize|
                0 <= h < g && #[trigger] groups@[h]@.contains(x) ==> r@[x as int] == h,
        decreases groups@.len() - g,
    {
        let ghost before = r@;
        mark(&mut r, &groups[g], g);
        proof {
            assert forall|h: int, x: usize|
                0 <= h < g + 1 && #[trigger] groups@[h]@.contains(x) implies r@[x as int] == h by {
                let k = choose|k: int| 0 <= k < groups@[h]@.len() && groups@[h]@[k] == x;
                assert(all_below(groups@[h]@, n as int));
                assert(groups@[h]@[k] < n);
                if h < g {
                    assert(!groups@[g as int]@.contains(x));
                    assert(r@[x as int] == before[x as int]);
                }
            }
        }
        g = g + 1;
    }
    proof {
        assert forall|i: int| 0 <= i < r@.len() implies (#[trigger] r@[i]) < groups@.len() by {
            let x = i as usize;
            assert(held(groups@, x));
            let h = choose|h: int| 0 <= h < groups@.len() && (#[trigger] groups@[h])@.contains(x);
            assert(r@[x as int] == h);
        }
    }
    r
}

proof fn lemma_configurations_partition(groups: Seq<Vec<usize>>, folds: Seq<FoldRecord>)
    requires
        are_classes(groups, by_key(folds), folds.len() as int),
        folds.len() <= usize::MAX,
    ensures
        is_partition(groups, folds.len() as int),
{
    let n = folds.len() as int;
    assert forall|g: int| 0 <= g < groups.len() implies all_below((#[trigger] groups[g])@, n) by {
        lemma_class_members(groups, folds, g);
    }
    assert forall|g: int, h: int, x: usize|
        #![trigger groups[g]@.contains(x), groups[h]@.contains(x)]
        0 <= g < groups.len() && 0 <= h < groups.len() && groups[g]@.contains(x)
            && groups[h]@.contains(x) implies g == h by {
        if g < h {
            lemma_classes_disjoint(groups, folds, g, h, x);
        } else if h < g {
            lemma_classes_disjoint(groups, folds, h, g, x);
        }
    }
    assert forall|x: usize| x < n implies #[trigger] held(groups, x) by {
        let all = positions(n);
        assert(all[x as int] == x);
        assert(all.contains(x));
    }
}

proof fn lemma_classes_disjoint(
    groups: Seq<Vec<usize>>,
    folds: Seq<FoldRecord>,
    g: int,
    h: int,
    x: usize,
)
    requires
        are_classes(groups, by_key(folds), folds.len() as int),
        folds.len() <= usize::MAX,
        0 <= g < h < groups.len(),
        groups[g]@.contains(x),
    ensures
        !groups[h]@.contains(x),
{
    lemma_class_members(groups, folds, g);
    lemma_class_members(groups, folds, h);
    let a = group_text(folds[groups[g]@[0] as int]);
    texts_are_totally_ordered(a, a, a);
    assert(!by_key(folds)(groups[h]@[0], groups[g]@[0]));
}

/// The outcomes of all records.
pub open spec fn all_outcomes(folds: Seq<FoldRecord>, bear_year: i32) -> Seq<Outcome> {
    folds.map_values(|r: FoldRecord| outcome_of(r, bear_year))
}

/// Outcomes taken from the given positions.
pub open spec fn gathered(outcomes: Seq<Outcome>, source: Seq<usize>) -> Seq<Outcome> {
    source.map_values(|i: usize| outcomes[i as int])
}

/// Whether `source` moves outcomes between records within each test year and
/// account product only, each outcome to exactly one record.
pub open spec fn is_reassignment(folds: Seq<FoldRecord>, source: Seq<usize>) -> bool {
    &&& source.to_multiset() == positions(folds.len() as int).to_multiset()
    &&& source.len() == folds.len()
    &&& all_below(source, folds.len() as int)
    &&& forall|i: int|
        0 <= i < folds.len() ==> same_stratum(folds, i, (#[trigger] source[i]) as int)
}

/// The ranges drawn to shuffle `n` positions: for each of them from the last down
/// to the second, one for every position up to it.
pub open spec fn pick_ranges(n: int) -> Seq<nat> {
    Seq::new(
        if n > 0 {
            (n - 1) as nat
        } else {
            0
        },
        |j: int| (n - j) as nat,
    )
}

/// The picks for `n` positions that a generator made from `seed` draws after the
/// ranges `past`.
pub open spec fn seeded_picks(seed: u64, past: Seq<nat>, n: int) -> Seq<usize> {
    Seq::new(
        n as nat,
        |k: int|
            if k == 0 {
                0
            } else {
                seeded_draw(seed, past + pick_ranges(n).take(n - k)) as usize
            },
    )
}

/// The ranges drawn to shuffle the first `g` strata.
pub open spec fn strata_ranges(strata: Seq<Vec<usize>>, g: int) -> Seq<nat>
    decreases g,
{
    if g <= 0 {
        Seq::empty()
    } else {
        strata_ranges(strata, g - 1) + pick_ranges(strata[g - 1]@.len() as int)
    }
}

/// The ranges drawn for the first `p` shuffles of all strata.
pub open spec fn shuffle_ranges(strata: Seq<Vec<usize>>, p: int) -> Seq<nat>
    decreases p,
{
    if p <= 0 {
        Seq::empty()
    } else {
        shuffle_ranges(strata, p - 1) + strata_ranges(strata, strata.len() as int)
    }
}

/// The positions below `n` after the first `g` strata were shuffled, by a
/// generator made from `seed`, after the ranges `past`.
pub open spec fn shuffled_strata(
    strata: Seq<Vec<usize>>,
    n: int,
    seed: u64,
    past: Seq<nat>,
    g: int,
) -> Seq<usize>
    decreases g,
{
    if g <= 0 {
        positions(n)
    } else {
        let idx = strata[g - 1]@;
        let picks = seeded_picks(seed, past + strata_ranges(strata, g - 1), idx.len() as int);
        shuffled(shuffled_strata(strata, n, seed, past, g - 1), idx, picks, idx.len() - 1)
    }
}

/// The `p`-th shuffle of the positions below `n` within the strata.
pub open spec fn shuffle_of(strata: Seq<Vec<usize>>, n: int, seed: u64, p: int) -> Seq<usize> {
    shuffled_strata(strata, n, seed, shuffle_ranges(strata, p), strata.len() as int)
}

/// Whether `source` is a reassignment of the outcomes under which `count`
/// configurations clear the gates.
pub open spec fn passes_under(
    folds: Seq<FoldRecord>,
    group_of: Seq<usize>,
    n_groups: int,
    gates: Gates,
    source: Seq<usize>,
    count: usize,
) -> bool {
    &&& is_reassignment(folds, source)
    &&& count == passers(
        group_of,
        gathered(all_outcomes(folds, gates.bear_year), source),
        n_groups,
        gates,
    )
}

/// How many configurations clear the gates purely by chance.
pub struct PermutationNull {
    /// The records of each configuration.
    pub groups: Vec<Vec<usize>>,
    /// The number of the configuration of each record.
    pub group_of: Vec<usize>,
    /// The records of each test year and account product.
    pub strata: Vec<Vec<usize>>,
    /// The passers under each shuffle.
    pub counts: Vec<usize>,
}

impl PermutationNull {
    /// Whether these are the counts under the shuffles of the given records'
    /// outcomes that come of a seed. Every shuffle is a reassignment.
    pub open spec fn is_of(
        self,
        folds: Seq<FoldRecord>,
        gates: Gates,
        rng_seed: u64,
        n_perm: int,
    ) -> bool {
        &&& are_classes(self.groups@, by_key(folds), folds.len() as int)
        &&& numbers_groups(self.group_of@, self.groups@, folds.len() as int)
        &&& are_classes(self.strata@, by_stratum(folds), folds.len() as int)
        &&& self.counts@.len() == n_perm
        &&& forall|p: int|
            0 <= p < n_perm ==> passes_under(
                folds,
                self.group_of@,
                self.groups@.len() as int,
                gates,
                shuffle_of(self.strata@, folds.len() as int, rng_seed ^ NULL_TAG, p),
                #[trigger] self.counts@[p],
            )
    }
}

/// Whether what a generator has coming is what one made from `seed` has after
/// the ranges `past`.
spec fn continues(rng: StdRng, seed: u64, past: Seq<nat>) -> bool {
    forall|s: Seq<nat>|
        s.len() > 0 ==> #[trigger] upcoming(rng)[s] == seeded_draw(seed, past + s)
}

fn draw_picks(
    rng: &mut StdRng,
    n: usize,
    Ghost(seed): Ghost<u64>,
    Ghost(past): Ghost<Seq<nat>>,
) -> (r: Vec<usize>)
    requires
        continues(*old(rng), seed, past),
    ensures
        picks_fit(r@, n as int),
        r@ == seeded_picks(seed, past, n as int),
        continues(*final(rng), seed, past + pick_ranges(n as int)),
{
    let ghost ranges = pick_ranges(n as int);
    let mut r: Vec<usize> = Vec::new();
    if n > 0 {
        r.push(0);
    }
    let mut k: usize = n;
    let mut back: Vec<usize> = Vec::new();
    proof {
        assert(past + ranges.take(0) =~= past);
    }
    while k > 1
        invariant
            k <= n,
            n > 0 ==> r@.len() == 1 && r@[0] == 0,
            n == 0 ==> r@.len() == 0,
            n >= 1 ==> k >= 1,
            ranges == pick_ranges(n as int),
            continues(*rng, seed, past + ranges.take(n - k)),
            back@.len() == n - k,
            forall|j: int|
                0 <= j < back@.len() ==> (#[trigger] back@[j]) <= n - 1 - j && back@[j]
                    == seeded_draw(seed, past + ranges.take(j + 1)),
        decreases k,
    {
        let ghost before = *rng;
        let pick: usize = draw_below(rng, k as u64) as usize;
        proof {
            let one = seq![k as nat];
            let so_far = past + ranges.take(n - k);
            let next = past + ranges.take(n - k + 1);
            assert(ranges[n - k] == k);
            assert(so_far + one =~= next);
            assert(upcoming(before)[one] == seeded_draw(seed, next));
            assert forall|s: Seq<nat>| s.len() > 0 implies #[trigger] upcoming(*rng)[s]
                == seeded_draw(seed, next + s) by {
                assert(so_far + (one + s) =~= next + s);
                assert(upcoming(before)[one + s] == seeded_draw(seed, next + s));
            }
        }
        back.push(pick);
        k = k - 1;
    }
    proof {
        assert(ranges.take(n - k) =~= ranges);
    }
    while r.len() < n
        invariant
            n >= 1 ==> 1 <= r@.len() && r@[0] == 0,
            r@.len() <= n,
            n > 0 ==> back@.len() == n - 1,
            ranges == pick_ranges(n as int),
            forall|j: int|
                0 <= j < back@.len() ==> (#[trigger] back@[j]) <= n - 1 - j && back@[j]
                    == seeded_draw(seed, past + ranges.take(j + 1)),
            forall|j: int| 0 <= j < r@.len() ==> (#[trigger] r@[j]) <= j,
            forall|j: int|
                1 <= j < r@.len() ==> #[trigger] r@[j] == seeded_draw(
                    seed,
                    past + ranges.take(n - j),
                ),
        decreases n - r@.len(),
    {
        let at: usize = n - 1 - r.len();
        r.push(back[at]);
    }
    proof {
        assert(r@ =~= seeded_picks(seed, past, n as int));
    }
    r
}

proof fn lemma_shuffle_reassigns(
    folds: Seq<FoldRecord>,
    source: Seq<usize>,
    idx: Seq<usize>,
    picks: Seq<usize>,
)
    requires
        is_reassignment(folds, source),
        folds.len() <= usize::MAX,
        all_below(idx, folds.len() as int),
        picks_fit(picks, idx.len() as int),
        forall|i: int, j: int|
            0 <= i < idx.len() && 0 <= j < idx.len() ==> same_stratum(
                folds,
                #[trigger] idx[i] as int,
                #[trigger] idx[j] as int,
            ),
    ensures
        is_reassignment(folds, shuffled(source, idx, picks, idx.len() - 1)),
{
    let end = shuffled(source, idx, picks, idx.len() - 1);
    a_shuffle_stays_within_its_positions(source, idx, picks, idx.len() - 1);
    let n = folds.len() as int;
    assert forall|i: int| 0 <= i < n implies (#[trigger] end[i]) < n && same_stratum(
        folds,
        i,
        end[i] as int,
    ) by {
        let x = i as usize;
        if idx.contains(x) {
            assert(receives_from(end, source, idx, x));
            let y = choose|y: usize| #[trigger]
                idx.contains(y) && end[x as int] == source[y as int];
            let a = choose|a: int| 0 <= a < idx.len() && idx[a] == x;
            let b = choose|b: int| 0 <= b < idx.len() && idx[b] == y;
            assert(same_stratum(folds, idx[a] as int, idx[b] as int));
            assert(idx[b] < n);
            assert(same_stratum(folds, y as int, source[y as int] as int));
        } else {
            assert(end[x as int] == source[x as int]);
        }
    }
}

proof fn lemma_stratum_members(strata: Seq<Vec<usize>>, folds: Seq<FoldRecord>, g: int)
    requires
        are_classes(strata, by_stratum(folds), folds.len() as int),
        folds.len() <= usize::MAX,
        0 <= g < strata.len(),
    ensures
        all_below(strata[g]@, folds.len() as int),
        forall|i: int, j: int|
            0 <= i < strata[g]@.len() && 0 <= j < strata[g]@.len() ==> same_stratum(
                folds,
                #[trigger] strata[g]@[i] as int,
                #[trigger] strata[g]@[j] as int,
            ),
{
    let n = folds.len() as int;
    let idx = strata[g]@;
    let all = positions(n);
    let head = idx[0];
    assert forall|i: int| 0 <= i < idx.len() implies (#[trigger] idx[i]) < n && same_stratum(
        folds,
        idx[i] as int,
        head as int,
    ) by {
        assert(strata[g]@.contains(idx[i]));
        assert(all.contains(idx[i]));
        assert(alike(by_stratum(folds), idx[i], head));
        let a = folds[idx[i] as int].account@;
        let b = folds[head as int].account@;
        texts_are_totally_ordered(a, b, a);
    }
}

fn shuffled_source(
    folds: &Vec<FoldRecord>,
    strata: &Vec<Vec<usize>>,
    rng: &mut StdRng,
    Ghost(seed): Ghost<u64>,
    Ghost(past): Ghost<Seq<nat>>,
) -> (r: Vec<usize>)
    requires
        are_classes(strata@, by_stratum(folds@), folds@.len() as int),
        continues(*old(rng), seed, past),
    ensures
        is_reassignment(folds@, r@),
        r@ == shuffled_strata(
            strata@,
            folds@.len() as int,
            seed,
            past,
            strata@.len() as int,
        ),
        continues(*final(rng), seed, past + strata_ranges(strata@, strata@.len() as int)),
{
    let n: usize = folds.len();
    let mut source: Vec<usize> = Vec::new();
    let mut i: usize = 0;
    while i < n
        invariant
            i <= n,
            source@.len() == i,
            forall|k: int| 0 <= k < i ==> #[trigger] source@[k] == k,
        decreases n - i,
    {
        source.push(i);
        i = i + 1;
    }
    proof {
        assert(source@ =~= positions(n as int));
        assert(past + strata_ranges(strata@, 0) =~= past);
    }
    let mut g: usize = 0;
    while g < strata.len()
        invariant
            n == folds@.len(),
            are_classes(strata@, by_stratum(folds@), folds@.len() as int),
            g <= strata@.len(),
            is_reassignment(folds@, source@),
            source@ == shuffled_strata(strata@, n as int, seed, past, g as int),
            continues(*rng, seed, past + strata_ranges(strata@, g as int)),
        decreases strata@.len() - g,
    {
        let ghost so_far = past + strata_ranges(strata@, g as int);
        let picks: Vec<usize> = draw_picks(rng, strata[g].len(), Ghost(seed), Ghost(so_far));
        proof {
            lemma_stratum_members(strata@, folds@, g as int);
            lemma_shuffle_reassigns(folds@, source@, strata@[g as int]@, picks@);
            assert(so_far + pick_ranges(strata@[g as int]@.len() as int) =~= past + strata_ranges(
                strata@,
                g + 1,
            ));
        }
        shuffle_stratum(&mut source, &strata[g], &picks);
        g = g + 1;
    }
    source
}

/// Marks the seed of the permutation null.
pub const NULL_TAG: u64 = 0x5045_524D;

/// Estimate how many configurations clear the gates purely by chance.
///
/// Outcomes are shuffled across configurations within each test year and account
/// product. That destroys the mapping from configuration to result while leaving
/// the distribution of results in each stratum untouched, so the passer count
/// under the shuffle is a direct estimate of the false-positive count at this
/// search width. The seed decides which shuffles are drawn.
pub fn permutation_null(
    folds: &Vec<FoldRecord>,
    gates: &Gates,
    rng_seed: u64,
    n_perm: usize,
) -> (r: Option<PermutationNull>)
    requires
        reportable(folds@),
        gates.in_range(),
    ensures
        r is None <==> n_perm == 0 || folds@.len() == 0,
        r matches Some(null) ==> null.is_of(folds@, *gates, rng_seed, n_perm as int),
{
    if n_perm == 0 || folds.len() == 0 {
        return None;
    }
    let n: usize = folds.len();
    let groups: Vec<Vec<usize>> = configurations(folds);
    proof {
        lemma_configurations_partition(groups@, folds@);
    }
    let group_of: Vec<usize> = group_numbers(&groups, n);
    let strata: Vec<Vec<usize>> = strata_of(folds);
    let mut outcomes: Vec<Outcome> = Vec::new();
    let mut i: usize = 0;
    while i < n
        invariant
            reportable(folds@),
            n == folds@.len(),
            i <= n,
            outcomes@.len() == i,
            forall|k: int|
                0 <= k < i ==> #[trigger] outcomes@[k] == outcome_of(folds@[k], gates.bear_year)
                    && outcomes@[k].in_range(),
        decreases n - i,
    {
        outcomes.push(outcome(&folds[i], gates.bear_year));
        i = i + 1;
    }
    proof {
        assert(outcomes@ =~= all_outcomes(folds@, gates.bear_year));
    }
    let ghost seed = rng_seed ^ NULL_TAG;
    let mut rng: StdRng = rng_from_seed(rng_seed ^ NULL_TAG);
    let mut counts: Vec<usize> = Vec::new();
    proof {
        assert forall|s: Seq<nat>| s.len() > 0 implies #[trigger] upcoming(rng)[s]
            == seeded_draw(seed, shuffle_ranges(strata@, 0) + s) by {
            assert(shuffle_ranges(strata@, 0) + s =~= s);
        }
    }
    while counts.len() < n_perm
        invariant
            reportable(folds@),
            gates.in_range(),
            n == folds@.len(),
            outcomes@ == all_outcomes(folds@, gates.bear_year),
            outcomes@.len() == n,
            forall|k: int| 0 <= k < n ==> (#[trigger] outcomes@[k]).in_range(),
            numbers_groups(group_of@, groups@, n as int),
            are_classes(strata@, by_stratum(folds@), n as int),
            counts@.len() <= n_perm,
            continues(rng, seed, shuffle_ranges(strata@, counts@.len() as int)),
            forall|p: int|
                0 <= p < counts@.len() ==> passes_under(
                    folds@,
                    group_of@,
                    groups@.len() as int,
                    *gates,
                    shuffle_of(strata@, n as int, seed, p),
                    #[trigger] counts@[p],
                ),
        decreases n_perm - counts@.len(),
    {
        let source: Vec<usize> = shuffled_source(
            folds,
            &strata,
            &mut rng,
            Ghost(seed),
            Ghost(shuffle_ranges(strata@, counts@.len() as int)),
        );
        let moved: Vec<Outcome> = gather(&outcomes, &source);
        let count: usize = count_passers(&group_of, &moved, groups.len(), gates);
        proof {
            assert(source@ == shuffle_of(strata@, n as int, seed, counts@.len() as int));
            assert(passes_under(
                folds@,
                group_of@,
                groups@.len() as int,
                *gates,
                source@,
                count,
            ));
        }
        counts.push(count);
    }
    Some(PermutationNull { groups, group_of, strata, counts })
}

fn gather(outcomes: &Vec<Outcome>, source: &Vec<usize>) -> (r: Vec<Outcome>)
    requires
        all_below(source@, outcomes@.len() as int),
        forall|k: int| 0 <= k < outcomes@.len() ==> (#[trigger] outcomes@[k]).in_range(),
    ensures
        r@ == gathered(outcomes@, source@),
        r@.len() == source@.len(),
        forall|k: int| 0 <= k < r@.len() ==> (#[trigger] r@[k]).in_range(),
{
    let mut r: Vec<Outcome> = Vec::new();
    let mut i: usize = 0;
    while i < source.len()
        invariant
            all_below(source@, outcomes@.len() as int),
            forall|k: int| 0 <= k < outcomes@.len() ==> (#[trigger] outcomes@[k]).in_range(),
            i <= source@.len(),
            r@.len() == i,
            forall|k: int| 0 <= k < i ==> #[trigger] r@[k] == outcomes@[source@[k] as int],
            forall|k: int| 0 <= k < i ==> (#[trigger] r@[k]).in_range(),
        decreases source@.len() - i,
    {
        let at: usize = source[i];
        r.push(outcomes[at]);
        i = i + 1;
    }
    proof {
        assert(r@ =~= gathered(outcomes@, source@));
    }
    r
}

/// The mean of counts, and their variance where there are at least two.
pub fn spread(counts: &Vec<usize>) -> (r: (Fraction, Option<Fraction>))
    requires
        0 < counts@.len() <= 1_000_000_000,
        forall|i: int| 0 <= i < counts@.len() ==> (#[trigger] counts@[i]) <= MAX_SAMPLE_LEN,
    ensures
        r.0.num == total(counts@.map_values(|c: usize| c as int)),
        r.0.den == counts@.len(),
        r.1 is Some <==> counts@.len() > 1,
        r.1 matches Some(v) ==> {
            let sum = total(counts@.map_values(|c: usize| c as int));
            &&& v.num == counts@.len() * total(counts@.map_values(|c: usize| c * c)) - sum * sum
            &&& v.den == counts@.len() * counts@.len()
        },
{
    let ghost plain = counts@.map_values(|c: usize| c as int);
    let ghost squares = counts@.map_values(|c: usize| c * c);
    let mut sum: i128 = 0;
    let mut square_sum: i128 = 0;
    let mut i: usize = 0;
    proof {
        assert(plain.take(0) =~= Seq::<int>::empty());
        assert(squares.take(0) =~= Seq::<int>::empty());
    }
    while i < counts.len()
        invariant
            counts@.len() <= 1_000_000_000,
            forall|k: int| 0 <= k < counts@.len() ==> (#[trigger] counts@[k]) <= MAX_SAMPLE_LEN,
            plain == counts@.map_values(|c: usize| c as int),
            squares == counts@.map_values(|c: usize| c * c),
            i <= counts@.len(),
            sum == total(plain.take(i as int)),
            square_sum == total(squares.take(i as int)),
            0 <= sum <= 40_000_000 * i,
            0 <= square_sum <= 1_600_000_000_000_000 * i,
        decreases counts@.len() - i,
    {
        let c: i128 = counts[i] as i128;
        proof {
            assert(plain.take(i + 1).drop_last() =~= plain.take(i as int));
            assert(squares.take(i + 1).drop_last() =~= squares.take(i as int));
            assert(0 <= c * c <= 1_600_000_000_000_000) by (nonlinear_arith)
                requires
                    0 <= c <= 40_000_000,
            ;
        }
        sum = sum + c;
        square_sum = square_sum + c * c;
        i = i + 1;
    }
    let n: i128 = counts.len() as i128;
    proof {
        assert(plain.take(counts@.len() as int) =~= plain);
        assert(squares.take(counts@.len() as int) =~= squares);
        assert(0 <= n * square_sum <= 2_000_000_000_000_000_000_000_000_000_000_000_000)
            by (nonlinear_arith)
            requires
                0 <= n <= 1_000_000_000,
                0 <= square_sum <= 1_600_000_000_000_000_000_000_000,
        ;
        assert(0 <= sum * sum <= 2_000_000_000_000_000_000_000_000_000_000_000_000)
            by (nonlinear_arith)
            requires
                0 <= sum <= 40_000_000_000_000_000,
        ;
        assert(0 < n * n <= 1_000_000_000_000_000_000) by (nonlinear_arith)
            requires
                0 < n <= 1_000_000_000,
        ;
    }
    let variance: Option<Fraction> = if counts.len() > 1 {
        Some(Fraction { num: n * square_sum - sum * sum, den: n * n })
    } else {
        None
    };
    (Fraction { num: sum, den: n }, variance)
}

/// Whether a number of passers is no more than one and a half times what chance
/// gives, on average.
pub open spec fn looks_like_noise(observed: int, mean: Fraction) -> bool {
    2 * observed * mean.den <= 3 * mean.num
}

/// Whether a passing set cannot be told from noise at this search width.
pub fn is_noise(observed: usize, mean: &Fraction) -> (r: bool)
    requires
        observed <= MAX_SAMPLE_LEN,
        0 < mean.den <= 1_000_000_000,
        0 <= mean.num <= 40_000_000_000_000_000,
    ensures
        r == looks_like_noise(observed as int, *mean),
{
    let o: i128 = 2 * observed as i128;
    let den: i128 = mean.den;
    proof {
        assert(0 <= o * den <= 80_000_000_000_000_000) by (nonlinear_arith)
            requires
                0 <= o <= 80_000_000,
                0 < den <= 1_000_000_000,
        ;
    }
    o * den <= 3 * mean.num
}

// ---------------------------------------------------------------------------
// Laws
// ---------------------------------------------------------------------------

proof fn lemma_group_outcomes(
    folds: Seq<FoldRecord>,
    bear_year: i32,
    group_of: Seq<usize>,
    idx: Seq<usize>,
    g: usize,
    n: int,
    k: int,
)
    requires
        group_of.len() == folds.len(),
        0 <= n <= folds.len() <= usize::MAX,
        0 <= k <= idx.len(),
        forall|i: int, j: int| 0 <= i < j < idx.len() ==> idx[i] < idx[j],
        forall|j: int| 0 <= j < k ==> (#[trigger] idx[j]) < n,
        forall|j: int| k <= j < idx.len() ==> (#[trigger] idx[j]) >= n,
        forall|x: usize| x < folds.len() ==> (#[trigger] idx.contains(x) <==> group_of[x as int] == g),
    ensures
        outcomes_of_group(group_of.take(n), all_outcomes(folds, bear_year).take(n), g)
            =~= outcomes_at(folds, idx.take(k), bear_year),
    decreases n,
{
    let all = all_outcomes(folds, bear_year);
    if n > 0 {
        let x = (n - 1) as usize;
        assert(group_of.take(n).drop_last() =~= group_of.take(n - 1));
        assert(all.take(n).drop_last() =~= all.take(n - 1));
        if group_of[n - 1] == g {
            assert(idx.contains(x));
            let at = choose|at: int| 0 <= at < idx.len() && idx[at] == x;
            assert(at < k);
            if at < k - 1 {
                assert(idx[at] < idx[k - 1]);
            }
            assert forall|j: int| 0 <= j < k - 1 implies (#[trigger] idx[j]) < n - 1 by {
                assert(idx[j] < idx[at]);
            }
            lemma_group_outcomes(folds, bear_year, group_of, idx, g, n - 1, k - 1);
            assert(idx.take(k) =~= idx.take(k - 1).push(x));
        } else {
            assert forall|j: int| 0 <= j < k implies (#[trigger] idx[j]) < n - 1 by {
                if idx[j] == x {
                    assert(idx.contains(x));
                }
            }
            lemma_group_outcomes(folds, bear_year, group_of, idx, g, n - 1, k);
        }
    } else {
        if k > 0 {
            assert(idx[0] < n);
        }
    }
}

/// Whether `group_of` numbers the configurations of the records: records of one
/// configuration share a number, others do not, and every number below `n` is
/// used.
pub open spec fn numbers_configurations(
    group_of: Seq<usize>,
    n: int,
    folds: Seq<FoldRecord>,
) -> bool {
    &&& group_of.len() == folds.len()
    &&& all_below(group_of, n)
    &&& forall|i: int, j: int|
        0 <= i < folds.len() && 0 <= j < folds.len() ==> (#[trigger] group_of[i]
            == #[trigger] group_of[j] <==> group_text(folds[i]) == group_text(folds[j]))
    &&& forall|g: usize| g < n ==> #[trigger] group_of.contains(g)
}

/// The permutation null numbers the configurations.
pub proof fn the_null_numbers_the_configurations(
    folds: Seq<FoldRecord>,
    gates: Gates,
    null: PermutationNull,
    rng_seed: u64,
    n_perm: int,
)
    requires
        folds.len() <= usize::MAX,
        null.is_of(folds, gates, rng_seed, n_perm),
    ensures
        numbers_configurations(null.group_of@, null.groups@.len() as int, folds),
{
    let groups = null.groups@;
    let group_of = null.group_of@;
    lemma_configurations_partition(groups, folds);
    assert forall|i: int, j: int|
        0 <= i < folds.len() && 0 <= j < folds.len() implies (#[trigger] group_of[i]
        == #[trigger] group_of[j] <==> group_text(folds[i]) == group_text(folds[j])) by {
        let (x, y) = (i as usize, j as usize);
        assert(held(groups, x) && held(groups, y));
        let g = choose|g: int| 0 <= g < groups.len() && (#[trigger] groups[g])@.contains(x);
        let h = choose|h: int| 0 <= h < groups.len() && (#[trigger] groups[h])@.contains(y);
        lemma_class_members(groups, folds, g);
        lemma_class_members(groups, folds, h);
        assert(group_of[i] == g && group_of[j] == h);
        if group_text(folds[i]) == group_text(folds[j]) {
            assert(groups[g]@.contains(y));
        }
    }
    assert forall|g: usize| g < groups.len() implies #[trigger] group_of.contains(g) by {
        lemma_class_members(groups, folds, g as int);
        let x = groups[g as int]@[0];
        assert(groups[g as int]@.contains(x));
        assert(group_of[x as int] == g);
    }
}

/// The ranking and the permutation null apply the same gates: a configuration is
/// deployable exactly where its group, with the outcomes left in place, clears
/// them, however the configurations are numbered.
pub proof fn the_null_applies_the_ranking_gates(
    folds: Seq<FoldRecord>,
    w: Weights,
    gates: Gates,
    a: Aggregated,
    group_of: Seq<usize>,
    n_groups: int,
)
    requires
        folds.len() <= usize::MAX,
        a.is_of(folds, w, gates),
        numbers_configurations(group_of, n_groups, folds),
    ensures
        a.deploy_ready == clears(
            outcomes_of_group(
                group_of,
                all_outcomes(folds, gates.bear_year),
                group_of[a.members@[0] as int],
            ),
            gates,
        ),
{
    let idx = a.members@;
    let head = idx[0];
    let n = folds.len() as int;
    assert(idx.contains(head));
    let g = group_of[head as int];
    assert forall|x: usize| x < folds.len() implies (#[trigger] idx.contains(x) <==> group_of[x as int]
        == g) by {
        assert(group_of[x as int] == group_of[head as int] <==> group_text(folds[x as int])
            == group_text(folds[head as int]));
    }
    assert forall|j: int| 0 <= j < idx.len() implies (#[trigger] idx[j]) < n by {
        assert(idx.contains(idx[j]));
    }
    lemma_group_outcomes(folds, gates.bear_year, group_of, idx, g, n, idx.len() as int);
    assert(group_of.take(n) =~= group_of);
    let all = all_outcomes(folds, gates.bear_year);
    assert(all.take(n) =~= all);
    assert(idx.take(idx.len() as int) =~= idx);
}

/// Leaving every outcome in place is one of the reassignments that the null draws
/// from.
pub proof fn no_shuffle_is_a_reassignment(folds: Seq<FoldRecord>)
    requires
        folds.len() <= usize::MAX,
    ensures
        is_reassignment(folds, positions(folds.len() as int)),
{
}

/// A reassignment gives every record the outcome of one record of its own test
/// year and account product, and every outcome to exactly one record. So each
/// stratum keeps its outcomes, and bear-year folds stay bear-year folds.
pub proof fn a_reassignment_keeps_each_stratum(
    folds: Seq<FoldRecord>,
    source: Seq<usize>,
    bear_year: i32,
)
    requires
        is_reassignment(folds, source),
        folds.len() <= usize::MAX,
    ensures
        ({
            let moved = gathered(all_outcomes(folds, bear_year), source);
            &&& moved.len() == folds.len()
            &&& forall|i: int|
                0 <= i < folds.len() ==> {
                    let j = (#[trigger] source[i]) as int;
                    &&& 0 <= j < folds.len()
                    &&& same_stratum(folds, i, j)
                    &&& moved[i] == outcome_of(folds[j], bear_year)
                    &&& moved[i].is_bear == (folds[i].test_year == bear_year)
                }
        }),
        forall|x: usize| x < folds.len() ==> #[trigger] source.contains(x),
        forall|i: int, k: int|
            0 <= i < source.len() && 0 <= k < source.len() && source[i] == source[k] ==> i == k,
{
    lemma_positions_once(source, folds.len() as int);
}

/// Every deployable configuration ranks before every other one.
pub proof fn deployable_configurations_come_first(s: Seq<Aggregated>, i: int, j: int)
    requires
        ranked(s),
        0 <= i < s.len(),
        0 <= j < s.len(),
        s[i].deploy_ready,
        !s[j].deploy_ready,
    ensures
        i < j,
{
    if j < i {
        assert(outranks(
            s[j].deploy_ready,
            s[j].summary,
            s[j].key@,
            s[i].deploy_ready,
            s[i].summary,
            s[i].key@,
        ));
    }
}

/// With no weight on the realised expectancy, configurations that are equally
/// deployable rank by their mean expected value per attempt.
pub proof fn the_ranking_follows_expected_value(
    folds: Seq<FoldRecord>,
    w: Weights,
    gates: Gates,
    s: Seq<Aggregated>,
    i: int,
    j: int,
)
    requires
        w.realized == 0,
        w.mc > 0,
        ranked(s),
        0 <= i < j < s.len(),
        s[i].is_of(folds, w, gates),
        s[j].is_of(folds, w, gates),
        s[i].deploy_ready == s[j].deploy_ready,
    ensures
        ({
            let a = s[i].members@;
            let b = s[j].members@;
            nearest(total(ints(column(folds, a, Measure::Ev))), a.len() as int) >= nearest(
                total(ints(column(folds, b, Measure::Ev))),
                b.len() as int,
            )
        }),
{
    let a = s[i].members@;
    let b = s[j].members@;
    let x = nearest(total(ints(column(folds, a, Measure::Ev))), a.len() as int);
    let y = nearest(total(ints(column(folds, b, Measure::Ev))), b.len() as int);
    assert(outranks(
        s[i].deploy_ready,
        s[i].summary,
        s[i].key@,
        s[j].deploy_ready,
        s[j].summary,
        s[j].key@,
    ));
    let p = nearest(total(ints(column(folds, a, Measure::Realized))), a.len() as int);
    let q = nearest(total(ints(column(folds, b, Measure::Realized))), b.len() as int);
    assert(x >= y) by (nonlinear_arith)
        requires
            w.mc * x + w.realized * p >= w.mc * y + w.realized * q,
            w.realized == 0,
            w.mc > 0,
    ;
}

proof fn lemma_count_remove<A>(s: Seq<A>, p: int, f: spec_fn(A) -> bool)
    requires
        0 <= p < s.len(),
    ensures
        count_where(s, f) == count_where(s.remove(p), f) + if f(s[p]) {
            1nat
        } else {
            0
        },
    decreases s.len(),
{
    if p == s.len() - 1 {
        assert(s.remove(p) =~= s.drop_last());
    } else {
        lemma_count_remove(s.drop_last(), p, f);
        assert(s.remove(p).drop_last() =~= s.drop_last().remove(p));
    }
}

/// Counting over numbers each of which occurs once is counting over all of them.
proof fn lemma_count_once(
    s: Seq<usize>,
    n: int,
    f: spec_fn(usize) -> bool,
    group_of: Seq<usize>,
    outcomes: Seq<Outcome>,
    gates: Gates,
)
    requires
        0 <= n <= usize::MAX,
        all_below(s, n),
        forall|i: int, j: int| 0 <= i < s.len() && 0 <= j < s.len() && s[i] == s[j] ==> i == j,
        forall|x: usize| x < n ==> #[trigger] s.contains(x),
        f == (|g: usize| clears(outcomes_of_group(group_of, outcomes, g), gates)),
    ensures
        count_where(s, f) == passers(group_of, outcomes, n, gates),
    decreases n,
{
    if n == 0 {
        if s.len() > 0 {
            assert(s[0] < n);
        }
    } else {
        let last = (n - 1) as usize;
        assert(s.contains(last));
        let p = choose|p: int| 0 <= p < s.len() && s[p] == last;
        let rest = s.remove(p);
        assert forall|i: int| 0 <= i < rest.len() implies (#[trigger] rest[i]) < n - 1 by {
            let at = if i < p {
                i
            } else {
                i + 1
            };
            assert(rest[i] == s[at]);
            assert(s[at] < n);
        }
        assert forall|x: usize| x < n - 1 implies #[trigger] rest.contains(x) by {
            assert(s.contains(x));
            let at = choose|at: int| 0 <= at < s.len() && s[at] == x;
            let to = if at < p {
                at
            } else {
                at - 1
            };
            assert(rest[to] == x);
        }
        lemma_count_remove(s, p, f);
        lemma_count_once(rest, n - 1, f, group_of, outcomes, gates);
    }
}

/// The number of deployable configurations is the number of groups that clear
/// the gates when no outcome is moved, however the configurations are numbered.
pub proof fn the_observed_count_is_the_null_count_of_no_shuffle(
    folds: Seq<FoldRecord>,
    w: Weights,
    gates: Gates,
    r: Seq<Aggregated>,
    group_of: Seq<usize>,
    n_groups: usize,
)
    requires
        folds.len() <= usize::MAX,
        is_ranking(r, folds, w, gates),
        numbers_configurations(group_of, n_groups as int, folds),
    ensures
        count_where(r, |a: Aggregated| a.deploy_ready) == passers(
            group_of,
            all_outcomes(folds, gates.bear_year),
            n_groups as int,
            gates,
        ),
{
    let n = folds.len() as int;
    let m = n_groups as int;
    let outcomes = all_outcomes(folds, gates.bear_year);
    let f = |g: usize| clears(outcomes_of_group(group_of, outcomes, g), gates);
    let number = |a: Aggregated| group_of[a.members@[0] as int];
    let s = r.map_values(number);
    assert forall|k: int| 0 <= k < r.len() implies ({
        let x = (#[trigger] r[k]).members@[0];
        &&& x < n
        &&& s[k] < m
        &&& s[k] == group_of[x as int]
        &&& group_text(folds[x as int]) == r[k].key@
    }) by {
        let x = r[k].members@[0];
        assert(r[k].members@.contains(x));
        assert(group_of[x as int] < m);
    }
    assert forall|i: int, j: int|
        0 <= i < s.len() && 0 <= j < s.len() && s[i] == s[j] implies i == j by {
        let a = r[i].members@[0];
        let b = r[j].members@[0];
        assert(group_of[a as int] == group_of[b as int]);
        assert(r[i].key@ == r[j].key@);
    }
    assert forall|x: usize| x < m implies #[trigger] s.contains(x) by {
        assert(group_of.contains(x));
        let y = choose|y: int| 0 <= y < group_of.len() && group_of[y] == x;
        assert(ranks_record(r, y as usize));
        let k = choose|k: int|
            0 <= k < r.len() && (#[trigger] r[k]).members@.contains(y as usize);
        let z = r[k].members@[0];
        assert(group_text(folds[y]) == r[k].key@);
        assert(group_of[y] == group_of[z as int]);
        assert(s[k] == x);
    }
    assert(all_below(s, m)) by {
        assert forall|k: int| 0 <= k < s.len() implies (#[trigger] s[k]) < m by {
            let a = r[k];
            assert(s[k] == number(a));
        }
    }
    lemma_count_once(s, m, f, group_of, outcomes, gates);
    lemma_ready_count(folds, w, gates, r, group_of, m, s, f);
}

proof fn lemma_ready_count(
    folds: Seq<FoldRecord>,
    w: Weights,
    gates: Gates,
    r: Seq<Aggregated>,
    group_of: Seq<usize>,
    n_groups: int,
    s: Seq<usize>,
    f: spec_fn(usize) -> bool,
)
    requires
        folds.len() <= usize::MAX,
        forall|k: int| 0 <= k < r.len() ==> (#[trigger] r[k]).is_of(folds, w, gates),
        numbers_configurations(group_of, n_groups, folds),
        s.len() == r.len(),
        forall|k: int| 0 <= k < r.len() ==> #[trigger] s[k] == group_of[r[k].members@[0] as int],
        f == (|g: usize|
            clears(outcomes_of_group(group_of, all_outcomes(folds, gates.bear_year), g), gates)),
    ensures
        count_where(r, |a: Aggregated| a.deploy_ready) == count_where(s, f),
    decreases r.len(),
{
    if r.len() > 0 {
        let k = r.len() - 1;
        the_null_applies_the_ranking_gates(folds, w, gates, r[k], group_of, n_groups);
        assert(s[k] == group_of[r[k].members@[0] as int]);
        assert forall|j: int| 0 <= j < r.drop_last().len() implies #[trigger] s.drop_last()[j]
            == group_of[r.drop_last()[j].members@[0] as int] by {
            assert(s[j] == group_of[r[j].members@[0] as int]);
        }
        assert forall|j: int| 0 <= j < r.drop_last().len() implies (
        #[trigger] r.drop_last()[j]).is_of(folds, w, gates) by {
            assert(r[j].is_of(folds, w, gates));
        }
        lemma_ready_count(folds, w, gates, r.drop_last(), group_of, n_groups, s.drop_last(), f);
    }
}

proof fn lemma_keys_are_ordered(folds: Seq<FoldRecord>)
    ensures
        is_preorder(by_key(folds), folds.len() as int),
        is_preorder(by_stratum(folds), folds.len() as int),
{
    let n = folds.len() as int;
    let by_key = by_key(folds);
    assert forall|a: usize, b: usize| #![trigger by_key(a, b)] a < n && b < n implies by_key(a, b)
        || by_key(b, a) by {
        let (x, y) = (group_text(folds[a as int]), group_text(folds[b as int]));
        texts_are_totally_ordered(x, y, x);
    }
    assert forall|a: usize, b: usize, c: usize|
        #![trigger by_key(a, b), by_key(b, c)]
        a < n && b < n && c < n && by_key(a, b) && by_key(b, c) implies by_key(a, c) by {
        texts_are_totally_ordered(
            group_text(folds[a as int]),
            group_text(folds[b as int]),
            group_text(folds[c as int]),
        );
    }
    let by_stratum = by_stratum(folds);
    assert forall|a: usize, b: usize| #![trigger by_stratum(a, b)] a < n && b < n implies by_stratum(
        a,
        b,
    ) || by_stratum(b, a) by {
        let (x, y) = (folds[a as int].account@, folds[b as int].account@);
        texts_are_totally_ordered(x, y, x);
    }
    assert forall|a: usize, b: usize, c: usize|
        #![trigger by_stratum(a, b), by_stratum(b, c)]
        a < n && b < n && c < n && by_stratum(a, b) && by_stratum(b, c) implies by_stratum(
        a,
        c,
    ) by {
        texts_are_totally_ordered(
            folds[a as int].account@,
            folds[b as int].account@,
            folds[c as int].account@,
        );
    }
}

/// Whether two lists of groups hold the same positions.
spec fn same_groups(a: Seq<Vec<usize>>, b: Seq<Vec<usize>>) -> bool {
    a.len() == b.len() && forall|g: int| 0 <= g < a.len() ==> (#[trigger] a[g])@ == b[g]@
}

proof fn lemma_same_ranges(a: Seq<Vec<usize>>, b: Seq<Vec<usize>>, g: int)
    requires
        same_groups(a, b),
        g <= a.len(),
    ensures
        strata_ranges(a, g) == strata_ranges(b, g),
    decreases g,
{
    if g > 0 {
        lemma_same_ranges(a, b, g - 1);
        assert(a[g - 1]@ == b[g - 1]@);
    }
}

proof fn lemma_same_shuffles(a: Seq<Vec<usize>>, b: Seq<Vec<usize>>, p: int)
    requires
        same_groups(a, b),
    ensures
        shuffle_ranges(a, p) == shuffle_ranges(b, p),
    decreases p,
{
    if p > 0 {
        lemma_same_shuffles(a, b, p - 1);
        lemma_same_ranges(a, b, a.len() as int);
    }
}

proof fn lemma_same_strata(
    a: Seq<Vec<usize>>,
    b: Seq<Vec<usize>>,
    n: int,
    seed: u64,
    past: Seq<nat>,
    g: int,
)
    requires
        same_groups(a, b),
        g <= a.len(),
    ensures
        shuffled_strata(a, n, seed, past, g) == shuffled_strata(b, n, seed, past, g),
    decreases g,
{
    if g > 0 {
        lemma_same_strata(a, b, n, seed, past, g - 1);
        lemma_same_ranges(a, b, g - 1);
        assert(a[g - 1]@ == b[g - 1]@);
    }
}

/// A null of some records is one of any records that are the same.
proof fn lemma_null_of_same_records(
    folds: Seq<FoldRecord>,
    others: Seq<FoldRecord>,
    gates: Gates,
    rng_seed: u64,
    n_perm: int,
    a: PermutationNull,
)
    requires
        a.is_of(folds, gates, rng_seed, n_perm),
        same_records(folds, others),
    ensures
        a.is_of(others, gates, rng_seed, n_perm),
{
    let n = folds.len() as int;
    assert forall|x: usize| #[trigger] positions(n).contains(x) implies same_record(
        folds[x as int],
        others[x as int],
    ) by {
        assert(x < n);
    }
    lemma_classes_agree(a.groups@, by_key(folds), by_key(others), n);
    lemma_classes_agree(a.strata@, by_stratum(folds), by_stratum(others), n);
    assert forall|i: int| 0 <= i < n implies all_outcomes(folds, gates.bear_year)[i]
        == all_outcomes(others, gates.bear_year)[i] by {
        assert(same_record(folds[i], others[i]));
    }
    assert(all_outcomes(folds, gates.bear_year) =~= all_outcomes(others, gates.bear_year));
    assert forall|p: int| 0 <= p < n_perm implies passes_under(
        others,
        a.group_of@,
        a.groups@.len() as int,
        gates,
        shuffle_of(a.strata@, n, rng_seed ^ NULL_TAG, p),
        #[trigger] a.counts@[p],
    ) by {
        let source = shuffle_of(a.strata@, n, rng_seed ^ NULL_TAG, p);
        assert(passes_under(
            folds,
            a.group_of@,
            a.groups@.len() as int,
            gates,
            source,
            a.counts@[p],
        ));
        assert forall|i: int| 0 <= i < n implies same_stratum(
            others,
            i,
            (#[trigger] source[i]) as int,
        ) by {
            assert(source[i] < n);
            assert(same_record(folds[i], others[i]));
            assert(same_record(folds[source[i] as int], others[source[i] as int]));
        }
    }
}

/// The permutation null is determined by the records, the gates and the seed: any
/// two of the same records have the same counts.
pub proof fn the_null_is_determined_by_its_seed(
    folds: Seq<FoldRecord>,
    others: Seq<FoldRecord>,
    gates: Gates,
    rng_seed: u64,
    n_perm: int,
    a: PermutationNull,
    b: PermutationNull,
)
    requires
        folds.len() <= usize::MAX,
        same_records(folds, others),
        a.is_of(folds, gates, rng_seed, n_perm),
        b.is_of(others, gates, rng_seed, n_perm),
    ensures
        a.counts@ == b.counts@,
{
    let n = folds.len() as int;
    lemma_null_of_same_records(folds, others, gates, rng_seed, n_perm, a);
    let folds = others;
    lemma_keys_are_ordered(folds);
    lemma_classes_unique(a.groups@, b.groups@, by_key(folds), n);
    lemma_classes_unique(a.strata@, b.strata@, by_stratum(folds), n);
    lemma_configurations_partition(a.groups@, folds);
    assert forall|i: int| 0 <= i < n implies a.group_of@[i] == b.group_of@[i] by {
        let x = i as usize;
        assert(held(a.groups@, x));
        let g = choose|g: int| 0 <= g < a.groups@.len() && (#[trigger] a.groups@[g])@.contains(x);
        assert(b.groups@[g]@.contains(x));
    }
    assert(a.group_of@ =~= b.group_of@);
    assert forall|p: int| 0 <= p < n_perm implies a.counts@[p] == b.counts@[p] by {
        let seed = rng_seed ^ NULL_TAG;
        lemma_same_shuffles(a.strata@, b.strata@, p);
        lemma_same_strata(
            a.strata@,
            b.strata@,
            n,
            seed,
            shuffle_ranges(a.strata@, p),
            a.strata@.len() as int,
        );
        assert(passes_under(
            folds,
            a.group_of@,
            a.groups@.len() as int,
            gates,
            shuffle_of(a.strata@, n, seed, p),
            a.counts@[p],
        ));
        assert(passes_under(
            folds,
            b.group_of@,
            b.groups@.len() as int,
            gates,
            shuffle_of(b.strata@, n, seed, p),
            b.counts@[p],
        ));
    }
    assert(a.counts@ =~= b.counts@);
}

/// Whether two configurations report the same in every column.
pub open spec fn same_entry(a: Aggregated, b: Aggregated) -> bool {
    &&& a.instrument@ == b.instrument@
    &&& a.cell == b.cell
    &&& a.rg_eval == b.rg_eval
    &&& a.rg_funded == b.rg_funded
    &&& a.account@ == b.account@
    &&& a.key@ == b.key@
    &&& a.members@ == b.members@
    &&& a.summary == b.summary
    &&& a.deploy_ready == b.deploy_ready
    &&& a.reasons@ == b.reasons@
}

proof fn lemma_same_key(
    a: Aggregated,
    b: Aggregated,
    folds: Seq<FoldRecord>,
    w: Weights,
    gates: Gates,
)
    requires
        a.is_of(folds, w, gates),
        b.is_of(folds, w, gates),
        a.key@ == b.key@,
    ensures
        same_entry(a, b),
{
    assert forall|x: usize| #[trigger] a.members@.contains(x) <==> b.members@.contains(x) by {}
    lemma_ascending_positions(a.members@, b.members@);
    assert(a.summary.bear_ev == b.summary.bear_ev);
}

/// A configuration of some records is one of any records that are the same.
proof fn lemma_of_same_records(
    a: Aggregated,
    folds: Seq<FoldRecord>,
    others: Seq<FoldRecord>,
    w: Weights,
    gates: Gates,
)
    requires
        a.is_of(folds, w, gates),
        same_records(folds, others),
    ensures
        a.is_of(others, w, gates),
{
    let idx = a.members@;
    assert forall|x: usize| #[trigger] idx.contains(x) <==> x < others.len() && group_text(
        others[x as int],
    ) == a.key@ by {
        if x < folds.len() {
            assert(same_record(folds[x as int], others[x as int]));
        }
    }
    assert forall|i: int| 0 <= i < idx.len() implies same_record(
        folds[#[trigger] idx[i] as int],
        others[idx[i] as int],
    ) by {
        assert(idx.contains(idx[i]));
    }
    assert(outcomes_at(folds, idx, gates.bear_year) =~= outcomes_at(
        others,
        idx,
        gates.bear_year,
    ));
    assert forall|what: Measure| #[trigger]
        column(folds, idx, what) == column(others, idx, what) by {
        assert(column(folds, idx, what) =~= column(others, idx, what));
    }
    assert(same_record(folds[idx[0] as int], others[idx[0] as int]));
}

/// The position at which a ranking has the configuration of another one's entry.
proof fn lemma_key_found(
    a: Aggregated,
    r: Seq<Aggregated>,
    folds: Seq<FoldRecord>,
    w: Weights,
    gates: Gates,
) -> (p: int)
    requires
        a.is_of(folds, w, gates),
        is_ranking(r, folds, w, gates),
    ensures
        0 <= p < r.len(),
        r[p].key@ == a.key@,
{
    let x = a.members@[0];
    assert(a.members@.contains(x));
    assert(ranks_record(r, x));
    let p = choose|p: int| 0 <= p < r.len() && (#[trigger] r[p]).members@.contains(x);
    assert(r[p].is_of(folds, w, gates));
    p
}

proof fn lemma_same_place(
    a: Seq<Aggregated>,
    b: Seq<Aggregated>,
    folds: Seq<FoldRecord>,
    w: Weights,
    gates: Gates,
    i: int,
)
    requires
        is_ranking(a, folds, w, gates),
        is_ranking(b, folds, w, gates),
        0 <= i < a.len(),
    ensures
        i < b.len(),
        a[i].key@ == b[i].key@,
    decreases i,
{
    assert forall|k: int| 0 <= k < i implies k < b.len() && (#[trigger] a[k]).key@
        == b[k].key@ by {
        lemma_same_place(a, b, folds, w, gates, k);
    }
    assert(a[i].is_of(folds, w, gates));
    let p = lemma_key_found(a[i], b, folds, w, gates);
    if p < i {
        assert(a[p].key@ == b[p].key@);
        assert(a[p].key@ != a[i].key@);
    }
    if p > i {
        assert(b[i].is_of(folds, w, gates));
        assert(b[p].is_of(folds, w, gates));
        let q = lemma_key_found(b[i], a, folds, w, gates);
        assert(b[i].key@ != b[p].key@);
        if q < i {
            assert(a[q].key@ == b[q].key@);
            assert(b[q].key@ != b[i].key@);
        }
        assert(q > i);
        assert(a[q].is_of(folds, w, gates));
        lemma_same_key(a[q], b[i], folds, w, gates);
        lemma_same_key(a[i], b[p], folds, w, gates);
        assert(outranks(
            a[i].deploy_ready,
            a[i].summary,
            a[i].key@,
            a[q].deploy_ready,
            a[q].summary,
            a[q].key@,
        ));
        assert(outranks(
            b[i].deploy_ready,
            b[i].summary,
            b[i].key@,
            b[p].deploy_ready,
            b[p].summary,
            b[p].key@,
        ));
        texts_are_totally_ordered(a[i].key@, a[q].key@, a[i].key@);
    }
}

/// The ranked output is determined by the records: any two rankings of the same
/// records report the same configurations in the same places, with the same
/// figures and the same gates failed.
pub proof fn the_ranking_is_determined_by_the_records(
    a: Seq<Aggregated>,
    b: Seq<Aggregated>,
    folds: Seq<FoldRecord>,
    others: Seq<FoldRecord>,
    w: Weights,
    gates: Gates,
)
    requires
        same_records(folds, others),
        is_ranking(a, folds, w, gates),
        is_ranking(b, others, w, gates),
    ensures
        a.len() == b.len(),
        forall|i: int| 0 <= i < a.len() ==> same_entry(#[trigger] a[i], b[i]),
{
    assert forall|i: int| 0 <= i < a.len() implies (#[trigger] a[i]).is_of(others, w, gates) by {
        lemma_of_same_records(a[i], folds, others, w, gates);
    }
    assert(is_ranking(a, others, w, gates));
    assert forall|i: int| 0 <= i < a.len() implies i < b.len() && same_entry(
        #[trigger] a[i],
        b[i],
    ) by {
        lemma_same_place(a, b, others, w, gates, i);
        assert(b[i].is_of(others, w, gates));
        lemma_same_key(a[i], b[i], others, w, gates);
    }
    if a.len() > 0 {
        assert(same_entry(a[a.len() - 1], b[a.len() - 1]));
    }
    if a.len() < b.len() {
        lemma_same_place(b, a, others, w, gates, b.len() - 1);
    }
}

} // verus!
