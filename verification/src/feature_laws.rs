//! What the day features are measured on.

use vstd::prelude::*;

use crate::features::{
    atr_sum, daily_closes, day_extremes, entropy_of, entropy_sample, hurst_sample, matches_of,
    matching_pairs, near_at, positive, positive_pairs, proxy_sample, rv_sample, scaled_variance,
    session_close_seq, session_extremes, tail_excess, tail_start, templates_match, true_range,
    true_range_sum, TailFit,
};
use crate::num::{in_order, lemma_in_order_bounds, total};
use crate::regime_laws::days_with;
use crate::session::inside;
use crate::stat_laws::an_ordered_sample_holds_the_same_values;
use crate::types::{Bar, DayMeta, InstCfg, MAX_PNL};

verus! {

// ---------------------------------------------------------------------------
// Sessions
// ---------------------------------------------------------------------------

/// A minute is inside a session exactly where fewer minutes have passed since the
/// open than the session lasts, across midnight as well.
pub proof fn a_session_lasts_from_open_to_close(t: i32, open_mins: i32, close_mins: i32)
    requires
        0 <= t < 1440,
        0 <= open_mins < 1440,
        open_mins < close_mins,
        close_mins - open_mins <= 1440,
    ensures
        inside(t, open_mins, close_mins) <==> (t - open_mins) % 1440 < close_mins - open_mins,
{
}

/// The extremes of a session span its bars: none of them is above the high or below
/// the low, both were traded, and the close is that of the last of them.
pub proof fn session_extremes_span_the_session(
    bars: Seq<Bar>,
    s: int,
    e: int,
    open_mins: i32,
    close_mins: i32,
)
    ensures
        match session_extremes(bars, s, e, open_mins, close_mins) {
            Some((hi, lo, close)) => {
                &&& forall|i: int|
                    s <= i < e && inside((#[trigger] bars[i]).time_mins, open_mins, close_mins)
                        ==> lo <= bars[i].low && bars[i].high <= hi
                &&& exists|i: int|
                    s <= i < e && inside((#[trigger] bars[i]).time_mins, open_mins, close_mins)
                        && bars[i].high == hi
                &&& exists|i: int|
                    s <= i < e && inside((#[trigger] bars[i]).time_mins, open_mins, close_mins)
                        && bars[i].low == lo
                &&& exists|i: int|
                    s <= i < e && inside((#[trigger] bars[i]).time_mins, open_mins, close_mins)
                        && bars[i].close == close && (forall|j: int|
                        i < j < e ==> !inside(
                            (#[trigger] bars[j]).time_mins,
                            open_mins,
                            close_mins,
                        ))
            },
            None => forall|i: int|
                s <= i < e ==> !inside((#[trigger] bars[i]).time_mins, open_mins, close_mins),
        },
    decreases e - s,
{
    if s < e {
        session_extremes_span_the_session(bars, s, e - 1, open_mins, close_mins);
        let before = session_extremes(bars, s, e - 1, open_mins, close_mins);
        let b = bars[e - 1];
        if before is Some {
            let (h, l, c) = before->0;
            let x = choose|i: int|
                s <= i < e - 1 && inside((#[trigger] bars[i]).time_mins, open_mins, close_mins)
                    && bars[i].high == h;
            let y = choose|i: int|
                s <= i < e - 1 && inside((#[trigger] bars[i]).time_mins, open_mins, close_mins)
                    && bars[i].low == l;
            let z = choose|i: int|
                s <= i < e - 1 && inside((#[trigger] bars[i]).time_mins, open_mins, close_mins)
                    && bars[i].close == c && (forall|j: int|
                    i < j < e - 1 ==> !inside((#[trigger] bars[j]).time_mins, open_mins, close_mins));
            let (p, q, r) = (bars[x], bars[y], bars[z]);
            assert(s <= x < e && s <= y < e && s <= z < e);
        }
    }
}

/// The daily closes are the last closes inside each session, 0 where there is
/// none.
pub proof fn a_daily_close_is_the_last_of_its_session(
    bars: Seq<Bar>,
    days: Seq<DayMeta>,
    inst: InstCfg,
    d: int,
)
    requires
        0 <= d < days.len(),
    ensures
        daily_closes(bars, days, inst).len() == days.len(),
        ({
            let (s, e) = (days[d].sess_start as int, days[d].sess_end as int);
            let close = daily_closes(bars, days, inst)[d];
            ||| exists|i: int|
                s <= i < e && inside((#[trigger] bars[i]).time_mins, inst.open_mins, inst.close_mins)
                    && bars[i].close == close && (forall|j: int|
                    i < j < e ==> !inside(
                        (#[trigger] bars[j]).time_mins,
                        inst.open_mins,
                        inst.close_mins,
                    ))
            ||| close == 0 && forall|i: int|
                s <= i < e ==> !inside(
                    (#[trigger] bars[i]).time_mins,
                    inst.open_mins,
                    inst.close_mins,
                )
        }),
{
    session_extremes_span_the_session(
        bars,
        days[d].sess_start as int,
        days[d].sess_end as int,
        inst.open_mins,
        inst.close_mins,
    );
}

/// The closes of a session are those of its bars and of no others, in order.
pub proof fn session_closes_are_those_of_the_session(
    bars: Seq<Bar>,
    s: int,
    m: int,
    e: int,
    open_mins: i32,
    close_mins: i32,
)
    requires
        s <= m <= e,
    ensures
        session_close_seq(bars, s, e, open_mins, close_mins) == session_close_seq(
            bars,
            s,
            m,
            open_mins,
            close_mins,
        ) + session_close_seq(bars, m, e, open_mins, close_mins),
        session_close_seq(bars, m, m + 1, open_mins, close_mins) == if inside(
            bars[m].time_mins,
            open_mins,
            close_mins,
        ) {
            seq![bars[m].close]
        } else {
            Seq::<i64>::empty()
        },
    decreases e - m,
{
    reveal_with_fuel(session_close_seq, 3);
    if m < e {
        session_closes_are_those_of_the_session(bars, s, m, e - 1, open_mins, close_mins);
    }
    assert(session_close_seq(bars, s, e, open_mins, close_mins) =~= session_close_seq(
        bars,
        s,
        m,
        open_mins,
        close_mins,
    ) + session_close_seq(bars, m, e, open_mins, close_mins));
    assert(session_close_seq(bars, m, m + 1, open_mins, close_mins) =~= if inside(
        bars[m].time_mins,
        open_mins,
        close_mins,
    ) {
        seq![bars[m].close]
    } else {
        Seq::<i64>::empty()
    });
}

// ---------------------------------------------------------------------------
// True ranges
// ---------------------------------------------------------------------------

/// The true range of a day is the widest of its own range and of the distances from
/// the close of the day before to its high and to its low.
pub proof fn a_true_range_is_the_widest_distance(
    bars: Seq<Bar>,
    days: Seq<DayMeta>,
    inst: InstCfg,
    d: int,
)
    requires
        0 <= d < days.len(),
    ensures
        match day_extremes(bars, days[d], inst) {
            None => true_range(bars, days, inst, d) == 0,
            Some((hi, lo, _)) => {
                let r = true_range(bars, days, inst, d);
                let prev = daily_closes(bars, days, inst)[d - 1];
                &&& r >= hi - lo
                &&& d == 0 ==> r == hi - lo
                &&& d > 0 ==> {
                    &&& r >= hi - prev && r >= prev - hi
                    &&& r >= lo - prev && r >= prev - lo
                    &&& r == hi - lo || r == hi - prev || r == prev - hi || r == lo - prev || r
                        == prev - lo
                }
            },
        },
{
}

proof fn lemma_range_sum(
    bars: Seq<Bar>,
    days: Seq<DayMeta>,
    inst: InstCfg,
    from: int,
    n: nat,
)
    ensures
        true_range_sum(bars, days, inst, from, from + n) == total(
            Seq::new(n, |i: int| true_range(bars, days, inst, from + i)),
        ),
    decreases n,
{
    let s = Seq::new(n, |i: int| true_range(bars, days, inst, from + i));
    if n > 0 {
        let m = (n - 1) as nat;
        lemma_range_sum(bars, days, inst, from, m);
        assert(s.drop_last() =~= Seq::new(m, |i: int| true_range(bars, days, inst, from + i)));
    }
}

/// The average true range counts the last fourteen days, and none before there are
/// as many.
pub proof fn an_average_true_range_counts_fourteen_days(
    bars: Seq<Bar>,
    days: Seq<DayMeta>,
    inst: InstCfg,
    d: int,
)
    ensures
        d < 13 ==> atr_sum(bars, days, inst, d) == 0,
        d >= 13 ==> atr_sum(bars, days, inst, d) == total(
            Seq::new(14, |i: int| true_range(bars, days, inst, d - 13 + i)),
        ),
{
    if d >= 13 {
        lemma_range_sum(bars, days, inst, d - 13, 14);
        assert(Seq::new(14, |i: int| true_range(bars, days, inst, d - 13 + i)) =~= Seq::new(
            14,
            |i: int| true_range(bars, days, inst, (d - 13) + i),
        ));
    }
}

// ---------------------------------------------------------------------------
// Samples
// ---------------------------------------------------------------------------

/// Returns are taken of every two consecutive prices that are both positive, and of
/// no others.
pub proof fn returns_are_taken_of_consecutive_prices(s: Seq<i64>)
    ensures
        s.len() >= 1 ==> positive_pairs(s) == Seq::new(
            (s.len() - 1) as nat,
            |i: int| (s[i], s[i + 1]),
        ).filter(|p: (i64, i64)| p.0 > 0 && p.1 > 0),
        s.len() == 0 ==> positive_pairs(s).len() == 0,
    decreases s.len(),
{
    reveal(Seq::filter);
    if s.len() >= 2 {
        let t = s.drop_last();
        returns_are_taken_of_consecutive_prices(t);
        let all = Seq::new((s.len() - 1) as nat, |i: int| (s[i], s[i + 1]));
        assert(all.drop_last() =~= Seq::new((t.len() - 1) as nat, |i: int| (t[i], t[i + 1])));
        assert(all.last() == (s[s.len() - 2], s[s.len() - 1]));
    }
}

/// A session's realised volatility is measured on its returns where there are more
/// than five; sample entropy on those of at least five closes, where there are
/// four.
pub proof fn volatility_and_entropy_need_enough_returns(closes: Seq<i64>)
    ensures
        rv_sample(closes) == if positive_pairs(closes).len() >= 6 {
            Some(positive_pairs(closes))
        } else {
            None
        },
        entropy_sample(closes) == if closes.len() >= 5 && positive_pairs(closes).len() >= 4 {
            Some(positive_pairs(closes))
        } else {
            None
        },
{
}

/// The close-to-close volatility of a day is measured on the 30 returns up to and
/// including its own, from the 30th day on.
pub proof fn the_proxy_looks_back_thirty_returns(closes: Seq<i64>, d: int, k: int)
    requires
        0 <= d < closes.len(),
        0 <= k < 30,
    ensures
        proxy_sample(closes, d) is Some <==> d >= 30,
        proxy_sample(closes, d) matches Some(w) ==> {
            let j = d - 29 + k;
            &&& w.len() == 30
            &&& w[k] == if closes[j - 1] > 0 && closes[j] > 0 {
                Some((closes[j - 1], closes[j]))
            } else {
                None
            }
        },
{
}

/// A Hurst estimate is made on the positive closes of the hundred days before the
/// day, where there are at least twenty.
pub proof fn a_hurst_estimate_looks_back_a_hundred_days(closes: Seq<i64>, d: int)
    requires
        0 <= d <= closes.len(),
    ensures
        ({
            let window = closes.subrange(d - 100, d).filter(|x: i64| x > 0);
            hurst_sample(closes, d) == if d >= 100 && window.len() >= 20 {
                Some(window)
            } else {
                None
            }
        }),
{
    let p = |x: i64| x > 0;
    assert(positive(closes.subrange(d - 100, d)) == closes.subrange(d - 100, d).filter(p));
}

// ---------------------------------------------------------------------------
// Sample entropy
// ---------------------------------------------------------------------------

/// The square of a sample's deviation, times the square of its length.
pub open spec fn spread_of(s: Seq<i64>) -> int {
    let sum = total(Seq::new(s.len(), |i: int| s[i] as int));
    s.len() * total(Seq::new(s.len(), |i: int| s[i] * s[i])) - sum * sum
}

/// Whether the runs of `tl` values at `i` and at `j` stay within a fifth of the
/// sample's deviation of each other.
pub open spec fn runs_match(s: Seq<i64>, i: int, j: int, tl: int) -> bool {
    forall|k: int|
        0 <= k < tl ==> 25 * s.len() * s.len() * ((#[trigger] s[i + k] - s[j + k]) * (s[i + k]
            - s[j + k])) <= spread_of(s)
}

proof fn lemma_spread(s: Seq<i64>)
    ensures
        scaled_variance(s) == spread_of(s),
{
    assert(s.map_values(|x: i64| x as int) =~= Seq::new(s.len(), |i: int| s[i] as int));
    assert(s.map_values(|x: i64| x * x) =~= Seq::new(s.len(), |i: int| s[i] * s[i]));
}

proof fn lemma_runs(s: Seq<i64>, i: int, j: int, tl: int)
    ensures
        templates_match(s, i, j, tl) == runs_match(s, i, j, tl),
{
    lemma_spread(s);
    if templates_match(s, i, j, tl) {
        assert forall|k: int| 0 <= k < tl implies 25 * s.len() * s.len() * ((#[trigger] s[i + k]
            - s[j + k]) * (s[i + k] - s[j + k])) <= spread_of(s) by {
            assert(near_at(s, i + k, j + k));
        }
    }
    if runs_match(s, i, j, tl) {
        assert forall|k: int| 0 <= k < tl implies #[trigger] near_at(s, i + k, j + k) by {
            let x = s[i + k];
        }
    }
}

proof fn lemma_matches(s: Seq<i64>, i: int, from: int, upper: int, tl: int)
    ensures
        matches_of(s, i, from, upper, tl) == days_with(
            from,
            upper,
            |j: int| runs_match(s, i, j, tl),
        ),
    decreases upper - from,
{
    if from < upper {
        lemma_matches(s, i, from, upper - 1, tl);
        lemma_runs(s, i, upper - 1, tl);
    }
}

/// How many pairs of runs of `tl` values match, among those that begin before `n`
/// and, after them, before `upper`.
pub open spec fn matching_runs(s: Seq<i64>, n: nat, upper: int, tl: int) -> int {
    total(Seq::new(n, |i: int| days_with(i + 1, upper, |j: int| runs_match(s, i, j, tl))))
}

proof fn lemma_pairs(s: Seq<i64>, n: nat, upper: int, tl: int)
    ensures
        matching_pairs(s, n as int, upper, tl) == matching_runs(s, n, upper, tl),
    decreases n,
{
    let all = Seq::new(n, |i: int| days_with(i + 1, upper, |j: int| runs_match(s, i, j, tl)));
    if n > 0 {
        let m = (n - 1) as nat;
        lemma_pairs(s, m, upper, tl);
        lemma_matches(s, n - 1, n as int, upper, tl);
        assert(all.drop_last() =~= Seq::new(
            m,
            |i: int| days_with(i + 1, upper, |j: int| runs_match(s, i, j, tl)),
        ));
        assert(all.last() == days_with(n as int, upper, |j: int| runs_match(s, n - 1, j, tl)));
    }
}

/// Sample entropy compares how many pairs of runs of two values match with how many
/// of three do, over the same positions. There is none for fewer than four values,
/// for a deviation of less than five hundred trillionths, or without a match.
pub proof fn sample_entropy_counts_matching_runs(s: Seq<i64>)
    ensures
        ({
            let n = s.len() - 2;
            let two = matching_runs(s, n as nat, n, 2);
            let three = matching_runs(s, n as nat, n, 3);
            entropy_of(s) == if s.len() >= 4 && spread_of(s) >= 500 * 500 * s.len() * s.len()
                && two != 0 && three != 0 {
                Some((two, three))
            } else {
                None
            }
        }),
{
    lemma_spread(s);
    if s.len() >= 4 {
        let n = (s.len() - 2) as nat;
        lemma_pairs(s, n, n as int, 2);
        lemma_pairs(s, n, n as int, 3);
    }
}

// ---------------------------------------------------------------------------
// The loss tail
// ---------------------------------------------------------------------------

/// The tail of at least twenty losses starts at the one that nine tenths of them
/// come before in order. With fewer than five beyond it the limit is the largest
/// loss, with excesses that are all the same it is the start itself, and else the
/// excesses are fitted and the limit is what the fit says, but no less than the
/// start. Fewer losses set no limit.
pub proof fn a_tail_limit_follows_its_losses(losses: Seq<i128>, fit: TailFit, q: i128)
    requires
        fit.is_tail_of(losses),
        forall|i: int| 0 <= i < losses.len() ==> -MAX_PNL <= #[trigger] losses[i] <= MAX_PNL,
    ensures
        losses.len() < 20 ==> fit.limit(q) is None,
        losses.len() >= 20 ==> ({
            let u = in_order(losses)[losses.len() as int * 9 / 10];
            let over = in_order(losses).filter(|x: i128| x > u);
            let limit = fit.limit(q);
            &&& limit is Some
            &&& limit->0 >= u
            &&& over.len() < 5 ==> limit->0 == in_order(losses)[losses.len() - 1]
            &&& over.len() >= 5 && (forall|i: int| 0 <= i < over.len() ==> #[trigger] over[i]
                == over[0]) ==> limit->0 == u
            &&& over.len() >= 5 && !(forall|i: int| 0 <= i < over.len() ==> #[trigger] over[i]
                == over[0]) ==> {
                &&& limit->0 == if q > u {
                    q
                } else {
                    u
                }
                &&& fit matches TailFit::Fit(start, excess) && start == u && excess@
                    == over.map_values(|x: i128| (x - u) as i128)
            }
        }),
{
    if losses.len() >= 20 {
        an_ordered_sample_holds_the_same_values(losses);
        let s = in_order(losses);
        let u = tail_start(losses);
        let over = s.filter(|x: i128| x > u);
        let excess = tail_excess(losses);
        assert(excess.len() == over.len());
        assert(s[losses.len() as int * 9 / 10] <= s[losses.len() - 1]);
        s.lemma_filter_len(|x: i128| x > u);
        lemma_excess(losses);
    }
}

proof fn lemma_excess(losses: Seq<i128>)
    requires
        losses.len() >= 20,
        forall|i: int| 0 <= i < losses.len() ==> -MAX_PNL <= #[trigger] losses[i] <= MAX_PNL,
    ensures
        ({
            let u = tail_start(losses);
            let over = in_order(losses).filter(|x: i128| x > u);
            let excess = tail_excess(losses);
            (forall|i: int| 0 <= i < over.len() ==> #[trigger] over[i] == over[0]) <==> (forall|
                i: int,
            |
                0 <= i < excess.len() ==> #[trigger] excess[i] == excess[0])
        }),
{
    let s = in_order(losses);
    let u = tail_start(losses);
    let p = |x: i128| x > u;
    let over = s.filter(p);
    let excess = tail_excess(losses);
    lemma_in_order_bounds(losses, -MAX_PNL as int, MAX_PNL as int);
    an_ordered_sample_holds_the_same_values(losses);
    assert forall|i: int| 0 <= i < over.len() implies #[trigger] over[i] - u == excess[i] by {
        s.lemma_filter_contains_rev(p, over[i]);
    }
    assert forall|i: int| 0 <= i < over.len() implies #[trigger] excess[i] == over[i] - u by {
        assert(over[i] - u == excess[i]);
    }
}

} // verus!
