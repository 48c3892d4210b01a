//! What the volatility regimes mean.

use vstd::prelude::*;

use crate::features::{
    composite, eligible, lemma_composite_reads_past, measured, regime, scored, scored_below, taken,
    taken_below, Measure, VolFeatures,
};

verus! {

// ---------------------------------------------------------------------------
// Ranks
// ---------------------------------------------------------------------------

/// How many days of `from..to` have a property.
pub open spec fn days_with(from: int, to: int, p: spec_fn(int) -> bool) -> int
    decreases to - from,
{
    if to <= from {
        0
    } else {
        days_with(from, to - 1, p) + if p(to - 1) {
            1int
        } else {
            0
        }
    }
}

/// The realised volatility of each day.
pub open spec fn rvs(feats: Seq<VolFeatures>) -> Seq<i64> {
    feats.map_values(|f: VolFeatures| f.rv)
}

/// The average true range of each day.
pub open spec fn atrs(feats: Seq<VolFeatures>) -> Seq<i64> {
    feats.map_values(|f: VolFeatures| f.atr14)
}

/// The close-to-close volatility of each day.
pub open spec fn proxies(feats: Seq<VolFeatures>) -> Seq<i64> {
    feats.map_values(|f: VolFeatures| f.vix_proxy)
}

/// How many of the 252 days before day `d` have a value.
pub open spec fn ranked_days(s: Seq<i64>, d: int) -> int {
    days_with(d - 252, d, |j: int| s[j] > 0)
}

/// How many of the 252 days before day `d` have a value that is below its own.
pub open spec fn days_below(s: Seq<i64>, d: int) -> int {
    days_with(d - 252, d, |j: int| 0 < s[j] < s[d])
}

proof fn lemma_taken(
    feats: Seq<VolFeatures>,
    s: Seq<i64>,
    m: Measure,
    from: int,
    to: int,
    x: i64,
)
    requires
        0 <= from,
        to <= feats.len(),
        s.len() == feats.len(),
        forall|j: int| 0 <= j < feats.len() ==> #[trigger] s[j] == measured(feats[j], m),
    ensures
        taken(feats, m, from, to) == days_with(from, to, |j: int| s[j] > 0),
        taken_below(feats, m, from, to, x) == days_with(from, to, |j: int| 0 < s[j] < x),
    decreases to - from,
{
    if from < to {
        lemma_taken(feats, s, m, from, to - 1, x);
        assert(s[to - 1] == measured(feats[to - 1], m));
    }
}

proof fn lemma_counts(from: int, to: int, p: spec_fn(int) -> bool, q: spec_fn(int) -> bool)
    requires
        forall|j: int| from <= j < to && #[trigger] p(j) ==> q(j),
    ensures
        0 <= days_with(from, to, p) <= days_with(from, to, q),
        from <= to ==> days_with(from, to, q) <= to - from,
    decreases to - from,
{
    if from < to {
        lemma_counts(from, to - 1, p, q);
    }
}

proof fn lemma_strict_count(
    from: int,
    to: int,
    p: spec_fn(int) -> bool,
    q: spec_fn(int) -> bool,
    at: int,
)
    requires
        forall|j: int| from <= j < to && #[trigger] p(j) ==> q(j),
        from <= at < to,
        q(at),
        !p(at),
    ensures
        days_with(from, to, p) < days_with(from, to, q),
    decreases to - from,
{
    if at < to - 1 {
        lemma_strict_count(from, to - 1, p, q, at);
    } else {
        lemma_counts(from, to - 1, p, q);
    }
}

/// The three measures of a day ranked against the 252 days before it.
proof fn lemma_ranks(feats: Seq<VolFeatures>, d: int)
    requires
        252 <= d < feats.len(),
    ensures
        taken(feats, Measure::Rv, d - 252, d) == ranked_days(rvs(feats), d),
        taken(feats, Measure::Atr, d - 252, d) == ranked_days(atrs(feats), d),
        taken(feats, Measure::Proxy, d - 252, d) == ranked_days(proxies(feats), d),
        taken_below(feats, Measure::Rv, d - 252, d, feats[d].rv) == days_below(rvs(feats), d),
        taken_below(feats, Measure::Atr, d - 252, d, feats[d].atr14) == days_below(
            atrs(feats),
            d,
        ),
        taken_below(feats, Measure::Proxy, d - 252, d, feats[d].vix_proxy) == days_below(
            proxies(feats),
            d,
        ),
        0 <= days_below(rvs(feats), d) <= ranked_days(rvs(feats), d),
        0 <= days_below(atrs(feats), d) <= ranked_days(atrs(feats), d),
        0 <= days_below(proxies(feats), d) <= ranked_days(proxies(feats), d),
{
    let (a, b, c) = (rvs(feats), atrs(feats), proxies(feats));
    let lo = d - 252;
    lemma_taken(feats, a, Measure::Rv, lo, d, a[d]);
    lemma_taken(feats, b, Measure::Atr, lo, d, b[d]);
    lemma_taken(feats, c, Measure::Proxy, lo, d, c[d]);
    lemma_same_count(lo, d, |j: int| 0 < a[j] < a[d], |j: int| 0 < a[j] < feats[d].rv);
    lemma_counts(lo, d, |j: int| 0 < a[j] < a[d], |j: int| a[j] > 0);
    lemma_counts(lo, d, |j: int| 0 < b[j] < b[d], |j: int| b[j] > 0);
    lemma_counts(lo, d, |j: int| 0 < c[j] < c[d], |j: int| c[j] > 0);
}

proof fn lemma_same_count(from: int, to: int, p: spec_fn(int) -> bool, q: spec_fn(int) -> bool)
    requires
        forall|j: int| from <= j < to ==> #[trigger] p(j) == q(j),
    ensures
        days_with(from, to, p) == days_with(from, to, q),
    decreases to - from,
{
    if from < to {
        lemma_same_count(from, to - 1, p, q);
    }
}

/// The composite score of a day adds up the shares of the year before that each
/// measure is above. It is there from the 252nd day on, where all three measures
/// were taken on the day and on at least 50 of the days before.
pub proof fn a_score_adds_up_three_ranks(feats: Seq<VolFeatures>, d: int)
    requires
        0 <= d < feats.len(),
    ensures
        ({
            let (n1, n2, n3) = (
                ranked_days(rvs(feats), d),
                ranked_days(atrs(feats), d),
                ranked_days(proxies(feats), d),
            );
            &&& composite(feats, d) is Some <==> {
                &&& d >= 252
                &&& feats[d].rv > 0 && feats[d].atr14 > 0 && feats[d].vix_proxy > 0
                &&& n1 >= 50 && n2 >= 50 && n3 >= 50
            }
            &&& composite(feats, d) matches Some((num, den)) ==> {
                &&& den > 0
                &&& num * (n1 * n2 * n3) == den * (days_below(rvs(feats), d) * n2 * n3 + days_below(
                    atrs(feats),
                    d,
                ) * n1 * n3 + days_below(proxies(feats), d) * n1 * n2)
            }
        }),
{
    if d >= 252 {
        lemma_ranks(feats, d);
        let (n1, n2, n3) = (
            ranked_days(rvs(feats), d),
            ranked_days(atrs(feats), d),
            ranked_days(proxies(feats), d),
        );
        if n1 >= 50 && n2 >= 50 && n3 >= 50 {
            lemma_product_positive(n1, n2, n3);
            if let Some((num, den)) = composite(feats, d) {
                assert(num * den == den * num) by (nonlinear_arith);
            }
        }
    }
}

proof fn lemma_product_positive(a: int, b: int, c: int)
    requires
        a > 0,
        b > 0,
        c > 0,
    ensures
        a * b * c > 0,
{
    assert(a * b > 0) by (nonlinear_arith)
        requires
            a > 0,
            b > 0,
    ;
    let ab = a * b;
    assert(ab * c > 0) by (nonlinear_arith)
        requires
            ab > 0,
            c > 0,
    ;
}

/// Whether day `j` has a score.
pub open spec fn has_score(feats: Seq<VolFeatures>, j: int) -> bool {
    composite(feats, j) is Some
}

/// Whether day `j` has a score that is below that of day `d`.
pub open spec fn scores_below(feats: Seq<VolFeatures>, j: int, d: int) -> bool {
    composite(feats, j) matches Some((a, b)) && composite(feats, d) matches Some((x, y)) && a * y
        < x * b
}

proof fn lemma_scored(feats: Seq<VolFeatures>, from: int, to: int, d: int)
    requires
        has_score(feats, d),
    ensures
        scored(feats, from, to) == days_with(from, to, |j: int| has_score(feats, j)),
        scored_below(feats, from, to, composite(feats, d)->0) == days_with(
            from,
            to,
            |j: int| scores_below(feats, j, d),
        ),
    decreases to - from,
{
    if from < to {
        lemma_scored(feats, from, to - 1, d);
    }
}

/// A regime is the fifth of the year before that a day's score falls in: with
/// regime 1 fewer than a fifth of the scores are below it, and with each further
/// one a fifth more. A day is unclassified, with regime 0, before two years of
/// days, without a score, and with fewer than 50 scores to rank it against.
pub proof fn a_regime_is_the_fifth_of_its_score(feats: Seq<VolFeatures>, d: int)
    requires
        0 <= d < feats.len(),
    ensures
        ({
            let n = days_with(d - 252, d, |j: int| has_score(feats, j));
            let below = days_with(d - 252, d, |j: int| scores_below(feats, j, d));
            let r = regime(feats, d);
            if d < 504 || !has_score(feats, d) || n < 50 {
                r == 0
            } else {
                &&& 1 <= r <= 5
                &&& (r - 1) * n <= 5 * below
                &&& r < 5 ==> 5 * below < r * n
            }
        }),
{
    if has_score(feats, d) {
        lemma_scored(feats, d - 252, d, d);
        let n = days_with(d - 252, d, |j: int| has_score(feats, j));
        let below = days_with(d - 252, d, |j: int| scores_below(feats, j, d));
        lemma_counts(d - 252, d, |j: int| scores_below(feats, j, d), |j: int| has_score(feats, j));
        let r = regime(feats, d) as int;
        if d >= 504 && n >= 50 {
            assert((r - 1) * n <= 5 * below && (r < 5 ==> 5 * below < r * n)) by (nonlinear_arith)
                requires
                    1 <= r <= 5,
                    r == 1 ==> 0 <= 5 * below < n,
                    r == 2 ==> n <= 5 * below < 2 * n,
                    r == 3 ==> 2 * n <= 5 * below < 3 * n,
                    r == 4 ==> 3 * n <= 5 * below < 4 * n,
                    r == 5 ==> 4 * n <= 5 * below,
            ;
        }
    }
}

// ---------------------------------------------------------------------------
// Calm and crisis
// ---------------------------------------------------------------------------

proof fn lemma_score_range(feats: Seq<VolFeatures>, d: int)
    requires
        0 <= d < feats.len(),
        has_score(feats, d),
    ensures
        0 <= (composite(feats, d)->0).0,
        0 < (composite(feats, d)->0).1,
{
    lemma_ranks(feats, d);
    let (n1, n2, n3) = (
        ranked_days(rvs(feats), d),
        ranked_days(atrs(feats), d),
        ranked_days(proxies(feats), d),
    );
    let (b1, b2, b3) = (
        days_below(rvs(feats), d),
        days_below(atrs(feats), d),
        days_below(proxies(feats), d),
    );
    lemma_product_positive(n1, n2, n3);
    assert(b1 * n2 * n3 >= 0 && b2 * n1 * n3 >= 0 && b3 * n1 * n2 >= 0) by (nonlinear_arith)
        requires
            b1 >= 0,
            b2 >= 0,
            b3 >= 0,
            n1 > 0,
            n2 > 0,
            n3 > 0,
    ;
}

/// A classified day on which no measure is above any of the year before is calm.
pub proof fn the_quietest_day_of_a_year_is_calm(feats: Seq<VolFeatures>, d: int)
    requires
        0 <= d < feats.len(),
        regime(feats, d) != 0,
        forall|j: int|
            d - 252 <= j < d ==> {
                &&& (#[trigger] feats[j]).rv > 0 ==> feats[d].rv <= feats[j].rv
                &&& feats[j].atr14 > 0 ==> feats[d].atr14 <= feats[j].atr14
                &&& feats[j].vix_proxy > 0 ==> feats[d].vix_proxy <= feats[j].vix_proxy
            },
    ensures
        regime(feats, d) == 1,
{
    a_regime_is_the_fifth_of_its_score(feats, d);
    let lo = d - 252;
    let (a, b, c) = (rvs(feats), atrs(feats), proxies(feats));
    let none = |j: int| false;
    lemma_none(lo, d, none);
    assert forall|j: int| lo <= j < d implies #[trigger] a[j] <= 0 || a[j] >= a[d] by {
        let f = feats[j];
    }
    assert forall|j: int| lo <= j < d implies #[trigger] b[j] <= 0 || b[j] >= b[d] by {
        let f = feats[j];
    }
    assert forall|j: int| lo <= j < d implies #[trigger] c[j] <= 0 || c[j] >= c[d] by {
        let f = feats[j];
    }
    lemma_same_count(lo, d, |j: int| 0 < a[j] < a[d], none);
    lemma_same_count(lo, d, |j: int| 0 < b[j] < b[d], none);
    lemma_same_count(lo, d, |j: int| 0 < c[j] < c[d], none);
    lemma_ranks(feats, d);
    let (x, y) = composite(feats, d)->0;
    assert(x == 0) by {
        let (n1, n2, n3) = (ranked_days(a, d), ranked_days(b, d), ranked_days(c, d));
        assert(0 * n2 * n3 + 0 * n1 * n3 + 0 * n1 * n2 == 0) by (nonlinear_arith);
    }
    assert forall|j: int| lo <= j < d implies !scores_below(feats, j, d) by {
        if has_score(feats, j) {
            lemma_score_range(feats, j);
            lemma_score_range(feats, d);
            let (p, q) = composite(feats, j)->0;
            assert(p * y >= 0 * q) by (nonlinear_arith)
                requires
                    p >= 0,
                    y > 0,
            ;
        }
    }
    lemma_same_count(lo, d, |j: int| scores_below(feats, j, d), none);
    let n = days_with(lo, d, |j: int| has_score(feats, j));
    let r = regime(feats, d) as int;
    assert(r == 1) by (nonlinear_arith)
        requires
            1 <= r,
            n >= 50,
            (r - 1) * n <= 0,
    ;
}

proof fn lemma_none(from: int, to: int, none: spec_fn(int) -> bool)
    requires
        forall|j: int| from <= j < to ==> !#[trigger] none(j),
    ensures
        days_with(from, to, none) == 0,
    decreases to - from,
{
    if from < to {
        lemma_none(from, to - 1, none);
    }
}

/// Whether a day stood out in none of its measures alone: one of them was not
/// above all of the year before.
pub open spec fn is_no_record(feats: Seq<VolFeatures>, j: int) -> bool {
    exists|i: int|
        j - 252 <= i < j && {
            ||| (#[trigger] feats[i]).rv >= feats[j].rv
            ||| feats[i].atr14 >= feats[j].atr14
            ||| feats[i].vix_proxy >= feats[j].vix_proxy
        }
}

proof fn lemma_top_score(feats: Seq<VolFeatures>, d: int)
    requires
        0 <= d < feats.len(),
        has_score(feats, d),
        forall|j: int|
            d - 252 <= j < d ==> (#[trigger] feats[j]).rv < feats[d].rv && feats[j].atr14
                < feats[d].atr14 && feats[j].vix_proxy < feats[d].vix_proxy,
    ensures
        ({
            let (x, y) = composite(feats, d)->0;
            x == 3 * y
        }),
{
    let lo = d - 252;
    let (a, b, c) = (rvs(feats), atrs(feats), proxies(feats));
    assert forall|j: int| lo <= j < d implies #[trigger] a[j] < a[d] by {
        let f = feats[j];
    }
    assert forall|j: int| lo <= j < d implies #[trigger] b[j] < b[d] by {
        let f = feats[j];
    }
    assert forall|j: int| lo <= j < d implies #[trigger] c[j] < c[d] by {
        let f = feats[j];
    }
    lemma_same_count(lo, d, |j: int| 0 < a[j] < a[d], |j: int| a[j] > 0);
    lemma_same_count(lo, d, |j: int| 0 < b[j] < b[d], |j: int| b[j] > 0);
    lemma_same_count(lo, d, |j: int| 0 < c[j] < c[d], |j: int| c[j] > 0);
    lemma_ranks(feats, d);
    let (n1, n2, n3) = (ranked_days(a, d), ranked_days(b, d), ranked_days(c, d));
    assert(n1 * n2 * n3 + n2 * n1 * n3 + n3 * n1 * n2 == 3 * (n1 * n2 * n3)) by (nonlinear_arith);
}

proof fn lemma_other_score(feats: Seq<VolFeatures>, d: int)
    requires
        0 <= d < feats.len(),
        has_score(feats, d),
        is_no_record(feats, d),
    ensures
        ({
            let (x, y) = composite(feats, d)->0;
            x < 3 * y
        }),
{
    let lo = d - 252;
    let (a, b, c) = (rvs(feats), atrs(feats), proxies(feats));
    let i = choose|i: int|
        lo <= i < d && {
            ||| (#[trigger] feats[i]).rv >= feats[d].rv
            ||| feats[i].atr14 >= feats[d].atr14
            ||| feats[i].vix_proxy >= feats[d].vix_proxy
        };
    let (n1, n2, n3) = (ranked_days(a, d), ranked_days(b, d), ranked_days(c, d));
    let (b1, b2, b3) = (days_below(a, d), days_below(b, d), days_below(c, d));
    lemma_ranks(feats, d);
    if feats[i].rv >= feats[d].rv {
        assert(a[i] >= a[d] > 0);
        lemma_strict_count(lo, d, |j: int| 0 < a[j] < a[d], |j: int| a[j] > 0, i);
    }
    if feats[i].atr14 >= feats[d].atr14 {
        assert(b[i] >= b[d] > 0);
        lemma_strict_count(lo, d, |j: int| 0 < b[j] < b[d], |j: int| b[j] > 0, i);
    }
    if feats[i].vix_proxy >= feats[d].vix_proxy {
        assert(c[i] >= c[d] > 0);
        lemma_strict_count(lo, d, |j: int| 0 < c[j] < c[d], |j: int| c[j] > 0, i);
    }
    let (m1, m2, m3) = (n2 * n3, n1 * n3, n1 * n2);
    assert(m1 > 0 && m2 > 0 && m3 > 0) by (nonlinear_arith)
        requires
            n1 > 0,
            n2 > 0,
            n3 > 0,
            m1 == n2 * n3,
            m2 == n1 * n3,
            m3 == n1 * n2,
    ;
    assert(b1 * m1 + b2 * m2 + b3 * m3 < n1 * m1 + n2 * m2 + n3 * m3) by (nonlinear_arith)
        requires
            b1 <= n1,
            b2 <= n2,
            b3 <= n3,
            b1 < n1 || b2 < n2 || b3 < n3,
            m1 > 0,
            m2 > 0,
            m3 > 0,
    ;
    assert(b1 * m1 == b1 * n2 * n3 && b2 * m2 == b2 * n1 * n3 && b3 * m3 == b3 * n1 * n2 && n1 * m1
        == n1 * n2 * n3 && n2 * m2 == n1 * n2 * n3 && n3 * m3 == n1 * n2 * n3)
        by (nonlinear_arith)
        requires
            m1 == n2 * n3,
            m2 == n1 * n3,
            m3 == n1 * n2,
    ;
}

/// A classified day whose three measures all exceed those of the year before, in
/// which no day was such a record itself, is in crisis.
pub proof fn the_wildest_day_of_a_year_is_in_crisis(feats: Seq<VolFeatures>, d: int)
    requires
        0 <= d < feats.len(),
        regime(feats, d) != 0,
        forall|j: int|
            d - 252 <= j < d ==> (#[trigger] feats[j]).rv < feats[d].rv && feats[j].atr14
                < feats[d].atr14 && feats[j].vix_proxy < feats[d].vix_proxy,
        forall|j: int| d - 252 <= j < d ==> #[trigger] is_no_record(feats, j),
    ensures
        regime(feats, d) == 5,
{
    a_regime_is_the_fifth_of_its_score(feats, d);
    lemma_top_score(feats, d);
    lemma_score_range(feats, d);
    let (x, y) = composite(feats, d)->0;
    assert forall|j: int| d - 252 <= j < d && has_score(feats, j) implies scores_below(
        feats,
        j,
        d,
    ) by {
        assert(is_no_record(feats, j));
        lemma_other_score(feats, j);
        let (p, q) = composite(feats, j)->0;
        assert(p * y < (3 * y) * q) by (nonlinear_arith)
            requires
                p < 3 * q,
                y > 0,
        ;
    }
    let n = days_with(d - 252, d, |j: int| has_score(feats, j));
    lemma_same_count(
        d - 252,
        d,
        |j: int| scores_below(feats, j, d),
        |j: int| has_score(feats, j),
    );
    let r = regime(feats, d) as int;
    assert(r == 5) by {
        if r < 5 {
            assert(5 * n < r * n);
            assert(r * n <= 4 * n) by (nonlinear_arith)
                requires
                    r <= 4,
                    n >= 50,
            ;
        }
    }
}

proof fn lemma_score_grows(a: Seq<VolFeatures>, b: Seq<VolFeatures>, d: int)
    requires
        0 <= d < a.len(),
        d < b.len(),
        forall|j: int| 0 <= j < d ==> #[trigger] a[j] == b[j],
        0 < a[d].rv <= b[d].rv,
        0 < a[d].atr14 <= b[d].atr14,
        0 < a[d].vix_proxy <= b[d].vix_proxy,
    ensures
        has_score(a, d) == has_score(b, d),
        has_score(a, d) ==> ({
            let (x, y) = composite(a, d)->0;
            let (z, w) = composite(b, d)->0;
            x <= z && y == w && y > 0
        }),
{
    if d >= 252 {
        let lo = d - 252;
        lemma_ranks(a, d);
        lemma_ranks(b, d);
        lemma_rank_grows(a, b, rvs(a), rvs(b), d);
        lemma_rank_grows(a, b, atrs(a), atrs(b), d);
        lemma_rank_grows(a, b, proxies(a), proxies(b), d);
        let (n1, n2, n3) = (
            ranked_days(rvs(a), d),
            ranked_days(atrs(a), d),
            ranked_days(proxies(a), d),
        );
        let (b1, b2, b3) = (days_below(rvs(a), d), days_below(atrs(a), d), days_below(proxies(a), d));
        let (c1, c2, c3) = (days_below(rvs(b), d), days_below(atrs(b), d), days_below(proxies(b), d));
        if n1 >= 50 && n2 >= 50 && n3 >= 50 {
            lemma_product_positive(n1, n2, n3);
            assert(b1 * n2 * n3 <= c1 * n2 * n3 && b2 * n1 * n3 <= c2 * n1 * n3 && b3 * n1 * n2
                <= c3 * n1 * n2) by {
                lemma_scaled(b1, c1, n2, n3);
                lemma_scaled(b2, c2, n1, n3);
                lemma_scaled(b3, c3, n1, n2);
            }
        }
    }
}

proof fn lemma_scaled(a: int, b: int, m: int, n: int)
    requires
        a <= b,
        m > 0,
        n > 0,
    ensures
        a * m * n <= b * m * n,
{
    assert(a * m <= b * m) by (nonlinear_arith)
        requires
            a <= b,
            m > 0,
    ;
    let (x, y) = (a * m, b * m);
    assert(x * n <= y * n) by (nonlinear_arith)
        requires
            x <= y,
            n > 0,
    ;
}

proof fn lemma_rank_grows(
    a: Seq<VolFeatures>,
    b: Seq<VolFeatures>,
    s: Seq<i64>,
    t: Seq<i64>,
    d: int,
)
    requires
        252 <= d < s.len(),
        d < t.len(),
        forall|j: int| 0 <= j < d ==> #[trigger] s[j] == t[j],
        s[d] <= t[d],
    ensures
        ranked_days(s, d) == ranked_days(t, d),
        days_below(s, d) <= days_below(t, d),
{
    lemma_same_count(d - 252, d, |j: int| s[j] > 0, |j: int| t[j] > 0);
    lemma_counts(d - 252, d, |j: int| 0 < s[j] < s[d], |j: int| 0 < t[j] < t[d]);
}

proof fn lemma_same_score(a: Seq<VolFeatures>, b: Seq<VolFeatures>, d: int)
    requires
        0 <= d < a.len(),
        d < b.len(),
        forall|j: int| 0 <= j <= d ==> #[trigger] a[j] == b[j],
    ensures
        composite(a, d) == composite(b, d),
{
    lemma_composite_reads_past(a, b, d);
}

/// Regimes rise with volatility: on the same past, a day whose measures are all at
/// least as high never gets the calmer regime.
pub proof fn a_wilder_day_is_never_calmer(a: Seq<VolFeatures>, b: Seq<VolFeatures>, d: int)
    requires
        0 <= d < a.len(),
        d < b.len(),
        forall|j: int| 0 <= j < d ==> #[trigger] a[j] == b[j],
        0 < a[d].rv <= b[d].rv,
        0 < a[d].atr14 <= b[d].atr14,
        0 < a[d].vix_proxy <= b[d].vix_proxy,
    ensures
        regime(a, d) <= regime(b, d),
        regime(a, d) == 0 <==> regime(b, d) == 0,
{
    a_regime_is_the_fifth_of_its_score(a, d);
    a_regime_is_the_fifth_of_its_score(b, d);
    lemma_score_grows(a, b, d);
    let lo = d - 252;
    if d >= 504 && has_score(a, d) {
        assert forall|j: int| lo <= j < d implies composite(a, j) == composite(b, j) by {
            lemma_same_score(a, b, j);
        }
        lemma_same_count(lo, d, |j: int| has_score(a, j), |j: int| has_score(b, j));
        let (x, y) = composite(a, d)->0;
        let (z, w) = composite(b, d)->0;
        assert forall|j: int| lo <= j < d && scores_below(a, j, d) implies scores_below(
            b,
            j,
            d,
        ) by {
            lemma_score_range(a, j);
            assert(composite(a, j) == composite(b, j));
            let (p, q) = composite(a, j)->0;
            assert(x * q <= z * q) by (nonlinear_arith)
                requires
                    x <= z,
                    q > 0,
            ;
        }
        lemma_counts(lo, d, |j: int| scores_below(a, j, d), |j: int| scores_below(b, j, d));
        let n = days_with(lo, d, |j: int| has_score(a, j));
        let (r, s) = (regime(a, d) as int, regime(b, d) as int);
        if n >= 50 && s < r {
            assert(s * n <= (r - 1) * n) by (nonlinear_arith)
                requires
                    s <= r - 1,
                    n >= 50,
            ;
        }
    }
}

/// The filters name the regimes from calm to crisis: each lets exactly its own
/// regime trade, `not_high` the three lower ones, and `all` every day.
pub proof fn filters_select_their_regimes(r: u8)
    ensures
        eligible(r, "all"@),
        eligible(r, "calm"@) <==> r == 1,
        eligible(r, "normal"@) <==> r == 2,
        eligible(r, "elevated"@) <==> r == 3,
        eligible(r, "stressed"@) <==> r == 4,
        eligible(r, "crisis"@) <==> r == 5,
        eligible(r, "not_high"@) <==> 1 <= r <= 3,
{
    reveal_strlit("all");
    reveal_strlit("calm");
    reveal_strlit("normal");
    reveal_strlit("elevated");
    reveal_strlit("stressed");
    reveal_strlit("crisis");
    reveal_strlit("not_high");
    assert("all"@.len() == 3 && "calm"@.len() == 4 && "normal"@.len() == 6);
    assert("elevated"@.len() == 8 && "stressed"@.len() == 8 && "crisis"@.len() == 6);
    assert("not_high"@.len() == 8);
    assert("normal"@[0] == 'n' && "crisis"@[0] == 'c');
    assert("elevated"@[0] == 'e' && "stressed"@[0] == 's' && "not_high"@[0] == 'n');
}

} // verus!
