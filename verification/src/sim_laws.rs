//! What the simulators draw, size and report.

use vstd::prelude::*;

use crate::draws::{repeated, seeded_draw};
use crate::mc::{
    challenge_of, challenge_outcomes, challenge_path, drawdowns, extractions, funded_of,
    funded_outcomes, funded_path, holdings, pass_days, passes, path_days, path_seed, reaching,
    Conditions, FundedDist, FundedPath, CHALLENGE_TAG, FUNDED_TAG,
};
use crate::mc_laws::a_pass_comes_within_the_window;
use crate::num::{in_order, ints, quantile_index, total};
use crate::stat_laws::{
    a_count_is_what_a_filter_keeps, a_quantile_stands_at_its_share,
    the_nearest_is_off_by_at_most_a_half,
};
use crate::types::{Account, RawTrade};

verus! {

// ---------------------------------------------------------------------------
// The days of a path
// ---------------------------------------------------------------------------

/// A path draws days of the sample in blocks: within a block each day is followed
/// by the next one, the last by the first; and each block begins where its own
/// draw says.
pub proof fn a_path_runs_in_blocks(seed: u64, n: int, block: int, want: int, j: int)
    requires
        n > 0,
        block > 0,
        0 <= j < want,
    ensures
        path_days(seed, n, block, want).len() == want,
        0 <= path_days(seed, n, block, want)[j] < n,
        j % block != 0 ==> path_days(seed, n, block, want)[j] == (path_days(
            seed,
            n,
            block,
            want,
        )[j - 1] + 1) % n,
        j % block == 0 ==> path_days(seed, n, block, want)[j] == seeded_draw(
            seed,
            repeated(n as nat, (j / block + 1) as nat),
        ) % (n as nat),
{
    let idx = path_days(seed, n, block, want);
    let q = j / block;
    let r = j % block;
    vstd::arithmetic::div_mod::lemma_fundamental_div_mod(j, block);
    assert(q >= 0) by (nonlinear_arith)
        requires
            j == block * q + r,
            0 <= r < block,
            j >= 0,
    ;
    let x = seeded_draw(seed, repeated(n as nat, (q + 1) as nat)) as int;
    assert((q as nat) + 1 == (q + 1) as nat);
    assert(idx[j] == (x + r) % n);
    if r != 0 {
        assert(j - 1 == q * block + (r - 1)) by (nonlinear_arith)
            requires
                j == block * q + r,
        ;
        vstd::arithmetic::div_mod::lemma_fundamental_div_mod_converse(j - 1, block, q, r - 1);
        assert(idx[j - 1] == (x + (r - 1)) % n);
        vstd::arithmetic::div_mod::lemma_add_mod_noop((x + (r - 1)) % n, 1, n);
        vstd::arithmetic::div_mod::lemma_add_mod_noop(x + (r - 1), 1, n);
        vstd::arithmetic::div_mod::lemma_mod_twice(x + (r - 1), n);
    }
}

proof fn lemma_multiplier_is_injective(a: u64, b: u64)
    requires
        a.wrapping_mul(0x9E37_79B9_7F4A_7C15) == b.wrapping_mul(0x9E37_79B9_7F4A_7C15),
    ensures
        a == b,
{
    let m: int = 0x1_0000_0000_0000_0000;
    let p: int = 0x9E37_79B9_7F4A_7C15;
    // The inverse of the multiplier modulo the word range.
    let q: int = 17428512612931826493;
    let e: int = 10771413168148108919;
    assert(p * q == 1 + m * e);
    let x = a as int;
    let y = b as int;
    assert((x * p) % m == (y * p) % m);
    vstd::arithmetic::div_mod::lemma_mod_equivalence(x * p, y * p, m);
    let diff = x - y;
    assert(x * p - y * p == diff * p) by (nonlinear_arith)
        requires
            diff == x - y,
    ;
    vstd::arithmetic::div_mod::lemma_fundamental_div_mod(diff * p, m);
    let k = (diff * p) / m;
    assert(diff * p == m * k);
    assert(diff == m * (k * q - diff * e)) by (nonlinear_arith)
        requires
            diff * p == m * k,
            p * q == 1 + m * e,
    ;
    let w = k * q - diff * e;
    assert(w == 0) by (nonlinear_arith)
        requires
            diff == m * w,
            -m < diff < m,
            m > 0,
    ;
}

/// No two simulations of a phase draw from the same seed, and no simulation of one
/// phase from that of the same number in the other.
pub proof fn every_path_has_its_own_seed(base: u64, a: u64, b: u64)
    ensures
        a != b ==> path_seed(base, a, CHALLENGE_TAG) != path_seed(base, b, CHALLENGE_TAG),
        a != b ==> path_seed(base, a, FUNDED_TAG) != path_seed(base, b, FUNDED_TAG),
        path_seed(base, a, CHALLENGE_TAG) != path_seed(base, a, FUNDED_TAG),
{
    let k: u64 = 0x9E37_79B9_7F4A_7C15;
    let (x, y) = (a.wrapping_mul(k), b.wrapping_mul(k));
    if x == y {
        lemma_multiplier_is_injective(a, b);
    }
    let (s, t) = (CHALLENGE_TAG, FUNDED_TAG);
    assert(x != y ==> base ^ x ^ s != base ^ y ^ s) by (bit_vector);
    assert(x != y ==> base ^ x ^ t != base ^ y ^ t) by (bit_vector);
    assert(s != t ==> base ^ x ^ s != base ^ x ^ t) by (bit_vector);
}

// ---------------------------------------------------------------------------
// What is reported
// ---------------------------------------------------------------------------

/// The days of a path's pass, 0 where it did not pass.
pub open spec fn days_to_pass(o: Option<int>) -> int {
    match o {
        Some(d) => d,
        None => 0,
    }
}

proof fn lemma_pass_days(s: Seq<Option<int>>)
    ensures
        pass_days(s) == total(s.map_values(|o: Option<int>| days_to_pass(o))),
    decreases s.len(),
{
    let t = s.map_values(|o: Option<int>| days_to_pass(o));
    if s.len() > 0 {
        lemma_pass_days(s.drop_last());
        assert(t.drop_last() =~= s.drop_last().map_values(|o: Option<int>| days_to_pass(o)));
    }
}

proof fn lemma_pass_days_small(s: Seq<Option<int>>, most: int)
    requires
        most >= 0,
        forall|i: int| 0 <= i < s.len() ==> ((#[trigger] s[i]) matches Some(d) ==> 0 <= d <= most),
    ensures
        0 <= pass_days(s) <= most * s.len(),
        0 <= passes(s) <= s.len(),
    decreases s.len(),
{
    if s.len() > 0 {
        let t = s.drop_last();
        assert forall|i: int| 0 <= i < t.len() implies ((#[trigger] t[i]) matches Some(d) ==> 0 <= d
            <= most) by {
            assert(s[i] == t[i]);
        }
        lemma_pass_days_small(t, most);
        let (m, n) = (most, s.len() as int);
        assert(m * (n - 1) + m == m * n) by (nonlinear_arith);
        assert(s[n - 1] == s.last());
    } else {
        assert(most * 0 == 0);
    }
}

/// The pass rate is the share of the simulated paths that pass, and the days to a
/// pass are the mean over those.
pub proof fn the_pass_rate_is_a_share_of_the_paths(
    by_day: Seq<Vec<RawTrade>>,
    ax: Account,
    c: Conditions,
    block: int,
    base_seed: u64,
    sims: int,
)
    requires
        by_day.len() > 0,
        0 < sims <= 0x7fff_ffff,
        0 <= c.max_days,
    ensures
        ({
            let paths = Seq::new(
                sims as nat,
                |i: int| challenge_path(by_day, ax, c, block, base_seed, i),
            );
            let passed = paths.filter(|o: Option<int>| o is Some);
            let r = challenge_of(by_day, ax, c, block, base_seed, sims);
            &&& r.pass_rate.num == passed.len()
            &&& r.pass_rate.den == sims
            &&& passed.len() > 0 ==> r.avg_days_to_pass.num == total(
                paths.map_values(|o: Option<int>| days_to_pass(o)),
            ) && r.avg_days_to_pass.den == passed.len()
            &&& passed.len() == 0 ==> r.avg_days_to_pass.num == 0
        }),
{
    let paths = Seq::new(
        sims as nat,
        |i: int| challenge_path(by_day, ax, c, block, base_seed, i),
    );
    let outcomes = challenge_outcomes(by_day, ax, c, block, base_seed, sims);
    assert(outcomes =~= paths);
    a_count_is_what_a_filter_keeps(outcomes, |o: Option<int>| o is Some);
    lemma_pass_days(outcomes);
    assert forall|i: int| 0 <= i < outcomes.len() implies ((#[trigger] outcomes[i]) matches Some(d)
        ==> 0 <= d <= c.max_days) by {
        a_pass_comes_within_the_window(by_day, ax, c, block, base_seed, i);
    }
    lemma_pass_days_small(outcomes, c.max_days as int);
    let (m, n) = (c.max_days as int, sims);
    assert(m * n <= 0x7fff_ffff * 0x7fff_ffff) by (nonlinear_arith)
        requires
            0 <= m <= 0x7fff_ffff,
            0 <= n <= 0x7fff_ffff,
    ;
}

/// Without days to draw from, no evaluation passes.
pub proof fn nothing_passes_without_days(
    by_day: Seq<Vec<RawTrade>>,
    ax: Account,
    c: Conditions,
    block: int,
    base_seed: u64,
    sims: int,
)
    requires
        by_day.len() == 0,
    ensures
        challenge_of(by_day, ax, c, block, base_seed, sims).pass_rate.num == 0,
        funded_of(by_day, ax, c, block, base_seed, sims).mean_ext == 0,
        funded_of(by_day, ax, c, block, base_seed, sims).mean_days_held.num == 0,
{
}

/// A funded distribution says of simulated accounts what they extracted on
/// average, to the nearest, in the middle and at the lower twentieth; what share
/// of them extracted nothing, at least $2,500, $10,000 and $20,000, and failed; how
/// deep they fell in the middle and at the upper twentieth; and how long they were
/// held on average.
pub proof fn a_funded_distribution_describes_its_accounts(r: FundedDist, paths: Seq<FundedPath>)
    requires
        paths.len() > 0,
        r.summarises(paths),
    ensures
        ({
            let n = paths.len() as int;
            let exts = paths.map_values(|p: FundedPath| p.ext as i128);
            let falls = paths.map_values(|p: FundedPath| p.max_dd as i128);
            let sum = total(ints(exts));
            &&& -n < 2 * (r.mean_ext * n - sum) <= n
            &&& r.median_ext == in_order(exts)[quantile_index(n, 50, 100)]
            &&& r.p5_ext == in_order(exts)[quantile_index(n, 5, 100)]
            &&& r.max_pa_dd_median == in_order(falls)[quantile_index(n, 50, 100)]
            &&& r.max_pa_dd_p95 == in_order(falls)[quantile_index(n, 95, 100)]
            &&& r.p_ext_zero.num == paths.filter(|p: FundedPath| p.ext <= 0).len()
            &&& r.p_ext_2500.num == paths.filter(|p: FundedPath| p.ext >= 2_500_000_000).len()
            &&& r.p_ext_10k.num == paths.filter(|p: FundedPath| p.ext >= 10_000_000_000).len()
            &&& r.p_ext_20k.num == paths.filter(|p: FundedPath| p.ext >= 20_000_000_000).len()
            &&& r.blowup_rate.num == paths.filter(|p: FundedPath| p.blown).len()
            &&& r.p_ext_zero.den == n && r.p_ext_2500.den == n && r.p_ext_10k.den == n
                && r.p_ext_20k.den == n && r.blowup_rate.den == n
            &&& r.mean_days_held.num == total(paths.map_values(|p: FundedPath| p.days_held))
            &&& r.mean_days_held.den == n
        }),
{
    let n = paths.len() as int;
    let exts = paths.map_values(|p: FundedPath| p.ext as i128);
    let falls = paths.map_values(|p: FundedPath| p.max_dd as i128);
    assert(exts =~= extractions(paths));
    assert(falls =~= drawdowns(paths));
    the_nearest_is_off_by_at_most_a_half(total(ints(exts)), n);
    a_quantile_stands_at_its_share(exts, 50, 100);
    a_quantile_stands_at_its_share(exts, 5, 100);
    a_quantile_stands_at_its_share(falls, 50, 100);
    a_quantile_stands_at_its_share(falls, 95, 100);
    a_count_is_what_a_filter_keeps(paths, |p: FundedPath| p.ext <= 0);
    a_count_is_what_a_filter_keeps(paths, |p: FundedPath| p.blown);
    lemma_reaching(paths, 2_500_000_000);
    lemma_reaching(paths, 10_000_000_000);
    lemma_reaching(paths, 20_000_000_000);
    assert((|p: FundedPath| p.ext >= 2_500_000_000) =~= at_least(2_500_000_000));
    assert((|p: FundedPath| p.ext >= 10_000_000_000) =~= at_least(10_000_000_000));
    assert((|p: FundedPath| p.ext >= 20_000_000_000) =~= at_least(20_000_000_000));
    assert(paths.map_values(|p: FundedPath| p.days_held) =~= holdings(paths));
}

spec fn at_least(amount: int) -> spec_fn(FundedPath) -> bool {
    |p: FundedPath| p.ext >= amount
}

proof fn lemma_reaching(paths: Seq<FundedPath>, amount: int)
    ensures
        reaching(paths, amount) == paths.filter(at_least(amount)).len(),
{
    a_count_is_what_a_filter_keeps(paths, at_least(amount));
    assert((|p: FundedPath| p.ext >= amount) =~= at_least(amount));
}

/// The accounts that a distribution is made of are the simulated paths, one for
/// each simulation.
pub proof fn every_simulation_counts_once(
    by_day: Seq<Vec<RawTrade>>,
    ax: Account,
    c: Conditions,
    block: int,
    base_seed: u64,
    sims: int,
    i: int,
)
    requires
        0 <= i < sims,
    ensures
        funded_outcomes(by_day, ax, c, block, base_seed, sims).len() == sims,
        funded_outcomes(by_day, ax, c, block, base_seed, sims)[i] == funded_path(
            by_day,
            ax,
            c,
            block,
            base_seed,
            i,
        ),
{
}

} // verus!
