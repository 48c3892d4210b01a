//! What holds of the seeds of configurations.

use vstd::prelude::*;
use vstd::utf8::{encode_utf8, encode_utf8_decode_utf8};

use crate::mc::{mix, mixed, number_words, part_words, seed_words, SEED_PRIME, SEED_SEPARATOR};

verus! {

// ---------------------------------------------------------------------------
// One changed word
// ---------------------------------------------------------------------------

proof fn lemma_multiplier_is_injective(a: u64, b: u64)
    requires
        a.wrapping_mul(SEED_PRIME) == b.wrapping_mul(SEED_PRIME),
    ensures
        a == b,
{
    let m: int = 0x1_0000_0000_0000_0000;
    let p: int = 0x0000_0100_0000_01B3;
    // The inverse of the multiplier modulo the word range.
    let q: int = 0xCE96_5057_AFF6_957B;
    let e: int = 887_285_111_055;
    assert(p * q == 1 + m * e);
    let x = a as int;
    let y = b as int;
    assert((x * p) % m == (y * p) % m);
    vstd::arithmetic::div_mod::lemma_mod_equivalence(x * p, y * p, m);
    let diff = x - y;
    assert(x * p - y * p == diff * p) by (nonlinear_arith)
        requires
            diff == x - y,
    ;
    vstd::arithmetic::div_mod::lemma_fundamental_div_mod(diff * p, m);
    let k = (diff * p) / m;
    assert(diff * p == m * k);
    assert(diff == m * (k * q - diff * e)) by (nonlinear_arith)
        requires
            diff * p == m * k,
            p * q == 1 + m * e,
    ;
    let w = k * q - diff * e;
    assert(w == 0) by (nonlinear_arith)
        requires
            diff == m * w,
            -m < diff < m,
            m > 0,
    ;
}

proof fn lemma_mix_separates_states(s: u64, t: u64, word: u64)
    requires
        mix(s, word) == mix(t, word),
    ensures
        s == t,
{
    lemma_multiplier_is_injective(s, t);
}

/// Two configurations that differ in exactly one word of their seeds' input get
/// different seeds.
pub proof fn one_changed_word_changes_the_seed(base: u64, a: Seq<u64>, b: Seq<u64>, at: int)
    requires
        a.len() == b.len(),
        0 <= at < a.len(),
        a[at] != b[at],
        forall|i: int| 0 <= i < a.len() && i != at ==> a[i] == b[i],
    ensures
        mixed(base, a) != mixed(base, b),
    decreases a.len(),
{
    let pa = a.drop_last();
    let pb = b.drop_last();
    if at == a.len() - 1 {
        assert(pa == pb);
    } else {
        one_changed_word_changes_the_seed(base, pa, pb, at);
        if mixed(base, a) == mixed(base, b) {
            lemma_mix_separates_states(mixed(base, pa), mixed(base, pb), a.last());
        }
    }
}

// ---------------------------------------------------------------------------
// Words in a row
// ---------------------------------------------------------------------------

proof fn lemma_mixed_in_turn(s: u64, a: Seq<u64>, b: Seq<u64>)
    ensures
        mixed(s, a + b) == mixed(mixed(s, a), b),
    decreases b.len(),
{
    if b.len() == 0 {
        assert(a + b =~= a);
    } else {
        assert((a + b).drop_last() =~= a + b.drop_last());
        lemma_mixed_in_turn(s, a, b.drop_last());
    }
}

/// Mixing in the same words keeps two states apart.
proof fn lemma_same_words_separate(s: u64, t: u64, words: Seq<u64>)
    requires
        mixed(s, words) == mixed(t, words),
    ensures
        s == t,
    decreases words.len(),
{
    if words.len() > 0 {
        let past = words.drop_last();
        lemma_mix_separates_states(mixed(s, past), mixed(t, past), words.last());
        lemma_same_words_separate(s, t, past);
    }
}

/// Whether two numbers agree modulo two to the fortieth.
spec fn agree(a: int, b: int) -> bool {
    (a - b) % 0x100_0000_0000 == 0
}

/// Differences of words, mixed as the low part of the multiplier mixes them.
spec fn drift(d: Seq<int>) -> int
    decreases d.len(),
{
    if d.len() == 0 {
        0
    } else {
        435 * drift(d.drop_last()) + d.last()
    }
}

proof fn lemma_mix_drifts(x: u64, y: u64, e: int, u: u64, v: u64, d: int)
    requires
        agree(x - y, e),
        agree(u - v, d),
    ensures
        agree(mix(x, u) - mix(y, v), 435 * e + d),
{
    let big: int = 0x1_0000_0000_0000_0000;
    let m: int = 0x100_0000_0000;
    let p: int = 0x0000_0100_0000_01B3;
    let (xp, yp) = (x * p, y * p);
    let (a, b) = (x.wrapping_mul(SEED_PRIME), y.wrapping_mul(SEED_PRIME));
    assert(a == xp % big && b == yp % big);
    vstd::arithmetic::div_mod::lemma_fundamental_div_mod(xp, big);
    vstd::arithmetic::div_mod::lemma_fundamental_div_mod(yp, big);
    let (k, l) = (xp / big, yp / big);
    let (ku, lv) = (if a + u >= big { 1int } else { 0 }, if b + v >= big { 1int } else { 0 });
    assert(mix(x, u) == a + u - big * ku);
    assert(mix(y, v) == b + v - big * lv);
    vstd::arithmetic::div_mod::lemma_fundamental_div_mod(x - y - e, m);
    vstd::arithmetic::div_mod::lemma_fundamental_div_mod(u - v - d, m);
    let (f, g) = ((x - y - e) / m, (u - v - d) / m);
    let gap = mix(x, u) - mix(y, v) - (435 * e + d);
    let w = (x - y) + 435 * f + g - 0x100_0000 * (k - l + ku - lv);
    assert(xp - yp == m * (x - y) + 435 * (x - y)) by (nonlinear_arith)
        requires
            xp == x * p,
            yp == y * p,
            p == m + 435,
    ;
    assert(gap == m * w);
    vstd::arithmetic::div_mod::lemma_mod_multiples_basic(w, m);
    assert(m * w == w * m) by (nonlinear_arith);
}

proof fn lemma_seed_drifts(s: u64, a: Seq<u64>, b: Seq<u64>, d: Seq<int>)
    requires
        a.len() == b.len() == d.len(),
        forall|i: int| 0 <= i < a.len() ==> agree(#[trigger] a[i] - b[i], d[i]),
    ensures
        agree(mixed(s, a) - mixed(s, b), drift(d)),
    decreases a.len(),
{
    if a.len() > 0 {
        let (pa, pb, pd) = (a.drop_last(), b.drop_last(), d.drop_last());
        assert forall|i: int| 0 <= i < pa.len() implies agree(#[trigger] pa[i] - pb[i], pd[i]) by {
            assert(agree(a[i] - b[i], d[i]));
        }
        lemma_seed_drifts(s, pa, pb, pd);
        let last = a.len() - 1;
        assert(agree(a[last] - b[last], d[last]));
        lemma_mix_drifts(mixed(s, pa), mixed(s, pb), drift(pd), a.last(), b.last(), d.last());
    }
}

/// Differences of the given number of words below 435 drift by less than this.
spec fn drift_limit(n: nat) -> int
    decreases n,
{
    if n == 0 {
        1
    } else {
        435 * drift_limit((n - 1) as nat)
    }
}

proof fn lemma_drift_is_small(d: Seq<int>)
    requires
        forall|i: int| 0 <= i < d.len() ==> -435 < #[trigger] d[i] < 435,
    ensures
        -drift_limit(d.len()) < drift(d) < drift_limit(d.len()),
    decreases d.len(),
{
    if d.len() > 0 {
        let past = d.drop_last();
        assert forall|i: int| 0 <= i < past.len() implies -435 < #[trigger] past[i] < 435 by {
            assert(-435 < d[i] < 435);
        }
        lemma_drift_is_small(past);
        assert(-435 < d[d.len() - 1] < 435);
    }
}

proof fn lemma_no_drift_is_no_difference(d: Seq<int>, at: int)
    requires
        forall|i: int| 0 <= i < d.len() ==> -435 < #[trigger] d[i] < 435,
        drift(d) == 0,
        0 <= at < d.len(),
    ensures
        d[at] == 0,
    decreases d.len(),
{
    let past = d.drop_last();
    assert(-435 < d[d.len() - 1] < 435);
    assert(d.last() == 0 && drift(past) == 0);
    if at < past.len() {
        assert forall|i: int| 0 <= i < past.len() implies -435 < #[trigger] past[i] < 435 by {
            assert(-435 < d[i] < 435);
        }
        lemma_no_drift_is_no_difference(past, at);
    }
}

proof fn lemma_drift_scales(d: Seq<int>, step: int)
    ensures
        drift(d.map_values(|x: int| step * x)) == step * drift(d),
    decreases d.len(),
{
    let scaled = d.map_values(|x: int| step * x);
    if d.len() > 0 {
        lemma_drift_scales(d.drop_last(), step);
        assert(scaled.drop_last() =~= d.drop_last().map_values(|x: int| step * x));
        let (e, l) = (drift(d.drop_last()), d.last());
        assert(435 * (step * e) + step * l == step * (435 * e + l)) by (nonlinear_arith);
    } else {
        assert(step * 0 == 0);
    }
}

/// Words that differ within at most four in a row, each by less than 435 steps of
/// the same size, give different seeds.
proof fn lemma_words_in_a_row(
    base: u64,
    before: Seq<u64>,
    a: Seq<u64>,
    b: Seq<u64>,
    after: Seq<u64>,
    d: Seq<int>,
    step: int,
    at: int,
)
    requires
        a.len() == b.len() == d.len(),
        a.len() <= 4,
        1 <= step <= 30,
        forall|i: int| 0 <= i < d.len() ==> -435 < #[trigger] d[i] < 435,
        forall|i: int| 0 <= i < a.len() ==> agree(#[trigger] a[i] - b[i], step * d[i]),
        0 <= at < d.len(),
        d[at] != 0,
    ensures
        mixed(base, before + a + after) != mixed(base, before + b + after),
{
    if mixed(base, before + a + after) == mixed(base, before + b + after) {
        let s = mixed(base, before);
        lemma_mixed_in_turn(base, before + a, after);
        lemma_mixed_in_turn(base, before + b, after);
        lemma_same_words_separate(mixed(base, before + a), mixed(base, before + b), after);
        lemma_mixed_in_turn(base, before, a);
        lemma_mixed_in_turn(base, before, b);
        assert(mixed(s, a) == mixed(s, b));
        let scaled = d.map_values(|x: int| step * x);
        lemma_seed_drifts(s, a, b, scaled);
        lemma_drift_scales(d, step);
        lemma_drift_is_small(d);
        reveal_with_fuel(drift_limit, 5);
        let e = drift(d);
        assert(-35_806_100_625 < e < 35_806_100_625);
        assert(-1_074_183_018_750 < step * e < 1_074_183_018_750) by (nonlinear_arith)
            requires
                1 <= step <= 30,
                -35_806_100_625 < e < 35_806_100_625,
        ;
        let z = step * e;
        assert((0 - z) % 0x100_0000_0000 == 0);
        assert(z == 0);
        assert(e == 0) by (nonlinear_arith)
            requires
                step * e == 0,
                step >= 1,
        ;
        lemma_no_drift_is_no_difference(d, at);
    }
}

// ---------------------------------------------------------------------------
// Configurations
// ---------------------------------------------------------------------------

proof fn lemma_number_word(v: i64)
    ensures
        (v as u64) == if v >= 0 {
            v as int
        } else {
            v + 0x1_0000_0000_0000_0000
        },
{
    assert(v < 0 ==> (v as u64) == v + 0x1_0000_0000_0000_0000) by (bit_vector);
}

proof fn lemma_number_words_agree(v: i64, w: i64)
    ensures
        agree((v as u64) - (w as u64), v - w),
{
    lemma_number_word(v);
    lemma_number_word(w);
}

/// Another base seed gives every configuration another seed.
pub proof fn another_base_changes_the_seed(
    base: u64,
    other: u64,
    parts: Seq<Seq<char>>,
    nums: Seq<i64>,
    ints: Seq<i64>,
)
    requires
        base != other,
    ensures
        mixed(base, seed_words(parts, nums, ints)) != mixed(other, seed_words(parts, nums, ints)),
{
    let words = seed_words(parts, nums, ints);
    if mixed(base, words) == mixed(other, words) {
        lemma_same_words_separate(base, other, words);
    }
}

/// Two configurations that differ in exactly one of their numbers get different
/// seeds.
pub proof fn one_changed_number_changes_the_seed(
    base: u64,
    parts: Seq<Seq<char>>,
    nums: Seq<i64>,
    ints: Seq<i64>,
    at: int,
    v: i64,
)
    requires
        0 <= at < nums.len(),
        nums[at] != v,
    ensures
        mixed(base, seed_words(parts, nums, ints)) != mixed(
            base,
            seed_words(parts, nums.update(at, v), ints),
        ),
{
    lemma_number_word(nums[at]);
    lemma_number_word(v);
    one_changed_word_changes_the_seed(
        base,
        seed_words(parts, nums, ints),
        seed_words(parts, nums.update(at, v), ints),
        part_words(parts).len() + at,
    );
}

/// Two configurations that differ in exactly one of their whole numbers get
/// different seeds.
pub proof fn one_changed_integer_changes_the_seed(
    base: u64,
    parts: Seq<Seq<char>>,
    nums: Seq<i64>,
    ints: Seq<i64>,
    at: int,
    v: i64,
)
    requires
        0 <= at < ints.len(),
        ints[at] != v,
    ensures
        mixed(base, seed_words(parts, nums, ints)) != mixed(
            base,
            seed_words(parts, nums, ints.update(at, v)),
        ),
{
    lemma_number_word(ints[at]);
    lemma_number_word(v);
    one_changed_word_changes_the_seed(
        base,
        seed_words(parts, nums, ints),
        seed_words(parts, nums, ints.update(at, v)),
        part_words(parts).len() + nums.len() + at,
    );
}

/// Up to four numbers that are not all the same, each less than 435 steps of
/// `step` from the other configuration's, give different seeds.
pub proof fn nearby_numbers_change_the_seed(
    base: u64,
    parts: Seq<Seq<char>>,
    nums: Seq<i64>,
    others: Seq<i64>,
    ints: Seq<i64>,
    steps: Seq<int>,
    step: int,
)
    requires
        nums.len() == others.len() == steps.len(),
        nums.len() <= 4,
        1 <= step <= 30,
        forall|i: int|
            0 <= i < nums.len() ==> -435 < #[trigger] steps[i] < 435 && nums[i] - others[i] == step
                * steps[i],
        nums != others,
    ensures
        mixed(base, seed_words(parts, nums, ints)) != mixed(base, seed_words(parts, others, ints)),
{
    lemma_some_step(nums, others, steps, step);
    let at = choose|i: int| 0 <= i < steps.len() && #[trigger] steps[i] != 0;
    let (a, b) = (number_words(nums), number_words(others));
    assert forall|i: int| 0 <= i < a.len() implies agree(
        #[trigger] a[i] - b[i],
        step * steps[i],
    ) by {
        lemma_number_words_agree(nums[i], others[i]);
        assert(-435 < steps[i] < 435);
    }
    lemma_words_in_a_row(base, part_words(parts), a, b, number_words(ints), steps, step, at);
}

/// Up to four whole numbers that are not all the same, each less than 435 from the
/// other configuration's, give different seeds.
pub proof fn nearby_integers_change_the_seed(
    base: u64,
    parts: Seq<Seq<char>>,
    nums: Seq<i64>,
    ints: Seq<i64>,
    others: Seq<i64>,
)
    requires
        ints.len() == others.len(),
        ints.len() <= 4,
        forall|i: int| 0 <= i < ints.len() ==> -435 < #[trigger] ints[i] - others[i] < 435,
        ints != others,
    ensures
        mixed(base, seed_words(parts, nums, ints)) != mixed(base, seed_words(parts, nums, others)),
{
    let steps = Seq::new(ints.len(), |i: int| ints[i] - others[i]);
    assert forall|i: int| 0 <= i < ints.len() implies -435 < #[trigger] steps[i] < 435 && ints[i]
        - others[i] == 1 * steps[i] by {
        assert(-435 < ints[i] - others[i] < 435);
    }
    lemma_some_step(ints, others, steps, 1);
    let at = choose|i: int| 0 <= i < steps.len() && #[trigger] steps[i] != 0;
    let (a, b) = (number_words(ints), number_words(others));
    assert forall|i: int| 0 <= i < a.len() implies agree(#[trigger] a[i] - b[i], 1 * steps[i]) by {
        lemma_number_words_agree(ints[i], others[i]);
    }
    let before = part_words(parts) + number_words(nums);
    lemma_words_in_a_row(base, before, a, b, Seq::empty(), steps, 1, at);
    assert(before + a + Seq::<u64>::empty() =~= seed_words(parts, nums, ints));
    assert(before + b + Seq::<u64>::empty() =~= seed_words(parts, nums, others));
}

proof fn lemma_some_step(a: Seq<i64>, b: Seq<i64>, steps: Seq<int>, step: int)
    requires
        a.len() == b.len() == steps.len(),
        forall|i: int| 0 <= i < a.len() ==> a[i] - b[i] == step * #[trigger] steps[i],
        a != b,
    ensures
        exists|i: int| 0 <= i < steps.len() && #[trigger] steps[i] != 0,
{
    if forall|i: int| 0 <= i < steps.len() ==> #[trigger] steps[i] == 0 {
        assert forall|i: int| 0 <= i < a.len() implies a[i] == b[i] by {
            assert(steps[i] == 0);
            assert(step * 0 == 0);
        }
        assert(a =~= b);
    }
}

/// The words of one text part.
spec fn text_words(text: Seq<char>) -> Seq<u64> {
    encode_utf8(text).map_values(|b: u8| b as u64)
}

/// The words of the parts before one, of that part, and of what comes after it.
proof fn lemma_part_words_split(parts: Seq<Seq<char>>, p: int) -> (after: Seq<u64>)
    requires
        0 <= p < parts.len(),
    ensures
        forall|text: Seq<char>| #[trigger]
            part_words(parts.update(p, text)) == part_words(parts.take(p)) + text_words(text)
                + after,
    decreases parts.len(),
{
    let past = parts.drop_last();
    if p == parts.len() - 1 {
        let after = seq![SEED_SEPARATOR];
        assert forall|text: Seq<char>| #[trigger]
            part_words(parts.update(p, text)) == part_words(parts.take(p)) + text_words(text)
                + after by {
            let now = parts.update(p, text);
            assert(now.drop_last() =~= parts.take(p));
        }
        after
    } else {
        let inner = lemma_part_words_split(past, p);
        let after = inner + text_words(parts.last()) + seq![SEED_SEPARATOR];
        assert forall|text: Seq<char>| #[trigger]
            part_words(parts.update(p, text)) == part_words(parts.take(p)) + text_words(text)
                + after by {
            let now = parts.update(p, text);
            assert(now.drop_last() =~= past.update(p, text));
            assert(past.take(p) =~= parts.take(p));
            assert(part_words(past.update(p, text)) == part_words(parts.take(p)) + text_words(text)
                + inner);
            assert(part_words(now) =~= part_words(parts.take(p)) + text_words(text) + after);
        }
        after
    }
}

/// Words with a part of them cut out.
proof fn lemma_cut(first: Seq<u64>, w: Seq<u64>, lo: int, hi: int, rest: Seq<u64>)
    requires
        0 <= lo <= hi <= w.len(),
    ensures
        first + w + rest == (first + w.take(lo)) + w.subrange(lo, hi) + (w.skip(hi) + rest),
{
    assert(w =~= w.take(lo) + w.subrange(lo, hi) + w.skip(hi));
    assert(first + w + rest =~= (first + w.take(lo)) + w.subrange(lo, hi) + (w.skip(hi) + rest));
}

/// The words of a configuration around one of its texts.
proof fn lemma_seed_words_split(parts: Seq<Seq<char>>, p: int, nums: Seq<i64>, ints: Seq<i64>) -> (
    rest: Seq<u64>)
    requires
        0 <= p < parts.len(),
    ensures
        forall|text: Seq<char>| #[trigger]
            seed_words(parts.update(p, text), nums, ints) == part_words(parts.take(p))
                + text_words(text) + rest,
{
    let tail = lemma_part_words_split(parts, p);
    let rest = tail + number_words(nums) + number_words(ints);
    assert forall|text: Seq<char>| #[trigger]
        seed_words(parts.update(p, text), nums, ints) == part_words(parts.take(p)) + text_words(
        text,
    ) + rest by {
        let first = part_words(parts.take(p)) + text_words(text);
        assert(part_words(parts.update(p, text)) == first + tail);
        assert(first + tail + number_words(nums) + number_words(ints) =~= first + rest);
    }
    rest
}

/// Differences between bytes within four in a row.
proof fn lemma_bytes_in_a_row(
    base: u64,
    first: Seq<u64>,
    x: Seq<u8>,
    y: Seq<u8>,
    rest: Seq<u64>,
    at: int,
)
    requires
        x.len() == y.len(),
        x != y,
        forall|i: int| 0 <= i < x.len() && !(at <= i < at + 4) ==> #[trigger] x[i] == y[i],
    ensures
        mixed(base, first + x.map_values(|b: u8| b as u64) + rest) != mixed(
            base,
            first + y.map_values(|b: u8| b as u64) + rest,
        ),
{
    let n = x.len() as int;
    assert(exists|i: int| 0 <= i < n && x[i] != y[i]) by {
        if forall|i: int| 0 <= i < n ==> x[i] == y[i] {
            assert(x =~= y);
        }
    }
    let hit = choose|i: int| 0 <= i < n && x[i] != y[i];
    let lo = if at < 0 {
        0
    } else {
        at
    };
    let hi = if at + 4 > n {
        n
    } else {
        at + 4
    };
    assert(lo <= hit < hi);
    let (wx, wy) = (x.map_values(|b: u8| b as u64), y.map_values(|b: u8| b as u64));
    let (a, b) = (wx.subrange(lo, hi), wy.subrange(lo, hi));
    let d = Seq::new((hi - lo) as nat, |i: int| x[lo + i] - y[lo + i]);
    assert forall|i: int| 0 <= i < a.len() implies agree(#[trigger] a[i] - b[i], 1 * d[i]) by {}
    assert(d[hit - lo] != 0);
    lemma_cut(first, wx, lo, hi, rest);
    lemma_cut(first, wy, lo, hi, rest);
    assert(wx.take(lo) =~= wy.take(lo));
    assert(wx.skip(hi) =~= wy.skip(hi));
    lemma_words_in_a_row(base, first + wx.take(lo), a, b, wx.skip(hi) + rest, d, 1, hit - lo);
}

/// Two configurations that differ in one text get different seeds, where the two
/// texts have as many bytes and differ within four bytes in a row: so it is of
/// any one changed byte, and of any two texts of at most four bytes.
pub proof fn a_changed_text_changes_the_seed(
    base: u64,
    parts: Seq<Seq<char>>,
    p: int,
    text: Seq<char>,
    nums: Seq<i64>,
    ints: Seq<i64>,
    at: int,
)
    requires
        0 <= p < parts.len(),
        text != parts[p],
        encode_utf8(text).len() == encode_utf8(parts[p]).len(),
        forall|i: int|
            0 <= i < encode_utf8(text).len() && !(at <= i < at + 4) ==> encode_utf8(text)[i]
                == #[trigger] encode_utf8(parts[p])[i],
    ensures
        mixed(base, seed_words(parts, nums, ints)) != mixed(
            base,
            seed_words(parts.update(p, text), nums, ints),
        ),
{
    let (x, y) = (encode_utf8(parts[p]), encode_utf8(text));
    encode_utf8_decode_utf8(parts[p]);
    encode_utf8_decode_utf8(text);
    let rest = lemma_seed_words_split(parts, p, nums, ints);
    assert(parts.update(p, parts[p]) =~= parts);
    assert(seed_words(parts.update(p, parts[p]), nums, ints) == part_words(parts.take(p))
        + text_words(parts[p]) + rest);
    lemma_bytes_in_a_row(base, part_words(parts.take(p)), x, y, rest, at);
}

} // verus!
