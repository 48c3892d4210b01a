//! Exact numbers: fractions, sums, order statistics.
//!
//! Prices are whole numbers of ten-thousandths of a point, money is whole
//! numbers of micro-dollars, multiples are whole numbers of hundredths and
//! rates are fractions, or whole numbers of `RATE` to one where they are
//! averaged, so every comparison the engine makes is one of integers.

use vstd::prelude::*;
use vstd::seq_lib::lemma_sorted_unique;

verus! {

/// Price units in one point.
pub const POINT: i64 = 10_000;

/// Money units in one dollar.
pub const DOLLAR: i64 = 1_000_000;

/// Money units in one cent.
pub const CENT: i64 = 10_000;

/// Parts in a whole, for quantities kept to six decimals.
pub const MILLION: i64 = 1_000_000;

/// Parts in a whole, for quantities kept to twelve decimals.
pub const TRILLION: i64 = 1_000_000_000_000;

/// One, in the unit that rates are averaged in.
pub const RATE: i64 = 1_000_000_000_000_000_000;

/// Money units that one price unit is worth per dollar of point value.
pub const MONEY_PER_UNIT: i64 = 100;

// ---------------------------------------------------------------------------
// Fractions
// ---------------------------------------------------------------------------

/// The fraction `num / den`.
#[derive(Clone, Copy, Debug, PartialEq, Eq, Structural)]
pub struct Ratio {
    pub num: i64,
    pub den: i64,
}

impl Ratio {
    /// A fraction is valid when its denominator is positive.
    pub open spec fn wf(self) -> bool {
        self.den > 0
    }

    /// Whether the fraction exceeds `a / b`, for positive `b`.
    pub open spec fn above(self, a: int, b: int) -> bool {
        self.num * b > a * self.den
    }

    /// Whether the fraction is below `a / b`, for positive `b`.
    pub open spec fn below(self, a: int, b: int) -> bool {
        self.num * b < a * self.den
    }

    /// The fraction `num / den`.
    pub fn new(num: i64, den: i64) -> (r: Ratio)
        requires
            den > 0,
        ensures
            r.num == num,
            r.den == den,
            r.wf(),
    {
        Ratio { num, den }
    }

    /// Whether the fraction exceeds `a / b`.
    pub fn is_above(self, a: i64, b: i64) -> (r: bool)
        requires
            b > 0,
        ensures
            r == self.above(a as int, b as int),
    {
        proof {
            lemma_i64_product(self.num, b);
            lemma_i64_product(a, self.den);
        }
        (self.num as i128) * (b as i128) > (a as i128) * (self.den as i128)
    }
}

/// The fraction `num / den` of wide numbers.
#[derive(Clone, Copy, Debug, PartialEq, Eq, Structural)]
pub struct Fraction {
    pub num: i128,
    pub den: i128,
}

impl Fraction {
    /// A fraction is valid when its denominator is positive.
    pub open spec fn wf(self) -> bool {
        self.den > 0
    }
}

/// The product of two `i64` fits an `i128`.
pub proof fn lemma_i64_product(a: i64, b: i64)
    ensures
        i128::MIN < (a as i128) * (b as i128) < i128::MAX,
{
    assert(-0x8000_0000_0000_0000 * 0x8000_0000_0000_0000 <= a * b <= 0x8000_0000_0000_0000
        * 0x8000_0000_0000_0000) by (nonlinear_arith)
        requires
            -0x8000_0000_0000_0000 <= a <= 0x7fff_ffff_ffff_ffff,
            -0x8000_0000_0000_0000 <= b <= 0x7fff_ffff_ffff_ffff,
    ;
}

// ---------------------------------------------------------------------------
// Sums and extremes
// ---------------------------------------------------------------------------

/// The sum of a sequence.
pub open spec fn total(s: Seq<int>) -> int
    decreases s.len(),
{
    if s.len() == 0 {
        0
    } else {
        total(s.drop_last()) + s.last()
    }
}

/// The largest element of a sequence that is not empty.
pub open spec fn largest(s: Seq<int>) -> int
    decreases s.len(),
{
    if s.len() <= 1 {
        s[0]
    } else {
        let m = largest(s.drop_last());
        if s.last() > m {
            s.last()
        } else {
            m
        }
    }
}

/// The smallest element of a sequence that is not empty.
pub open spec fn smallest(s: Seq<int>) -> int
    decreases s.len(),
{
    if s.len() <= 1 {
        s[0]
    } else {
        let m = smallest(s.drop_last());
        if s.last() < m {
            s.last()
        } else {
            m
        }
    }
}

/// The number of elements that satisfy a predicate.
pub open spec fn count_where<A>(s: Seq<A>, p: spec_fn(A) -> bool) -> nat
    decreases s.len(),
{
    if s.len() == 0 {
        0
    } else {
        count_where(s.drop_last(), p) + if p(s.last()) {
            1nat
        } else {
            0nat
        }
    }
}

/// The elements of a sequence of `i128` as integers.
pub open spec fn ints(s: Seq<i128>) -> Seq<int> {
    s.map_values(|x: i128| x as int)
}

/// The nearest whole number to `a / b`, for positive `b`; a half goes up.
pub open spec fn nearest(a: int, b: int) -> int {
    (2 * a + b) / (2 * b)
}

/// The nearest whole number to `a / b`.
pub fn round_div(a: i128, b: i128) -> (r: i128)
    requires
        -0x2000_0000_0000_0000_0000_0000_0000_0000 <= a <= 0x2000_0000_0000_0000_0000_0000_0000_0000,
        0 < b <= 0x1000_0000_0000_0000_0000_0000_0000_0000,
    ensures
        r == nearest(a as int, b as int),
{
    let n: i128 = 2 * a + b;
    let d: i128 = 2 * b;
    if n >= 0 {
        n / d
    } else {
        // Rounds toward negative infinity, as the Euclidean quotient does.
        let q: i128 = (-n) / d;
        let down: i128 = if (-n) % d == 0 {
            -q
        } else {
            -q - 1
        };
        proof {
            let m = -(n as int);
            let dd = d as int;
            vstd::arithmetic::div_mod::lemma_fundamental_div_mod(m, dd);
            assert(dd * (m / dd) == (m / dd) * dd) by (nonlinear_arith);
            if m % dd == 0 {
                assert(n == -q * dd) by (nonlinear_arith)
                    requires
                        q * dd == -n,
                ;
                vstd::arithmetic::div_mod::lemma_fundamental_div_mod_converse(
                    n as int,
                    dd,
                    -q as int,
                    0,
                );
            } else {
                let r = dd - m % dd;
                assert(n == (-q - 1) * dd + r) by (nonlinear_arith)
                    requires
                        m == q * dd + m % dd,
                        m == -(n as int),
                        r == dd - m % dd,
                ;
                vstd::arithmetic::div_mod::lemma_fundamental_div_mod_converse(
                    n as int,
                    dd,
                    -q - 1,
                    r,
                );
            }
        }
        down
    }
}

// ---------------------------------------------------------------------------
// Order
// ---------------------------------------------------------------------------

/// Whether a sequence ascends.
pub open spec fn ascending(s: Seq<i128>) -> bool {
    forall|i: int, j: int| 0 <= i <= j < s.len() ==> s[i] <= s[j]
}

/// `slice::sort_unstable` on `i128`. Afterwards the vector holds the same
/// elements, as often as before, in ascending order.
#[verifier::external_body]
pub(crate) fn sort_ascending(v: &mut Vec<i128>)
    ensures
        ascending(final(v)@),
        final(v)@.to_multiset() == old(v)@.to_multiset(),
{
    v.sort_unstable();
}

/// The sequence `s` put in ascending order.
pub open spec fn in_order(s: Seq<i128>) -> Seq<i128> {
    s.sort_by(|x: i128, y: i128| x <= y)
}

/// A copy of `v` in ascending order.
pub fn sorted(v: &Vec<i128>) -> (r: Vec<i128>)
    ensures
        r@ == in_order(v@),
        ascending(r@),
        r@.to_multiset() == v@.to_multiset(),
        r@.len() == v@.len(),
{
    let mut r: Vec<i128> = Vec::new();
    let mut i: usize = 0;
    while i < v.len()
        invariant
            i <= v@.len(),
            r@ == v@.take(i as int),
        decreases v@.len() - i,
    {
        proof {
            assert(v@.take(i + 1) == v@.take(i as int).push(v@[i as int]));
        }
        r.push(v[i]);
        i = i + 1;
    }
    proof {
        assert(v@.take(v@.len() as int) == v@);
    }
    sort_ascending(&mut r);
    proof {
        let leq = |x: i128, y: i128| x <= y;
        v@.lemma_sort_by_ensures(leq);
        lemma_sorted_unique(r@, in_order(v@), leq);
        broadcast use vstd::seq_lib::group_to_multiset_ensures;
        assert(r@.to_multiset().len() == r@.len());
    }
    r
}

/// The position of the quantile `a / b` in a sample of `n` sorted values.
pub open spec fn quantile_index(n: int, a: int, b: int) -> int {
    nearest((n - 1) * a, b)
}

/// The quantile `a / b` of a sample.
pub open spec fn quantile(s: Seq<i128>, a: int, b: int) -> int {
    in_order(s)[quantile_index(s.len() as int, a, b)] as int
}

/// The quantile `a / b` of a sample that is already in order.
pub fn quantile_of_sorted(v: &Vec<i128>, a: i128, b: i128) -> (r: i128)
    requires
        v@.len() > 0,
        0 <= a <= b,
        0 < b <= 1000,
    ensures
        0 <= quantile_index(v@.len() as int, a as int, b as int) < v@.len(),
        r == v@[quantile_index(v@.len() as int, a as int, b as int)],
{
    let m: i128 = v.len() as i128 - 1;
    proof {
        assert(0 <= m * a <= m * b) by (nonlinear_arith)
            requires
                0 <= m,
                0 <= a <= b,
        ;
        assert(m * b <= m * 1000) by (nonlinear_arith)
            requires
                0 <= m,
                b <= 1000,
        ;
        assert(0 <= nearest(m * a, b as int) <= m) by {
            let num = 2 * (m * a) + b;
            let den = 2 * (b as int);
            assert(0 <= num / den) by (nonlinear_arith)
                requires
                    num >= 0,
                    den > 0,
            ;
            assert(num < (m + 1) * den) by (nonlinear_arith)
                requires
                    num == 2 * (m * a) + b,
                    den == 2 * (b as int),
                    m * a <= m * b,
                    b > 0,
            ;
            assert(num / den < m + 1) by (nonlinear_arith)
                requires
                    num < (m + 1) * den,
                    den > 0,
            ;
        }
    }
    let i: i128 = round_div(m * a, b);
    v[i as usize]
}

/// What lies between `-most` and `most` times a number is, divided by it, between
/// `-most` and `most` to the nearest.
pub proof fn lemma_nearest_within(a: int, n: int, most: int)
    requires
        n > 0,
        -(most * n) <= a <= most * n,
        0 <= most,
    ensures
        -most <= nearest(a, n) <= most,
{
    let num = 2 * a + n;
    let den = 2 * n;
    assert(num < (most + 1) * den && -most * den <= num) by (nonlinear_arith)
        requires
            num == 2 * a + n,
            den == 2 * n,
            -(most * n) <= a <= most * n,
            n > 0,
    ;
    assert(num / den < most + 1) by (nonlinear_arith)
        requires
            num < (most + 1) * den,
            den > 0,
    ;
    assert(num / den >= -most) by (nonlinear_arith)
        requires
            -most * den <= num,
            den > 0,
    ;
}

/// A mean lies within the bounds of its sum.
pub proof fn lemma_nearest_bound(a: int, n: int, most: int)
    requires
        n > 0,
        0 <= a <= most * n,
    ensures
        0 <= nearest(a, n) <= most,
{
    let num = 2 * a + n;
    let den = 2 * n;
    assert(0 <= num / den) by (nonlinear_arith)
        requires
            num >= 0,
            den > 0,
    ;
    assert(num < (most + 1) * den) by (nonlinear_arith)
        requires
            num == 2 * a + n,
            den == 2 * n,
            a <= most * n,
            n > 0,
    ;
    assert(num / den < most + 1) by (nonlinear_arith)
        requires
            num < (most + 1) * den,
            den > 0,
    ;
}

/// Putting a sample in order keeps its bounds.
pub proof fn lemma_in_order_bounds(s: Seq<i128>, lo: int, hi: int)
    requires
        forall|i: int| 0 <= i < s.len() ==> lo <= #[trigger] s[i] <= hi,
    ensures
        forall|i: int| 0 <= i < in_order(s).len() ==> lo <= #[trigger] in_order(s)[i] <= hi,
{
    s.lemma_sort_by_ensures(|x: i128, y: i128| x <= y);
    assert forall|i: int| 0 <= i < in_order(s).len() implies lo <= #[trigger] in_order(s)[i]
        <= hi by {
        let x = in_order(s)[i];
        assert(in_order(s).contains(x));
        assert(s.contains(x));
    }
}

/// The distinct values of `v`, ascending.
pub fn sorted_distinct(v: &Vec<i32>) -> (r: Vec<i32>)
    ensures
        forall|i: int, j: int| 0 <= i < j < r@.len() ==> r@[i] < r@[j],
        forall|x: i32| r@.contains(x) <==> v@.contains(x),
{
    let mut wide: Vec<i128> = Vec::new();
    let mut i: usize = 0;
    while i < v.len()
        invariant
            i <= v@.len(),
            wide@.len() == i,
            forall|j: int| 0 <= j < i ==> #[trigger] wide@[j] == v@[j],
        decreases v@.len() - i,
    {
        wide.push(v[i] as i128);
        i = i + 1;
    }
    let s: Vec<i128> = sorted(&wide);
    proof {
        wide@.lemma_sort_by_ensures(|x: i128, y: i128| x <= y);
        broadcast use vstd::seq_lib::group_to_multiset_ensures;
        assert forall|x: i128| s@.contains(x) <==> wide@.contains(x) by {
            assert(s@.to_multiset().count(x) == wide@.to_multiset().count(x));
        }
        assert forall|k: int| 0 <= k < s@.len() implies i32::MIN <= #[trigger] s@[k]
            <= i32::MAX by {
            assert(s@.contains(s@[k]));
            assert(wide@.contains(s@[k]));
        }
    }
    let mut r: Vec<i32> = Vec::new();
    i = 0;
    while i < s.len()
        invariant
            i <= s@.len(),
            ascending(s@),
            forall|k: int| 0 <= k < s@.len() ==> i32::MIN <= #[trigger] s@[k] <= i32::MAX,
            forall|a: int, b: int| 0 <= a < b < r@.len() ==> r@[a] < r@[b],
            r@.len() > 0 <==> i > 0,
            r@.len() > 0 ==> r@.last() == s@[i - 1],
            forall|k: int| 0 <= k < i ==> r@.contains(#[trigger] s@[k] as i32),
            forall|a: int| 0 <= a < r@.len() ==> s@.contains(#[trigger] r@[a] as i128),
        decreases s@.len() - i,
    {
        let x: i32 = s[i] as i32;
        let n: usize = r.len();
        if n == 0 || r[n - 1] != x {
            let ghost before = r@;
            r.push(x);
            proof {
                assert(r@.last() == x);
                assert(s@.contains(x as i128)) by {
                    assert(s@[i as int] == x);
                }
                assert forall|k: int| 0 <= k <= i implies r@.contains(#[trigger] s@[k] as i32) by {
                    if k < i {
                        assert(before.contains(s@[k] as i32));
                        let a = choose|a: int| 0 <= a < before.len() && before[a] == s@[k] as i32;
                        assert(r@[a] == s@[k] as i32);
                    } else {
                        assert(r@[before.len() as int] == x);
                    }
                }
            }
        } else {
            proof {
                assert(r@[n - 1] == x);
            }
        }
        i = i + 1;
    }
    proof {
        assert forall|x: i32| r@.contains(x) <==> v@.contains(x) by {
            if r@.contains(x) {
                let a = choose|a: int| 0 <= a < r@.len() && r@[a] == x;
                assert(s@.contains(r@[a] as i128));
                assert(wide@.contains(x as i128));
                let j = choose|j: int| 0 <= j < wide@.len() && wide@[j] == x as i128;
                assert(v@[j] == x);
            }
            if v@.contains(x) {
                let j = choose|j: int| 0 <= j < v@.len() && v@[j] == x;
                assert(wide@[j] == x as i128);
                assert(wide@.contains(x as i128));
                assert(s@.contains(x as i128));
                let k = choose|k: int| 0 <= k < s@.len() && s@[k] == x as i128;
                assert(r@.contains(s@[k] as i32));
            }
        }
    }
    r
}

} // verus!
