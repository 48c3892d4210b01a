//! What trimmed, split, written and ordered texts are.

use vstd::prelude::*;
use vstd::utf8::encode_utf8;

use crate::order::{bytes_le, text_le};
use crate::text::{
    digit, digits, hundredths_text, is_space, last_digits, pieces, thousandths_text, trimmed,
    trimmed_back, trimmed_front, whole_text,
};

verus! {

// ---------------------------------------------------------------------------
// Trimming and splitting
// ---------------------------------------------------------------------------

proof fn lemma_front(s: Seq<char>) -> (k: int)
    ensures
        0 <= k <= s.len(),
        trimmed_front(s) == s.skip(k),
        forall|i: int| 0 <= i < k ==> is_space(#[trigger] s[i]),
        k < s.len() ==> !is_space(s[k]),
    decreases s.len(),
{
    if s.len() > 0 && is_space(s[0]) {
        let t = s.subrange(1, s.len() as int);
        let k = lemma_front(t);
        assert(t.skip(k) =~= s.skip(k + 1));
        assert forall|i: int| 0 <= i < k + 1 implies is_space(#[trigger] s[i]) by {
            if i > 0 {
                assert(t[i - 1] == s[i]);
            }
        }
        if k < t.len() {
            assert(t[k] == s[k + 1]);
        }
        k + 1
    } else {
        assert(s.skip(0) =~= s);
        0
    }
}

proof fn lemma_back(s: Seq<char>) -> (k: int)
    ensures
        0 <= k <= s.len(),
        trimmed_back(s) == s.take(k),
        forall|i: int| k <= i < s.len() ==> is_space(#[trigger] s[i]),
        k > 0 ==> !is_space(s[k - 1]),
    decreases s.len(),
{
    if s.len() > 0 && is_space(s.last()) {
        let t = s.drop_last();
        let k = lemma_back(t);
        assert(t.take(k) =~= s.take(k));
        assert forall|i: int| k <= i < s.len() implies is_space(#[trigger] s[i]) by {
            if i < t.len() {
                assert(t[i] == s[i]);
            }
        }
        k
    } else {
        assert(s.take(s.len() as int) =~= s);
        s.len() as int
    }
}

/// A trimmed text is what stands between the outer whitespace, and neither
/// begins nor ends with any.
pub proof fn trimming_takes_the_outer_whitespace(s: Seq<char>) -> (r: (int, int))
    ensures
        0 <= r.0 <= r.1 <= s.len(),
        trimmed(s) == s.subrange(r.0, r.1),
        forall|i: int| 0 <= i < r.0 || r.1 <= i < s.len() ==> is_space(#[trigger] s[i]),
        r.0 < r.1 ==> !is_space(s[r.0]) && !is_space(s[r.1 - 1]),
{
    let a = lemma_front(s);
    let t = s.skip(a);
    let b = lemma_back(t);
    assert(t.take(b) =~= s.subrange(a, a + b));
    assert forall|i: int| 0 <= i < a || a + b <= i < s.len() implies is_space(#[trigger] s[i]) by {
        if i >= a + b {
            assert(t[i - a] == s[i]);
        }
    }
    if b > 0 {
        assert(t[b - 1] == s[a + b - 1]);
    }
    (a, a + b)
}

/// Pieces with the separator between them.
pub open spec fn woven(p: Seq<Seq<char>>, sep: char) -> Seq<char>
    decreases p.len(),
{
    if p.len() == 0 {
        Seq::empty()
    } else if p.len() == 1 {
        p[0]
    } else {
        woven(p.drop_last(), sep).push(sep) + p.last()
    }
}

/// The pieces of a text hold no separator, and with it between them they are the
/// text again.
pub proof fn pieces_weave_back(s: Seq<char>, sep: char)
    ensures
        pieces(s, sep).len() > 0,
        woven(pieces(s, sep), sep) == s,
        forall|i: int, j: int|
            0 <= i < pieces(s, sep).len() && 0 <= j < pieces(s, sep)[i].len()
                ==> #[trigger] pieces(s, sep)[i][j] != sep,
    decreases s.len(),
{
    let p = pieces(s, sep);
    if s.len() > 0 {
        let t = s.drop_last();
        pieces_weave_back(t, sep);
        let q = pieces(t, sep);
        if s.last() == sep {
            assert(p.drop_last() =~= q);
            assert(woven(p, sep) =~= t.push(sep));
        } else {
            assert(p.drop_last() =~= q.drop_last());
            assert(p.last() == q.last().push(s.last()));
            assert(woven(p, sep) =~= woven(q, sep).push(s.last()));
            assert forall|i: int, j: int| 0 <= i < p.len() && 0 <= j < p[i].len() implies
                #[trigger] p[i][j] != sep by {
                if i < p.len() - 1 {
                    assert(p[i] == q[i]);
                    assert(q[i][j] != sep);
                } else if j < q.last().len() {
                    assert(q[i][j] != sep);
                    assert(p[i][j] == q[i][j]);
                }
            }
        }
        assert(s =~= t.push(s.last()));
    } else {
        assert(woven(p, sep) =~= s);
    }
}

// ---------------------------------------------------------------------------
// Numbers
// ---------------------------------------------------------------------------

/// The number that digits stand for.
pub open spec fn decimal(s: Seq<char>) -> int
    decreases s.len(),
{
    if s.len() == 0 {
        0
    } else {
        10 * decimal(s.drop_last()) + (s.last() as int - '0' as int)
    }
}

proof fn lemma_digit_value(d: int)
    requires
        0 <= d < 10,
    ensures
        digit(d) as int - '0' as int == d,
{
}

proof fn lemma_digits_value(n: int)
    requires
        n >= 0,
    ensures
        decimal(digits(n)) == n,
    decreases n,
{
    reveal_with_fuel(decimal, 2);
    if n < 10 {
        lemma_digit_value(n);
        assert(seq![digit(n)].drop_last() =~= Seq::<char>::empty());
    } else {
        lemma_digits_value(n / 10);
        lemma_digit_value(n % 10);
        assert(digits(n).drop_last() =~= digits(n / 10));
    }
}

proof fn lemma_last_digits_value(n: int, width: nat)
    requires
        n >= 0,
    ensures
        last_digits(n, width).len() == width,
        width == 0 ==> decimal(last_digits(n, width)) == 0,
        width > 0 ==> decimal(last_digits(n, width)) == 10 * decimal(
            last_digits(n / 10, (width - 1) as nat),
        ) + n % 10,
    decreases width,
{
    if width > 0 {
        lemma_last_digits_value(n / 10, (width - 1) as nat);
        lemma_digit_value(n % 10);
        assert(last_digits(n, width).drop_last() =~= last_digits(n / 10, (width - 1) as nat));
    }
}

/// A number is written in decimal: a whole one by its digits, hundredths and
/// thousandths with a point before the last two or three, and a negative one with
/// a sign before what its opposite is written as.
pub proof fn a_number_is_written_in_decimal(n: int) -> (r: (Seq<char>, Seq<char>))
    requires
        n >= 0,
    ensures
        decimal(whole_text(n)) == n,
        n > 0 ==> whole_text(-n) == "-"@ + whole_text(n),
        r.0.len() == 2,
        decimal(r.0) == n % 100,
        hundredths_text(n) == whole_text(n / 100) + "."@ + r.0,
        n > 0 ==> hundredths_text(-n) == "-"@ + hundredths_text(n),
        r.1.len() == 3,
        decimal(r.1) == n % 1000,
        thousandths_text(n) == whole_text(n / 1000) + "."@ + r.1,
        n > 0 ==> thousandths_text(-n) == "-"@ + thousandths_text(n),
{
    lemma_digits_value(n);
    lemma_last_digits_value(n, 3);
    lemma_last_digits_value(n, 2);
    lemma_last_digits_value(n / 10, 2);
    lemma_last_digits_value(n / 10, 1);
    lemma_last_digits_value(n / 10 / 10, 1);
    lemma_last_digits_value(n / 10 / 10, 0);
    lemma_last_digits_value(n / 10 / 10 / 10, 0);
    reveal_strlit("");
    assert(""@ =~= Seq::<char>::empty());
    let (h, t) = (last_digits(n, 2), last_digits(n, 3));
    assert(hundredths_text(n) =~= whole_text(n / 100) + "."@ + h);
    assert(thousandths_text(n) =~= whole_text(n / 1000) + "."@ + t);
    if n > 0 {
        assert(hundredths_text(-n) =~= "-"@ + hundredths_text(n));
        assert(thousandths_text(-n) =~= "-"@ + thousandths_text(n));
    }
    (h, t)
}

// ---------------------------------------------------------------------------
// Order
// ---------------------------------------------------------------------------

proof fn lemma_first_difference(a: Seq<u8>, b: Seq<u8>, i: int, k: int)
    requires
        0 <= i <= k <= a.len(),
        k < b.len(),
        forall|j: int| i <= j < k ==> a[j] == b[j],
        k == a.len() || a[k] < b[k],
    ensures
        bytes_le(a, b, i),
        !bytes_le(b, a, i),
    decreases k - i,
{
    if i < k {
        lemma_first_difference(a, b, i + 1, k);
    }
}

/// A text comes before another where its UTF-8 bytes are lower at the first
/// difference, or end there.
pub proof fn texts_compare_at_their_first_difference(a: Seq<char>, b: Seq<char>, k: int)
    requires
        ({
            let (x, y) = (encode_utf8(a), encode_utf8(b));
            &&& 0 <= k <= x.len()
            &&& k < y.len()
            &&& forall|j: int| 0 <= j < k ==> x[j] == y[j]
            &&& k == x.len() || x[k] < y[k]
        }),
    ensures
        text_le(a, b),
        !text_le(b, a),
{
    lemma_first_difference(encode_utf8(a), encode_utf8(b), 0, k);
}

} // verus!
