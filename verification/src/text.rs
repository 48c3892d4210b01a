//! Text handling over character sequences: trimming, splitting, case folding.

use vstd::prelude::*;
use vstd::string::{StrSliceExecFns, StringExecFns};

verus! {

// ---------------------------------------------------------------------------
// Whitespace
// ---------------------------------------------------------------------------

/// The characters with the Unicode property `White_Space`.
pub open spec fn is_space(c: char) -> bool {
    let u = c as u32;
    ||| 0x09 <= u <= 0x0D
    ||| u == 0x20
    ||| u == 0x85
    ||| u == 0xA0
    ||| u == 0x1680
    ||| 0x2000 <= u <= 0x200A
    ||| u == 0x2028
    ||| u == 0x2029
    ||| u == 0x202F
    ||| u == 0x205F
    ||| u == 0x3000
}

fn space(c: char) -> (r: bool)
    ensures
        r == is_space(c),
{
    let u: u32 = c as u32;
    (0x09 <= u && u <= 0x0D) || u == 0x20 || u == 0x85 || u == 0xA0 || u == 0x1680 || (0x2000 <= u
        && u <= 0x200A) || u == 0x2028 || u == 0x2029 || u == 0x202F || u == 0x205F || u == 0x3000
}

/// `s` without its leading whitespace.
pub open spec fn trimmed_front(s: Seq<char>) -> Seq<char>
    decreases s.len(),
{
    if s.len() > 0 && is_space(s[0]) {
        trimmed_front(s.subrange(1, s.len() as int))
    } else {
        s
    }
}

/// `s` without its trailing whitespace.
pub open spec fn trimmed_back(s: Seq<char>) -> Seq<char>
    decreases s.len(),
{
    if s.len() > 0 && is_space(s.last()) {
        trimmed_back(s.drop_last())
    } else {
        s
    }
}

/// `s` without leading and trailing whitespace.
pub open spec fn trimmed(s: Seq<char>) -> Seq<char> {
    trimmed_back(trimmed_front(s))
}

/// The characters of `s`, in order.
pub fn chars_of(s: &str) -> (v: Vec<char>)
    ensures
        v@ == s@,
{
    let mut v: Vec<char> = Vec::new();
    for c in it: s.chars()
        invariant
            it.seq() == s@,
            v@ == s@.take(it.index()),
    {
        proof {
            assert(s@.take(it.index() + 1) == s@.take(it.index()).push(c));
        }
        v.push(c);
    }
    v
}

/// `s` without leading and trailing whitespace.
pub fn trim(s: &str) -> (r: &str)
    ensures
        r@ == trimmed(s@),
{
    let v: Vec<char> = chars_of(s);
    let n: usize = v.len();
    let mut a: usize = 0;
    proof {
        assert(s@.subrange(0, n as int) == s@);
    }
    while a < n && space(v[a])
        invariant
            n == s@.len(),
            v@ == s@,
            a <= n,
            trimmed_front(s@) == trimmed_front(s@.subrange(a as int, n as int)),
        decreases n - a,
    {
        proof {
            let t = s@.subrange(a as int, n as int);
            assert(t.subrange(1, t.len() as int) == s@.subrange(a + 1, n as int));
        }
        a = a + 1;
    }
    let mut b: usize = n;
    while b > a && space(v[b - 1])
        invariant
            n == s@.len(),
            v@ == s@,
            a <= b <= n,
            trimmed_back(s@.subrange(a as int, n as int)) == trimmed_back(
                s@.subrange(a as int, b as int),
            ),
        decreases b,
    {
        proof {
            let t = s@.subrange(a as int, b as int);
            assert(t.drop_last() == s@.subrange(a as int, b - 1));
        }
        b = b - 1;
    }
    s.substring_char(a, b)
}

// ---------------------------------------------------------------------------
// Equality and prefixes
// ---------------------------------------------------------------------------

/// Whether two strings hold the same characters.
pub fn same_text(a: &str, b: &str) -> (r: bool)
    ensures
        r == (a@ == b@),
{
    a.to_owned() == b.to_owned()
}

/// `s` without the occurrences of `c` at its end.
pub open spec fn without_trailing(s: Seq<char>, c: char) -> Seq<char>
    decreases s.len(),
{
    if s.len() > 0 && s.last() == c {
        without_trailing(s.drop_last(), c)
    } else {
        s
    }
}

/// `s` without the occurrences of `c` at its end.
pub fn trim_end_char(s: &str, c: char) -> (r: &str)
    ensures
        r@ == without_trailing(s@, c),
{
    let v: Vec<char> = chars_of(s);
    let mut b: usize = v.len();
    proof {
        assert(s@.take(s@.len() as int) == s@);
    }
    while b > 0 && v[b - 1] == c
        invariant
            v@ == s@,
            b <= s@.len(),
            without_trailing(s@, c) == without_trailing(s@.take(b as int), c),
        decreases b,
    {
        proof {
            assert(s@.take(b as int).drop_last() == s@.take(b - 1));
        }
        b = b - 1;
    }
    proof {
        assert(s@.subrange(0, b as int) == s@.take(b as int));
    }
    s.substring_char(0, b)
}

/// Whether `s` begins with `p`.
pub open spec fn begins_with(s: Seq<char>, p: Seq<char>) -> bool {
    p.len() <= s.len() && s.take(p.len() as int) == p
}

/// Whether `s` ends with `p`.
pub open spec fn ends_with(s: Seq<char>, p: Seq<char>) -> bool {
    p.len() <= s.len() && s.skip(s.len() - p.len()) == p
}

// ---------------------------------------------------------------------------
// Splitting
// ---------------------------------------------------------------------------

/// The pieces of `s` between the occurrences of `sep`: always at least one.
pub open spec fn pieces(s: Seq<char>, sep: char) -> Seq<Seq<char>>
    decreases s.len(),
{
    if s.len() == 0 {
        seq![s]
    } else {
        let rest = pieces(s.drop_last(), sep);
        if s.last() == sep {
            rest.push(Seq::empty())
        } else {
            rest.drop_last().push(rest.last().push(s.last()))
        }
    }
}

/// Text without the separator extends the last piece.
pub proof fn lemma_pieces_append(s: Seq<char>, t: Seq<char>, sep: char)
    requires
        forall|i: int| 0 <= i < t.len() ==> #[trigger] t[i] != sep,
    ensures
        pieces(s, sep).len() > 0,
        pieces(s + t, sep) == pieces(s, sep).drop_last().push(pieces(s, sep).last() + t),
    decreases t.len(), s.len(),
{
    if t.len() == 0 {
        if s.len() > 0 {
            lemma_pieces_append(s.drop_last(), t, sep);
        }
        assert(s + t =~= s);
        assert(pieces(s, sep).last() + t =~= pieces(s, sep).last());
        assert(pieces(s, sep).drop_last().push(pieces(s, sep).last()) =~= pieces(s, sep));
    } else {
        let u = t.drop_last();
        lemma_pieces_append(s, u, sep);
        assert((s + t).drop_last() =~= s + u);
        let rest = pieces(s + u, sep);
        assert(rest.drop_last() =~= pieces(s, sep).drop_last());
        assert((pieces(s, sep).last() + u).push(t.last()) =~= pieces(s, sep).last() + t);
    }
}

/// A separator and text without it make one more piece.
pub proof fn lemma_pieces_next(s: Seq<char>, t: Seq<char>, sep: char)
    requires
        forall|i: int| 0 <= i < t.len() ==> #[trigger] t[i] != sep,
    ensures
        pieces(s + seq![sep] + t, sep) == pieces(s, sep).push(t),
{
    let u = s + seq![sep];
    assert(u.drop_last() =~= s);
    lemma_pieces_append(u, t, sep);
    assert(pieces(u, sep) == pieces(s, sep).push(Seq::empty()));
    assert(pieces(u, sep).drop_last() =~= pieces(s, sep));
    assert(Seq::<char>::empty() + t =~= t);
}

/// Text without the separator is one piece.
pub proof fn lemma_pieces_one(t: Seq<char>, sep: char)
    requires
        forall|i: int| 0 <= i < t.len() ==> #[trigger] t[i] != sep,
    ensures
        pieces(t, sep) == seq![t],
{
    let none = Seq::<char>::empty();
    lemma_pieces_append(none, t, sep);
    assert(none + t =~= t);
    assert(pieces(none, sep) =~= seq![none]);
    assert(seq![none].drop_last().push(t) =~= seq![t]);
}

/// The character sequences that a list of strings holds.
pub open spec fn views(v: Seq<&str>) -> Seq<Seq<char>> {
    v.map_values(|t: &str| t@)
}

/// The pieces of `s` between the occurrences of `sep`.
pub fn split<'a>(s: &'a str, sep: char) -> (r: Vec<&'a str>)
    ensures
        views(r@) == pieces(s@, sep),
        r@.len() >= 1,
{
    let v: Vec<char> = chars_of(s);
    let n: usize = v.len();
    let mut out: Vec<&'a str> = Vec::new();
    let mut start: usize = 0;
    let mut i: usize = 0;
    proof {
        assert(s@.take(0) == Seq::<char>::empty());
        assert(s@.subrange(0, 0) == Seq::<char>::empty());
        assert(views(out@).push(Seq::<char>::empty()) == seq![Seq::<char>::empty()]);
    }
    while i < n
        invariant
            n == s@.len(),
            v@ == s@,
            start <= i <= n,
            pieces(s@.take(i as int), sep) == views(out@).push(s@.subrange(start as int, i as int)),
        decreases n - i,
    {
        let ghost before = views(out@).push(s@.subrange(start as int, i as int));
        proof {
            assert(s@.take(i + 1).drop_last() == s@.take(i as int));
            assert(before.drop_last() == views(out@));
        }
        if v[i] == sep {
            let piece: &'a str = s.substring_char(start, i);
            out.push(piece);
            proof {
                assert(views(out@) == before);
                assert(s@.subrange(i + 1, i + 1) == Seq::<char>::empty());
            }
            start = i + 1;
        } else {
            proof {
                assert(s@.subrange(start as int, i + 1) == s@.subrange(start as int, i as int).push(
                    s@[i as int],
                ));
            }
        }
        i = i + 1;
    }
    let ghost held = views(out@);
    let piece: &'a str = s.substring_char(start, n);
    out.push(piece);
    proof {
        assert(s@.take(n as int) == s@);
        assert(views(out@) == held.push(piece@));
    }
    out
}

// ---------------------------------------------------------------------------
// Case folding
// ---------------------------------------------------------------------------

/// The lowercase form of a text, as the standard library's Unicode tables give
/// it.
pub uninterp spec fn lowercase(s: Seq<char>) -> Seq<char>;

/// The uppercase form of a text, as the standard library's Unicode tables give
/// it.
pub uninterp spec fn uppercase(s: Seq<char>) -> Seq<char>;

/// Whether every character is an ASCII one.
pub open spec fn all_ascii(s: Seq<char>) -> bool {
    forall|i: int| 0 <= i < s.len() ==> (#[trigger] s[i] as u32) < 128
}

/// An ASCII letter in lowercase; any other ASCII character unchanged.
pub open spec fn ascii_lower(c: char) -> char {
    if 'A' <= c <= 'Z' {
        ((c as u32 + 32) as u8) as char
    } else {
        c
    }
}

/// An ASCII letter in uppercase; any other ASCII character unchanged.
pub open spec fn ascii_upper(c: char) -> char {
    if 'a' <= c <= 'z' {
        ((c as u32 - 32) as u8) as char
    } else {
        c
    }
}

/// `str::to_lowercase`. The result is what the Unicode tables make of the
/// text; on a text of ASCII characters alone that is each letter lowered.
#[verifier::external_body]
pub(crate) fn to_lower(s: &str) -> (r: String)
    ensures
        r@ == lowercase(s@),
        all_ascii(s@) ==> r@ == s@.map_values(|c: char| ascii_lower(c)),
{
    s.to_lowercase()
}

/// `str::to_uppercase`. The result is what the Unicode tables make of the
/// text; on a text of ASCII characters alone that is each letter raised.
#[verifier::external_body]
pub(crate) fn to_upper(s: &str) -> (r: String)
    ensures
        r@ == uppercase(s@),
        all_ascii(s@) ==> r@ == s@.map_values(|c: char| ascii_upper(c)),
{
    s.to_uppercase()
}

// ---------------------------------------------------------------------------
// Decimal numbers
// ---------------------------------------------------------------------------

/// The character of a decimal digit.
pub open spec fn digit(d: int) -> char {
    if d == 0 {
        '0'
    } else if d == 1 {
        '1'
    } else if d == 2 {
        '2'
    } else if d == 3 {
        '3'
    } else if d == 4 {
        '4'
    } else if d == 5 {
        '5'
    } else if d == 6 {
        '6'
    } else if d == 7 {
        '7'
    } else if d == 8 {
        '8'
    } else {
        '9'
    }
}

/// A number that is not negative, in decimal digits.
pub open spec fn digits(n: int) -> Seq<char>
    decreases n,
{
    if n < 10 {
        seq![digit(n)]
    } else {
        digits(n / 10).push(digit(n % 10))
    }
}

/// The last `width` decimal digits of a number.
pub open spec fn last_digits(n: int, width: nat) -> Seq<char>
    decreases width,
{
    if width == 0 {
        Seq::empty()
    } else {
        last_digits(n / 10, (width - 1) as nat).push(digit(n % 10))
    }
}

/// A whole number in decimal.
pub open spec fn whole_text(n: int) -> Seq<char> {
    if n < 0 {
        "-"@ + digits(-n)
    } else {
        digits(n)
    }
}

/// A number of hundredths in decimal, with two places.
pub open spec fn hundredths_text(n: int) -> Seq<char> {
    let m = if n < 0 {
        -n
    } else {
        n
    };
    (if n < 0 {
        "-"@
    } else {
        ""@
    }) + digits(m / 100) + "."@ + last_digits(m, 2)
}

/// A number of thousandths in decimal, with three places.
pub open spec fn thousandths_text(n: int) -> Seq<char> {
    let m = if n < 0 {
        -n
    } else {
        n
    };
    (if n < 0 {
        "-"@
    } else {
        ""@
    }) + digits(m / 1000) + "."@ + last_digits(m, 3)
}

fn digit_text(d: u64) -> (r: &'static str)
    requires
        d < 10,
    ensures
        r@ == seq![digit(d as int)],
{
    proof {
        reveal_strlit("0");
        reveal_strlit("1");
        reveal_strlit("2");
        reveal_strlit("3");
        reveal_strlit("4");
        reveal_strlit("5");
        reveal_strlit("6");
        reveal_strlit("7");
        reveal_strlit("8");
        reveal_strlit("9");
    }
    let r: &'static str = if d == 0 {
        "0"
    } else if d == 1 {
        "1"
    } else if d == 2 {
        "2"
    } else if d == 3 {
        "3"
    } else if d == 4 {
        "4"
    } else if d == 5 {
        "5"
    } else if d == 6 {
        "6"
    } else if d == 7 {
        "7"
    } else if d == 8 {
        "8"
    } else {
        "9"
    };
    proof {
        assert(r@ =~= seq![digit(d as int)]);
    }
    r
}

fn append_digits(out: &mut String, n: u64)
    ensures
        final(out)@ == old(out)@ + digits(n as int),
    decreases n,
{
    if n < 10 {
        out.append(digit_text(n));
    } else {
        append_digits(out, n / 10);
        let ghost mid = out@;
        out.append(digit_text(n % 10));
        proof {
            assert(old(out)@ + digits(n as int) =~= mid + seq![digit((n % 10) as int)]);
        }
    }
}

fn append_last_digits(out: &mut String, n: u64, width: u64)
    ensures
        final(out)@ == old(out)@ + last_digits(n as int, width as nat),
    decreases width,
{
    if width > 0 {
        append_last_digits(out, n / 10, width - 1);
        let ghost mid = out@;
        out.append(digit_text(n % 10));
        proof {
            assert(old(out)@ + last_digits(n as int, width as nat) =~= mid + seq![
                digit((n % 10) as int),
            ]);
        }
    } else {
        proof {
            assert(old(out)@ + last_digits(n as int, 0) =~= old(out)@);
        }
    }
}

fn magnitude(n: i64) -> (r: u64)
    ensures
        r == if n < 0 {
            -n
        } else {
            n as int
        },
{
    if n < 0 {
        (-(n as i128)) as u64
    } else {
        n as u64
    }
}

/// Append a whole number in decimal.
pub fn append_whole(out: &mut String, n: i64)
    ensures
        final(out)@ == old(out)@ + whole_text(n as int),
{
    let m: u64 = magnitude(n);
    if n < 0 {
        out.append("-");
    }
    append_digits(out, m);
    proof {
        assert(out@ =~= old(out)@ + whole_text(n as int));
    }
}

/// Append a number of hundredths in decimal, with two places.
pub fn append_hundredths(out: &mut String, n: i64)
    ensures
        final(out)@ == old(out)@ + hundredths_text(n as int),
{
    let m: u64 = magnitude(n);
    proof {
        reveal_strlit("");
    }
    if n < 0 {
        out.append("-");
    }
    append_digits(out, m / 100);
    out.append(".");
    append_last_digits(out, m, 2);
    proof {
        assert(out@ =~= old(out)@ + hundredths_text(n as int));
    }
}

/// Append a number of thousandths in decimal, with three places.
pub fn append_thousandths(out: &mut String, n: i64)
    ensures
        final(out)@ == old(out)@ + thousandths_text(n as int),
{
    let m: u64 = magnitude(n);
    proof {
        reveal_strlit("");
    }
    if n < 0 {
        out.append("-");
    }
    append_digits(out, m / 1000);
    out.append(".");
    append_last_digits(out, m, 3);
    proof {
        assert(out@ =~= old(out)@ + thousandths_text(n as int));
    }
}

} // verus!
