//! What a configuration's identifying text tells apart.

use vstd::prelude::*;

use crate::engine::{cell_key, Cell};
use crate::ranking::group_text;
use crate::text::{digit, digits, hundredths_text, last_digits, thousandths_text, whole_text};
use crate::types::{rg_word, variant_text, BiasMode, EntryMode, ExitMode};
use crate::walk::FoldRecord;

verus! {

/// Whether a text is free of a separator.
pub open spec fn is_free_of(s: Seq<char>, sep: char) -> bool {
    forall|i: int| 0 <= i < s.len() ==> #[trigger] s[i] != sep
}

/// Whether the names in a record are free of the separator of its key.
pub open spec fn has_plain_names(r: FoldRecord) -> bool {
    &&& is_free_of(r.instrument@, '|')
    &&& is_free_of(r.cell.dir@, '|')
    &&& is_free_of(r.cell.fmode@, '|')
    &&& is_free_of(r.cell.regime@, '|')
    &&& is_free_of(r.account@, '|')
}

/// Whether two records have one configuration: strategy, geometries and account
/// product.
pub open spec fn same_settings(a: FoldRecord, b: FoldRecord) -> bool {
    &&& a.instrument@ == b.instrument@
    &&& a.cell.variant == b.cell.variant
    &&& a.cell.window == b.cell.window
    &&& a.cell.rr == b.cell.rr
    &&& a.cell.dir@ == b.cell.dir@
    &&& a.cell.lux == b.cell.lux
    &&& a.cell.fmode@ == b.cell.fmode@
    &&& a.cell.hmin == b.cell.hmin
    &&& a.cell.emax == b.cell.emax
    &&& a.cell.regime@ == b.cell.regime@
    &&& a.rg_eval == b.rg_eval
    &&& a.rg_funded == b.rg_funded
    &&& a.account@ == b.account@
}

// ---------------------------------------------------------------------------
// Parts of a text
// ---------------------------------------------------------------------------

proof fn lemma_last_part(
    a: Seq<char>,
    x: Seq<char>,
    b: Seq<char>,
    y: Seq<char>,
    sep: Seq<char>,
    c: char,
)
    requires
        sep == seq![c],
        is_free_of(x, c),
        is_free_of(y, c),
        a + sep + x == b + sep + y,
    ensures
        a == b,
        x == y,
{
    let s = a + sep + x;
    let t = b + sep + y;
    assert(sep.len() == 1 && sep[0] == c);
    assert(s.len() == a.len() + 1 + x.len());
    assert(t.len() == b.len() + 1 + y.len());
    if x.len() < y.len() {
        let k = a.len() as int;
        assert(s[k] == c);
        assert(t[k] == y[k - b.len() - 1]);
    }
    if y.len() < x.len() {
        let k = b.len() as int;
        assert(t[k] == c);
        assert(s[k] == x[k - a.len() - 1]);
    }
    assert forall|i: int| 0 <= i < a.len() implies a[i] == b[i] by {
        assert(s[i] == t[i]);
    }
    assert forall|i: int| 0 <= i < x.len() implies x[i] == y[i] by {
        assert(s[a.len() + 1 + i] == t[a.len() + 1 + i]);
    }
    assert(a =~= b);
    assert(x =~= y);
}

// ---------------------------------------------------------------------------
// Numbers
// ---------------------------------------------------------------------------

spec fn is_numeral(s: Seq<char>) -> bool {
    forall|i: int| 0 <= i < s.len() ==> '0' <= #[trigger] s[i] <= '9'
}

proof fn lemma_digits(n: int)
    ensures
        is_numeral(digits(n)),
        digits(n).len() > 0,
    decreases n,
{
    if n >= 10 {
        lemma_digits(n / 10);
    }
}

proof fn lemma_digits_differ(a: int, b: int)
    requires
        a >= 0,
        b >= 0,
        digits(a) == digits(b),
    ensures
        a == b,
    decreases a,
{
    let (x, y) = (digits(a), digits(b));
    if a >= 10 {
        lemma_digits(a / 10);
    }
    if b >= 10 {
        lemma_digits(b / 10);
    }
    assert(x.last() == y.last());
    if a >= 10 && b >= 10 {
        assert(x.drop_last() =~= digits(a / 10));
        assert(y.drop_last() =~= digits(b / 10));
        lemma_digits_differ(a / 10, b / 10);
        assert(a % 10 == b % 10);
    }
}

proof fn lemma_last_digits(n: int, width: nat)
    ensures
        is_numeral(last_digits(n, width)),
        last_digits(n, width).len() == width,
    decreases width,
{
    if width > 0 {
        lemma_last_digits(n / 10, (width - 1) as nat);
    }
}

proof fn lemma_digit_differs(a: int, b: int)
    requires
        0 <= a < 10,
        0 <= b < 10,
        digit(a) == digit(b),
    ensures
        a == b,
{
}

proof fn lemma_last_digits_differ(a: int, b: int, width: nat)
    requires
        width > 0,
        last_digits(a, width) == last_digits(b, width),
    ensures
        last_digits(a / 10, (width - 1) as nat) == last_digits(b / 10, (width - 1) as nat),
        a % 10 == b % 10,
{
    let (x, y) = (last_digits(a, width), last_digits(b, width));
    let less = (width - 1) as nat;
    assert(x.drop_last() =~= last_digits(a / 10, less));
    assert(y.drop_last() =~= last_digits(b / 10, less));
    assert(x.last() == digit(a % 10));
    assert(y.last() == digit(b % 10));
    lemma_digit_differs(a % 10, b % 10);
}

proof fn lemma_two_digits_differ(a: int, b: int)
    requires
        last_digits(a, 2) == last_digits(b, 2),
    ensures
        a % 100 == b % 100,
{
    lemma_last_digits_differ(a, b, 2);
    lemma_last_digits_differ(a / 10, b / 10, 1);
}

proof fn lemma_three_digits_differ(a: int, b: int)
    requires
        last_digits(a, 3) == last_digits(b, 3),
    ensures
        a % 1000 == b % 1000,
{
    lemma_last_digits_differ(a, b, 3);
    lemma_two_digits_differ(a / 10, b / 10);
}

proof fn lemma_signs()
    ensures
        "-"@ == seq!['-'],
        ""@ == Seq::<char>::empty(),
        "."@ == seq!['.'],
        "|"@ == seq!['|'],
        "/"@ == seq!['/'],
{
    reveal_strlit("-");
    reveal_strlit("");
    reveal_strlit(".");
    reveal_strlit("|");
    reveal_strlit("/");
    assert("-"@ =~= seq!['-']);
    assert(""@ =~= Seq::<char>::empty());
    assert("."@ =~= seq!['.']);
    assert("|"@ =~= seq!['|']);
    assert("/"@ =~= seq!['/']);
}

spec fn signed(negative: bool, whole: int) -> Seq<char> {
    (if negative {
        "-"@
    } else {
        ""@
    }) + digits(whole)
}

proof fn lemma_signed_differ(m: bool, a: int, n: bool, b: int)
    requires
        a >= 0,
        b >= 0,
        signed(m, a) == signed(n, b),
    ensures
        m == n,
        a == b,
{
    lemma_signs();
    lemma_digits(a);
    lemma_digits(b);
    let (x, y) = (signed(m, a), signed(n, b));
    assert(x[0] == if m {
        '-'
    } else {
        digits(a)[0]
    });
    assert(y[0] == if n {
        '-'
    } else {
        digits(b)[0]
    });
    if m {
        assert(x.skip(1) =~= digits(a));
        assert(y.skip(1) =~= digits(b));
    } else {
        assert(x =~= digits(a));
        assert(y =~= digits(b));
    }
    lemma_digits_differ(a, b);
}

proof fn lemma_whole(a: int, b: int)
    ensures
        is_free_of(whole_text(a), '|'),
        whole_text(a) == whole_text(b) ==> a == b,
{
    lemma_signs();
    let (m, n) = (
        if a < 0 {
            -a
        } else {
            a
        },
        if b < 0 {
            -b
        } else {
            b
        },
    );
    lemma_digits(m);
    assert(whole_text(a) =~= signed(a < 0, m));
    assert(whole_text(b) =~= signed(b < 0, n));
    if whole_text(a) == whole_text(b) {
        lemma_signed_differ(a < 0, m, b < 0, n);
    }
}

proof fn lemma_hundredths(a: int, b: int)
    ensures
        is_free_of(hundredths_text(a), '|'),
        hundredths_text(a) == hundredths_text(b) ==> a == b,
{
    lemma_signs();
    let (m, n) = (
        if a < 0 {
            -a
        } else {
            a
        },
        if b < 0 {
            -b
        } else {
            b
        },
    );
    lemma_digits(m / 100);
    lemma_last_digits(m, 2);
    lemma_last_digits(n, 2);
    let (x, y) = (signed(a < 0, m / 100), signed(b < 0, n / 100));
    assert(hundredths_text(a) == x + "."@ + last_digits(m, 2));
    assert(hundredths_text(b) == y + "."@ + last_digits(n, 2));
    if hundredths_text(a) == hundredths_text(b) {
        lemma_last_part(x, last_digits(m, 2), y, last_digits(n, 2), "."@, '.');
        lemma_signed_differ(a < 0, m / 100, b < 0, n / 100);
        lemma_two_digits_differ(m, n);
    }
}

proof fn lemma_thousandths(a: int, b: int)
    ensures
        is_free_of(thousandths_text(a), '|'),
        thousandths_text(a) == thousandths_text(b) ==> a == b,
{
    lemma_signs();
    let (m, n) = (
        if a < 0 {
            -a
        } else {
            a
        },
        if b < 0 {
            -b
        } else {
            b
        },
    );
    lemma_digits(m / 1000);
    lemma_last_digits(m, 3);
    lemma_last_digits(n, 3);
    let (x, y) = (signed(a < 0, m / 1000), signed(b < 0, n / 1000));
    assert(thousandths_text(a) == x + "."@ + last_digits(m, 3));
    assert(thousandths_text(b) == y + "."@ + last_digits(n, 3));
    if thousandths_text(a) == thousandths_text(b) {
        lemma_last_part(x, last_digits(m, 3), y, last_digits(n, 3), "."@, '.');
        lemma_signed_differ(a < 0, m / 1000, b < 0, n / 1000);
        lemma_three_digits_differ(m, n);
    }
}

/// Numbers are written apart: whole ones, hundredths and thousandths of the same
/// text are the same.
pub proof fn different_numbers_are_written_differently(a: int, b: int)
    requires
        a != b,
    ensures
        whole_text(a) != whole_text(b),
        hundredths_text(a) != hundredths_text(b),
        thousandths_text(a) != thousandths_text(b),
{
    lemma_whole(a, b);
    lemma_hundredths(a, b);
    lemma_thousandths(a, b);
}

// ---------------------------------------------------------------------------
// Names
// ---------------------------------------------------------------------------

proof fn lemma_geometry_words(a: int, b: int)
    requires
        0 <= a < 7,
        0 <= b < 7,
    ensures
        is_free_of(rg_word(a), '|'),
        rg_word(a) == rg_word(b) ==> a == b,
{
    reveal_strlit("fixed_1");
    reveal_strlit("floor_aware");
    reveal_strlit("dd_frac_40");
    reveal_strlit("cppi");
    reveal_strlit("time_decay");
    reveal_strlit("asymmetric");
    reveal_strlit("five_gear");
    assert("fixed_1"@ =~= seq!['f', 'i', 'x', 'e', 'd', '_', '1']);
    assert("floor_aware"@ =~= seq!['f', 'l', 'o', 'o', 'r', '_', 'a', 'w', 'a', 'r', 'e']);
    assert("dd_frac_40"@ =~= seq!['d', 'd', '_', 'f', 'r', 'a', 'c', '_', '4', '0']);
    assert("cppi"@ =~= seq!['c', 'p', 'p', 'i']);
    assert("time_decay"@ =~= seq!['t', 'i', 'm', 'e', '_', 'd', 'e', 'c', 'a', 'y']);
    assert("asymmetric"@ =~= seq!['a', 's', 'y', 'm', 'm', 'e', 't', 'r', 'i', 'c']);
    assert("five_gear"@ =~= seq!['f', 'i', 'v', 'e', '_', 'g', 'e', 'a', 'r']);
    let (x, y) = (rg_word(a), rg_word(b));
    if x == y {
        assert(x.len() == y.len() && x[0] == y[0]);
    }
}

proof fn lemma_mode_words(v: (EntryMode, BiasMode, ExitMode))
    ensures
        is_free_of(v.0.word(), '|') && is_free_of(v.0.word(), '/'),
        is_free_of(v.1.word(), '|') && is_free_of(v.1.word(), '/'),
        is_free_of(v.2.word(), '|') && is_free_of(v.2.word(), '/'),
        "wick"@ != "close"@,
        "nobias"@ != "daily"@,
        "fixedrr"@ != "luxtgt"@,
{
    reveal_strlit("wick");
    reveal_strlit("close");
    reveal_strlit("nobias");
    reveal_strlit("daily");
    reveal_strlit("fixedrr");
    reveal_strlit("luxtgt");
    assert("wick"@ =~= seq!['w', 'i', 'c', 'k']);
    assert("close"@ =~= seq!['c', 'l', 'o', 's', 'e']);
    assert("nobias"@ =~= seq!['n', 'o', 'b', 'i', 'a', 's']);
    assert("daily"@ =~= seq!['d', 'a', 'i', 'l', 'y']);
    assert("fixedrr"@ =~= seq!['f', 'i', 'x', 'e', 'd', 'r', 'r']);
    assert("luxtgt"@ =~= seq!['l', 'u', 'x', 't', 'g', 't']);
}

proof fn lemma_variants(
    a: (EntryMode, BiasMode, ExitMode),
    b: (EntryMode, BiasMode, ExitMode),
)
    ensures
        is_free_of(variant_text(a), '|'),
        variant_text(a) == variant_text(b) ==> a == b,
{
    lemma_signs();
    lemma_mode_words(a);
    lemma_mode_words(b);
    let x = a.0.word() + "/"@ + a.1.word();
    let y = b.0.word() + "/"@ + b.1.word();
    if variant_text(a) == variant_text(b) {
        lemma_last_part(x, a.2.word(), y, b.2.word(), "/"@, '/');
        lemma_last_part(a.0.word(), a.1.word(), b.0.word(), b.1.word(), "/"@, '/');
    }
}

// ---------------------------------------------------------------------------
// Keys
// ---------------------------------------------------------------------------

/// Records belong to one group exactly where they have every setting in common,
/// whatever their test years.
#[verifier::spinoff_prover]
pub proof fn records_of_one_group_share_every_setting(a: FoldRecord, b: FoldRecord)
    requires
        a.in_range(),
        b.in_range(),
        has_plain_names(a),
        has_plain_names(b),
    ensures
        group_text(a) == group_text(b) <==> same_settings(a, b),
{
    lemma_signs();
    let (c, d) = (a.cell, b.cell);
    lemma_variants(c.variant, d.variant);
    lemma_variants(d.variant, c.variant);
    lemma_whole(c.window as int, d.window as int);
    lemma_whole(d.window as int, c.window as int);
    lemma_hundredths(c.rr as int, d.rr as int);
    lemma_hundredths(d.rr as int, c.rr as int);
    lemma_hundredths(c.lux as int, d.lux as int);
    lemma_hundredths(d.lux as int, c.lux as int);
    lemma_thousandths(10 * c.hmin, 10 * d.hmin);
    lemma_thousandths(10 * d.hmin, 10 * c.hmin);
    lemma_thousandths(10 * c.emax, 10 * d.emax);
    lemma_thousandths(10 * d.emax, 10 * c.emax);
    lemma_geometry_words(a.rg_eval as int, b.rg_eval as int);
    lemma_geometry_words(b.rg_eval as int, a.rg_eval as int);
    lemma_geometry_words(a.rg_funded as int, b.rg_funded as int);
    lemma_geometry_words(b.rg_funded as int, a.rg_funded as int);
    if group_text(a) == group_text(b) {
        let p = "|"@;
        let (x1, y1) = (a.instrument@, b.instrument@);
        let (x2, y2) = (x1 + p + variant_text(c.variant), y1 + p + variant_text(d.variant));
        let (x3, y3) = (x2 + p + whole_text(c.window as int), y2 + p + whole_text(d.window as int));
        let (x4, y4) = (x3 + p + hundredths_text(c.rr as int), y3 + p + hundredths_text(
            d.rr as int,
        ));
        let (x5, y5) = (x4 + p + c.dir@, y4 + p + d.dir@);
        let (x6, y6) = (x5 + p + hundredths_text(c.lux as int), y5 + p + hundredths_text(
            d.lux as int,
        ));
        let (x7, y7) = (x6 + p + c.fmode@, y6 + p + d.fmode@);
        let (x8, y8) = (x7 + p + thousandths_text(10 * c.hmin), y7 + p + thousandths_text(
            10 * d.hmin,
        ));
        let (x9, y9) = (x8 + p + thousandths_text(10 * c.emax), y8 + p + thousandths_text(
            10 * d.emax,
        ));
        let (x10, y10) = (x9 + p + c.regime@, y9 + p + d.regime@);
        let (x11, y11) = (x10 + p + rg_word(a.rg_eval as int), y10 + p + rg_word(b.rg_eval as int));
        let (x12, y12) = (x11 + p + rg_word(a.rg_funded as int), y11 + p + rg_word(
            b.rg_funded as int,
        ));
        lemma_last_part(x12, a.account@, y12, b.account@, p, '|');
        lemma_last_part(x11, rg_word(a.rg_funded as int), y11, rg_word(b.rg_funded as int), p, '|');
        lemma_last_part(x10, rg_word(a.rg_eval as int), y10, rg_word(b.rg_eval as int), p, '|');
        lemma_last_part(x9, c.regime@, y9, d.regime@, p, '|');
        lemma_last_part(x8, thousandths_text(10 * c.emax), y8, thousandths_text(10 * d.emax), p, '|');
        lemma_last_part(x7, thousandths_text(10 * c.hmin), y7, thousandths_text(10 * d.hmin), p, '|');
        lemma_last_part(x6, c.fmode@, y6, d.fmode@, p, '|');
        lemma_last_part(x5, hundredths_text(c.lux as int), y5, hundredths_text(d.lux as int), p, '|');
        lemma_last_part(x4, c.dir@, y4, d.dir@, p, '|');
        lemma_last_part(x3, hundredths_text(c.rr as int), y3, hundredths_text(d.rr as int), p, '|');
        lemma_last_part(x2, whole_text(c.window as int), y2, whole_text(d.window as int), p, '|');
        lemma_last_part(x1, variant_text(c.variant), y1, variant_text(d.variant), p, '|');
    }
}

/// Whether the names in a cell are free of the separator of its key.
pub open spec fn is_plain_cell(c: Cell) -> bool {
    is_free_of(c.dir@, '|') && is_free_of(c.fmode@, '|') && is_free_of(c.regime@, '|')
}

/// Cells have one key exactly where they are of one instrument and have every
/// setting in common, so that a whitelist admits no cell but those it was made of.
#[verifier::spinoff_prover]
pub proof fn cells_of_one_key_share_every_setting(i: Seq<char>, c: Cell, j: Seq<char>, d: Cell)
    requires
        is_free_of(i, '|'),
        is_free_of(j, '|'),
        is_plain_cell(c),
        is_plain_cell(d),
    ensures
        cell_key(i, c) == cell_key(j, d) <==> {
            &&& i == j
            &&& c.variant == d.variant
            &&& c.window == d.window
            &&& c.rr == d.rr
            &&& c.dir@ == d.dir@
            &&& c.lux == d.lux
            &&& c.fmode@ == d.fmode@
            &&& c.hmin == d.hmin
            &&& c.emax == d.emax
            &&& c.regime@ == d.regime@
        },
{
    lemma_signs();
    lemma_mode_words(c.variant);
    lemma_mode_words(d.variant);
    lemma_whole(c.window as int, d.window as int);
    lemma_whole(d.window as int, c.window as int);
    lemma_hundredths(c.rr as int, d.rr as int);
    lemma_hundredths(d.rr as int, c.rr as int);
    lemma_hundredths(c.lux as int, d.lux as int);
    lemma_hundredths(d.lux as int, c.lux as int);
    lemma_hundredths(c.hmin as int, d.hmin as int);
    lemma_hundredths(d.hmin as int, c.hmin as int);
    lemma_hundredths(c.emax as int, d.emax as int);
    lemma_hundredths(d.emax as int, c.emax as int);
    if cell_key(i, c) == cell_key(j, d) {
        let p = "|"@;
        let (x1, y1) = (i + p + c.variant.0.word(), j + p + d.variant.0.word());
        let (x2, y2) = (x1 + p + c.variant.1.word(), y1 + p + d.variant.1.word());
        let (x3, y3) = (x2 + p + c.variant.2.word(), y2 + p + d.variant.2.word());
        let (x4, y4) = (x3 + p + whole_text(c.window as int), y3 + p + whole_text(d.window as int));
        let (x5, y5) = (
            x4 + p + hundredths_text(c.rr as int),
            y4 + p + hundredths_text(d.rr as int),
        );
        let (x6, y6) = (x5 + p + c.dir@, y5 + p + d.dir@);
        let (x7, y7) = (
            x6 + p + hundredths_text(c.lux as int),
            y6 + p + hundredths_text(d.lux as int),
        );
        let (x8, y8) = (x7 + p + c.fmode@, y7 + p + d.fmode@);
        let (h, k) = (hundredths_text(c.hmin as int), hundredths_text(d.hmin as int));
        let (e, g) = (hundredths_text(c.emax as int), hundredths_text(d.emax as int));
        let (x9, y9) = (x8 + p + h, y8 + p + k);
        let (x10, y10) = (x9 + p + e, y9 + p + g);
        lemma_last_part(x10, c.regime@, y10, d.regime@, p, '|');
        lemma_last_part(x9, e, y9, g, p, '|');
        lemma_last_part(x8, h, y8, k, p, '|');
        lemma_last_part(x7, c.fmode@, y7, d.fmode@, p, '|');
        lemma_last_part(
            x6,
            hundredths_text(c.lux as int),
            y6,
            hundredths_text(d.lux as int),
            p,
            '|',
        );
        lemma_last_part(x5, c.dir@, y5, d.dir@, p, '|');
        lemma_last_part(x4, hundredths_text(c.rr as int), y4, hundredths_text(d.rr as int), p, '|');
        lemma_last_part(x3, whole_text(c.window as int), y3, whole_text(d.window as int), p, '|');
        lemma_last_part(x2, c.variant.2.word(), y2, d.variant.2.word(), p, '|');
        lemma_last_part(x1, c.variant.1.word(), y1, d.variant.1.word(), p, '|');
        lemma_last_part(i, c.variant.0.word(), j, d.variant.0.word(), p, '|');
    }
}

} // verus!
