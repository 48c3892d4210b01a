//! Core data types shared across the engine.

use crate::num::{Ratio, CENT, DOLLAR, MONEY_PER_UNIT};
use crate::text::{
    all_ascii, ascii_lower, is_space, lemma_pieces_next, lemma_pieces_one, lowercase, pieces,
    same_text, split, to_lower, trim, trimmed, views,
};
use vstd::prelude::*;

verus! {

// ---------------------------------------------------------------------------
// Bars, days, trades, instruments
// ---------------------------------------------------------------------------

/// One price bar. Prices are in price units, ten thousand to a point, `time_mins` is
/// minutes-from-midnight in US/Eastern, `date_id` indexes into the `DayMeta`
/// slice the bar belongs to.
#[derive(Clone, Copy, Debug)]
pub struct Bar {
    pub high: i64,
    pub low: i64,
    pub close: i64,
    pub volume: i64,
    pub time_mins: i32,
    pub date_id: u32,
}

/// Largest price magnitude, in price units, that profit arithmetic admits.
pub const MAX_PRICE: i64 = 10_000_000_000;

impl Bar {
    /// Prices small enough for exact profit arithmetic.
    pub open spec fn in_range(self) -> bool {
        &&& -MAX_PRICE <= self.high <= MAX_PRICE
        &&& -MAX_PRICE <= self.low <= MAX_PRICE
        &&& -MAX_PRICE <= self.close <= MAX_PRICE
    }

    /// A bar of positive prices whose close lies between its low and its high.
    pub open spec fn sensible(self) -> bool {
        0 < self.low <= self.close <= self.high
    }

    /// A bar whose close lies between its low and its high.
    pub open spec fn ordered(self) -> bool {
        self.low <= self.close <= self.high
    }
}

/// One trading day (calendar day, or session-day for wrapped sessions).
///
/// `start`/`end` are the half-open bar range for the whole day. `sess_start`/
/// `sess_end` are the half-open range of bars that fall inside the configured
/// session, and are what the backtest is allowed to touch.
#[derive(Clone, Copy, Debug)]
pub struct DayMeta {
    pub year: i32,
    /// year*10000 + month*100 + day, e.g. 20240315.
    pub date_code: u32,
    pub start: usize,
    pub end: usize,
    pub sess_start: usize,
    pub sess_end: usize,
}

impl DayMeta {
    /// Number of bars inside the session window.
    pub fn session_len(&self) -> (r: usize)
        ensures
            r == if self.sess_end >= self.sess_start {
                self.sess_end - self.sess_start
            } else {
                0
            },
    {
        self.sess_end.saturating_sub(self.sess_start)
    }
}

/// A single simulated trade at one contract, before any position sizing.
#[derive(Clone, Copy, Debug)]
pub struct RawTrade {
    /// Profit in micro-dollars.
    pub pnl_1ct: i64,
    /// Risk in price units (the opening-range width), used for contract sizing.
    pub risk_1ct: i64,
    /// 0 = long, 1 = short.
    pub dir: u8,
    pub day_idx: usize,
}

/// Largest one-contract result, in micro-dollars, that the engine admits.
pub const MAX_PNL: i64 = 100_000_000_000_000_000;

/// Instrument contract specification plus the resolved session bounds.
#[derive(Clone, Copy, Debug, PartialEq, Eq, Structural)]
pub struct InstCfg {
    /// Smallest price step, in price units.
    pub tick_size: i64,
    /// Dollars per point.
    pub point_value: i64,
    pub open_mins: i32,
    pub close_mins: i32,
}

/// Opening range must be at least this many ticks wide to be tradeable.
pub const MIN_OR_TICKS: i64 = 4;

/// ...and at most this many.
pub const MAX_OR_TICKS: i64 = 200;

impl InstCfg {
    /// Tick size and point value small enough for exact profit arithmetic.
    pub open spec fn in_range(self) -> bool {
        &&& 0 < self.tick_size <= 1_000_000
        &&& 0 <= self.point_value <= 10_000
    }

    /// The widest opening range that is traded, in price units.
    pub open spec fn widest_range(self) -> int {
        MAX_OR_TICKS * self.tick_size
    }

    /// Cost of getting in and out at one contract.
    pub open spec fn cost(self, slippage_ticks: int, commission: int) -> int {
        slippage_ticks * self.tick_size * self.point_value * 2 * MONEY_PER_UNIT + commission
    }

    /// Profit of the widest range times `mult` hundredths, less the cost.
    pub open spec fn ceiling(self, mult: int, slippage_ticks: int, commission: int) -> int {
        mult * self.widest_range() * self.point_value - self.cost(slippage_ticks, commission)
    }

    /// Largest opening range the engine will trade, in price units.
    ///
    /// `backtest` rejects any day whose range is above `MAX_OR_TICKS`, so this
    /// is a hard bound, and with the exit rules it yields a hard per-trade
    /// profit ceiling.
    pub fn max_or_points(&self) -> (r: i64)
        requires
            self.in_range(),
        ensures
            r == self.widest_range(),
    {
        MAX_OR_TICKS * self.tick_size
    }

    /// Round-turn cost at one contract for a given slippage allowance.
    pub fn round_turn_cost(&self, slippage_ticks: i32, commission: i64) -> (r: i64)
        requires
            self.in_range(),
            -1_000_000 <= slippage_ticks <= 1_000_000,
            -1_000_000_000_000_000_000 <= commission <= 1_000_000_000_000_000_000,
        ensures
            r == self.cost(slippage_ticks as int, commission as int),
    {
        let s: i64 = slippage_ticks as i64;
        proof {
            let t = self.tick_size as int;
            let v = self.point_value as int;
            assert(-1_000_000_000_000 <= s * t <= 1_000_000_000_000) by (nonlinear_arith)
                requires
                    -1_000_000 <= s <= 1_000_000,
                    0 < t <= 1_000_000,
            ;
            let st = s * t;
            assert(-10_000_000_000_000_000 <= st * v <= 10_000_000_000_000_000)
                by (nonlinear_arith)
                requires
                    -1_000_000_000_000 <= st <= 1_000_000_000_000,
                    0 <= v <= 10_000,
            ;
        }
        s * self.tick_size * self.point_value * 2 * MONEY_PER_UNIT + commission
    }

    /// The most a single trade can net at one contract, given the opening-range
    /// cap and the richest available target multiple (in hundredths).
    pub fn per_trade_ceiling(
        &self,
        max_target_mult: i64,
        slippage_ticks: i32,
        commission: i64,
    ) -> (r: i64)
        requires
            self.in_range(),
            0 <= max_target_mult <= 1_000_000,
            -1_000_000 <= slippage_ticks <= 1_000_000,
            -1_000_000_000_000_000_000 <= commission <= 1_000_000_000_000_000_000,
        ensures
            r == self.ceiling(max_target_mult as int, slippage_ticks as int, commission as int),
    {
        let w: i64 = self.max_or_points();
        let c: i64 = self.round_turn_cost(slippage_ticks, commission);
        proof {
            let m = max_target_mult as int;
            let v = self.point_value as int;
            let s = slippage_ticks as int;
            let t = self.tick_size as int;
            assert(0 <= m * w <= 200_000_000_000_000) by (nonlinear_arith)
                requires
                    0 <= m <= 1_000_000,
                    0 <= w <= 200_000_000,
            ;
            let mw = m * w;
            assert(0 <= mw * v <= 2_000_000_000_000_000_000) by (nonlinear_arith)
                requires
                    0 <= mw <= 200_000_000_000_000,
                    0 <= v <= 10_000,
            ;
            assert(-1_000_000_000_000 <= s * t <= 1_000_000_000_000) by (nonlinear_arith)
                requires
                    -1_000_000 <= s <= 1_000_000,
                    0 < t <= 1_000_000,
            ;
            let st = s * t;
            assert(-10_000_000_000_000_000 <= st * v <= 10_000_000_000_000_000)
                by (nonlinear_arith)
                requires
                    -1_000_000_000_000 <= st <= 1_000_000_000_000,
                    0 <= v <= 10_000,
            ;
        }
        max_target_mult * w * self.point_value - c
    }
}

/// The contract terms of a known instrument symbol.
pub open spec fn inst_named(s: Seq<char>) -> Option<InstCfg> {
    if s == "ES"@ {
        Some(InstCfg { tick_size: 2_500, point_value: 50, open_mins: 570, close_mins: 960 })
    } else if s == "NQ"@ {
        Some(InstCfg { tick_size: 2_500, point_value: 20, open_mins: 570, close_mins: 960 })
    } else if s == "GC"@ {
        Some(InstCfg { tick_size: 1_000, point_value: 100, open_mins: 570, close_mins: 960 })
    } else {
        None
    }
}

/// Contract terms for a symbol, or `None` for one that is not known.
pub fn find_inst(s: &str) -> (r: Option<InstCfg>)
    ensures
        r == inst_named(s@),
{
    if same_text(s, "ES") {
        Some(InstCfg { tick_size: 2_500, point_value: 50, open_mins: 570, close_mins: 960 })
    } else if same_text(s, "NQ") {
        Some(InstCfg { tick_size: 2_500, point_value: 20, open_mins: 570, close_mins: 960 })
    } else if same_text(s, "GC") {
        Some(InstCfg { tick_size: 1_000, point_value: 100, open_mins: 570, close_mins: 960 })
    } else {
        None
    }
}

/// Contract terms for a known symbol: ES, NQ or GC.
pub fn get_inst(s: &str) -> (r: InstCfg)
    requires
        inst_named(s@) is Some,
    ensures
        inst_named(s@) == Some(r),
        r.in_range(),
{
    find_inst(s).unwrap()
}

// ---------------------------------------------------------------------------
// Strategy modes
// ---------------------------------------------------------------------------

#[derive(Clone, Copy, PartialEq, Eq, Debug, Hash, Structural)]
pub enum EntryMode {
    WickBreak,
    CloseCross,
}

#[derive(Clone, Copy, PartialEq, Eq, Debug, Hash, Structural)]
pub enum BiasMode {
    NoBias,
    DailyBias,
}

#[derive(Clone, Copy, PartialEq, Eq, Debug, Hash, Structural)]
pub enum ExitMode {
    FixedRR,
    LuxTargets,
}

impl EntryMode {
    /// The word that names the mode.
    pub open spec fn word(self) -> Seq<char> {
        match self {
            EntryMode::WickBreak => "wick"@,
            EntryMode::CloseCross => "close"@,
        }
    }

    pub fn as_str(&self) -> (r: &'static str)
        ensures
            r@ == self.word(),
    {
        match self {
            EntryMode::WickBreak => "wick",
            EntryMode::CloseCross => "close",
        }
    }
}

impl BiasMode {
    /// The word that names the mode.
    pub open spec fn word(self) -> Seq<char> {
        match self {
            BiasMode::NoBias => "nobias"@,
            BiasMode::DailyBias => "daily"@,
        }
    }

    pub fn as_str(&self) -> (r: &'static str)
        ensures
            r@ == self.word(),
    {
        match self {
            BiasMode::NoBias => "nobias",
            BiasMode::DailyBias => "daily",
        }
    }
}

impl ExitMode {
    /// The word that names the mode.
    pub open spec fn word(self) -> Seq<char> {
        match self {
            ExitMode::FixedRR => "fixedrr"@,
            ExitMode::LuxTargets => "luxtgt"@,
        }
    }

    pub fn as_str(&self) -> (r: &'static str)
        ensures
            r@ == self.word(),
    {
        match self {
            ExitMode::FixedRR => "fixedrr",
            ExitMode::LuxTargets => "luxtgt",
        }
    }
}

/// Every combination of the modes, in grid order.
pub open spec fn every_variant() -> Seq<(EntryMode, BiasMode, ExitMode)> {
    seq![
        (EntryMode::WickBreak, BiasMode::NoBias, ExitMode::FixedRR),
        (EntryMode::WickBreak, BiasMode::NoBias, ExitMode::LuxTargets),
        (EntryMode::WickBreak, BiasMode::DailyBias, ExitMode::FixedRR),
        (EntryMode::WickBreak, BiasMode::DailyBias, ExitMode::LuxTargets),
        (EntryMode::CloseCross, BiasMode::NoBias, ExitMode::FixedRR),
        (EntryMode::CloseCross, BiasMode::NoBias, ExitMode::LuxTargets),
        (EntryMode::CloseCross, BiasMode::DailyBias, ExitMode::FixedRR),
        (EntryMode::CloseCross, BiasMode::DailyBias, ExitMode::LuxTargets),
    ]
}

/// Every combination of the modes, in grid order.
pub fn all_variants() -> (r: Vec<(EntryMode, BiasMode, ExitMode)>)
    ensures
        r@ == every_variant(),
{
    let mut v: Vec<(EntryMode, BiasMode, ExitMode)> = Vec::new();
    let entries: [EntryMode; 2] = [EntryMode::WickBreak, EntryMode::CloseCross];
    let biases: [BiasMode; 2] = [BiasMode::NoBias, BiasMode::DailyBias];
    let mut e: usize = 0;
    while e < 2
        invariant
            e <= 2,
            entries@ == seq![EntryMode::WickBreak, EntryMode::CloseCross],
            biases@ == seq![BiasMode::NoBias, BiasMode::DailyBias],
            v@ == every_variant().take(4 * e),
        decreases 2 - e,
    {
        let mut b: usize = 0;
        while b < 2
            invariant
                e < 2,
                b <= 2,
                entries@ == seq![EntryMode::WickBreak, EntryMode::CloseCross],
                biases@ == seq![BiasMode::NoBias, BiasMode::DailyBias],
                v@ == every_variant().take(4 * e + 2 * b),
            decreases 2 - b,
        {
            v.push((entries[e], biases[b], ExitMode::FixedRR));
            v.push((entries[e], biases[b], ExitMode::LuxTargets));
            proof {
                assert(v@ == every_variant().take(4 * e + 2 * b + 2));
            }
            b = b + 1;
        }
        e = e + 1;
    }
    proof {
        assert(every_variant().take(8) == every_variant());
    }
    v
}

/// The variant that a token such as `wick/nobias/fixedrr` names.
pub open spec fn variant_named(tok: Seq<char>) -> Option<(EntryMode, BiasMode, ExitMode)> {
    let p = pieces(tok, '/');
    if p.len() != 3 {
        None
    } else {
        let em = if p[0] == "wick"@ {
            Some(EntryMode::WickBreak)
        } else if p[0] == "close"@ {
            Some(EntryMode::CloseCross)
        } else {
            None
        };
        let bm = if p[1] == "nobias"@ {
            Some(BiasMode::NoBias)
        } else if p[1] == "daily"@ {
            Some(BiasMode::DailyBias)
        } else {
            None
        };
        let xm = if p[2] == "fixedrr"@ {
            Some(ExitMode::FixedRR)
        } else if p[2] == "luxtgt"@ {
            Some(ExitMode::LuxTargets)
        } else {
            None
        };
        match (em, bm, xm) {
            (Some(e), Some(b), Some(x)) => Some((e, b, x)),
            _ => None,
        }
    }
}

/// Entry, bias and exit of a variant as one text.
pub open spec fn variant_text(v: (EntryMode, BiasMode, ExitMode)) -> Seq<char> {
    v.0.word() + "/"@ + v.1.word() + "/"@ + v.2.word()
}

/// Variants written out and joined by commas.
pub open spec fn variant_list(v: Seq<(EntryMode, BiasMode, ExitMode)>) -> Seq<char>
    decreases v.len(),
{
    if v.len() == 0 {
        Seq::empty()
    } else if v.len() == 1 {
        variant_text(v[0])
    } else {
        variant_list(v.drop_last()) + ","@ + variant_text(v.last())
    }
}

/// Whether text is made of lowercase letters, slashes and commas.
spec fn is_listing(s: Seq<char>) -> bool {
    forall|i: int|
        0 <= i < s.len() ==> 'a' <= #[trigger] s[i] <= 'z' || s[i] == '/' || s[i] == ','
}

spec fn is_word(s: Seq<char>) -> bool {
    forall|i: int| 0 <= i < s.len() ==> 'a' <= #[trigger] s[i] <= 'z'
}

proof fn lemma_words(v: (EntryMode, BiasMode, ExitMode))
    ensures
        is_word(v.0.word()) && is_word(v.1.word()) && is_word(v.2.word()),
        4 <= v.0.word().len() && 5 <= v.1.word().len() && 6 <= v.2.word().len(),
        "/"@ == seq!['/'],
        ","@ == seq![','],
        "wick"@ != "close"@,
        "nobias"@ != "daily"@,
        "fixedrr"@ != "luxtgt"@,
        "all"@.len() == 3,
{
    reveal_strlit("wick");
    reveal_strlit("close");
    reveal_strlit("nobias");
    reveal_strlit("daily");
    reveal_strlit("fixedrr");
    reveal_strlit("luxtgt");
    reveal_strlit("/");
    reveal_strlit(",");
    reveal_strlit("all");
    assert("wick"@ =~= seq!['w', 'i', 'c', 'k']);
    assert("close"@ =~= seq!['c', 'l', 'o', 's', 'e']);
    assert("nobias"@ =~= seq!['n', 'o', 'b', 'i', 'a', 's']);
    assert("daily"@ =~= seq!['d', 'a', 'i', 'l', 'y']);
    assert("fixedrr"@ =~= seq!['f', 'i', 'x', 'e', 'd', 'r', 'r']);
    assert("luxtgt"@ =~= seq!['l', 'u', 'x', 't', 'g', 't']);
    assert("/"@ =~= seq!['/']);
    assert(","@ =~= seq![',']);
}

proof fn lemma_variant_text(v: (EntryMode, BiasMode, ExitMode))
    ensures
        variant_named(variant_text(v)) == Some(v),
        is_listing(variant_text(v)),
        variant_text(v).len() > 3,
        forall|i: int| 0 <= i < variant_text(v).len() ==> #[trigger] variant_text(v)[i] != ',',
{
    lemma_words(v);
    let (a, b, c) = (v.0.word(), v.1.word(), v.2.word());
    lemma_pieces_one(a, '/');
    lemma_pieces_next(a, b, '/');
    lemma_pieces_next(a + seq!['/'] + b, c, '/');
    let p = pieces(variant_text(v), '/');
    assert(p =~= seq![a, b, c]);
}

proof fn lemma_variant_list(v: Seq<(EntryMode, BiasMode, ExitMode)>)
    requires
        v.len() > 0,
    ensures
        pieces(variant_list(v), ',') == v.map_values(
            |x: (EntryMode, BiasMode, ExitMode)| variant_text(x),
        ),
        is_listing(variant_list(v)),
        variant_list(v).len() > 3,
    decreases v.len(),
{
    let f = |x: (EntryMode, BiasMode, ExitMode)| variant_text(x);
    lemma_variant_text(v.last());
    if v.len() == 1 {
        lemma_pieces_one(variant_text(v[0]), ',');
        assert(v.map_values(f) =~= seq![variant_text(v[0])]);
    } else {
        lemma_variant_list(v.drop_last());
        lemma_words(v.last());
        lemma_pieces_next(variant_list(v.drop_last()), variant_text(v.last()), ',');
        assert(v.map_values(f) =~= v.drop_last().map_values(f).push(variant_text(v.last())));
    }
}

proof fn lemma_listing_is_plain(s: Seq<char>)
    requires
        is_listing(s),
    ensures
        trimmed(s) == s,
        all_ascii(s),
        s.map_values(|c: char| ascii_lower(c)) == s,
{
    if s.len() > 0 {
        assert(!is_space(s[0]));
        assert(!is_space(s[s.len() - 1]));
    }
    assert(s.map_values(|c: char| ascii_lower(c)) =~= s);
}

/// A list of variants, written out and joined by commas, names each of them in
/// its place, repeated ones as often as they stand there.
pub proof fn a_written_list_selects_its_variants(v: Seq<(EntryMode, BiasMode, ExitMode)>)
    requires
        v.len() > 0,
    ensures
        trimmed(variant_list(v)) == variant_list(v),
        all_ascii(variant_list(v)),
        variant_list(v).map_values(|c: char| ascii_lower(c)) == variant_list(v),
        unknown_variants(variant_list(v)).len() == 0,
        variants_selected(variant_list(v)) == v,
{
    let s = variant_list(v);
    lemma_variant_list(v);
    lemma_listing_is_plain(s);
    lemma_words(v[0]);
    let toks = tokens(s);
    assert forall|i: int| 0 <= i < toks.len() implies #[trigger] toks[i] == variant_text(v[i])
        && variant_named(toks[i]) == Some(v[i]) by {
        lemma_variant_text(v[i]);
        lemma_listing_is_plain(variant_text(v[i]));
    }
    let bad = |t: Seq<char>| variant_named(t) is None;
    if toks.filter(bad).len() > 0 {
        toks.lemma_filter_pred(bad, 0);
        toks.lemma_filter_contains_rev(bad, toks.filter(bad)[0]);
        let i = choose|i: int| 0 <= i < toks.len() && toks[i] == toks.filter(bad)[0];
        assert(variant_named(toks[i]) == Some(v[i]));
    }
    assert(variants_selected(s) =~= v);
}

/// The trimmed tokens of a comma-separated list.
pub open spec fn tokens(s: Seq<char>) -> Seq<Seq<char>> {
    pieces(s, ',').map_values(|t: Seq<char>| trimmed(t))
}

/// Whether a variant list asks for the whole grid.
pub open spec fn asks_for_all(folded: Seq<char>) -> bool {
    folded == "all"@ || folded.len() == 0
}

/// The tokens of a variant list that name no variant, in order.
pub open spec fn unknown_variants(folded: Seq<char>) -> Seq<Seq<char>> {
    if asks_for_all(folded) {
        Seq::empty()
    } else {
        tokens(folded).filter(|t: Seq<char>| variant_named(t) is None)
    }
}

/// The variants that a list without unknown tokens selects.
pub open spec fn variants_selected(folded: Seq<char>) -> Seq<(EntryMode, BiasMode, ExitMode)> {
    if asks_for_all(folded) {
        every_variant()
    } else {
        tokens(folded).map_values(|t: Seq<char>| variant_named(t)->0)
    }
}

/// The variant that a token names.
fn read_variant(tok: &str) -> (r: Option<(EntryMode, BiasMode, ExitMode)>)
    ensures
        r == variant_named(tok@),
{
    let p: Vec<&str> = split(tok, '/');
    proof {
        assert(views(p@).len() == p@.len());
        assert(forall|i: int| 0 <= i < p@.len() ==> views(p@)[i] == (#[trigger] p@[i])@);
    }
    if p.len() != 3 {
        return None;
    }
    let em = if same_text(p[0], "wick") {
        EntryMode::WickBreak
    } else if same_text(p[0], "close") {
        EntryMode::CloseCross
    } else {
        return None;
    };
    let bm = if same_text(p[1], "nobias") {
        BiasMode::NoBias
    } else if same_text(p[1], "daily") {
        BiasMode::DailyBias
    } else {
        return None;
    };
    let xm = if same_text(p[2], "fixedrr") {
        ExitMode::FixedRR
    } else if same_text(p[2], "luxtgt") {
        ExitMode::LuxTargets
    } else {
        return None;
    };
    Some((em, bm, xm))
}

/// Parse `--entry-variants`, every token of which must name a variant.
pub fn parse_variants(s: &str) -> (r: Vec<(EntryMode, BiasMode, ExitMode)>)
    requires
        unknown_variants(lowercase(trimmed(s@))).len() == 0,
    ensures
        r@ == variants_selected(lowercase(trimmed(s@))),
        forall|v: Seq<(EntryMode, BiasMode, ExitMode)>|
            v.len() > 0 && s@ == #[trigger] variant_list(v) ==> r@ == v,
{
    let folded: String = to_lower(trim(s));
    let low: &str = folded.as_str();
    proof {
        assert forall|v: Seq<(EntryMode, BiasMode, ExitMode)>|
            v.len() > 0 && s@ == #[trigger] variant_list(v) implies variants_selected(low@)
            == v by {
            a_written_list_selects_its_variants(v);
        }
    }
    if same_text(low, "all") || low.is_empty() {
        return all_variants();
    }
    let toks: Vec<&str> = split(low, ',');
    let mut out: Vec<(EntryMode, BiasMode, ExitMode)> = Vec::new();
    let ghost all = tokens(low@);
    let ghost bad = |t: Seq<char>| variant_named(t) is None;
    let mut i: usize = 0;
    while i < toks.len()
        invariant
            i <= toks@.len(),
            views(toks@) == pieces(low@, ','),
            all == tokens(low@),
            all.len() == toks@.len(),
            bad == (|t: Seq<char>| variant_named(t) is None),
            all.filter(bad).len() == 0,
            out@ == all.take(i as int).map_values(|t: Seq<char>| variant_named(t)->0),
        decreases toks@.len() - i,
    {
        let t: &str = trim(toks[i]);
        let v = read_variant(t);
        proof {
            assert(views(toks@)[i as int] == toks@[i as int]@);
            assert(t@ == all[i as int]);
            if v is None {
                all.lemma_filter_contains(bad, i as int);
            }
            assert(all.take(i + 1) == all.take(i as int).push(t@));
            assert(all.take(i + 1).map_values(|t: Seq<char>| variant_named(t)->0) == all.take(
                i as int,
            ).map_values(|t: Seq<char>| variant_named(t)->0).push(variant_named(t@)->0));
        }
        match v {
            Some(x) => out.push(x),
            None => {},
        }
        i = i + 1;
    }
    proof {
        assert(all.take(all.len() as int) == all);
    }
    out
}

/// Parse `--entry-variants`. Unrecognised tokens are returned rather than
/// silently dropped or replaced by the full grid.
pub fn try_parse_variants(s: &str) -> (r: Result<
    Vec<(EntryMode, BiasMode, ExitMode)>,
    Vec<String>,
>)
    ensures
        match r {
            Ok(v) => {
                &&& unknown_variants(lowercase(trimmed(s@))).len() == 0
                &&& v@ == variants_selected(lowercase(trimmed(s@)))
            },
            Err(bad) => {
                &&& bad@.len() > 0
                &&& bad@.map_values(|t: String| t@) == unknown_variants(lowercase(trimmed(s@)))
            },
        },
        forall|v: Seq<(EntryMode, BiasMode, ExitMode)>|
            v.len() > 0 && s@ == #[trigger] variant_list(v) ==> r is Ok && r->Ok_0@ == v,
{
    let folded: String = to_lower(trim(s));
    let low: &str = folded.as_str();
    proof {
        assert forall|v: Seq<(EntryMode, BiasMode, ExitMode)>|
            v.len() > 0 && s@ == #[trigger] variant_list(v) implies unknown_variants(low@).len()
            == 0 && variants_selected(low@) == v by {
            a_written_list_selects_its_variants(v);
        }
    }
    if same_text(low, "all") || low.is_empty() {
        return Ok(parse_variants(s));
    }
    let toks: Vec<&str> = split(low, ',');
    let mut bad: Vec<String> = Vec::new();
    let ghost all = tokens(low@);
    let ghost p = |t: Seq<char>| variant_named(t) is None;
    let ghost f = |t: String| t@;
    let mut i: usize = 0;
    proof {
        assert(bad@.map_values(f) == all.take(0).filter(p)) by {
            reveal(Seq::filter);
        }
    }
    while i < toks.len()
        invariant
            i <= toks@.len(),
            views(toks@) == pieces(low@, ','),
            all == tokens(low@),
            all.len() == toks@.len(),
            p == (|t: Seq<char>| variant_named(t) is None),
            f == (|t: String| t@),
            bad@.map_values(f) == all.take(i as int).filter(p),
        decreases toks@.len() - i,
    {
        let t: &str = trim(toks[i]);
        let v = read_variant(t);
        proof {
            assert(views(toks@)[i as int] == toks@[i as int]@);
            assert(t@ == all[i as int]);
            assert(all.take(i + 1) == all.take(i as int).push(t@));
            all.take(i as int).lemma_filter_push(t@, p);
        }
        if v.is_none() {
            let ghost held = bad@.map_values(f);
            bad.push(t.to_owned());
            proof {
                assert(bad@.map_values(f) == held.push(t@));
            }
        }
        i = i + 1;
    }
    proof {
        assert(all.take(all.len() as int) == all);
        assert(bad@.map_values(f).len() == bad@.len());
    }
    if bad.len() == 0 {
        Ok(parse_variants(s))
    } else {
        Err(bad)
    }
}

// ---------------------------------------------------------------------------
// Prop-firm account specification
// ---------------------------------------------------------------------------

/// One evaluation/funded account product. Amounts are in micro-dollars.
///
/// Every field feeds expected value directly. Firms change terms frequently;
/// confirm against your own account dashboard before trusting output.
#[derive(Clone, Debug)]
pub struct Account {
    pub key: String,
    pub name: String,
    /// Evaluation profit target.
    pub target: i64,
    /// Evaluation trailing drawdown.
    pub dd: i64,
    /// Daily loss limit (0 = none).
    pub dll: i64,
    /// True if the trailing drawdown is evaluated end-of-day rather than intraday.
    pub is_eod: bool,
    /// Contract cap during the evaluation.
    pub eval_cts: i32,
    /// Evaluation purchase price, paid on every attempt, passed or failed.
    pub fee: i64,
    /// Funded contract cap after the safety net is reached.
    pub pa_max: i32,
    /// Funded contract cap before the safety net is reached.
    pub pa_start: i32,
    /// Safety-net balance. Reaching it converts the trailing drawdown into a
    /// fixed floor, which is the structural source of edge in this product.
    pub sn: i64,
    /// Funded starting balance.
    pub sb: i64,
    /// Funded trailing drawdown.
    pub pa_dd: i64,
    /// Withdrawal ladder: caps the n-th withdrawal.
    pub ladder: [i64; 6],
    /// Minimum daily profit for a day to count toward the qualifying-day tally.
    pub qmin: i64,
    /// Qualifying days required before a withdrawal.
    pub qdays: i32,
    /// Consistency rule: no single day may exceed this fraction of total profit.
    pub cons: Ratio,
    /// One-off activation fee, paid only on a funded account.
    pub act: i64,
    /// Monthly platform/account fee, paid only while funded.
    pub pamo: i64,
    /// Per-round-turn commission.
    pub comm: i64,
    /// Whether the consistency rule applies during the evaluation.
    pub eval_consistency: bool,
    /// Maximum calendar days allowed to complete the evaluation (0 = untimed).
    pub eval_calendar_days: i32,
    /// Lifetime profit per account paid at 100% before the split applies.
    pub split_full_up_to: i64,
    /// Trader's share of profit beyond `split_full_up_to`.
    pub split_after: Ratio,
}

/// Largest account amount, in micro-dollars, that the simulators admit.
pub const MAX_AMOUNT: i64 = 1_000_000_000_000;

/// Largest contract cap that the simulators admit.
pub const MAX_CTS: i32 = 1_000_000;

impl Account {
    /// Amounts and caps small enough for exact simulation.
    pub open spec fn in_range(self) -> bool {
        &&& -MAX_AMOUNT <= self.target <= MAX_AMOUNT
        &&& -MAX_AMOUNT <= self.dd <= MAX_AMOUNT
        &&& -MAX_AMOUNT <= self.dll <= MAX_AMOUNT
        &&& -MAX_AMOUNT <= self.sn <= MAX_AMOUNT
        &&& -MAX_AMOUNT <= self.sb <= MAX_AMOUNT
        &&& -MAX_AMOUNT <= self.pa_dd <= MAX_AMOUNT
        &&& -MAX_AMOUNT <= self.qmin <= MAX_AMOUNT
        &&& -MAX_AMOUNT <= self.fee <= MAX_AMOUNT
        &&& -MAX_AMOUNT <= self.act <= MAX_AMOUNT
        &&& -MAX_AMOUNT <= self.pamo <= MAX_AMOUNT
        &&& forall|i: int| 0 <= i < 6 ==> -MAX_AMOUNT <= #[trigger] self.ladder@[i] <= MAX_AMOUNT
        &&& self.eval_cts <= MAX_CTS
        &&& self.pa_max <= MAX_CTS
        &&& self.pa_start <= MAX_CTS
        &&& 0 < self.cons.den <= 500
        &&& -500 <= self.cons.num <= 500
        &&& self.splits()
    }

    /// The split pays the trader a fraction of the profit that it applies to.
    pub open spec fn splits(self) -> bool {
        &&& 0 < self.split_after.den
        &&& 0 <= self.split_after.num <= self.split_after.den
        &&& 0 <= self.split_full_up_to
    }

    /// Trading sessions in the evaluation's calendar window, at 21 sessions to
    /// a month of 30.44 days, rounded to the nearest.
    pub open spec fn sessions_allowed(self) -> Option<int> {
        if self.eval_calendar_days <= 0 {
            None
        } else {
            Some((2 * 2100 * self.eval_calendar_days + 3044) / 6088)
        }
    }

    /// Evaluation length in trading days, or `None` when untimed.
    pub fn eval_trading_days(&self) -> (r: Option<usize>)
        ensures
            match r {
                Some(n) => self.sessions_allowed() == Some(n as int),
                None => self.sessions_allowed() is None,
            },
    {
        if self.eval_calendar_days <= 0 {
            return None;
        }
        let d: i64 = self.eval_calendar_days as i64;
        let n: i64 = (2 * 2100 * d + 3044) / 6088;
        Some(n as usize)
    }

    /// The trader's take on `gross`: all of it up to the full share, then the
    /// split, in whole micro-dollars.
    pub open spec fn share(self, gross: int) -> int {
        if gross <= self.split_full_up_to {
            gross
        } else {
            self.split_full_up_to + (gross - self.split_full_up_to) * self.split_after.num / (
            self.split_after.den as int)
        }
    }

    /// Trader's take on `gross` of extracted profit, applying the split.
    pub fn trader_share(&self, gross: i64) -> (r: i64)
        requires
            self.splits(),
        ensures
            r == self.share(gross as int),
            r <= gross,
            gross <= 0 ==> r == gross,
            gross >= 0 ==> r >= 0,
    {
        if gross <= self.split_full_up_to {
            gross
        } else {
            let over: i128 = gross as i128 - self.split_full_up_to as i128;
            let num: i128 = self.split_after.num as i128;
            let den: i128 = self.split_after.den as i128;
            proof {
                assert(0 <= over * num <= over * den) by (nonlinear_arith)
                    requires
                        0 <= over,
                        0 <= num <= den,
                ;
                assert(over * den <= 0x7fff_ffff_ffff_ffff * 0x7fff_ffff_ffff_ffff)
                    by (nonlinear_arith)
                    requires
                        0 <= over <= 0x7fff_ffff_ffff_ffff,
                        0 <= den <= 0x7fff_ffff_ffff_ffff,
                ;
                let prod = over * num;
                assert(0 <= prod / (den as int) <= over) by (nonlinear_arith)
                    requires
                        0 <= prod <= over * den,
                        0 < den,
                ;
            }
            self.split_full_up_to + ((over * num) / den) as i64
        }
    }
}

/// Which firm's rule set to model.
#[derive(Clone, Copy, PartialEq, Eq, Debug, Structural)]
pub enum Firm {
    /// Apex Trader Funding, "4.0" rules (accounts purchased from 1 March 2026).
    Apex,
    /// Topstep Trading Combine and Express Funded Account.
    Topstep,
}

/// The firm that a trimmed, lowercase word names.
pub open spec fn firm_named(word: Seq<char>) -> Option<Firm> {
    if word == "apex"@ {
        Some(Firm::Apex)
    } else if word == "topstep"@ {
        Some(Firm::Topstep)
    } else {
        None
    }
}

impl Firm {
    /// The word that names the firm.
    pub open spec fn word(self) -> Seq<char> {
        match self {
            Firm::Apex => "apex"@,
            Firm::Topstep => "topstep"@,
        }
    }

    /// Read a firm's name, which must be known, in any case and with any
    /// surrounding whitespace.
    pub fn parse(s: &str) -> (r: Self)
        requires
            firm_named(lowercase(trimmed(s@))) is Some,
        ensures
            firm_named(lowercase(trimmed(s@))) == Some(r),
    {
        let word: String = to_lower(trim(s));
        if same_text(word.as_str(), "apex") {
            Firm::Apex
        } else {
            Firm::Topstep
        }
    }

    /// Read a firm's name, or `None` when no firm has it.
    pub fn try_parse(s: &str) -> (r: Option<Self>)
        ensures
            r == firm_named(lowercase(trimmed(s@))),
    {
        let word: String = to_lower(trim(s));
        if same_text(word.as_str(), "apex") || same_text(word.as_str(), "topstep") {
            Some(Firm::parse(s))
        } else {
            None
        }
    }

    pub fn as_str(&self) -> (r: &'static str)
        ensures
            r@ == self.word(),
    {
        match self {
            Firm::Apex => "apex",
            Firm::Topstep => "topstep",
        }
    }

    /// The products that the firm sells.
    pub fn accounts(&self) -> (r: Vec<Account>)
        ensures
            match self {
                Firm::Apex => is_apex_set(r@),
                Firm::Topstep => is_topstep_set(r@),
            },
    {
        match self {
            Firm::Apex => apex_accounts(),
            Firm::Topstep => topstep_accounts(),
        }
    }
}

/// Whole dollars in micro-dollars.
pub open spec fn dollars(n: int) -> int {
    n * DOLLAR
}

/// The terms that every Apex product shares: five qualifying days, 50%
/// consistency in the funded account only, thirty calendar days to pass, $85 a
/// month, and 100% of the first $25,000 with 90% after; the safety net is the
/// balance plus the drawdown plus $100.
pub open spec fn apex_common(a: Account) -> bool {
    &&& a.sn == a.sb + a.dd + dollars(100)
    &&& a.pa_dd == a.dd
    &&& a.qdays == 5
    &&& a.cons == (Ratio { num: 1, den: 2 })
    &&& a.pamo == dollars(85)
    &&& a.comm == 450 * CENT
    &&& !a.eval_consistency
    &&& a.eval_calendar_days == 30
    &&& a.split_full_up_to == dollars(25_000)
    &&& a.split_after == (Ratio { num: 9, den: 10 })
}

/// The terms that tell one product of a firm from another: names, then
/// balance, target and drawdown in dollars, the daily limit in dollars, whether
/// the drawdown is end-of-day, the contract caps, and the fee in cents.
pub open spec fn own_terms(
    a: Account,
    key: Seq<char>,
    name: Seq<char>,
    sb: int,
    target: int,
    dd: int,
    dll: int,
    is_eod: bool,
    caps: (int, int, int),
    fee_cents: int,
) -> bool {
    &&& a.key@ == key
    &&& a.name@ == name
    &&& a.sb == dollars(sb)
    &&& a.target == dollars(target)
    &&& a.dd == dollars(dd)
    &&& a.dll == dollars(dll)
    &&& a.is_eod == is_eod
    &&& (a.eval_cts as int, a.pa_start as int, a.pa_max as int) == caps
    &&& a.fee == fee_cents * CENT
}

/// Ladder, qualifying minimum and activation fee, in dollars.
pub open spec fn payout_terms(a: Account, ladder: Seq<int>, qmin: int, act: int) -> bool {
    &&& a.ladder@ =~= ladder.map_values(|d: int| dollars(d) as i64)
    &&& a.qmin == dollars(qmin)
    &&& a.act == dollars(act)
}

/// The six Apex products.
pub open spec fn is_apex_set(s: Seq<Account>) -> bool {
    let l50 = seq![1500int, 1750, 2000, 2500, 2750, 3000];
    let l100 = seq![2000int, 2500, 3000, 3500, 3750, 4000];
    let l150 = seq![2500int, 3000, 3500, 4000, 4500, 5000];
    &&& s.len() == 6
    &&& forall|i: int| 0 <= i < 6 ==> apex_common(#[trigger] s[i])
    &&& own_terms(s[0], "eod50"@, "Apex EOD 50K"@, 50_000, 3_000, 2_500, 1_000, true, (6, 2, 4), 3490)
    &&& payout_terms(s[0], l50, 300, 99)
    &&& own_terms(s[1], "eod100"@, "Apex EOD 100K"@, 100_000, 6_000, 3_000, 2_000, true, (8, 3, 6), 5990)
    &&& payout_terms(s[1], l100, 300, 99)
    &&& own_terms(s[2], "eod150"@, "Apex EOD 150K"@, 150_000, 9_000, 5_000, 2_500, true, (12, 4, 9), 7990)
    &&& payout_terms(s[2], l150, 350, 99)
    &&& own_terms(s[3], "it50"@, "Apex IT 50K"@, 50_000, 3_000, 2_500, 0, false, (6, 2, 4), 2490)
    &&& payout_terms(s[3], l50, 250, 79)
    &&& own_terms(s[4], "it100"@, "Apex IT 100K"@, 100_000, 6_000, 3_000, 0, false, (8, 3, 6), 3990)
    &&& payout_terms(s[4], l100, 300, 79)
    &&& own_terms(s[5], "it150"@, "Apex IT 150K"@, 150_000, 9_000, 5_000, 0, false, (12, 4, 9), 5990)
    &&& payout_terms(s[5], l150, 350, 79)
}

fn apex_account(
    key: &str,
    name: &str,
    sb: i64,
    target: i64,
    dd: i64,
    dll: i64,
    is_eod: bool,
    caps: (i32, i32, i32),
    fee_cents: i64,
    ladder: [i64; 6],
    qmin: i64,
    act: i64,
) -> (a: Account)
    requires
        0 <= sb <= 1_000_000,
        0 <= target <= 1_000_000,
        0 <= dd <= 1_000_000,
        0 <= dll <= 1_000_000,
        0 <= fee_cents <= 1_000_000,
        0 <= qmin <= 1_000_000,
        0 <= act <= 1_000_000,
        forall|i: int| 0 <= i < 6 ==> 0 <= #[trigger] ladder@[i] <= 1_000_000,
    ensures
        apex_common(a),
        own_terms(
            a,
            key@,
            name@,
            sb as int,
            target as int,
            dd as int,
            dll as int,
            is_eod,
            (caps.0 as int, caps.1 as int, caps.2 as int),
            fee_cents as int,
        ),
        payout_terms(a, ladder@.map_values(|x: i64| x as int), qmin as int, act as int),
{
    let l: [i64; 6] = [
        ladder[0] * DOLLAR,
        ladder[1] * DOLLAR,
        ladder[2] * DOLLAR,
        ladder[3] * DOLLAR,
        ladder[4] * DOLLAR,
        ladder[5] * DOLLAR,
    ];
    Account {
        key: key.to_owned(),
        name: name.to_owned(),
        target: target * DOLLAR,
        dd: dd * DOLLAR,
        dll: dll * DOLLAR,
        is_eod,
        eval_cts: caps.0,
        fee: fee_cents * CENT,
        pa_start: caps.1,
        pa_max: caps.2,
        sn: sb * DOLLAR + dd * DOLLAR + 100 * DOLLAR,
        sb: sb * DOLLAR,
        pa_dd: dd * DOLLAR,
        ladder: l,
        qmin: qmin * DOLLAR,
        qdays: 5,
        cons: Ratio { num: 1, den: 2 },
        act: act * DOLLAR,
        pamo: 85 * DOLLAR,
        comm: 450 * CENT,
        eval_consistency: false,
        eval_calendar_days: 30,
        split_full_up_to: 25_000 * DOLLAR,
        split_after: Ratio { num: 9, den: 10 },
    }
}

/// Apex Trader Funding, 4.0 rules.
pub fn apex_accounts() -> (r: Vec<Account>)
    ensures
        is_apex_set(r@),
{
    let l50: [i64; 6] = [1500, 1750, 2000, 2500, 2750, 3000];
    let l100: [i64; 6] = [2000, 2500, 3000, 3500, 3750, 4000];
    let l150: [i64; 6] = [2500, 3000, 3500, 4000, 4500, 5000];
    proof {
        assert(l50@.map_values(|x: i64| x as int) =~= seq![1500int, 1750, 2000, 2500, 2750, 3000]);
        assert(l100@.map_values(|x: i64| x as int) =~= seq![2000int, 2500, 3000, 3500, 3750, 4000]);
        assert(l150@.map_values(|x: i64| x as int) =~= seq![2500int, 3000, 3500, 4000, 4500, 5000]);
    }
    let mut v: Vec<Account> = Vec::new();
    v.push(apex_account("eod50", "Apex EOD 50K", 50_000, 3_000, 2_500, 1_000, true, (6, 2, 4), 3490, l50, 300, 99));
    v.push(apex_account("eod100", "Apex EOD 100K", 100_000, 6_000, 3_000, 2_000, true, (8, 3, 6), 5990, l100, 300, 99));
    v.push(apex_account("eod150", "Apex EOD 150K", 150_000, 9_000, 5_000, 2_500, true, (12, 4, 9), 7990, l150, 350, 99));
    v.push(apex_account("it50", "Apex IT 50K", 50_000, 3_000, 2_500, 0, false, (6, 2, 4), 2490, l50, 250, 79));
    v.push(apex_account("it100", "Apex IT 100K", 100_000, 6_000, 3_000, 0, false, (8, 3, 6), 3990, l100, 300, 79));
    v.push(apex_account("it150", "Apex IT 150K", 150_000, 9_000, 5_000, 0, false, (12, 4, 9), 5990, l150, 350, 79));
    v
}

/// The terms that every Topstep product shares: end-of-day drawdown, no daily
/// limit, no monthly fee, an untimed evaluation under the consistency rule, and
/// 90% from the first dollar; the trailing stop freezes the drawdown amount
/// above the start, and each withdrawal has the same cap.
pub open spec fn topstep_common(a: Account) -> bool {
    &&& a.dll == 0
    &&& a.is_eod
    &&& a.pa_start == a.eval_cts
    &&& a.pa_max == a.eval_cts
    &&& a.sn == a.sb + a.dd
    &&& a.pa_dd == a.dd
    &&& a.qdays == 5
    &&& a.cons == (Ratio { num: 1, den: 2 })
    &&& a.pamo == 0
    &&& a.comm == 450 * CENT
    &&& a.eval_consistency
    &&& a.eval_calendar_days == 0
    &&& a.split_full_up_to == 0
    &&& a.split_after == (Ratio { num: 9, den: 10 })
}

/// The three Topstep products.
pub open spec fn is_topstep_set(s: Seq<Account>) -> bool {
    &&& s.len() == 3
    &&& forall|i: int| 0 <= i < 3 ==> topstep_common(#[trigger] s[i])
    &&& own_terms(s[0], "ts50"@, "Topstep 50K"@, 50_000, 3_000, 2_000, 0, true, (5, 5, 5), 4900)
    &&& payout_terms(s[0], seq![2_000int, 2_000, 2_000, 2_000, 2_000, 2_000], 200, 149)
    &&& own_terms(s[1], "ts100"@, "Topstep 100K"@, 100_000, 6_000, 3_000, 0, true, (10, 10, 10), 9900)
    &&& payout_terms(s[1], seq![4_000int, 4_000, 4_000, 4_000, 4_000, 4_000], 300, 149)
    &&& own_terms(s[2], "ts150"@, "Topstep 150K"@, 150_000, 9_000, 4_500, 0, true, (15, 15, 15), 19900)
    &&& payout_terms(s[2], seq![6_000int, 6_000, 6_000, 6_000, 6_000, 6_000], 400, 149)
}

fn topstep_account(
    key: &str,
    name: &str,
    sb: i64,
    target: i64,
    mll: i64,
    cts: i32,
    fee: i64,
    cap: i64,
    qmin: i64,
) -> (a: Account)
    requires
        0 <= sb <= 1_000_000,
        0 <= target <= 1_000_000,
        0 <= mll <= 1_000_000,
        0 <= fee <= 1_000_000,
        0 <= cap <= 1_000_000,
        0 <= qmin <= 1_000_000,
    ensures
        topstep_common(a),
        own_terms(
            a,
            key@,
            name@,
            sb as int,
            target as int,
            mll as int,
            0,
            true,
            (cts as int, cts as int, cts as int),
            100 * fee,
        ),
        payout_terms(
            a,
            seq![cap as int, cap as int, cap as int, cap as int, cap as int, cap as int],
            qmin as int,
            149,
        ),
{
    let c: i64 = cap * DOLLAR;
    Account {
        key: key.to_owned(),
        name: name.to_owned(),
        target: target * DOLLAR,
        dd: mll * DOLLAR,
        dll: 0,
        is_eod: true,
        eval_cts: cts,
        fee: fee * DOLLAR,
        pa_start: cts,
        pa_max: cts,
        sn: sb * DOLLAR + mll * DOLLAR,
        sb: sb * DOLLAR,
        pa_dd: mll * DOLLAR,
        ladder: [c, c, c, c, c, c],
        qmin: qmin * DOLLAR,
        qdays: 5,
        cons: Ratio { num: 1, den: 2 },
        act: 149 * DOLLAR,
        pamo: 0,
        comm: 450 * CENT,
        eval_consistency: true,
        eval_calendar_days: 0,
        split_full_up_to: 0,
        split_after: Ratio { num: 9, den: 10 },
    }
}

/// Topstep Trading Combine and Express Funded Account.
///
/// The daily loss limit is an optional add-on whose breach is no rule
/// violation, so it is modelled as absent; the combine consistency target is
/// modelled as a pass condition, which is stricter than the published rule.
pub fn topstep_accounts() -> (r: Vec<Account>)
    ensures
        is_topstep_set(r@),
{
    let mut v: Vec<Account> = Vec::new();
    v.push(topstep_account("ts50", "Topstep 50K", 50_000, 3_000, 2_000, 5, 49, 2_000, 200));
    v.push(topstep_account("ts100", "Topstep 100K", 100_000, 6_000, 3_000, 10, 99, 4_000, 300));
    v.push(topstep_account("ts150", "Topstep 150K", 150_000, 9_000, 4_500, 15, 199, 6_000, 400));
    v
}

/// Every published account product can be simulated.
pub proof fn published_accounts_can_be_simulated(s: Seq<Account>, i: int)
    requires
        is_apex_set(s) || is_topstep_set(s),
        0 <= i < s.len(),
    ensures
        s[i].in_range(),
{
}

/// The Apex set.
pub fn all_apex() -> (r: Vec<Account>)
    ensures
        is_apex_set(r@),
{
    apex_accounts()
}

// ---------------------------------------------------------------------------
// Risk geometries
// ---------------------------------------------------------------------------

pub const N_RISK_GEOS: usize = 7;

/// The name of a risk geometry.
pub open spec fn rg_word(rg: int) -> Seq<char> {
    if rg == 0 {
        "fixed_1"@
    } else if rg == 1 {
        "floor_aware"@
    } else if rg == 2 {
        "dd_frac_40"@
    } else if rg == 3 {
        "cppi"@
    } else if rg == 4 {
        "time_decay"@
    } else if rg == 5 {
        "asymmetric"@
    } else {
        "five_gear"@
    }
}

/// The name of a risk geometry.
pub fn rg_name(rg: usize) -> (r: &'static str)
    requires
        rg < N_RISK_GEOS,
    ensures
        r@ == rg_word(rg as int),
{
    if rg == 0 {
        "fixed_1"
    } else if rg == 1 {
        "floor_aware"
    } else if rg == 2 {
        "dd_frac_40"
    } else if rg == 3 {
        "cppi"
    } else if rg == 4 {
        "time_decay"
    } else if rg == 5 {
        "asymmetric"
    } else {
        "five_gear"
    }
}

/// Drawdown room left: the allowance less the distance from the peak, and one
/// cent when there is none.
pub open spec fn room_left(eq: int, pk: int, mdd: int) -> int {
    let dr = mdd - (pk - eq);
    if dr <= 0 {
        CENT as int
    } else {
        dr
    }
}

/// Whether positive room exceeds the given tenths of the allowance.
pub open spec fn room_above(dr: int, mdd: int, tenths: int) -> bool {
    if mdd > 0 {
        10 * dr > tenths * mdd
    } else {
        mdd == 0
    }
}

/// Dollars at risk per contract, one cent at the least.
pub open spec fn risk_amount(trade_risk: int, pv: int) -> int {
    let trd = trade_risk * pv * MONEY_PER_UNIT;
    if trd < CENT {
        CENT as int
    } else {
        trd
    }
}

/// Whether `eq / target` is below half, where a zero target counts as no
/// progress.
pub open spec fn behind_half(eq: int, target: int) -> bool {
    if target > 0 {
        2 * eq < target
    } else if target < 0 {
        2 * eq > target
    } else {
        true
    }
}

/// Whether `eq / target` is above four fifths, where a zero target counts as no
/// progress.
pub open spec fn past_four_fifths(eq: int, target: int) -> bool {
    if target > 0 {
        10 * eq > 8 * target
    } else if target < 0 {
        10 * eq < 8 * target
    } else {
        false
    }
}

pub open spec fn at_least_one(n: int) -> int {
    if n < 1 {
        1
    } else {
        n
    }
}

/// What the account and the trade say about one signal.
pub struct SizeInputs {
    pub eq: int,
    pub pk: int,
    pub mdd: int,
    pub max_c: int,
    pub day: int,
    pub max_days: int,
    pub target: int,
    pub dir: u8,
    pub trade_risk: int,
}

/// Contracts asked for by each geometry, before the cap.
pub open spec fn raw_contracts(
    rg: int,
    x: SizeInputs,
    long_wr: Ratio,
    short_wr: Ratio,
    pv: int,
) -> int {
    let dr = room_left(x.eq, x.pk, x.mdd);
    let max_c = x.max_c;
    if rg == 1 {
        if room_above(dr, x.mdd, 7) {
            max_c
        } else if room_above(dr, x.mdd, 4) {
            at_least_one(max_c / 2)
        } else {
            1
        }
    } else if rg == 2 {
        dr * 40 / (100 * risk_amount(x.trade_risk, pv))
    } else if rg == 3 {
        // Twice the cushion over a floor at nine tenths of the drawdown.
        2 * (10 * x.eq + 9 * x.mdd) / (10 * risk_amount(x.trade_risk, pv))
    } else if rg == 4 {
        let n = at_least_one(x.max_days);
        let late = 10 * x.day > 7 * n;
        if late && behind_half(x.eq, x.target) {
            max_c
        } else if late && past_four_fifths(x.eq, x.target) {
            1
        } else if 10 * x.day < 3 * n {
            max_c
        } else {
            at_least_one(max_c / 2)
        }
    } else if rg == 5 {
        let wr = if x.dir == 0 {
            long_wr
        } else {
            short_wr
        };
        if wr.above(55, 100) {
            max_c
        } else if wr.above(50, 100) {
            at_least_one(max_c * 2 / 3)
        } else {
            1
        }
    } else if rg == 6 {
        if room_above(dr, x.mdd, 9) {
            max_c
        } else if room_above(dr, x.mdd, 7) {
            at_least_one(max_c * 4 / 5)
        } else if room_above(dr, x.mdd, 5) {
            at_least_one(max_c * 3 / 5)
        } else if room_above(dr, x.mdd, 3) {
            at_least_one(max_c * 2 / 5)
        } else {
            1
        }
    } else {
        1
    }
}

/// Contracts traded: what the geometry asks for, at least one and at most the
/// cap.
pub open spec fn contracts(
    rg: int,
    x: SizeInputs,
    long_wr: Ratio,
    short_wr: Ratio,
    pv: int,
) -> int {
    let raw = raw_contracts(rg, x, long_wr, short_wr, pv);
    let cap = at_least_one(x.max_c);
    if raw < 1 {
        1
    } else if raw > cap {
        cap
    } else {
        raw
    }
}

/// Every geometry respects the phase cap and trades at least one contract.
pub proof fn contracts_respect_the_cap(
    rg: int,
    x: SizeInputs,
    long_wr: Ratio,
    short_wr: Ratio,
    pv: int,
)
    ensures
        1 <= contracts(rg, x, long_wr, short_wr, pv) <= at_least_one(x.max_c),
        rg == 0 ==> contracts(rg, x, long_wr, short_wr, pv) == 1,
{
}

/// Largest equity, in micro-dollars, that sizing and simulation reach.
pub const MAX_EQUITY: i128 = 1_000_000_000_000_000_000_000_000_000_000_000_000;

/// Largest point value that sizing admits.
pub const MAX_POINT_VALUE: i64 = 1_000_000_000;

fn has_room(dr: i128, mdd: i128, tenths: i128) -> (b: bool)
    requires
        0 < dr <= 3 * MAX_EQUITY,
        -MAX_EQUITY <= mdd <= MAX_EQUITY,
        0 <= tenths <= 10,
    ensures
        b == room_above(dr as int, mdd as int, tenths as int),
{
    if mdd > 0 {
        proof {
            assert(0 <= tenths * mdd <= 10 * mdd) by (nonlinear_arith)
                requires
                    0 <= tenths <= 10,
                    0 < mdd,
            ;
        }
        10 * dr > tenths * mdd
    } else {
        mdd == 0
    }
}

/// Contracts to trade for one signal under risk geometry `rg`.
///
/// `eq`/`pk` are equity and running peak relative to the account's own zero,
/// `mdd` the drawdown allowance, `max_c` the phase contract cap.
pub fn calc_cts(
    rg: usize,
    eq: i128,
    pk: i128,
    mdd: i64,
    max_c: i32,
    day: i32,
    max_days: i32,
    target: i64,
    dir: u8,
    long_wr: Ratio,
    short_wr: Ratio,
    trade_risk_1ct: i64,
    pv: i64,
) -> (r: i32)
    requires
        -MAX_EQUITY <= eq <= MAX_EQUITY,
        -MAX_EQUITY <= pk <= MAX_EQUITY,
        -MAX_POINT_VALUE <= pv <= MAX_POINT_VALUE,
    ensures
        r == contracts(
            rg as int,
            (SizeInputs {
                eq: eq as int,
                pk: pk as int,
                mdd: mdd as int,
                max_c: max_c as int,
                day: day as int,
                max_days: max_days as int,
                target: target as int,
                dir,
                trade_risk: trade_risk_1ct as int,
            }),
            long_wr,
            short_wr,
            pv as int,
        ),
        1 <= r <= at_least_one(max_c as int),
{
    let cap: i32 = if max_c < 1 {
        1
    } else {
        max_c
    };
    let c: i128 = cap as i128;
    let m: i128 = mdd as i128;
    let room: i128 = m - (pk - eq);
    let dr: i128 = if room <= 0 {
        CENT as i128
    } else {
        room
    };
    let raw: i128 = if rg == 1 {
        if has_room(dr, m, 7) {
            c
        } else if has_room(dr, m, 4) {
            c / 2
        } else {
            1
        }
    } else if rg == 2 || rg == 3 {
        proof {
            assert(-9_223_372_036_854_775_808 * 1_000_000_000 <= trade_risk_1ct * pv
                <= 9_223_372_036_854_775_808 * 1_000_000_000) by (nonlinear_arith)
                requires
                    -9_223_372_036_854_775_808 <= trade_risk_1ct <= 9_223_372_036_854_775_807,
                    -1_000_000_000 <= pv <= 1_000_000_000,
            ;
        }
        let product: i128 = (trade_risk_1ct as i128) * (pv as i128) * (MONEY_PER_UNIT as i128);
        let trd: i128 = if product < CENT as i128 {
            CENT as i128
        } else {
            product
        };
        let (num, den): (i128, i128) = if rg == 2 {
            (dr * 40, 100 * trd)
        } else {
            (2 * (10 * eq + 9 * m), 10 * trd)
        };
        if num <= 0 {
            proof {
                assert(num as int / den as int <= 0) by (nonlinear_arith)
                    requires
                        num <= 0,
                        den > 0,
                ;
            }
            0
        } else {
            num / den
        }
    } else if rg == 4 {
        let n: i128 = if max_days < 1 {
            1
        } else {
            max_days as i128
        };
        let d: i128 = day as i128;
        let t: i128 = target as i128;
        let late: bool = 10 * d > 7 * n;
        let behind: bool = if t > 0 {
            2 * eq < t
        } else if t < 0 {
            2 * eq > t
        } else {
            true
        };
        let past: bool = if t > 0 {
            10 * eq > 8 * t
        } else if t < 0 {
            10 * eq < 8 * t
        } else {
            false
        };
        if late && behind {
            c
        } else if late && past {
            1
        } else if 10 * d < 3 * n {
            c
        } else {
            c / 2
        }
    } else if rg == 5 {
        let wr: Ratio = if dir == 0 {
            long_wr
        } else {
            short_wr
        };
        if wr.is_above(55, 100) {
            c
        } else if wr.is_above(50, 100) {
            c * 2 / 3
        } else {
            1
        }
    } else if rg == 6 {
        if has_room(dr, m, 9) {
            c
        } else if has_room(dr, m, 7) {
            c * 4 / 5
        } else if has_room(dr, m, 5) {
            c * 3 / 5
        } else if has_room(dr, m, 3) {
            c * 2 / 5
        } else {
            1
        }
    } else {
        1
    };
    if raw < 1 {
        1
    } else if raw > c {
        cap
    } else {
        raw as i32
    }
}

} // verus!
