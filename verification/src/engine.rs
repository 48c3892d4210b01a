//! The search grid, the whitelist that restricts it, and the selections of a run.

use vstd::prelude::*;
use vstd::string::StringExecFns;

use crate::order::{
    all_below, comes_before, lemma_positions_once, sort_positions, text_le,
    texts_are_totally_ordered,
};
use crate::text::{
    append_hundredths, append_whole, chars_of, hundredths_text, pieces, same_text, split, to_upper,
    trim, trimmed, uppercase, views, whole_text,
};
use crate::types::{rg_name, rg_word, Account, BiasMode, EntryMode, ExitMode, N_RISK_GEOS};

verus! {

// ---------------------------------------------------------------------------
// Grid
// ---------------------------------------------------------------------------

/// One point of the search grid. Multiples and thresholds are in hundredths.
#[derive(Clone, Copy, Debug)]
pub struct Cell {
    pub variant: (EntryMode, BiasMode, ExitMode),
    pub lux: i64,
    pub window: i32,
    pub rr: i64,
    pub dir: &'static str,
    pub fmode: &'static str,
    /// Smallest Hurst exponent that trades, 0 when the filter is off.
    pub hmin: i64,
    /// Largest entropy that trades, 0 when the filter is off.
    pub emax: i64,
    pub regime: &'static str,
}

/// Window, target multiple and direction of each configuration.
pub open spec fn grid() -> Seq<(i32, i64, Seq<char>)> {
    seq![
        (30, 100, "long"@),
        (30, 100, "both"@),
        (30, 100, "short"@),
        (30, 50, "long"@),
        (30, 33, "long"@),
        (45, 100, "long"@),
        (45, 100, "both"@),
        (45, 100, "short"@),
        (45, 33, "long"@),
        (60, 100, "long"@),
        (60, 100, "both"@),
        (60, 100, "short"@),
        (20, 100, "long"@),
        (15, 100, "long"@),
        (5, 100, "long"@),
        (5, 100, "short"@),
        (5, 100, "both"@),
        (10, 100, "long"@),
        (10, 100, "short"@),
        (10, 100, "both"@),
        (90, 100, "long"@),
        (90, 100, "short"@),
        (90, 100, "both"@),
        (120, 100, "long"@),
        (120, 100, "short"@),
        (120, 100, "both"@),
        (45, 50, "long"@),
        (60, 50, "long"@),
        (60, 33, "long"@),
        (20, 50, "long"@),
        (15, 50, "long"@),
        (20, 100, "short"@),
        (15, 100, "short"@),
        (20, 33, "long"@),
    ]
}

/// A configuration with its direction as text.
pub open spec fn plain_config(c: (i32, i64, &'static str)) -> (i32, i64, Seq<char>) {
    (c.0, c.1, c.2@)
}

pub fn grid_configs() -> (r: Vec<(i32, i64, &'static str)>)
    ensures
        r@.map_values(|c: (i32, i64, &'static str)| plain_config(c)) =~= grid(),
        forall|i: int|
            0 <= i < r@.len() ==> 0 < (#[trigger] r@[i]).0 <= 120 && 0 < r@[i].1 <= 100,
{
    vec![
        (30, 100, "long"),
        (30, 100, "both"),
        (30, 100, "short"),
        (30, 50, "long"),
        (30, 33, "long"),
        (45, 100, "long"),
        (45, 100, "both"),
        (45, 100, "short"),
        (45, 33, "long"),
        (60, 100, "long"),
        (60, 100, "both"),
        (60, 100, "short"),
        (20, 100, "long"),
        (15, 100, "long"),
        (5, 100, "long"),
        (5, 100, "short"),
        (5, 100, "both"),
        (10, 100, "long"),
        (10, 100, "short"),
        (10, 100, "both"),
        (90, 100, "long"),
        (90, 100, "short"),
        (90, 100, "both"),
        (120, 100, "long"),
        (120, 100, "short"),
        (120, 100, "both"),
        (45, 50, "long"),
        (60, 50, "long"),
        (60, 33, "long"),
        (20, 50, "long"),
        (15, 50, "long"),
        (20, 100, "short"),
        (15, 100, "short"),
        (20, 33, "long"),
    ]
}

/// Name and thresholds of each feature filter: none, four Hurst floors, three
/// entropy caps, and four pairs of both.
pub open spec fn filters(disabled: bool) -> Seq<(Seq<char>, i64, i64)> {
    if disabled {
        seq![("none"@, 0, 0)]
    } else {
        seq![
            ("none"@, 0, 0),
            ("hurst"@, 48, 0),
            ("hurst"@, 50, 0),
            ("hurst"@, 52, 0),
            ("hurst"@, 55, 0),
            ("entropy"@, 0, 50),
            ("entropy"@, 0, 100),
            ("entropy"@, 0, 150),
            ("both"@, 48, 50),
            ("both"@, 48, 100),
            ("both"@, 50, 50),
            ("both"@, 50, 100),
        ]
    }
}

/// A filter with its name as text.
pub open spec fn plain_filter(f: (&'static str, i64, i64)) -> (Seq<char>, i64, i64) {
    (f.0@, f.1, f.2)
}

pub fn filter_configs(disabled: bool) -> (r: Vec<(&'static str, i64, i64)>)
    ensures
        r@.map_values(|f: (&'static str, i64, i64)| plain_filter(f)) =~= filters(disabled),
        forall|i: int|
            0 <= i < r@.len() ==> 0 <= (#[trigger] r@[i]).1 <= 100 && 0 <= r@[i].2 <= 150,
{
    if disabled {
        return vec![("none", 0, 0)];
    }
    vec![
        ("none", 0, 0),
        ("hurst", 48, 0),
        ("hurst", 50, 0),
        ("hurst", 52, 0),
        ("hurst", 55, 0),
        ("entropy", 0, 50),
        ("entropy", 0, 100),
        ("entropy", 0, 150),
        ("both", 48, 50),
        ("both", 48, 100),
        ("both", 50, 50),
        ("both", 50, 100),
    ]
}

/// The regime filters of the grid.
pub open spec fn regimes_swept() -> Seq<Seq<char>> {
    seq!["all"@, "calm"@, "normal"@, "elevated"@, "stressed"@, "crisis"@, "not_high"@]
}

pub fn vol_regimes() -> (r: Vec<&'static str>)
    ensures
        r@.map_values(|w: &'static str| w@) =~= regimes_swept(),
{
    vec!["all", "calm", "normal", "elevated", "stressed", "crisis", "not_high"]
}

/// The text that identifies a configuration of the strategy.
pub open spec fn key_text(
    inst: Seq<char>,
    em: Seq<char>,
    bm: Seq<char>,
    xm: Seq<char>,
    window: int,
    rr: int,
    dir: Seq<char>,
    lt: int,
    fmode: Seq<char>,
    hmin: int,
    emax: int,
    vr: Seq<char>,
) -> Seq<char> {
    inst + "|"@ + em + "|"@ + bm + "|"@ + xm + "|"@ + whole_text(window) + "|"@ + hundredths_text(
        rr,
    ) + "|"@ + dir + "|"@ + hundredths_text(lt) + "|"@ + fmode + "|"@ + hundredths_text(hmin)
        + "|"@ + hundredths_text(emax) + "|"@ + vr
}

pub fn fmt_key(
    inst: &str,
    em: &str,
    bm: &str,
    xm: &str,
    window: i32,
    rr: i64,
    dir: &str,
    lt: i64,
    fmode: &str,
    hmin: i64,
    emax: i64,
    vr: &str,
) -> (r: String)
    ensures
        r@ == key_text(
            inst@,
            em@,
            bm@,
            xm@,
            window as int,
            rr as int,
            dir@,
            lt as int,
            fmode@,
            hmin as int,
            emax as int,
            vr@,
        ),
{
    let mut s: String = inst.to_owned();
    s.append("|");
    s.append(em);
    s.append("|");
    s.append(bm);
    s.append("|");
    s.append(xm);
    s.append("|");
    append_whole(&mut s, window as i64);
    s.append("|");
    append_hundredths(&mut s, rr);
    s.append("|");
    s.append(dir);
    s.append("|");
    append_hundredths(&mut s, lt);
    s.append("|");
    s.append(fmode);
    s.append("|");
    append_hundredths(&mut s, hmin);
    s.append("|");
    append_hundredths(&mut s, emax);
    s.append("|");
    s.append(vr);
    s
}

/// The identifying text of a cell of an instrument.
pub open spec fn cell_key(inst: Seq<char>, c: Cell) -> Seq<char> {
    key_text(
        inst,
        c.variant.0.word(),
        c.variant.1.word(),
        c.variant.2.word(),
        c.window as int,
        c.rr as int,
        c.dir@,
        c.lux as int,
        c.fmode@,
        c.hmin as int,
        c.emax as int,
        c.regime@,
    )
}

fn key_of(inst: &str, c: &Cell) -> (r: String)
    ensures
        r@ == cell_key(inst@, *c),
{
    fmt_key(
        inst,
        c.variant.0.as_str(),
        c.variant.1.as_str(),
        c.variant.2.as_str(),
        c.window,
        c.rr,
        c.dir,
        c.lux,
        c.fmode,
        c.hmin,
        c.emax,
        c.regime,
    )
}

// ---------------------------------------------------------------------------
// Whitelist
// ---------------------------------------------------------------------------

/// Configurations that a run is restricted to, by their identifying texts.
#[derive(Debug)]
pub struct Whitelist {
    pub keys: Vec<String>,
}

/// Whether one of the texts is the given one.
pub open spec fn lists(keys: Seq<String>, key: Seq<char>) -> bool {
    exists|i: int| 0 <= i < keys.len() && (#[trigger] keys[i])@ == key
}

impl Whitelist {
    /// The texts stand in order.
    pub open spec fn wf(self) -> bool {
        forall|i: int, j: int|
            0 <= i <= j < self.keys@.len() ==> text_le(
                (#[trigger] self.keys@[i])@,
                (#[trigger] self.keys@[j])@,
            )
    }

    /// Keep the given texts.
    pub fn new(keys: Vec<String>) -> (r: Self)
        ensures
            r.wf(),
            forall|key: Seq<char>| lists(r.keys@, key) <==> lists(keys@, key),
    {
        let n: usize = keys.len();
        let ghost rel = |a: usize, b: usize| text_le(keys@[a as int]@, keys@[b as int]@);
        proof {
            assert forall|a: usize, b: usize| #![trigger rel(a, b)] a < n && b < n implies rel(a, b)
                || rel(b, a) by {
                texts_are_totally_ordered(keys@[a as int]@, keys@[b as int]@, keys@[a as int]@);
            }
            assert forall|a: usize, b: usize, c: usize|
                #![trigger rel(a, b), rel(b, c)]
                a < n && b < n && c < n && rel(a, b) && rel(b, c) implies rel(a, c) by {
                texts_are_totally_ordered(keys@[a as int]@, keys@[b as int]@, keys@[c as int]@);
            }
        }
        let le = |a: usize, b: usize| -> (o: bool)
            requires
                a < keys@.len(),
                b < keys@.len(),
            ensures
                o == text_le(keys@[a as int]@, keys@[b as int]@),
            { comes_before(keys[a].as_str(), keys[b].as_str()) };
        let order: Vec<usize> = sort_positions(n, le, Ghost(rel));
        let mut out: Vec<String> = Vec::new();
        let mut i: usize = 0;
        while i < n
            invariant
                i <= n,
                n == keys@.len(),
                order@.len() == n,
                all_below(order@, n as int),
                out@.len() == i,
                forall|k: int| 0 <= k < i ==> (#[trigger] out@[k])@ == keys@[order@[k] as int]@,
            decreases n - i,
        {
            out.push(keys[order[i]].clone());
            i = i + 1;
        }
        proof {
            lemma_positions_once(order@, n as int);
            assert forall|i: int, j: int| 0 <= i <= j < out@.len() implies text_le(
                (#[trigger] out@[i])@,
                (#[trigger] out@[j])@,
            ) by {
                if i < j {
                    assert(rel(order@[i], order@[j]));
                } else {
                    texts_are_totally_ordered(out@[i]@, out@[i]@, out@[i]@);
                }
            }
            assert forall|key: Seq<char>| lists(out@, key) <==> lists(keys@, key) by {
                if lists(out@, key) {
                    let k = choose|k: int| 0 <= k < out@.len() && (#[trigger] out@[k])@ == key;
                    assert(keys@[order@[k] as int]@ == key);
                }
                if lists(keys@, key) {
                    let k = choose|k: int| 0 <= k < keys@.len() && (#[trigger] keys@[k])@ == key;
                    assert(order@.contains(k as usize));
                    let at = choose|at: int| 0 <= at < order@.len() && order@[at] == k as usize;
                    assert(out@[at]@ == key);
                }
            }
        }
        Whitelist { keys: out }
    }

    /// Whether a configuration is listed.
    pub fn contains(&self, key: &str) -> (r: bool)
        requires
            self.wf(),
        ensures
            r == lists(self.keys@, key@),
    {
        let mut lo: usize = 0;
        let mut hi: usize = self.keys.len();
        while lo < hi
            invariant
                self.wf(),
                lo <= hi <= self.keys@.len(),
                forall|i: int| 0 <= i < lo ==> (#[trigger] self.keys@[i])@ != key@,
                forall|i: int|
                    hi <= i < self.keys@.len() ==> (#[trigger] self.keys@[i])@ != key@,
            decreases hi - lo,
        {
            let mid: usize = lo + (hi - lo) / 2;
            let at: &str = self.keys[mid].as_str();
            if same_text(at, key) {
                return true;
            }
            if comes_before(at, key) {
                proof {
                    assert forall|i: int| 0 <= i <= mid implies (#[trigger] self.keys@[i])@
                        != key@ by {
                        if self.keys@[i]@ == key@ {
                            assert(text_le(self.keys@[i]@, self.keys@[mid as int]@));
                            texts_are_totally_ordered(key@, at@, key@);
                        }
                    }
                }
                lo = mid + 1;
            } else {
                proof {
                    assert forall|i: int| mid <= i < self.keys@.len() implies (
                    #[trigger] self.keys@[i])@ != key@ by {
                        if self.keys@[i]@ == key@ {
                            assert(text_le(self.keys@[mid as int]@, self.keys@[i]@));
                        }
                    }
                }
                hi = mid;
            }
        }
        false
    }
}

/// Where a whitelist file keeps its columns.
#[derive(Clone, Copy, Debug, PartialEq, Eq, Structural)]
pub struct WhitelistColumns {
    pub n_cols: usize,
    pub instrument: usize,
    pub entry_mode: usize,
    pub bias_mode: usize,
    pub exit_mode: usize,
    pub window: usize,
    pub rr: usize,
    pub direction: usize,
    pub lux_tper: usize,
    pub filter_mode: usize,
    pub hurst_min: usize,
    pub entropy_max: usize,
    pub vol_regime: usize,
}

/// The first field from `i` on that, trimmed, is the given name.
pub open spec fn column_at(fields: Seq<Seq<char>>, name: Seq<char>, i: int) -> Option<usize>
    decreases fields.len() - i,
{
    if i >= fields.len() {
        None
    } else if trimmed(fields[i]) == name {
        Some(i as usize)
    } else {
        column_at(fields, name, i + 1)
    }
}

fn find_column(fields: &Vec<&str>, name: &str) -> (r: Option<usize>)
    ensures
        r == column_at(views(fields@), name@, 0),
        r matches Some(i) ==> i < fields@.len(),
{
    let mut i: usize = 0;
    while i < fields.len()
        invariant
            i <= fields@.len(),
            column_at(views(fields@), name@, 0) == column_at(views(fields@), name@, i as int),
        decreases fields@.len() - i,
    {
        proof {
            assert(views(fields@)[i as int] == fields@[i as int]@);
        }
        if same_text(trim(fields[i]), name) {
            return Some(i);
        }
        i = i + 1;
    }
    None
}

/// The columns of a whitelist file, in the order they are looked for.
pub open spec fn whitelist_names() -> Seq<Seq<char>> {
    seq![
        "instrument"@,
        "entry_mode"@,
        "bias_mode"@,
        "exit_mode"@,
        "window"@,
        "rr"@,
        "direction"@,
        "lux_tper"@,
        "filter_mode"@,
        "hurst_min"@,
        "entropy_max"@,
        "vol_regime"@,
    ]
}

/// The first column from the `i`-th on that a header does not have.
pub open spec fn first_missing(fields: Seq<Seq<char>>, i: int) -> Option<Seq<char>>
    decreases 12 - i,
{
    if i >= 12 {
        None
    } else if column_at(fields, whitelist_names()[i], 0) is None {
        Some(whitelist_names()[i])
    } else {
        first_missing(fields, i + 1)
    }
}

/// Find the columns of a whitelist file in its header, or the name of the first
/// one that is missing.
pub fn whitelist_columns(header: &str) -> (r: Result<WhitelistColumns, &'static str>)
    ensures
        ({
            let f = pieces(header@, ',');
            match r {
                Ok(c) => {
                    &&& first_missing(f, 0) is None
                    &&& c.n_cols == f.len()
                    &&& column_at(f, "instrument"@, 0) == Some(c.instrument)
                    &&& column_at(f, "entry_mode"@, 0) == Some(c.entry_mode)
                    &&& column_at(f, "bias_mode"@, 0) == Some(c.bias_mode)
                    &&& column_at(f, "exit_mode"@, 0) == Some(c.exit_mode)
                    &&& column_at(f, "window"@, 0) == Some(c.window)
                    &&& column_at(f, "rr"@, 0) == Some(c.rr)
                    &&& column_at(f, "direction"@, 0) == Some(c.direction)
                    &&& column_at(f, "lux_tper"@, 0) == Some(c.lux_tper)
                    &&& column_at(f, "filter_mode"@, 0) == Some(c.filter_mode)
                    &&& column_at(f, "hurst_min"@, 0) == Some(c.hurst_min)
                    &&& column_at(f, "entropy_max"@, 0) == Some(c.entropy_max)
                    &&& column_at(f, "vol_regime"@, 0) == Some(c.vol_regime)
                },
                Err(name) => first_missing(f, 0) == Some(name@),
            }
        }),
        r matches Ok(c) ==> c.instrument < c.n_cols && c.entry_mode < c.n_cols && c.bias_mode
            < c.n_cols && c.exit_mode < c.n_cols && c.window < c.n_cols && c.rr < c.n_cols
            && c.direction < c.n_cols && c.lux_tper < c.n_cols && c.filter_mode < c.n_cols
            && c.hurst_min < c.n_cols && c.entropy_max < c.n_cols && c.vol_regime < c.n_cols,
{
    let f: Vec<&str> = split(header, ',');
    proof {
        assert(views(f@).len() == f@.len());
        reveal_with_fuel(first_missing, 13);
    }
    let instrument: usize = match find_column(&f, "instrument") {
        Some(i) => i,
        None => {
            return Err("instrument");
        },
    };
    let entry_mode: usize = match find_column(&f, "entry_mode") {
        Some(i) => i,
        None => {
            return Err("entry_mode");
        },
    };
    let bias_mode: usize = match find_column(&f, "bias_mode") {
        Some(i) => i,
        None => {
            return Err("bias_mode");
        },
    };
    let exit_mode: usize = match find_column(&f, "exit_mode") {
        Some(i) => i,
        None => {
            return Err("exit_mode");
        },
    };
    let window: usize = match find_column(&f, "window") {
        Some(i) => i,
        None => {
            return Err("window");
        },
    };
    let rr: usize = match find_column(&f, "rr") {
        Some(i) => i,
        None => {
            return Err("rr");
        },
    };
    let direction: usize = match find_column(&f, "direction") {
        Some(i) => i,
        None => {
            return Err("direction");
        },
    };
    let lux_tper: usize = match find_column(&f, "lux_tper") {
        Some(i) => i,
        None => {
            return Err("lux_tper");
        },
    };
    let filter_mode: usize = match find_column(&f, "filter_mode") {
        Some(i) => i,
        None => {
            return Err("filter_mode");
        },
    };
    let hurst_min: usize = match find_column(&f, "hurst_min") {
        Some(i) => i,
        None => {
            return Err("hurst_min");
        },
    };
    let entropy_max: usize = match find_column(&f, "entropy_max") {
        Some(i) => i,
        None => {
            return Err("entropy_max");
        },
    };
    let vol_regime: usize = match find_column(&f, "vol_regime") {
        Some(i) => i,
        None => {
            return Err("vol_regime");
        },
    };
    Ok(
        WhitelistColumns {
            n_cols: f.len(),
            instrument,
            entry_mode,
            bias_mode,
            exit_mode,
            window,
            rr,
            direction,
            lux_tper,
            filter_mode,
            hurst_min,
            entropy_max,
            vol_regime,
        },
    )
}

/// What a line of a whitelist file holds.
#[derive(Clone, Debug)]
pub enum WhitelistRow<'a> {
    /// Nothing but whitespace.
    Blank,
    /// Fewer fields than the header has.
    Short,
    /// The fields, trimmed.
    Fields(Vec<&'a str>),
}

/// Split a line of a whitelist file with the given number of columns.
pub fn whitelist_row<'a>(line: &'a str, n_cols: usize) -> (r: WhitelistRow<'a>)
    ensures
        match r {
            WhitelistRow::Blank => trimmed(line@).len() == 0,
            WhitelistRow::Short => trimmed(line@).len() > 0 && pieces(line@, ',').len() < n_cols,
            WhitelistRow::Fields(f) => trimmed(line@).len() > 0 && f@.len() >= n_cols && views(f@)
                =~= pieces(line@, ',').map_values(|t: Seq<char>| trimmed(t)),
        },
{
    if trim(line).is_empty() {
        return WhitelistRow::Blank;
    }
    let raw: Vec<&'a str> = split(line, ',');
    proof {
        assert(views(raw@).len() == raw@.len());
    }
    if raw.len() < n_cols {
        return WhitelistRow::Short;
    }
    let mut f: Vec<&'a str> = Vec::new();
    let mut i: usize = 0;
    while i < raw.len()
        invariant
            i <= raw@.len(),
            f@.len() == i,
            views(raw@) == pieces(line@, ','),
            forall|k: int| 0 <= k < i ==> (#[trigger] f@[k])@ == trimmed(raw@[k]@),
        decreases raw@.len() - i,
    {
        f.push(trim(raw[i]));
        i = i + 1;
    }
    proof {
        let want = pieces(line@, ',').map_values(|t: Seq<char>| trimmed(t));
        assert(views(f@).len() == want.len());
        assert forall|k: int| 0 <= k < want.len() implies views(f@)[k] == want[k] by {
            assert(views(raw@)[k] == raw@[k]@);
            assert(f@[k]@ == trimmed(raw@[k]@));
        }
    }
    WhitelistRow::Fields(f)
}

// ---------------------------------------------------------------------------
// Risk geometries of a run
// ---------------------------------------------------------------------------

/// Why a list of risk geometries selects none.
#[derive(Clone, Debug)]
pub enum RiskGeoError {
    /// The list holds a name that no geometry has.
    Unknown(String),
    /// The list is empty.
    Nothing,
}

/// Whether a text is "all", in any case of letters.
pub open spec fn means_all(t: Seq<char>) -> bool {
    &&& t.len() == 3
    &&& t[0] == 'a' || t[0] == 'A'
    &&& t[1] == 'l' || t[1] == 'L'
    &&& t[2] == 'l' || t[2] == 'L'
}

/// The geometry of a name.
pub open spec fn geo_named(t: Seq<char>, g: int) -> Option<int>
    decreases 7 - g,
{
    if g >= 7 {
        None
    } else if t == rg_word(g) {
        Some(g)
    } else {
        geo_named(t, g + 1)
    }
}

/// The first listed name from the `i`-th on that is neither empty nor of a
/// geometry.
pub open spec fn unknown_geo(list: Seq<Seq<char>>, i: int) -> Option<Seq<char>>
    decreases list.len() - i,
{
    if i >= list.len() {
        None
    } else {
        let t = trimmed(list[i]);
        if t.len() > 0 && geo_named(t, 0) is None {
            Some(t)
        } else {
            unknown_geo(list, i + 1)
        }
    }
}

/// Whether a list names a geometry.
pub open spec fn names_geo(list: Seq<Seq<char>>, g: int) -> bool {
    exists|i: int|
        0 <= i < list.len() && trimmed(#[trigger] list[i]).len() > 0 && geo_named(
            trimmed(list[i]),
            0,
        ) == Some(g)
}

/// Whether a setting selects a geometry: "all" selects every one.
pub open spec fn selects_geo(spec_text: Seq<char>, g: int) -> bool {
    means_all(trimmed(spec_text)) || names_geo(pieces(spec_text, ','), g)
}

fn is_all(t: &str) -> (r: bool)
    ensures
        r == means_all(t@),
{
    let v: Vec<char> = chars_of(t);
    v.len() == 3 && (v[0] == 'a' || v[0] == 'A') && (v[1] == 'l' || v[1] == 'L') && (v[2] == 'l'
        || v[2] == 'L')
}

fn find_geo(t: &str) -> (r: Option<usize>)
    ensures
        match r {
            Some(g) => geo_named(t@, 0) == Some(g as int) && g < N_RISK_GEOS,
            None => geo_named(t@, 0) is None,
        },
{
    let mut g: usize = 0;
    while g < N_RISK_GEOS
        invariant
            g <= 7,
            geo_named(t@, 0) == geo_named(t@, g as int),
        decreases 7 - g,
    {
        if same_text(t, rg_name(g)) {
            return Some(g);
        }
        g = g + 1;
    }
    None
}

/// The selected risk geometries, ascending and each once, or why there are none.
pub fn try_selected_risk_geos(spec_text: &str) -> (r: Result<Vec<usize>, RiskGeoError>)
    ensures
        match r {
            Ok(v) => {
                &&& v@.len() > 0
                &&& forall|i: int, j: int| 0 <= i < j < v@.len() ==> v@[i] < v@[j]
                &&& forall|g: usize|
                    v@.contains(g) <==> g < N_RISK_GEOS && selects_geo(spec_text@, g as int)
                &&& means_all(trimmed(spec_text@)) || unknown_geo(
                    pieces(spec_text@, ','),
                    0,
                ) is None
            },
            Err(RiskGeoError::Unknown(name)) => !means_all(trimmed(spec_text@)) && unknown_geo(
                pieces(spec_text@, ','),
                0,
            ) == Some(name@),
            Err(RiskGeoError::Nothing) => !means_all(trimmed(spec_text@)) && unknown_geo(
                pieces(spec_text@, ','),
                0,
            ) is None && forall|g: int| !#[trigger] names_geo(pieces(spec_text@, ','), g),
        },
{
    let everything: bool = is_all(trim(spec_text));
    let toks: Vec<&str> = split(spec_text, ',');
    let ghost list = pieces(spec_text@, ',');
    let mut picked: Vec<bool> = Vec::new();
    let mut g: usize = 0;
    while g < N_RISK_GEOS
        invariant
            g <= 7,
            picked@.len() == g,
            forall|k: int| 0 <= k < g ==> #[trigger] picked@[k] == everything,
        decreases 7 - g,
    {
        picked.push(everything);
        g = g + 1;
    }
    if !everything {
        let mut i: usize = 0;
        let mut any: bool = false;
        while i < toks.len()
            invariant
                i <= toks@.len(),
                views(toks@) == list,
                list == pieces(spec_text@, ','),
                !everything,
                everything == means_all(trimmed(spec_text@)),
                picked@.len() == 7,
                unknown_geo(list, 0) == unknown_geo(list, i as int),
                forall|k: int|
                    0 <= k < 7 ==> (#[trigger] picked@[k] <==> names_geo(list.take(i as int), k)),
                any <==> exists|k: int| 0 <= k < 7 && #[trigger] picked@[k],
            decreases toks@.len() - i,
        {
            let t: &str = trim(toks[i]);
            let ghost before = picked@;
            proof {
                assert(views(toks@)[i as int] == toks@[i as int]@);
                assert(t@ == trimmed(list[i as int]));
                assert(list.take(i + 1) =~= list.take(i as int).push(list[i as int]));
            }
            if !t.is_empty() {
                match find_geo(t) {
                    Some(found) => {
                        picked.set(found, true);
                        any = true;
                        proof {
                            assert(picked@[found as int]);
                            assert forall|k: int| 0 <= k < 7 implies (#[trigger] picked@[k]
                                <==> names_geo(list.take(i + 1), k)) by {
                                lemma_names_geo_next(list, i as int, k);
                                assert(before[k] <==> names_geo(list.take(i as int), k));
                            }
                        }
                    },
                    None => {
                        return Err(RiskGeoError::Unknown(t.to_owned()));
                    },
                }
            } else {
                proof {
                    assert forall|k: int| 0 <= k < 7 implies (#[trigger] picked@[k] <==> names_geo(
                        list.take(i + 1),
                        k,
                    )) by {
                        lemma_names_geo_next(list, i as int, k);
                    }
                }
            }
            i = i + 1;
        }
        proof {
            assert(list.take(list.len() as int) =~= list);
            assert(views(toks@).len() == toks@.len());
        }
        if !any {
            proof {
                assert forall|g: int| !#[trigger] names_geo(list, g) by {
                    if names_geo(list, g) {
                        lemma_geo_named_below(list, g);
                        assert(picked@[g]);
                    }
                }
            }
            return Err(RiskGeoError::Nothing);
        }
    }
    let mut out: Vec<usize> = Vec::new();
    g = 0;
    while g < N_RISK_GEOS
        invariant
            g <= 7,
            picked@.len() == 7,
            forall|i: int, j: int| 0 <= i < j < out@.len() ==> out@[i] < out@[j],
            forall|i: int| 0 <= i < out@.len() ==> #[trigger] out@[i] < g,
            forall|k: usize| out@.contains(k) <==> k < g && picked@[k as int],
        decreases 7 - g,
    {
        let ghost before = out@;
        if picked[g] {
            out.push(g);
        }
        proof {
            assert forall|k: usize| out@.contains(k) <==> k < g + 1 && picked@[k as int] by {
                assert(before.contains(k) <==> k < g && picked@[k as int]);
                if picked@[g as int] {
                    assert(out@[before.len() as int] == g);
                    if before.contains(k) {
                        let at = choose|at: int| 0 <= at < before.len() && before[at] == k;
                        assert(out@[at] == k);
                    }
                    if out@.contains(k) && k != g {
                        let at = choose|at: int| 0 <= at < out@.len() && out@[at] == k;
                        assert(before[at] == k);
                    }
                }
            }
        }
        g = g + 1;
    }
    proof {
        assert forall|k: usize|
            out@.contains(k) <==> k < N_RISK_GEOS && selects_geo(spec_text@, k as int) by {
            assert(out@.contains(k) <==> k < 7 && picked@[k as int]);
        }
        let some = choose|k: int| 0 <= k < 7 && #[trigger] picked@[k];
        if everything {
            assert(picked@[0]);
            assert(out@.contains(0));
        } else {
            assert(picked@[some]);
            assert(out@.contains(some as usize));
        }
    }
    Ok(out)
}

proof fn lemma_names_geo_next(list: Seq<Seq<char>>, i: int, g: int)
    requires
        0 <= i < list.len(),
    ensures
        names_geo(list.take(i + 1), g) <==> names_geo(list.take(i), g) || (trimmed(list[i]).len()
            > 0 && geo_named(trimmed(list[i]), 0) == Some(g)),
{
    let a = list.take(i);
    let b = list.take(i + 1);
    if names_geo(a, g) {
        let k = choose|k: int|
            0 <= k < a.len() && trimmed(#[trigger] a[k]).len() > 0 && geo_named(trimmed(a[k]), 0)
                == Some(g);
        assert(b[k] == a[k]);
    }
    if names_geo(b, g) {
        let k = choose|k: int|
            0 <= k < b.len() && trimmed(#[trigger] b[k]).len() > 0 && geo_named(trimmed(b[k]), 0)
                == Some(g);
        if k < i {
            assert(a[k] == b[k]);
        }
    }
    if trimmed(list[i]).len() > 0 && geo_named(trimmed(list[i]), 0) == Some(g) {
        assert(b[i] == list[i]);
    }
}

proof fn lemma_geo_named_range(t: Seq<char>, g: int)
    requires
        0 <= g,
    ensures
        geo_named(t, g) matches Some(k) ==> g <= k < 7,
    decreases 7 - g,
{
    if g < 7 {
        lemma_geo_named_range(t, g + 1);
    }
}

proof fn lemma_geo_named_below(list: Seq<Seq<char>>, g: int)
    requires
        names_geo(list, g),
    ensures
        0 <= g < 7,
{
    let k = choose|k: int|
        0 <= k < list.len() && trimmed(#[trigger] list[k]).len() > 0 && geo_named(
            trimmed(list[k]),
            0,
        ) == Some(g);
    lemma_geo_named_range(trimmed(list[k]), 0);
}

/// The selected risk geometries, ascending and each once. The list must name
/// known geometries only, and at least one.
pub fn selected_risk_geos(spec_text: &str) -> (r: Vec<usize>)
    requires
        means_all(trimmed(spec_text@)) || (unknown_geo(pieces(spec_text@, ','), 0) is None
            && exists|g: int| #[trigger] names_geo(pieces(spec_text@, ','), g)),
    ensures
        r@.len() > 0,
        forall|i: int, j: int| 0 <= i < j < r@.len() ==> r@[i] < r@[j],
        forall|g: usize|
            r@.contains(g) <==> g < N_RISK_GEOS && selects_geo(spec_text@, g as int),
{
    match try_selected_risk_geos(spec_text) {
        Ok(v) => v,
        Err(_) => Vec::new(),
    }
}

// ---------------------------------------------------------------------------
// Cells
// ---------------------------------------------------------------------------

/// The offsets and multiples of the bias and the targets, in hundredths.
pub open spec fn lux_values() -> Seq<i64> {
    seq![50, 100, 150]
}

/// What the grid is spanned by.
pub struct GridAxes {
    pub variants: Seq<(EntryMode, BiasMode, ExitMode)>,
    pub configs: Seq<(i32, i64, &'static str)>,
    pub filters: Seq<(&'static str, i64, i64)>,
    pub regimes: Seq<&'static str>,
}

/// Whether a cell is run: all are without a whitelist, else those it lists.
pub open spec fn admitted(inst: Seq<char>, list: Option<Whitelist>, c: Cell) -> bool {
    match list {
        Some(w) => lists(w.keys@, cell_key(inst, c)),
        None => true,
    }
}

/// The cell at a point of the axes.
pub open spec fn cell_at(a: GridAxes, v: int, lux: i64, c: int, f: int, r: int) -> Cell {
    Cell {
        variant: a.variants[v],
        lux,
        window: a.configs[c].0,
        rr: a.configs[c].1,
        dir: a.configs[c].2,
        fmode: a.filters[f].0,
        hmin: a.filters[f].1,
        emax: a.filters[f].2,
        regime: a.regimes[r],
    }
}

/// The admitted cells of one filter, under its first `r` regimes.
pub open spec fn cells_by_regime(
    inst: Seq<char>,
    list: Option<Whitelist>,
    a: GridAxes,
    v: int,
    lux: i64,
    c: int,
    f: int,
    r: int,
) -> Seq<Cell>
    decreases r,
{
    if r <= 0 {
        Seq::empty()
    } else {
        let before = cells_by_regime(inst, list, a, v, lux, c, f, r - 1);
        let cell = cell_at(a, v, lux, c, f, r - 1);
        if admitted(inst, list, cell) {
            before.push(cell)
        } else {
            before
        }
    }
}

/// The admitted cells of one configuration, under its first `f` filters.
pub open spec fn cells_by_filter(
    inst: Seq<char>,
    list: Option<Whitelist>,
    a: GridAxes,
    v: int,
    lux: i64,
    c: int,
    f: int,
) -> Seq<Cell>
    decreases f,
{
    if f <= 0 {
        Seq::empty()
    } else {
        cells_by_filter(inst, list, a, v, lux, c, f - 1) + cells_by_regime(
            inst,
            list,
            a,
            v,
            lux,
            c,
            f - 1,
            a.regimes.len() as int,
        )
    }
}

/// The admitted cells of one variant and offset, of its first `c` configurations.
pub open spec fn cells_by_config(
    inst: Seq<char>,
    list: Option<Whitelist>,
    a: GridAxes,
    v: int,
    lux: i64,
    c: int,
) -> Seq<Cell>
    decreases c,
{
    if c <= 0 {
        Seq::empty()
    } else {
        cells_by_config(inst, list, a, v, lux, c - 1) + cells_by_filter(
            inst,
            list,
            a,
            v,
            lux,
            c - 1,
            a.filters.len() as int,
        )
    }
}

/// The admitted cells of one variant, of its first `l` offsets. A fixed-multiple
/// exit is swept at the offset of one alone.
pub open spec fn cells_by_lux(
    inst: Seq<char>,
    list: Option<Whitelist>,
    a: GridAxes,
    v: int,
    l: int,
) -> Seq<Cell>
    decreases l,
{
    if l <= 0 {
        Seq::empty()
    } else {
        let before = cells_by_lux(inst, list, a, v, l - 1);
        let lux = lux_values()[l - 1];
        if a.variants[v].2 == ExitMode::FixedRR && lux != 100 {
            before
        } else {
            before + cells_by_config(inst, list, a, v, lux, a.configs.len() as int)
        }
    }
}

/// The admitted cells of the first `v` variants.
pub open spec fn cells_by_variant(
    inst: Seq<char>,
    list: Option<Whitelist>,
    a: GridAxes,
    v: int,
) -> Seq<Cell>
    decreases v,
{
    if v <= 0 {
        Seq::empty()
    } else {
        cells_by_variant(inst, list, a, v - 1) + cells_by_lux(inst, list, a, v - 1, 3)
    }
}

fn listed(inst: &str, list: &Option<Whitelist>, c: &Cell) -> (r: bool)
    requires
        list matches Some(w) ==> w.wf(),
    ensures
        r == admitted(inst@, *list, *c),
{
    match list {
        Some(w) => w.contains(key_of(inst, c).as_str()),
        None => true,
    }
}

/// Enumerate the grid of an instrument: every variant, offset, configuration,
/// filter and regime, in that order, as far as the whitelist admits them.
pub fn grid_cells(
    inst: &str,
    variants: &Vec<(EntryMode, BiasMode, ExitMode)>,
    configs: &Vec<(i32, i64, &'static str)>,
    filters: &Vec<(&'static str, i64, i64)>,
    regimes: &Vec<&'static str>,
    list: &Option<Whitelist>,
) -> (r: Vec<Cell>)
    requires
        list matches Some(w) ==> w.wf(),
    ensures
        r@ == cells_by_variant(
            inst@,
            *list,
            (GridAxes {
                variants: variants@,
                configs: configs@,
                filters: filters@,
                regimes: regimes@,
            }),
            variants@.len() as int,
        ),
{
    let ghost a = GridAxes {
        variants: variants@,
        configs: configs@,
        filters: filters@,
        regimes: regimes@,
    };
    let luxes: [i64; 3] = [50, 100, 150];
    let mut out: Vec<Cell> = Vec::new();
    let mut v: usize = 0;
    while v < variants.len()
        invariant
            list matches Some(w) ==> w.wf(),
            a.variants == variants@,
            a.configs == configs@,
            a.filters == filters@,
            a.regimes == regimes@,
            luxes@ == lux_values(),
            v <= variants@.len(),
            out@ == cells_by_variant(inst@, *list, a, v as int),
        decreases variants@.len() - v,
    {
        let ghost base_v = out@;
        let mut l: usize = 0;
        proof {
            assert(base_v + cells_by_lux(inst@, *list, a, v as int, 0) =~= base_v);
        }
        while l < 3
            invariant
                list matches Some(w) ==> w.wf(),
                a.variants == variants@,
                a.configs == configs@,
                a.filters == filters@,
                a.regimes == regimes@,
                luxes@ == lux_values(),
                v < variants@.len(),
                l <= 3,
                out@ == base_v + cells_by_lux(inst@, *list, a, v as int, l as int),
            decreases 3 - l,
        {
            let lux: i64 = luxes[l];
            let ghost base_l = out@;
            let fixed: bool = match variants[v].2 {
                ExitMode::FixedRR => true,
                ExitMode::LuxTargets => false,
            };
            if !(fixed && lux != 100) {
                let mut c: usize = 0;
                proof {
                    assert(base_l + cells_by_config(inst@, *list, a, v as int, lux, 0) =~= base_l);
                }
                while c < configs.len()
                    invariant
                        list matches Some(w) ==> w.wf(),
                        a.variants == variants@,
                        a.configs == configs@,
                        a.filters == filters@,
                        a.regimes == regimes@,
                        v < variants@.len(),
                        c <= configs@.len(),
                        out@ == base_l + cells_by_config(inst@, *list, a, v as int, lux, c as int),
                    decreases configs@.len() - c,
                {
                    let ghost base_c = out@;
                    let mut f: usize = 0;
                    proof {
                        assert(base_c + cells_by_filter(
                            inst@,
                            *list,
                            a,
                            v as int,
                            lux,
                            c as int,
                            0,
                        ) =~= base_c);
                    }
                    while f < filters.len()
                        invariant
                            list matches Some(w) ==> w.wf(),
                            a.variants == variants@,
                            a.configs == configs@,
                            a.filters == filters@,
                            a.regimes == regimes@,
                            v < variants@.len(),
                            c < configs@.len(),
                            f <= filters@.len(),
                            out@ == base_c + cells_by_filter(
                                inst@,
                                *list,
                                a,
                                v as int,
                                lux,
                                c as int,
                                f as int,
                            ),
                        decreases filters@.len() - f,
                    {
                        let ghost base_f = out@;
                        let mut r: usize = 0;
                        proof {
                            assert(base_f + cells_by_regime(
                                inst@,
                                *list,
                                a,
                                v as int,
                                lux,
                                c as int,
                                f as int,
                                0,
                            ) =~= base_f);
                        }
                        while r < regimes.len()
                            invariant
                                list matches Some(w) ==> w.wf(),
                                a.variants == variants@,
                                a.configs == configs@,
                                a.filters == filters@,
                                a.regimes == regimes@,
                                v < variants@.len(),
                                c < configs@.len(),
                                f < filters@.len(),
                                r <= regimes@.len(),
                                out@ == base_f + cells_by_regime(
                                    inst@,
                                    *list,
                                    a,
                                    v as int,
                                    lux,
                                    c as int,
                                    f as int,
                                    r as int,
                                ),
                            decreases regimes@.len() - r,
                        {
                            let cell: Cell = Cell {
                                variant: variants[v],
                                lux,
                                window: configs[c].0,
                                rr: configs[c].1,
                                dir: configs[c].2,
                                fmode: filters[f].0,
                                hmin: filters[f].1,
                                emax: filters[f].2,
                                regime: regimes[r],
                            };
                            let ghost before = cells_by_regime(
                                inst@,
                                *list,
                                a,
                                v as int,
                                lux,
                                c as int,
                                f as int,
                                r as int,
                            );
                            proof {
                                assert(cell == cell_at(
                                    a,
                                    v as int,
                                    lux,
                                    c as int,
                                    f as int,
                                    r as int,
                                ));
                                assert(base_f + before.push(cell) =~= (base_f + before).push(cell));
                            }
                            if listed(inst, list, &cell) {
                                out.push(cell);
                            }
                            r = r + 1;
                        }
                        proof {
                            let done = cells_by_filter(
                                inst@,
                                *list,
                                a,
                                v as int,
                                lux,
                                c as int,
                                f as int,
                            );
                            let row = cells_by_regime(
                                inst@,
                                *list,
                                a,
                                v as int,
                                lux,
                                c as int,
                                f as int,
                                a.regimes.len() as int,
                            );
                            assert((base_c + done) + row =~= base_c + (done + row));
                        }
                        f = f + 1;
                    }
                    proof {
                        let done = cells_by_config(inst@, *list, a, v as int, lux, c as int);
                        let row = cells_by_filter(
                            inst@,
                            *list,
                            a,
                            v as int,
                            lux,
                            c as int,
                            a.filters.len() as int,
                        );
                        assert((base_l + done) + row =~= base_l + (done + row));
                    }
                    c = c + 1;
                }
                proof {
                    let done = cells_by_lux(inst@, *list, a, v as int, l as int);
                    let row = cells_by_config(
                        inst@,
                        *list,
                        a,
                        v as int,
                        lux,
                        a.configs.len() as int,
                    );
                    assert((base_v + done) + row =~= base_v + (done + row));
                }
            }
            l = l + 1;
        }
        v = v + 1;
    }
    out
}

// ---------------------------------------------------------------------------
// Selection of a run
// ---------------------------------------------------------------------------

/// The upper-case instrument symbols of a comma-separated list.
pub fn instrument_list(list: &str) -> (r: Vec<String>)
    ensures
        r@.len() == pieces(list@, ',').len(),
        forall|i: int|
            0 <= i < r@.len() ==> (#[trigger] r@[i])@ == uppercase(
                trimmed(pieces(list@, ',')[i]),
            ),
{
    let toks: Vec<&str> = split(list, ',');
    let mut out: Vec<String> = Vec::new();
    let mut i: usize = 0;
    proof {
        assert(views(toks@).len() == toks@.len());
    }
    while i < toks.len()
        invariant
            i <= toks@.len(),
            views(toks@) == pieces(list@, ','),
            out@.len() == i,
            forall|k: int|
                0 <= k < i ==> (#[trigger] out@[k])@ == uppercase(
                    trimmed(pieces(list@, ',')[k]),
                ),
        decreases toks@.len() - i,
    {
        proof {
            assert(views(toks@)[i as int] == toks@[i as int]@);
        }
        out.push(to_upper(trim(toks[i])));
        i = i + 1;
    }
    out
}

/// The first account product whose commission differs from the first one's.
pub open spec fn odd_commission(accounts: Seq<Account>, i: int) -> Option<int>
    decreases accounts.len() - i,
{
    if i >= accounts.len() {
        None
    } else if accounts[i].comm != accounts[0].comm {
        Some(i)
    } else {
        odd_commission(accounts, i + 1)
    }
}

/// The commission that all account products carry, or the position of the first
/// one that carries another. The engine applies one commission to every account,
/// so an account of its own must not go unnoticed.
pub fn shared_commission(accounts: &Vec<Account>) -> (r: Result<i64, usize>)
    requires
        accounts@.len() > 0,
    ensures
        match r {
            Ok(c) => odd_commission(accounts@, 0) is None && c == accounts@[0].comm,
            Err(i) => odd_commission(accounts@, 0) == Some(i as int),
        },
{
    let mut i: usize = 0;
    while i < accounts.len()
        invariant
            0 < accounts@.len(),
            i <= accounts@.len(),
            odd_commission(accounts@, 0) == odd_commission(accounts@, i as int),
        decreases accounts@.len() - i,
    {
        if accounts[i].comm != accounts[0].comm {
            return Err(i);
        }
        i = i + 1;
    }
    Ok(accounts[0].comm)
}

/// The account product that a look at the signal alone is restricted to.
pub open spec fn is_signal_account() -> spec_fn(Account) -> bool {
    |a: Account| a.key@ == "it150"@
}

/// The account products of a run: all of them, or the one that the signal alone
/// is looked at with.
pub fn selected_accounts(accounts: Vec<Account>, signal_only: bool) -> (r: Vec<Account>)
    ensures
        r@ == if signal_only {
            accounts@.filter(is_signal_account())
        } else {
            accounts@
        },
{
    if !signal_only {
        return accounts;
    }
    let ghost all = accounts@;
    let ghost p = is_signal_account();
    let mut rest: Vec<Account> = accounts;
    let mut out: Vec<Account> = Vec::new();
    let ghost mut done: int = 0;
    proof {
        assert(all.take(0) =~= Seq::<Account>::empty());
        Seq::<Account>::empty().lemma_filter_len(p);
        assert(all.skip(0) =~= all);
        assert(out@ =~= all.take(0).filter(p));
    }
    while rest.len() > 0
        invariant
            p == is_signal_account(),
            0 <= done <= all.len(),
            rest@ == all.skip(done),
            out@ == all.take(done).filter(p),
        decreases rest@.len(),
    {
        let a: Account = rest.remove(0);
        proof {
            assert(a == all[done]);
            assert(all.take(done + 1) =~= all.take(done).push(a));
            all.take(done).lemma_filter_push(a, p);
            assert(all.skip(done).remove(0) =~= all.skip(done + 1));
            done = done + 1;
        }
        if same_text(a.key.as_str(), "it150") {
            out.push(a);
        }
    }
    proof {
        assert(all.take(all.len() as int) =~= all);
    }
    out
}

/// The risk geometries that each phase sweeps: the selected ones, or the first
/// alone where only the signal is looked at.
pub fn swept_geometries(selected: Vec<usize>, signal_only: bool) -> (r: Vec<usize>)
    ensures
        r@ == if signal_only {
            seq![0usize]
        } else {
            selected@
        },
{
    if signal_only {
        vec![0]
    } else {
        selected
    }
}

// ---------------------------------------------------------------------------
// Laws
// ---------------------------------------------------------------------------

/// Every window of the grid is positive, so every one of them can be precomputed.
pub proof fn every_grid_window_is_positive(i: int)
    requires
        0 <= i < grid().len(),
    ensures
        grid()[i].0 > 0,
        grid()[i].1 > 0,
{
}

/// Whether a cell is an admitted one of a variant and offset.
spec fn stems_from(
    inst: Seq<char>,
    list: Option<Whitelist>,
    a: GridAxes,
    v: int,
    lux: i64,
    c: Cell,
) -> bool {
    admitted(inst, list, c) && c.variant == a.variants[v] && c.lux == lux
}

proof fn lemma_regime_cells(
    inst: Seq<char>,
    list: Option<Whitelist>,
    a: GridAxes,
    v: int,
    lux: i64,
    c: int,
    f: int,
    r: int,
    i: int,
)
    requires
        0 <= i < cells_by_regime(inst, list, a, v, lux, c, f, r).len(),
    ensures
        stems_from(inst, list, a, v, lux, cells_by_regime(inst, list, a, v, lux, c, f, r)[i]),
    decreases r,
{
    if r > 0 && i < cells_by_regime(inst, list, a, v, lux, c, f, r - 1).len() {
        lemma_regime_cells(inst, list, a, v, lux, c, f, r - 1, i);
    }
}

proof fn lemma_filter_cells(
    inst: Seq<char>,
    list: Option<Whitelist>,
    a: GridAxes,
    v: int,
    lux: i64,
    c: int,
    f: int,
    i: int,
)
    requires
        0 <= i < cells_by_filter(inst, list, a, v, lux, c, f).len(),
    ensures
        stems_from(inst, list, a, v, lux, cells_by_filter(inst, list, a, v, lux, c, f)[i]),
    decreases f,
{
    if f > 0 {
        let before = cells_by_filter(inst, list, a, v, lux, c, f - 1).len();
        if i < before {
            lemma_filter_cells(inst, list, a, v, lux, c, f - 1, i);
        } else {
            lemma_regime_cells(
                inst,
                list,
                a,
                v,
                lux,
                c,
                f - 1,
                a.regimes.len() as int,
                i - before,
            );
        }
    }
}

proof fn lemma_config_cells(
    inst: Seq<char>,
    list: Option<Whitelist>,
    a: GridAxes,
    v: int,
    lux: i64,
    c: int,
    i: int,
)
    requires
        0 <= i < cells_by_config(inst, list, a, v, lux, c).len(),
    ensures
        stems_from(inst, list, a, v, lux, cells_by_config(inst, list, a, v, lux, c)[i]),
    decreases c,
{
    if c > 0 {
        let before = cells_by_config(inst, list, a, v, lux, c - 1).len();
        if i < before {
            lemma_config_cells(inst, list, a, v, lux, c - 1, i);
        } else {
            lemma_filter_cells(inst, list, a, v, lux, c - 1, a.filters.len() as int, i - before);
        }
    }
}

proof fn lemma_lux_cells(
    inst: Seq<char>,
    list: Option<Whitelist>,
    a: GridAxes,
    v: int,
    l: int,
    i: int,
)
    requires
        0 <= i < cells_by_lux(inst, list, a, v, l).len(),
    ensures
        ({
            let c = cells_by_lux(inst, list, a, v, l)[i];
            admitted(inst, list, c) && (c.variant.2 == ExitMode::FixedRR ==> c.lux == 100)
        }),
    decreases l,
{
    if l > 0 {
        let before = cells_by_lux(inst, list, a, v, l - 1).len();
        if i < before {
            lemma_lux_cells(inst, list, a, v, l - 1, i);
        } else {
            lemma_config_cells(
                inst,
                list,
                a,
                v,
                lux_values()[l - 1],
                a.configs.len() as int,
                i - before,
            );
        }
    }
}

/// Every cell of the grid is on the whitelist, where there is one, and a
/// fixed-multiple exit is swept at the offset of one alone.
pub proof fn the_grid_keeps_to_the_whitelist(
    inst: Seq<char>,
    list: Option<Whitelist>,
    a: GridAxes,
    v: int,
    i: int,
)
    requires
        0 <= i < cells_by_variant(inst, list, a, v).len(),
    ensures
        ({
            let c = cells_by_variant(inst, list, a, v)[i];
            admitted(inst, list, c) && (c.variant.2 == ExitMode::FixedRR ==> c.lux == 100)
        }),
    decreases v,
{
    if v > 0 {
        let before = cells_by_variant(inst, list, a, v - 1).len();
        if i < before {
            the_grid_keeps_to_the_whitelist(inst, list, a, v - 1, i);
        } else {
            lemma_lux_cells(inst, list, a, v - 1, 3, i - before);
        }
    }
}

} // verus!
