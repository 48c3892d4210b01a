//! What the grid holds and what the settings select.

use vstd::prelude::*;

use crate::engine::{
    admitted, cell_at, cells_by_config, cells_by_filter, cells_by_lux, cells_by_regime,
    cells_by_variant, geo_named, lux_values, odd_commission, unknown_geo, Cell, GridAxes, Whitelist,
};
use crate::text::trimmed;
use crate::types::{rg_word, Account, ExitMode};

verus! {

/// Whether a cell is one of the axes, from the given places.
pub open spec fn stands_at(x: Cell, a: GridAxes, v: int, c: int, f: int, r: int) -> bool {
    &&& 0 <= v < a.variants.len() && x.variant == a.variants[v]
    &&& 0 <= c < a.configs.len() && (x.window, x.rr, x.dir) == a.configs[c]
    &&& 0 <= f < a.filters.len() && (x.fmode, x.hmin, x.emax) == a.filters[f]
    &&& 0 <= r < a.regimes.len() && x.regime == a.regimes[r]
}

/// Whether an offset is swept with a variant: half, one and one and a half with
/// Lux targets, one alone with a fixed multiple.
pub open spec fn swept(x: Cell) -> bool {
    x.lux == 100 || x.variant.2 == ExitMode::LuxTargets && (x.lux == 50 || x.lux == 150)
}

/// Whether a whitelist, where there is one, has a cell.
pub open spec fn may_run(inst: Seq<char>, list: Option<Whitelist>, x: Cell) -> bool {
    list is None || admitted(inst, list, x)
}

proof fn lemma_regime(
    inst: Seq<char>,
    list: Option<Whitelist>,
    a: GridAxes,
    v: int,
    lux: i64,
    c: int,
    f: int,
    n: int,
)
    requires
        n <= a.regimes.len(),
    ensures
        ({
            let s = cells_by_regime(inst, list, a, v, lux, c, f, n);
            &&& forall|r: int|
                0 <= r < n && admitted(inst, list, #[trigger] cell_at(a, v, lux, c, f, r))
                    ==> s.contains(cell_at(a, v, lux, c, f, r))
            &&& forall|i: int|
                0 <= i < s.len() ==> admitted(inst, list, #[trigger] s[i]) && exists|r: int|
                    0 <= r < n && s[i] == #[trigger] cell_at(a, v, lux, c, f, r)
        }),
    decreases n,
{
    let s = cells_by_regime(inst, list, a, v, lux, c, f, n);
    if n > 0 {
        lemma_regime(inst, list, a, v, lux, c, f, n - 1);
        let t = cells_by_regime(inst, list, a, v, lux, c, f, n - 1);
        assert forall|r: int|
            0 <= r < n && admitted(inst, list, #[trigger] cell_at(a, v, lux, c, f, r)) implies
            s.contains(cell_at(a, v, lux, c, f, r)) by {
            if r < n - 1 {
                let i = t.index_of(cell_at(a, v, lux, c, f, r));
                assert(s[i] == t[i]);
            } else {
                assert(s[s.len() - 1] == cell_at(a, v, lux, c, f, r));
            }
        }
        assert forall|i: int| 0 <= i < s.len() implies admitted(inst, list, #[trigger] s[i])
            && exists|r: int| 0 <= r < n && s[i] == #[trigger] cell_at(a, v, lux, c, f, r) by {
            if i < t.len() {
                assert(s[i] == t[i]);
                let r = choose|r: int|
                    0 <= r < n - 1 && t[i] == #[trigger] cell_at(a, v, lux, c, f, r);
                assert(s[i] == cell_at(a, v, lux, c, f, r));
            } else {
                assert(s[i] == cell_at(a, v, lux, c, f, n - 1));
            }
        }
    }
}

/// Whether a cell is an admitted one of the given variant and offset, from the
/// first places of the other axes.
spec fn comes_of(
    x: Cell,
    inst: Seq<char>,
    list: Option<Whitelist>,
    a: GridAxes,
    v: int,
    lux: i64,
    cs: (int, int),
    fs: (int, int),
) -> bool {
    &&& admitted(inst, list, x)
    &&& exists|c: int, f: int, r: int|
        cs.0 <= c < cs.1 && fs.0 <= f < fs.1 && 0 <= r < a.regimes.len() && x
            == #[trigger] cell_at(a, v, lux, c, f, r)
}

proof fn lemma_filter(
    inst: Seq<char>,
    list: Option<Whitelist>,
    a: GridAxes,
    v: int,
    lux: i64,
    c: int,
    n: int,
)
    ensures
        forall|x: Cell| #[trigger]
            cells_by_filter(inst, list, a, v, lux, c, n).contains(x) <==> comes_of(
                x,
                inst,
                list,
                a,
                v,
                lux,
                (c, c + 1),
                (0, n),
            ),
    decreases n,
{
    let s = cells_by_filter(inst, list, a, v, lux, c, n);
    if n > 0 {
        let t = cells_by_filter(inst, list, a, v, lux, c, n - 1);
        let nr = a.regimes.len() as int;
        let u = cells_by_regime(inst, list, a, v, lux, c, n - 1, nr);
        lemma_filter(inst, list, a, v, lux, c, n - 1);
        lemma_regime(inst, list, a, v, lux, c, n - 1, nr);
        assert forall|x: Cell| #[trigger] s.contains(x) <==> comes_of(
            x,
            inst,
            list,
            a,
            v,
            lux,
            (c, c + 1),
            (0, n),
        ) by {
            lemma_either(t, u, x);
            if u.contains(x) {
                let i = u.index_of(x);
                let r = choose|r: int|
                    0 <= r < nr && u[i] == #[trigger] cell_at(a, v, lux, c, n - 1, r);
                assert(x == cell_at(a, v, lux, c, n - 1, r));
            }
            if comes_of(x, inst, list, a, v, lux, (c, c + 1), (0, n)) {
                let (d, f, r) = choose|d: int, f: int, r: int|
                    c <= d < c + 1 && 0 <= f < n && 0 <= r < a.regimes.len() && x
                        == #[trigger] cell_at(a, v, lux, d, f, r);
                if f < n - 1 {
                    assert(comes_of(x, inst, list, a, v, lux, (c, c + 1), (0, n - 1)));
                    assert(t.contains(x));
                } else {
                    assert(u.contains(cell_at(a, v, lux, c, n - 1, r)));
                }
            }
            if t.contains(x) {
                let (d, f, r) = choose|d: int, f: int, r: int|
                    c <= d < c + 1 && 0 <= f < n - 1 && 0 <= r < a.regimes.len() && x
                        == #[trigger] cell_at(a, v, lux, d, f, r);
                assert(x == cell_at(a, v, lux, d, f, r));
            }
        }
    }
}

proof fn lemma_either(t: Seq<Cell>, u: Seq<Cell>, x: Cell)
    ensures
        (t + u).contains(x) <==> t.contains(x) || u.contains(x),
{
    let s = t + u;
    if s.contains(x) {
        let i = s.index_of(x);
        if i < t.len() {
            assert(t[i] == x);
        } else {
            assert(u[i - t.len()] == x);
        }
    }
    if t.contains(x) {
        assert(s[t.index_of(x)] == x);
    }
    if u.contains(x) {
        assert(s[t.len() + u.index_of(x)] == x);
    }
}

proof fn lemma_config(
    inst: Seq<char>,
    list: Option<Whitelist>,
    a: GridAxes,
    v: int,
    lux: i64,
    n: int,
)
    ensures
        forall|x: Cell| #[trigger]
            cells_by_config(inst, list, a, v, lux, n).contains(x) <==> comes_of(
                x,
                inst,
                list,
                a,
                v,
                lux,
                (0, n),
                (0, a.filters.len() as int),
            ),
    decreases n,
{
    let s = cells_by_config(inst, list, a, v, lux, n);
    let nf = a.filters.len() as int;
    if n > 0 {
        let t = cells_by_config(inst, list, a, v, lux, n - 1);
        let u = cells_by_filter(inst, list, a, v, lux, n - 1, nf);
        lemma_config(inst, list, a, v, lux, n - 1);
        lemma_filter(inst, list, a, v, lux, n - 1, nf);
        assert forall|x: Cell| #[trigger] s.contains(x) <==> comes_of(
            x,
            inst,
            list,
            a,
            v,
            lux,
            (0, n),
            (0, nf),
        ) by {
            lemma_either(t, u, x);
            if comes_of(x, inst, list, a, v, lux, (0, n), (0, nf)) {
                let (d, f, r) = choose|d: int, f: int, r: int|
                    0 <= d < n && 0 <= f < nf && 0 <= r < a.regimes.len() && x
                        == #[trigger] cell_at(a, v, lux, d, f, r);
                if d < n - 1 {
                    assert(comes_of(x, inst, list, a, v, lux, (0, n - 1), (0, nf)));
                    assert(t.contains(x));
                } else {
                    assert(comes_of(x, inst, list, a, v, lux, (n - 1, n), (0, nf)));
                    assert(u.contains(x));
                }
            }
            if t.contains(x) {
                assert(comes_of(x, inst, list, a, v, lux, (0, n - 1), (0, nf)));
                let (d, f, r) = choose|d: int, f: int, r: int|
                    0 <= d < n - 1 && 0 <= f < nf && 0 <= r < a.regimes.len() && x
                        == #[trigger] cell_at(a, v, lux, d, f, r);
                assert(x == cell_at(a, v, lux, d, f, r));
            }
            if u.contains(x) {
                assert(comes_of(x, inst, list, a, v, lux, (n - 1, n), (0, nf)));
                let (d, f, r) = choose|d: int, f: int, r: int|
                    n - 1 <= d < n && 0 <= f < nf && 0 <= r < a.regimes.len() && x
                        == #[trigger] cell_at(a, v, lux, d, f, r);
                assert(x == cell_at(a, v, lux, d, f, r));
            }
        }
    }
}

/// Whether a cell may run and stands somewhere on the axes, with a swept offset.
pub open spec fn is_grid_cell(x: Cell, inst: Seq<char>, list: Option<Whitelist>, a: GridAxes) -> bool {
    &&& may_run(inst, list, x)
    &&& swept(x)
    &&& exists|v: int, c: int, f: int, r: int| #[trigger] stands_at(x, a, v, c, f, r)
}

proof fn lemma_variant(inst: Seq<char>, list: Option<Whitelist>, a: GridAxes, v: int, x: Cell)
    requires
        0 <= v < a.variants.len(),
    ensures
        cells_by_lux(inst, list, a, v, 3).contains(x) <==> {
            &&& may_run(inst, list, x)
            &&& swept(x)
            &&& exists|c: int, f: int, r: int| #[trigger] stands_at(x, a, v, c, f, r)
        },
{
    reveal_with_fuel(cells_by_lux, 4);
    let nc = a.configs.len() as int;
    let nf = a.filters.len() as int;
    let s50 = cells_by_config(inst, list, a, v, 50, nc);
    let s100 = cells_by_config(inst, list, a, v, 100, nc);
    let s150 = cells_by_config(inst, list, a, v, 150, nc);
    lemma_config(inst, list, a, v, 50, nc);
    lemma_config(inst, list, a, v, 100, nc);
    lemma_config(inst, list, a, v, 150, nc);
    assert(lux_values()[0] == 50 && lux_values()[1] == 100 && lux_values()[2] == 150);
    let none = Seq::<Cell>::empty();
    lemma_either(none, s50, x);
    lemma_either(none, s100, x);
    lemma_either(none + s50, s100, x);
    lemma_either(none + s50 + s100, s150, x);
    let lux = x.lux;
    assert(s50.contains(x) == comes_of(x, inst, list, a, v, 50, (0, nc), (0, nf)));
    assert(s100.contains(x) == comes_of(x, inst, list, a, v, 100, (0, nc), (0, nf)));
    assert(s150.contains(x) == comes_of(x, inst, list, a, v, 150, (0, nc), (0, nf)));
    if cells_by_lux(inst, list, a, v, 3).contains(x) {
        let (c, f, r) = choose|c: int, f: int, r: int|
            0 <= c < nc && 0 <= f < nf && 0 <= r < a.regimes.len() && x == #[trigger] cell_at(
                a,
                v,
                lux,
                c,
                f,
                r,
            );
        assert(stands_at(x, a, v, c, f, r));
    }
    if swept(x) && exists|c: int, f: int, r: int| #[trigger] stands_at(x, a, v, c, f, r) {
        let (c, f, r) = choose|c: int, f: int, r: int| #[trigger] stands_at(x, a, v, c, f, r);
        assert(x == cell_at(a, v, lux, c, f, r));
    }
}

proof fn lemma_variants(inst: Seq<char>, list: Option<Whitelist>, a: GridAxes, n: int, x: Cell)
    requires
        n <= a.variants.len(),
    ensures
        cells_by_variant(inst, list, a, n).contains(x) <==> {
            &&& may_run(inst, list, x)
            &&& swept(x)
            &&& exists|v: int, c: int, f: int, r: int|
                v < n && #[trigger] stands_at(x, a, v, c, f, r)
        },
    decreases n,
{
    if n > 0 {
        lemma_variants(inst, list, a, n - 1, x);
        lemma_variant(inst, list, a, n - 1, x);
        lemma_either(
            cells_by_variant(inst, list, a, n - 1),
            cells_by_lux(inst, list, a, n - 1, 3),
            x,
        );
    }
}

/// The grid holds a cell exactly where it may run and combines a variant, a swept
/// offset, a configuration, a filter and a regime of the axes.
pub proof fn the_grid_holds_every_combination(
    inst: Seq<char>,
    list: Option<Whitelist>,
    a: GridAxes,
    x: Cell,
)
    ensures
        cells_by_variant(inst, list, a, a.variants.len() as int).contains(x) <==> is_grid_cell(
            x,
            inst,
            list,
            a,
        ),
{
    lemma_variants(inst, list, a, a.variants.len() as int, x);
}

proof fn lemma_odd(s: Seq<Account>, i: int)
    requires
        0 <= i <= s.len(),
    ensures
        match odd_commission(s, i) {
            Some(k) => i <= k < s.len() && s[k].comm != s[0].comm && forall|j: int|
                i <= j < k ==> (#[trigger] s[j]).comm == s[0].comm,
            None => forall|j: int| i <= j < s.len() ==> (#[trigger] s[j]).comm == s[0].comm,
        },
    decreases s.len() - i,
{
    if i < s.len() {
        lemma_odd(s, i + 1);
    }
}

/// A commission is shared exactly where every account product carries it, and an
/// odd one out is the first that carries another.
pub proof fn a_shared_commission_is_everyones(s: Seq<Account>)
    ensures
        odd_commission(s, 0) is None <==> forall|i: int, j: int|
            0 <= i < j < s.len() ==> (#[trigger] s[i]).comm == (#[trigger] s[j]).comm,
        odd_commission(s, 0) matches Some(k) ==> 0 < k < s.len() && s[k].comm != s[0].comm
            && forall|j: int| 0 <= j < k ==> (#[trigger] s[j]).comm == s[0].comm,
{
    lemma_odd(s, 0);
    if odd_commission(s, 0) is Some {
        let k = odd_commission(s, 0)->0;
        assert(s[0].comm != s[k].comm);
    }
}

proof fn lemma_named(t: Seq<char>, g: int)
    requires
        0 <= g <= 7,
    ensures
        match geo_named(t, g) {
            Some(k) => g <= k < 7 && t == rg_word(k),
            None => forall|k: int| g <= k < 7 ==> t != #[trigger] rg_word(k),
        },
    decreases 7 - g,
{
    if g < 7 {
        lemma_named(t, g + 1);
    }
}

/// A text names the geometry whose word it is, and none if it is no word of one.
pub proof fn a_geometry_goes_by_its_word(t: Seq<char>)
    ensures
        geo_named(t, 0) matches Some(g) ==> 0 <= g < 7 && t == rg_word(g),
        geo_named(t, 0) is None <==> forall|g: int| 0 <= g < 7 ==> t != #[trigger] rg_word(g),
{
    lemma_named(t, 0);
}

proof fn lemma_unknown(list: Seq<Seq<char>>, i: int)
    requires
        0 <= i <= list.len(),
    ensures
        unknown_geo(list, i) is None <==> forall|j: int|
            i <= j < list.len() ==> trimmed(#[trigger] list[j]).len() == 0 || geo_named(
                trimmed(list[j]),
                0,
            ) is Some,
    decreases list.len() - i,
{
    if i < list.len() {
        lemma_unknown(list, i + 1);
    }
}

/// A list of geometries is refused exactly where an entry that is not blank is no
/// word of a geometry.
pub proof fn an_unknown_geometry_is_refused(list: Seq<Seq<char>>)
    ensures
        unknown_geo(list, 0) is Some <==> exists|j: int|
            0 <= j < list.len() && trimmed(#[trigger] list[j]).len() > 0 && forall|g: int|
                0 <= g < 7 ==> trimmed(list[j]) != #[trigger] rg_word(g),
{
    lemma_unknown(list, 0);
    assert forall|j: int| 0 <= j < list.len() implies (geo_named(trimmed(#[trigger] list[j]), 0)
        is None <==> forall|g: int| 0 <= g < 7 ==> trimmed(list[j]) != #[trigger] rg_word(g)) by {
        a_geometry_goes_by_its_word(trimmed(list[j]));
    }
}

} // verus!
