//! What the published terms and the swept axes have in common.

use vstd::prelude::*;

use crate::engine::{filters, grid};
use crate::num::Ratio;
use crate::types::{apex_common, is_apex_set, is_topstep_set, topstep_common, Account};

verus! {

/// Every Apex product asks for 6% of its balance within thirty days, and pays
/// above a safety net of its drawdown and $100 more; an end-of-day one has a daily
/// limit, an intraday one has none; its cap on withdrawals rises from one to the
/// next.
pub proof fn apex_terms_agree(s: Seq<Account>, i: int)
    requires
        is_apex_set(s),
        0 <= i < s.len(),
    ensures
        ({
            let a = s[i];
            &&& 100 * a.target == 6 * a.sb
            &&& a.sn == a.sb + a.dd + 100_000_000
            &&& a.pa_dd == a.dd
            &&& a.is_eod <==> a.dll > 0
            &&& a.dll < a.dd < a.target
            &&& a.eval_calendar_days == 30
            &&& !a.eval_consistency
            &&& a.qdays == 5
            &&& a.cons == (Ratio { num: 1, den: 2 })
            &&& 0 < a.pa_start < a.pa_max < a.eval_cts
            &&& a.pamo == 85_000_000
            &&& a.comm == 4_500_000
            &&& a.split_full_up_to == 25_000_000_000
            &&& a.split_after == (Ratio { num: 9, den: 10 })
            &&& forall|j: int, k: int| 0 <= j < k < 6 ==> a.ladder@[j] < a.ladder@[k]
        }),
{
    assert(apex_common(s[i]));
}

/// Of two Apex products of a kind, the larger balance has the larger target, drawdown,
/// caps, fee and ladder; of two of a balance, the end-of-day one costs more.
pub proof fn larger_apex_products_have_larger_terms(s: Seq<Account>, i: int, j: int)
    requires
        is_apex_set(s),
        0 <= i < s.len(),
        0 <= j < s.len(),
    ensures
        ({
            let (a, b) = (s[i], s[j]);
            &&& a.is_eod == b.is_eod && a.sb < b.sb ==> {
                &&& a.target < b.target
                &&& a.dd < b.dd
                &&& a.dll <= b.dll
                &&& a.eval_cts < b.eval_cts && a.pa_start < b.pa_start && a.pa_max < b.pa_max
                &&& a.fee < b.fee
                &&& a.qmin <= b.qmin
                &&& a.act == b.act
                &&& forall|k: int| 0 <= k < 6 ==> #[trigger] a.ladder@[k] < b.ladder@[k]
            }
            &&& a.sb == b.sb && a.is_eod && !b.is_eod ==> {
                &&& a.target == b.target && a.dd == b.dd
                &&& a.fee == b.fee + 10_000_000 || a.fee == b.fee + 20_000_000
                &&& a.act == b.act + 20_000_000
                &&& a.ladder@ == b.ladder@
            }
        }),
{
    assert(apex_common(s[i]) && apex_common(s[j]));
}

/// Every Topstep product asks for 6% of its balance, untimed and under the
/// consistency rule, with a contract for every $10,000 and withdrawals of up to 4%
/// of the balance; its drawdown trails at the close and is the safety net.
pub proof fn topstep_terms_agree(s: Seq<Account>, i: int)
    requires
        is_topstep_set(s),
        0 <= i < s.len(),
    ensures
        ({
            let a = s[i];
            &&& 100 * a.target == 6 * a.sb
            &&& a.sn == a.sb + a.dd
            &&& a.pa_dd == a.dd
            &&& a.is_eod && a.dll == 0
            &&& a.eval_calendar_days == 0
            &&& a.eval_consistency
            &&& a.qdays == 5
            &&& a.cons == (Ratio { num: 1, den: 2 })
            &&& a.eval_cts * 10_000_000_000 == a.sb
            &&& a.pa_start == a.eval_cts && a.pa_max == a.eval_cts
            &&& a.pamo == 0
            &&& a.act == 149_000_000
            &&& a.comm == 4_500_000
            &&& a.split_full_up_to == 0
            &&& a.split_after == (Ratio { num: 9, den: 10 })
            &&& forall|k: int| 0 <= k < 6 ==> 100 * (#[trigger] a.ladder@[k]) == 4 * a.sb
        }),
{
    assert(topstep_common(s[i]));
}

/// A filter is named by the thresholds that it sets: a Hurst floor, an entropy cap,
/// both or none; with the filters disabled there is none but that.
pub proof fn a_filter_is_named_by_its_thresholds(disabled: bool, i: int)
    requires
        0 <= i < filters(disabled).len(),
    ensures
        ({
            let (name, floor, cap) = filters(disabled)[i];
            &&& floor >= 0 && cap >= 0
            &&& name == if floor > 0 && cap > 0 {
                "both"@
            } else if floor > 0 {
                "hurst"@
            } else if cap > 0 {
                "entropy"@
            } else {
                "none"@
            }
            &&& disabled ==> filters(disabled).len() == 1 && floor == 0 && cap == 0
        }),
{
}

/// The grid repeats no combination of window, multiple and direction, and tries
/// multiples below one only long.
pub proof fn the_grid_repeats_nothing(i: int, j: int)
    requires
        0 <= i < j < grid().len(),
    ensures
        grid()[i] != grid()[j],
        grid()[i].1 == 100 || grid()[i].1 == 50 || grid()[i].1 == 33,
        grid()[j].1 == 100 || grid()[j].1 == 50 || grid()[j].1 == 33,
        grid()[i].1 < 100 ==> grid()[i].2 == "long"@,
        grid()[j].1 < 100 ==> grid()[j].2 == "long"@,
        grid()[i].2 == "long"@ || grid()[i].2 == "short"@ || grid()[i].2 == "both"@,
{
    reveal_strlit("long");
    reveal_strlit("short");
    reveal_strlit("both");
    assert("long"@[0] == 'l' && "short"@[0] == 's' && "both"@[0] == 'b');
}

} // verus!
