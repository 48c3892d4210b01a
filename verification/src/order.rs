//! Sorting by a relation, and the order of texts.

use vstd::prelude::*;
use vstd::utf8::{encode_utf8, encode_utf8_decode_utf8};

verus! {

// ---------------------------------------------------------------------------
// Sorting positions
// ---------------------------------------------------------------------------

/// Whether `le` orders the positions below `n`: any two are comparable, and the
/// relation carries over.
pub open spec fn orders(le: spec_fn(usize, usize) -> bool, n: int) -> bool {
    &&& forall|a: usize, b: usize| #![trigger le(a, b)] a < n && b < n ==> le(a, b) || le(b, a)
    &&& forall|a: usize, b: usize, c: usize|
        #![trigger le(a, b), le(b, c)]
        a < n && b < n && c < n && le(a, b) && le(b, c) ==> le(a, c)
}

/// Whether positions stand in the order of `le`.
pub open spec fn in_order_of(s: Seq<usize>, le: spec_fn(usize, usize) -> bool) -> bool {
    forall|i: int, j: int| 0 <= i < j < s.len() ==> #[trigger] le(s[i], s[j])
}

/// Whether all positions are below `n`.
pub open spec fn all_below(s: Seq<usize>, n: int) -> bool {
    forall|i: int| 0 <= i < s.len() ==> (#[trigger] s[i]) < n
}

/// The positions below `n`, each once.
pub open spec fn positions(n: int) -> Seq<usize> {
    Seq::new(n as nat, |i: int| i as usize)
}

fn merge<F: Fn(usize, usize) -> bool>(
    a: Vec<usize>,
    b: Vec<usize>,
    le: &F,
    Ghost(rel): Ghost<spec_fn(usize, usize) -> bool>,
    Ghost(n): Ghost<int>,
) -> (r: Vec<usize>)
    requires
        orders(rel, n),
        all_below(a@, n),
        all_below(b@, n),
        in_order_of(a@, rel),
        in_order_of(b@, rel),
        forall|x: usize, y: usize| x < n && y < n ==> call_requires(le, (x, y)),
        forall|x: usize, y: usize, o: bool| #[trigger]
            call_ensures(le, (x, y), o) && x < n && y < n ==> o == rel(x, y),
    ensures
        in_order_of(r@, rel),
        all_below(r@, n),
        r@.to_multiset() == a@.to_multiset().add(b@.to_multiset()),
{
    let mut r: Vec<usize> = Vec::new();
    let mut i: usize = 0;
    let mut j: usize = 0;
    proof {
        broadcast use vstd::seq_lib::group_to_multiset_ensures;

        assert(a@.take(0) =~= r@);
        assert(b@.take(0) =~= r@);
        assert(r@.to_multiset() =~= r@.to_multiset().add(r@.to_multiset()));
    }
    while i < a.len() || j < b.len()
        invariant
            i <= a@.len(),
            j <= b@.len(),
            orders(rel, n),
            all_below(a@, n),
            all_below(b@, n),
            in_order_of(a@, rel),
            in_order_of(b@, rel),
            forall|x: usize, y: usize| x < n && y < n ==> call_requires(le, (x, y)),
            forall|x: usize, y: usize, o: bool| #[trigger]
                call_ensures(le, (x, y), o) && x < n && y < n ==> o == rel(x, y),
            in_order_of(r@, rel),
            all_below(r@, n),
            forall|k: int, l: int|
                0 <= k < r@.len() && i <= l < a@.len() ==> rel(#[trigger] r@[k], #[trigger] a@[l]),
            forall|k: int, l: int|
                0 <= k < r@.len() && j <= l < b@.len() ==> rel(#[trigger] r@[k], #[trigger] b@[l]),
            r@.to_multiset() == a@.take(i as int).to_multiset().add(
                b@.take(j as int).to_multiset(),
            ),
        decreases a@.len() - i + b@.len() - j,
    {
        let from_a: bool = if i >= a.len() {
            false
        } else if j >= b.len() {
            true
        } else {
            le(a[i], b[j])
        };
        let ghost before = r@;
        if from_a {
            let x: usize = a[i];
            r.push(x);
            proof {
                lemma_take_next(a@, i as int);
                lemma_push_multiset(before, x);
                assert(r@ =~= before.push(x));
                assert forall|k: int, l: int|
                    0 <= k < r@.len() && i + 1 <= l < a@.len() implies rel(
                    #[trigger] r@[k],
                    #[trigger] a@[l],
                ) by {
                    if k == before.len() {
                        assert(rel(a@[i as int], a@[l]));
                    } else {
                        assert(before[k] == r@[k]);
                    }
                }
                assert forall|k: int, l: int| 0 <= k < r@.len() && j <= l < b@.len() implies rel(
                    #[trigger] r@[k],
                    #[trigger] b@[l],
                ) by {
                    if k == before.len() {
                        if l > j {
                            assert(rel(b@[j as int], b@[l]));
                            assert(rel(x, b@[j as int]));
                        }
                    } else {
                        assert(before[k] == r@[k]);
                    }
                }
            }
            i = i + 1;
        } else {
            let x: usize = b[j];
            r.push(x);
            proof {
                lemma_take_next(b@, j as int);
                lemma_push_multiset(before, x);
                assert(r@ =~= before.push(x));
                if i < a@.len() {
                    assert(rel(x, a@[i as int]));
                }
                assert forall|k: int, l: int| 0 <= k < r@.len() && i <= l < a@.len() implies rel(
                    #[trigger] r@[k],
                    #[trigger] a@[l],
                ) by {
                    if k == before.len() {
                        if l > i {
                            assert(rel(a@[i as int], a@[l]));
                        }
                    } else {
                        assert(before[k] == r@[k]);
                    }
                }
                assert forall|k: int, l: int|
                    0 <= k < r@.len() && j + 1 <= l < b@.len() implies rel(
                    #[trigger] r@[k],
                    #[trigger] b@[l],
                ) by {
                    if k == before.len() {
                        assert(rel(b@[j as int], b@[l]));
                    } else {
                        assert(before[k] == r@[k]);
                    }
                }
            }
            j = j + 1;
        }
        proof {
            assert(r@.to_multiset() =~= a@.take(i as int).to_multiset().add(
                b@.take(j as int).to_multiset(),
            ));
        }
    }
    proof {
        assert(a@.take(a@.len() as int) =~= a@);
        assert(b@.take(b@.len() as int) =~= b@);
    }
    r
}

proof fn lemma_push_multiset(s: Seq<usize>, x: usize)
    ensures
        s.push(x).to_multiset() == s.to_multiset().insert(x),
{
    broadcast use vstd::seq_lib::group_to_multiset_ensures;

    assert(s.push(x).to_multiset() =~= s.to_multiset().insert(x));
}

proof fn lemma_take_next(s: Seq<usize>, i: int)
    requires
        0 <= i < s.len(),
    ensures
        s.take(i + 1).to_multiset() == s.take(i).to_multiset().insert(s[i]),
{
    lemma_push_multiset(s.take(i), s[i]);
    assert(s.take(i + 1) =~= s.take(i).push(s[i]));
}

fn merge_sort<F: Fn(usize, usize) -> bool>(
    from: usize,
    to: usize,
    le: &F,
    Ghost(rel): Ghost<spec_fn(usize, usize) -> bool>,
    Ghost(n): Ghost<int>,
) -> (r: Vec<usize>)
    requires
        from <= to <= n,
        orders(rel, n),
        forall|x: usize, y: usize| x < n && y < n ==> call_requires(le, (x, y)),
        forall|x: usize, y: usize, o: bool| #[trigger]
            call_ensures(le, (x, y), o) && x < n && y < n ==> o == rel(x, y),
    ensures
        in_order_of(r@, rel),
        all_below(r@, n),
        r@.to_multiset() == Seq::new(
            (to - from) as nat,
            |i: int| (from + i) as usize,
        ).to_multiset(),
    decreases to - from,
{
    let ghost want = Seq::new((to - from) as nat, |i: int| (from + i) as usize);
    if to - from == 0 {
        let r: Vec<usize> = Vec::new();
        proof {
            assert(r@ =~= want);
        }
        return r;
    }
    if to - from == 1 {
        let mut r: Vec<usize> = Vec::new();
        r.push(from);
        proof {
            assert(r@ =~= want);
        }
        return r;
    }
    let mid: usize = from + (to - from) / 2;
    let a: Vec<usize> = merge_sort(from, mid, le, Ghost(rel), Ghost(n));
    let b: Vec<usize> = merge_sort(mid, to, le, Ghost(rel), Ghost(n));
    proof {
        let first = Seq::new((mid - from) as nat, |i: int| (from + i) as usize);
        let second = Seq::new((to - mid) as nat, |i: int| (mid + i) as usize);
        assert(want =~= first + second);
        vstd::seq_lib::lemma_multiset_commutative(first, second);
    }
    merge(a, b, le, Ghost(rel), Ghost(n))
}

/// The positions below `n` in the order of `le`, each once.
pub(crate) fn sort_positions<F: Fn(usize, usize) -> bool>(
    n: usize,
    le: F,
    Ghost(rel): Ghost<spec_fn(usize, usize) -> bool>,
) -> (r: Vec<usize>)
    requires
        orders(rel, n as int),
        forall|x: usize, y: usize| x < n && y < n ==> call_requires(le, (x, y)),
        forall|x: usize, y: usize, o: bool| #[trigger]
            call_ensures(le, (x, y), o) && x < n && y < n ==> o == rel(x, y),
    ensures
        in_order_of(r@, rel),
        all_below(r@, n as int),
        r@.len() == n,
        r@.to_multiset() == positions(n as int).to_multiset(),
{
    let r: Vec<usize> = merge_sort(0, n, &le, Ghost(rel), Ghost(n as int));
    proof {
        broadcast use vstd::seq_lib::group_to_multiset_ensures;

        assert(Seq::new((n - 0) as nat, |i: int| (0 + i) as usize) =~= positions(n as int));
        assert(r@.to_multiset().len() == positions(n as int).to_multiset().len());
    }
    r
}

/// Every position below `n` occurs in a rearrangement of the positions, and at
/// one place only.
pub proof fn lemma_positions_once(s: Seq<usize>, n: int)
    requires
        s.to_multiset() == positions(n).to_multiset(),
        0 <= n <= usize::MAX,
    ensures
        s.len() == n,
        forall|x: usize| x < n ==> s.contains(x),
        forall|i: int, j: int| 0 <= i < s.len() && 0 <= j < s.len() && s[i] == s[j] ==> i == j,
{
    broadcast use vstd::seq_lib::group_to_multiset_ensures;

    let p = positions(n);
    assert(s.to_multiset().len() == p.to_multiset().len());
    assert forall|x: usize| x < n implies s.contains(x) by {
        assert(p[x as int] == x);
        assert(p.contains(x));
        assert(p.to_multiset().count(x) > 0);
    }
    assert(p.no_duplicates());
    p.lemma_multiset_has_no_duplicates();
    s.lemma_multiset_has_no_duplicates_conv();
}

// ---------------------------------------------------------------------------
// Classes
// ---------------------------------------------------------------------------

/// Whether neither of two positions comes strictly before the other.
pub open spec fn alike(le: spec_fn(usize, usize) -> bool, a: usize, b: usize) -> bool {
    le(a, b) && le(b, a)
}

/// Whether some group holds a position.
pub open spec fn held(groups: Seq<Vec<usize>>, x: usize) -> bool {
    exists|g: int| 0 <= g < groups.len() && (#[trigger] groups[g])@.contains(x)
}

/// Whether `groups` are the classes of alike positions among `members`: each
/// class whole and ascending, the classes in the order of `le`.
pub open spec fn are_classes_of(
    groups: Seq<Vec<usize>>,
    le: spec_fn(usize, usize) -> bool,
    members: Seq<usize>,
) -> bool {
    &&& forall|g: int| 0 <= g < groups.len() ==> (#[trigger] groups[g])@.len() > 0
    &&& forall|g: int, x: usize|
        0 <= g < groups.len() ==> (#[trigger] groups[g]@.contains(x) <==> members.contains(x)
            && alike(le, x, groups[g]@[0]))
    &&& forall|g: int, i: int, j: int|
        #![trigger groups[g]@[i], groups[g]@[j]]
        0 <= g < groups.len() && 0 <= i < j < groups[g]@.len() ==> groups[g]@[i] < groups[g]@[j]
    &&& forall|g: int, h: int|
        0 <= g < h < groups.len() ==> !le(
            (#[trigger] groups[h])@[0],
            (#[trigger] groups[g])@[0],
        )
    &&& forall|x: usize| #[trigger] members.contains(x) ==> held(groups, x)
}

/// Whether `groups` are the classes of alike positions below `n`.
pub open spec fn are_classes(
    groups: Seq<Vec<usize>>,
    le: spec_fn(usize, usize) -> bool,
    n: int,
) -> bool {
    are_classes_of(groups, le, positions(n))
}

/// Classes under one relation are classes under any that agrees with it on the
/// positions below `n`.
pub proof fn lemma_classes_agree(
    groups: Seq<Vec<usize>>,
    le: spec_fn(usize, usize) -> bool,
    other: spec_fn(usize, usize) -> bool,
    n: int,
)
    requires
        are_classes(groups, le, n),
        forall|a: usize, b: usize|
            positions(n).contains(a) && positions(n).contains(b) ==> #[trigger] other(a, b)
                == le(a, b),
    ensures
        are_classes(groups, other, n),
{
    assert forall|g: int| 0 <= g < groups.len() implies positions(n).contains(
        (#[trigger] groups[g])@[0],
    ) by {
        assert(groups[g]@.contains(groups[g]@[0]));
    }
    assert forall|g: int, x: usize| 0 <= g < groups.len() implies (#[trigger] groups[g]@.contains(
        x,
    ) <==> positions(n).contains(x) && alike(other, x, groups[g]@[0])) by {
        assert(positions(n).contains(groups[g]@[0]));
        if positions(n).contains(x) {
            assert(other(x, groups[g]@[0]) == le(x, groups[g]@[0]));
            assert(other(groups[g]@[0], x) == le(groups[g]@[0], x));
        }
    }
    assert forall|g: int, h: int| 0 <= g < h < groups.len() implies !other(
        (#[trigger] groups[h])@[0],
        (#[trigger] groups[g])@[0],
    ) by {
        assert(!le(groups[h]@[0], groups[g]@[0]));
    }
}

proof fn lemma_same_prefix(s: Seq<int>, t: Seq<int>, k: int)
    requires
        0 <= k <= s.len(),
        forall|i: int, j: int| 0 <= i < j < s.len() ==> s[i] < s[j],
        forall|i: int, j: int| 0 <= i < j < t.len() ==> t[i] < t[j],
        forall|x: int| s.contains(x) <==> t.contains(x),
    ensures
        k <= t.len(),
        forall|i: int| 0 <= i < k ==> #[trigger] s[i] == t[i],
    decreases k,
{
    if k > 0 {
        lemma_same_prefix(s, t, k - 1);
        assert(s.contains(s[k - 1]));
        let p = choose|p: int| 0 <= p < t.len() && t[p] == s[k - 1];
        if p < k - 1 {
            assert(s[p] == t[p]);
        }
        assert(t.contains(t[k - 1]));
        let q = choose|q: int| 0 <= q < s.len() && s[q] == t[k - 1];
        if q < k - 1 {
            assert(s[q] == t[q]);
        }
    }
}

/// Two ascending sequences with the same members are the same.
pub proof fn lemma_ascending_unique(s: Seq<int>, t: Seq<int>)
    requires
        forall|i: int, j: int| 0 <= i < j < s.len() ==> s[i] < s[j],
        forall|i: int, j: int| 0 <= i < j < t.len() ==> t[i] < t[j],
        forall|x: int| s.contains(x) <==> t.contains(x),
    ensures
        s == t,
{
    lemma_same_prefix(s, t, s.len() as int);
    lemma_same_prefix(t, s, t.len() as int);
}

/// Two ascending sequences of the same positions are the same.
pub proof fn lemma_ascending_positions(a: Seq<usize>, b: Seq<usize>)
    requires
        forall|i: int, j: int| 0 <= i < j < a.len() ==> a[i] < a[j],
        forall|i: int, j: int| 0 <= i < j < b.len() ==> b[i] < b[j],
        forall|x: usize| #[trigger] a.contains(x) <==> b.contains(x),
    ensures
        a == b,
{
    let s = a.map_values(|x: usize| x as int);
    let t = b.map_values(|x: usize| x as int);
    assert forall|x: int| s.contains(x) <==> t.contains(x) by {
        if s.contains(x) {
            let i = choose|i: int| 0 <= i < s.len() && s[i] == x;
            assert(a.contains(a[i]));
            let j = choose|j: int| 0 <= j < b.len() && b[j] == a[i];
            assert(t[j] == x);
        }
        if t.contains(x) {
            let i = choose|i: int| 0 <= i < t.len() && t[i] == x;
            assert(b.contains(b[i]));
            assert(a.contains(b[i]));
            let j = choose|j: int| 0 <= j < a.len() && a[j] == b[i];
            assert(s[j] == x);
        }
    }
    lemma_ascending_unique(s, t);
    assert(a.len() == s.len() && b.len() == t.len());
    assert forall|i: int| 0 <= i < a.len() implies a[i] == b[i] by {
        assert(s[i] == t[i]);
    }
    assert(a =~= b);
}

/// Whether `le` is a total preorder on the positions below `n`.
pub open spec fn is_preorder(le: spec_fn(usize, usize) -> bool, n: int) -> bool {
    &&& forall|a: usize, b: usize| #![trigger le(a, b)] a < n && b < n ==> le(a, b) || le(b, a)
    &&& forall|a: usize, b: usize, c: usize|
        #![trigger le(a, b), le(b, c)]
        a < n && b < n && c < n && le(a, b) && le(b, c) ==> le(a, c)
}

proof fn lemma_class_head(
    groups: Seq<Vec<usize>>,
    le: spec_fn(usize, usize) -> bool,
    n: int,
    g: int,
    x: usize,
)
    requires
        are_classes(groups, le, n),
        0 <= n <= usize::MAX,
        0 <= g < groups.len(),
        groups[g]@.contains(x),
    ensures
        x < n,
        groups[g]@[0] < n,
        alike(le, x, groups[g]@[0]),
{
    let p = positions(n);
    let head = groups[g]@[0];
    assert(groups[g]@.contains(head));
    assert(p.contains(x) && p.contains(head));
}

proof fn lemma_same_class(
    a: Seq<Vec<usize>>,
    b: Seq<Vec<usize>>,
    le: spec_fn(usize, usize) -> bool,
    n: int,
    g: int,
)
    requires
        are_classes(a, le, n),
        are_classes(b, le, n),
        is_preorder(le, n),
        0 <= n <= usize::MAX,
        0 <= g < a.len(),
    ensures
        g < b.len(),
        a[g]@ == b[g]@,
    decreases g,
{
    assert forall|k: int| 0 <= k < g implies k < b.len() && (#[trigger] a[k])@ == b[k]@ by {
        lemma_same_class(a, b, le, n, k);
    }
    let x = a[g]@[0];
    assert(a[g]@.contains(x));
    lemma_class_head(a, le, n, g, x);
    assert(positions(n).contains(x));
    assert(held(b, x));
    let p = choose|p: int| 0 <= p < b.len() && (#[trigger] b[p])@.contains(x);
    lemma_class_head(b, le, n, p, x);
    if p < g {
        assert(a[p]@ == b[p]@);
        assert(!le(a[g]@[0], a[p]@[0]));
    }
    if p > g {
        let y = b[g]@[0];
        assert(b[g]@.contains(y));
        lemma_class_head(b, le, n, g, y);
        assert(positions(n).contains(y));
        assert(held(a, y));
        let q = choose|q: int| 0 <= q < a.len() && (#[trigger] a[q])@.contains(y);
        lemma_class_head(a, le, n, q, y);
        assert(!le(b[p]@[0], b[g]@[0]));
        if q < g {
            assert(a[q]@ == b[q]@);
            assert(!le(b[g]@[0], b[q]@[0]));
        } else {
            let z = b[p]@[0];
            let v = a[q]@[0];
            assert(le(z, x) && le(x, z));
            assert(le(v, y) && le(y, v));
            if le(x, y) {
                assert(le(z, y));
            }
            assert(le(y, x));
            assert(le(v, x));
            if q > g {
                assert(!le(a[q]@[0], a[g]@[0]));
            }
        }
    }
    let z = b[g]@[0];
    assert(b[g]@.contains(z));
    assert forall|m: usize| #[trigger] a[g]@.contains(m) <==> b[g]@.contains(m) by {
        if a[g]@.contains(m) {
            lemma_class_head(a, le, n, g, m);
            assert(le(m, x) && le(x, z) && le(z, x) && le(x, m));
        }
        if b[g]@.contains(m) {
            lemma_class_head(b, le, n, g, m);
            assert(le(m, z) && le(z, x) && le(x, z) && le(z, m));
        }
    }
    lemma_ascending_positions(a[g]@, b[g]@);
}

/// Positions fall into classes in one way.
pub proof fn lemma_classes_unique(
    a: Seq<Vec<usize>>,
    b: Seq<Vec<usize>>,
    le: spec_fn(usize, usize) -> bool,
    n: int,
)
    requires
        are_classes(a, le, n),
        are_classes(b, le, n),
        is_preorder(le, n),
        0 <= n <= usize::MAX,
    ensures
        a.len() == b.len(),
        forall|g: int| 0 <= g < a.len() ==> (#[trigger] a[g])@ == b[g]@,
{
    assert forall|g: int| 0 <= g < a.len() implies g < b.len() && (#[trigger] a[g])@ == b[g]@ by {
        lemma_same_class(a, b, le, n, g);
    }
    if a.len() > 0 {
        lemma_same_class(a, b, le, n, a.len() - 1);
    }
    if a.len() < b.len() {
        lemma_same_class(b, a, le, n, b.len() - 1);
    }
}

/// `le`, with alike positions ascending.
pub open spec fn refined(le: spec_fn(usize, usize) -> bool) -> spec_fn(usize, usize) -> bool {
    |a: usize, b: usize| le(a, b) && (!le(b, a) || a <= b)
}

proof fn lemma_class_grows(
    groups: Seq<Vec<usize>>,
    grown: Seq<Vec<usize>>,
    le: spec_fn(usize, usize) -> bool,
    n: int,
    past: Seq<usize>,
    x: usize,
)
    requires
        orders(le, n),
        are_classes_of(groups, le, past),
        all_below(past, n),
        x < n,
        !past.contains(x),
        forall|i: int| 0 <= i < past.len() ==> #[trigger] refined(le)(past[i], x),
        groups.len() > 0,
        le(x, groups.last()@[0]),
        grown.len() == groups.len(),
        forall|g: int| 0 <= g < groups.len() - 1 ==> grown[g] == groups[g],
        grown.last()@ == groups.last()@.push(x),
    ensures
        are_classes_of(grown, le, past.push(x)),
{
    let now = past.push(x);
    let l = groups.len() - 1;
    let head = groups[l]@[0];
    assert(groups[l]@.contains(head));
    assert(past.contains(head));
    let at = choose|at: int| 0 <= at < past.len() && past[at] == head;
    assert(refined(le)(past[at], x));
    assert(grown[l]@[0] == head);
    assert forall|y: usize| #[trigger] now.contains(y) <==> past.contains(y) || y == x by {
        if past.contains(y) {
            let k = choose|k: int| 0 <= k < past.len() && past[k] == y;
            assert(now[k] == y);
        }
        assert(now[past.len() as int] == x);
        if now.contains(y) && y != x {
            let k = choose|k: int| 0 <= k < now.len() && now[k] == y;
            assert(past[k] == y);
        }
    }
    assert forall|g: int, y: usize|
        0 <= g < grown.len() implies (#[trigger] grown[g]@.contains(y) <==> now.contains(y)
        && alike(le, y, grown[g]@[0])) by {
        if g < l {
            assert(grown[g] == groups[g]);
            assert(groups[g]@.contains(y) <==> past.contains(y) && alike(le, y, groups[g]@[0]));
            let hg = groups[g]@[0];
            assert(groups[g]@.contains(hg));
            assert(past.contains(hg));
            if alike(le, x, hg) {
                assert(le(head, x) && le(x, hg));
                assert(le(head, hg));
                assert(!le(groups[l]@[0], groups[g]@[0]));
            }
        } else {
            assert(groups[l]@.contains(y) <==> past.contains(y) && alike(le, y, head));
            let old = groups[l]@;
            if old.contains(y) {
                let k = choose|k: int| 0 <= k < old.len() && old[k] == y;
                assert(grown[l]@[k] == y);
            }
            assert(grown[l]@[old.len() as int] == x);
            if grown[l]@.contains(y) && y != x {
                let k = choose|k: int| 0 <= k < grown[l]@.len() && grown[l]@[k] == y;
                assert(old[k] == y);
            }
        }
    }
    assert forall|g: int, i: int, j: int|
        #![trigger grown[g]@[i], grown[g]@[j]]
        0 <= g < grown.len() && 0 <= i < j < grown[g]@.len() implies grown[g]@[i]
        < grown[g]@[j] by {
        if g < l {
            assert(grown[g] == groups[g]);
        } else if j < groups[l]@.len() {
            assert(groups[l]@[i] < groups[l]@[j]);
        } else {
            let y = groups[l]@[i];
            assert(groups[l]@.contains(y));
            assert(past.contains(y));
            let k = choose|k: int| 0 <= k < past.len() && past[k] == y;
            assert(refined(le)(past[k], x));
            assert(alike(le, y, head));
            assert(le(x, head) && le(head, y));
        }
    }
    assert forall|g: int, h: int| 0 <= g < h < grown.len() implies !le(
        (#[trigger] grown[h])@[0],
        (#[trigger] grown[g])@[0],
    ) by {
        assert(grown[h]@[0] == groups[h]@[0]);
        assert(grown[g]@[0] == groups[g]@[0]);
    }
    assert forall|y: usize| #[trigger] now.contains(y) implies held(grown, y) by {
        if y == x {
            assert(grown[l]@[groups[l]@.len() as int] == x);
            assert(grown[l]@.contains(x));
        } else {
            assert(held(groups, y));
            let g = choose|g: int| 0 <= g < groups.len() && (#[trigger] groups[g])@.contains(y);
            if g < l {
                assert(grown[g]@.contains(y));
            } else {
                assert(grown[l]@.contains(y));
            }
        }
    }
}

proof fn lemma_class_starts(
    groups: Seq<Vec<usize>>,
    grown: Seq<Vec<usize>>,
    le: spec_fn(usize, usize) -> bool,
    n: int,
    past: Seq<usize>,
    x: usize,
)
    requires
        orders(le, n),
        are_classes_of(groups, le, past),
        all_below(past, n),
        x < n,
        !past.contains(x),
        forall|i: int| 0 <= i < past.len() ==> #[trigger] refined(le)(past[i], x),
        groups.len() > 0 ==> !le(x, groups.last()@[0]),
        grown.len() == groups.len() + 1,
        forall|g: int| 0 <= g < groups.len() ==> grown[g] == groups[g],
        grown.last()@ == seq![x],
    ensures
        are_classes_of(grown, le, past.push(x)),
{
    let now = past.push(x);
    let l = groups.len() as int;
    assert(grown[l]@[0] == x);
    assert(le(x, x));
    assert forall|y: usize| #[trigger] now.contains(y) <==> past.contains(y) || y == x by {
        if past.contains(y) {
            let k = choose|k: int| 0 <= k < past.len() && past[k] == y;
            assert(now[k] == y);
        }
        assert(now[past.len() as int] == x);
        if now.contains(y) && y != x {
            let k = choose|k: int| 0 <= k < now.len() && now[k] == y;
            assert(past[k] == y);
        }
    }
    assert forall|g: int| 0 <= g < l implies !le(x, (#[trigger] groups[g])@[0]) by {
        let last = groups[l - 1]@[0];
        let hg = groups[g]@[0];
        assert(groups[l - 1]@.contains(last));
        assert(past.contains(last));
        assert(groups[g]@.contains(hg));
        assert(past.contains(hg));
        if g < l - 1 && le(x, hg) {
            let k = choose|k: int| 0 <= k < past.len() && past[k] == last;
            assert(refined(le)(past[k], x));
            assert(le(last, x) && le(x, hg));
            assert(le(last, hg));
            assert(!le(groups[l - 1]@[0], groups[g]@[0]));
        }
    }
    assert forall|g: int, y: usize|
        0 <= g < grown.len() implies (#[trigger] grown[g]@.contains(y) <==> now.contains(y)
        && alike(le, y, grown[g]@[0])) by {
        if g < l {
            assert(groups[g]@.contains(y) <==> past.contains(y) && alike(le, y, groups[g]@[0]));
        } else {
            assert(seq![x].contains(y) <==> y == x) by {
                assert(seq![x][0] == x);
            }
            if past.contains(y) && alike(le, y, x) {
                assert(held(groups, y));
                let h = choose|h: int| 0 <= h < groups.len() && (#[trigger] groups[h])@.contains(y);
                let hh = groups[h]@[0];
                assert(groups[h]@.contains(hh));
                assert(past.contains(hh));
                assert(le(x, y) && le(y, hh));
                assert(le(x, hh));
            }
        }
    }
    assert forall|y: usize| #[trigger] now.contains(y) implies held(grown, y) by {
        if y == x {
            assert(grown[l]@.contains(x));
        } else {
            assert(held(groups, y));
            let g = choose|g: int| 0 <= g < groups.len() && (#[trigger] groups[g])@.contains(y);
            assert(grown[g]@.contains(y));
        }
    }
}

/// The classes of alike positions below `n`, where `le` decides `rel`.
pub(crate) fn group_positions<F: Fn(usize, usize) -> bool>(
    n: usize,
    le: F,
    Ghost(rel): Ghost<spec_fn(usize, usize) -> bool>,
) -> (r: Vec<Vec<usize>>)
    requires
        orders(rel, n as int),
        forall|x: usize, y: usize| x < n && y < n ==> call_requires(le, (x, y)),
        forall|x: usize, y: usize, o: bool| #[trigger]
            call_ensures(le, (x, y), o) && x < n && y < n ==> o == rel(x, y),
    ensures
        are_classes(r@, rel, n as int),
{
    let ghost fine = refined(rel);
    proof {
        assert forall|a: usize, b: usize| #![trigger fine(a, b)] a < n && b < n implies fine(a, b)
            || fine(b, a) by {
            assert(rel(a, b) || rel(b, a));
        }
        assert forall|a: usize, b: usize, c: usize|
            #![trigger fine(a, b), fine(b, c)]
            a < n && b < n && c < n && fine(a, b) && fine(b, c) implies fine(a, c) by {
            assert(rel(a, b) && rel(b, c));
            if rel(c, a) {
                assert(rel(c, b));
                assert(rel(b, a));
            }
        }
    }
    let fine_le = |x: usize, y: usize| -> (o: bool)
        requires
            x < n,
            y < n,
        ensures
            o == (rel(x, y) && (!rel(y, x) || x <= y)),
        { le(x, y) && (!le(y, x) || x <= y) };
    let order: Vec<usize> = sort_positions(n, fine_le, Ghost(fine));
    proof {
        lemma_positions_once(order@, n as int);
    }
    let mut groups: Vec<Vec<usize>> = Vec::new();
    let mut i: usize = 0;
    while i < n
        invariant
            orders(rel, n as int),
            forall|x: usize, y: usize| x < n && y < n ==> call_requires(le, (x, y)),
            forall|x: usize, y: usize, o: bool| #[trigger]
                call_ensures(le, (x, y), o) && x < n && y < n ==> o == rel(x, y),
            order@.len() == n,
            all_below(order@, n as int),
            fine == refined(rel),
            in_order_of(order@, fine),
            forall|a: int, b: int|
                0 <= a < order@.len() && 0 <= b < order@.len() && order@[a] == order@[b] ==> a == b,
            i <= n,
            are_classes_of(groups@, rel, order@.take(i as int)),
        decreases n - i,
    {
        let x: usize = order[i];
        let ghost past = order@.take(i as int);
        let ghost before = groups@;
        proof {
            assert(order@.take(i + 1) =~= past.push(x));
            assert(!past.contains(x)) by {
                if past.contains(x) {
                    let k = choose|k: int| 0 <= k < past.len() && past[k] == x;
                    assert(order@[k] == order@[i as int]);
                }
            }
            assert forall|k: int| 0 <= k < past.len() implies #[trigger] refined(rel)(
                past[k],
                x,
            ) by {
                assert(fine(order@[k], order@[i as int]));
            }
        }
        let mut joins: bool = false;
        if groups.len() > 0 {
            let head: usize = groups[groups.len() - 1][0];
            proof {
                let l = before.len() - 1;
                assert(before[l]@.contains(head));
                assert(past.contains(head));
            }
            joins = le(x, head);
        }
        if joins {
            match groups.pop() {
                Some(last) => {
                    let mut last: Vec<usize> = last;
                    last.push(x);
                    groups.push(last);
                },
                None => {},
            }
            proof {
                lemma_class_grows(before, groups@, rel, n as int, past, x);
            }
        } else {
            let mut fresh: Vec<usize> = Vec::new();
            fresh.push(x);
            groups.push(fresh);
            proof {
                assert(groups@.last()@ =~= seq![x]);
                lemma_class_starts(before, groups@, rel, n as int, past, x);
            }
        }
        i = i + 1;
    }
    proof {
        assert(order@.take(n as int) =~= order@);
        let all = positions(n as int);
        assert forall|x: usize| order@.contains(x) <==> #[trigger] all.contains(x) by {
            if order@.contains(x) {
                let k = choose|k: int| 0 <= k < order@.len() && order@[k] == x;
                assert(all[x as int] == x);
            }
            if all.contains(x) {
                assert(x < n);
            }
        }
    }
    groups
}

// ---------------------------------------------------------------------------
// Order of texts
// ---------------------------------------------------------------------------

/// Whether `a` comes before `b` or is the same, byte by byte from `i` on.
pub open spec fn bytes_le(a: Seq<u8>, b: Seq<u8>, i: int) -> bool
    decreases a.len() - i,
{
    if i >= a.len() {
        true
    } else if i >= b.len() {
        false
    } else if a[i] != b[i] {
        a[i] < b[i]
    } else {
        bytes_le(a, b, i + 1)
    }
}

/// Whether a text comes before another or is the same, in the order of their
/// UTF-8 bytes.
pub open spec fn text_le(a: Seq<char>, b: Seq<char>) -> bool {
    bytes_le(encode_utf8(a), encode_utf8(b), 0)
}

proof fn lemma_bytes_total(a: Seq<u8>, b: Seq<u8>, i: int)
    ensures
        bytes_le(a, b, i) || bytes_le(b, a, i),
    decreases a.len() - i,
{
    if i < a.len() && i < b.len() && a[i] == b[i] {
        lemma_bytes_total(a, b, i + 1);
    }
}

proof fn lemma_bytes_transitive(a: Seq<u8>, b: Seq<u8>, c: Seq<u8>, i: int)
    requires
        bytes_le(a, b, i),
        bytes_le(b, c, i),
    ensures
        bytes_le(a, c, i),
    decreases a.len() - i,
{
    if i < a.len() && i < b.len() && i < c.len() && a[i] == b[i] && b[i] == c[i] {
        lemma_bytes_transitive(a, b, c, i + 1);
    }
}

proof fn lemma_bytes_antisymmetric(a: Seq<u8>, b: Seq<u8>, i: int)
    requires
        0 <= i,
        bytes_le(a, b, i),
        bytes_le(b, a, i),
    ensures
        i <= a.len() || i <= b.len() ==> (i >= a.len() && i >= b.len()) || a.len() == b.len(),
        forall|k: int| i <= k < a.len() ==> k < b.len() && #[trigger] a[k] == b[k],
    decreases a.len() - i,
{
    if i < a.len() && i < b.len() {
        lemma_bytes_antisymmetric(a, b, i + 1);
    }
}

/// The order of texts is total: any two are comparable, it carries over, and two
/// texts that come before each other are the same.
pub proof fn texts_are_totally_ordered(a: Seq<char>, b: Seq<char>, c: Seq<char>)
    ensures
        text_le(a, b) || text_le(b, a),
        text_le(a, b) && text_le(b, c) ==> text_le(a, c),
        text_le(a, b) && text_le(b, a) ==> a == b,
{
    let x = encode_utf8(a);
    let y = encode_utf8(b);
    lemma_bytes_total(x, y, 0);
    if text_le(a, b) && text_le(b, c) {
        lemma_bytes_transitive(x, y, encode_utf8(c), 0);
    }
    if text_le(a, b) && text_le(b, a) {
        lemma_bytes_antisymmetric(x, y, 0);
        assert(x =~= y);
        encode_utf8_decode_utf8(a);
        encode_utf8_decode_utf8(b);
    }
}

/// Whether a text comes before another or is the same.
pub fn comes_before(a: &str, b: &str) -> (r: bool)
    ensures
        r == text_le(a@, b@),
{
    let x: &[u8] = a.as_bytes();
    let y: &[u8] = b.as_bytes();
    let mut i: usize = 0;
    while i < x.len() && i < y.len()
        invariant
            i <= x@.len(),
            i <= y@.len(),
            bytes_le(x@, y@, 0) == bytes_le(x@, y@, i as int),
            x@ == encode_utf8(a@),
            y@ == encode_utf8(b@),
        decreases x@.len() - i,
    {
        if x[i] != y[i] {
            return x[i] < y[i];
        }
        i = i + 1;
    }
    i >= x.len()
}

} // verus!
