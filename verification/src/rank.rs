//! Stable descending ordering of ranked entries, and its laws.
//!
//! A `Ranked` entry stands for the item at position `idx` of some list, ranked
//! by the key `(major + frac_num / frac_den, minor)`: first by the exact
//! rational `major + frac_num / frac_den` (with `frac_num < frac_den` this is
//! `major` and then the fraction), then by `minor`. Sorting is stable: entries
//! whose keys tie keep their input order, as `slice::sort_by` does.
use vstd::prelude::*;

verus! {

broadcast use vstd::seq_lib::group_to_multiset_ensures;

/// An item position with the key by which it is ranked.
#[derive(Clone, Copy)]
pub struct Ranked {
    pub idx: usize,
    pub major: i128,
    pub frac_num: u128,
    pub frac_den: u128,
    pub minor: i128,
}

/// An entry keyed by whole numbers only: the fraction is zero.
pub open spec fn whole(idx: usize, major: i128, minor: i128) -> Ranked {
    Ranked { idx, major, frac_num: 0, frac_den: 1, minor }
}

/// The fraction of `a` exceeds that of `b` (denominators positive).
pub open spec fn frac_gt(a: Ranked, b: Ranked) -> bool {
    a.frac_num * b.frac_den > b.frac_num * a.frac_den
}

/// The fraction's denominator is positive.
pub open spec fn well_keyed(a: Ranked) -> bool {
    a.frac_den > 0
}

/// Every entry of `s` is well keyed.
pub open spec fn all_well_keyed(s: Seq<Ranked>) -> bool {
    forall|k: int| 0 <= k < s.len() ==> well_keyed(#[trigger] s[k])
}

/// `a` ranks strictly above `b`.
pub open spec fn outranks(a: Ranked, b: Ranked) -> bool {
    a.major > b.major || (a.major == b.major && (frac_gt(a, b) || (!frac_gt(b, a) && a.minor
        > b.minor)))
}

/// `a` and `b` have the same key.
pub open spec fn same_key(a: Ranked, b: Ranked) -> bool {
    a.major == b.major && !frac_gt(a, b) && !frac_gt(b, a) && a.minor == b.minor
}

/// Between whole keys the order is lexicographic on `(major, minor)`.
pub proof fn lemma_whole_keys(a: Ranked, b: Ranked)
    requires
        a.frac_num == 0,
        b.frac_num == 0,
    ensures
        outranks(a, b) == (a.major > b.major || (a.major == b.major && a.minor > b.minor)),
        same_key(a, b) == (a.major == b.major && a.minor == b.minor),
{
    assert(a.frac_num * b.frac_den == 0) by (nonlinear_arith)
        requires
            a.frac_num == 0,
    ;
    assert(b.frac_num * a.frac_den == 0) by (nonlinear_arith)
        requires
            b.frac_num == 0,
    ;
}

/// Division with remainder relates `q·b + r` against `p·d + s` by comparing the
/// quotients first and, when they agree, the cross products of the remainders.
pub proof fn lemma_split_compare(q: int, r: int, b: int, p: int, s: int, d: int)
    requires
        b > 0,
        d > 0,
        0 <= r < b,
        0 <= s < d,
    ensures
        q > p ==> (q * b + r) * d > (p * d + s) * b,
        q < p ==> (q * b + r) * d < (p * d + s) * b,
        q == p ==> (q * b + r) * d - (p * d + s) * b == r * d - s * b,
{
    assert((q * b + r) * d - (p * d + s) * b == (q - p) * (b * d) + (r * d - s * b)) by (nonlinear_arith);
    assert(r * d >= 0) by (nonlinear_arith)
        requires
            r >= 0,
            d > 0,
    ;
    assert(s * b < b * d) by (nonlinear_arith)
        requires
            0 <= s < d,
            b > 0,
    ;
    assert(r * d < b * d) by (nonlinear_arith)
        requires
            0 <= r < b,
            d > 0,
    ;
    assert(s * b >= 0) by (nonlinear_arith)
        requires
            s >= 0,
            b > 0,
    ;
    if q == p {
        assert((q - p) * (b * d) == 0) by (nonlinear_arith)
            requires
                q == p,
        ;
    }
    if q > p {
        assert((q - p) * (b * d) >= b * d) by (nonlinear_arith)
            requires
                q - p >= 1,
                b * d > 0,
        ;
    } else if q < p {
        assert((q - p) * (b * d) <= -(b * d)) by (nonlinear_arith)
            requires
                q - p <= -1,
                b * d > 0,
        ;
    }
    assert(b * d > 0) by (nonlinear_arith)
        requires
            b > 0,
            d > 0,
    ;
}

/// The sign of `a·d - c·b`, for non-negative `a`, `c` and positive `b`, `d`:
/// positive, zero or negative as `a/b` is above, equal to or below `c/d`.
fn frac_compare(a: u128, b: u128, c: u128, d: u128) -> (r: i8)
    requires
        b > 0,
        d > 0,
    ensures
        (r > 0) == (a * d > c * b),
        (r < 0) == (a * d < c * b),
    decreases b + d,
{
    let q1 = a / b;
    let r1 = a % b;
    let q2 = c / d;
    let r2 = c % d;
    proof {
        lemma_split_compare(q1 as int, r1 as int, b as int, q2 as int, r2 as int, d as int);
        assert(a == q1 * b + r1) by (nonlinear_arith)
            requires
                b > 0,
                q1 == a / b,
                r1 == a % b,
        ;
        assert(c == q2 * d + r2) by (nonlinear_arith)
            requires
                d > 0,
                q2 == c / d,
                r2 == c % d,
        ;
    }
    if q1 > q2 {
        1
    } else if q1 < q2 {
        -1
    } else if r1 == 0 && r2 == 0 {
        assert(r1 * d == 0 && r2 * b == 0) by (nonlinear_arith)
            requires
                r1 == 0,
                r2 == 0,
        ;
        0
    } else if r1 == 0 {
        assert(r1 * d == 0) by (nonlinear_arith)
            requires
                r1 == 0,
        ;
        assert(r2 * b > 0) by (nonlinear_arith)
            requires
                r2 > 0,
                b > 0,
        ;
        -1
    } else if r2 == 0 {
        assert(r2 * b == 0) by (nonlinear_arith)
            requires
                r2 == 0,
        ;
        assert(r1 * d > 0) by (nonlinear_arith)
            requires
                r1 > 0,
                d > 0,
        ;
        1
    } else {
        let x = frac_compare(d, r2, b, r1);
        assert(r1 * d == d * r1 && r2 * b == b * r2) by (nonlinear_arith);
        x
    }
}

fn outranks_exec(a: Ranked, b: Ranked) -> (r: bool)
    requires
        well_keyed(a),
        well_keyed(b),
    ensures
        r == outranks(a, b),
{
    if a.major != b.major {
        return a.major > b.major;
    }
    let c = frac_compare(a.frac_num, a.frac_den, b.frac_num, b.frac_den);
    if c != 0 {
        c > 0
    } else {
        a.minor > b.minor
    }
}

/// The key order is transitive and total: from `a` above `b`, any `c` is below
/// `a` or above `b`; and what is not below `b` while `b` is not below `c` is
/// not below `c`.
pub proof fn lemma_key_order(a: Ranked, b: Ranked, c: Ranked)
    requires
        well_keyed(a),
        well_keyed(b),
        well_keyed(c),
    ensures
        outranks(a, b) ==> outranks(a, c) || outranks(c, b),
        outranks(a, b) && outranks(b, c) ==> outranks(a, c),
        outranks(a, b) ==> !outranks(b, a),
        !outranks(a, a),
{
    let (an, ad, bn, bd, cn, cd) = (
        a.frac_num as int,
        a.frac_den as int,
        b.frac_num as int,
        b.frac_den as int,
        c.frac_num as int,
        c.frac_den as int,
    );
    lemma_ratio_order(an, ad, bn, bd, cn, cd);
    lemma_ratio_order(an, ad, cn, cd, bn, bd);
    lemma_ratio_order(bn, bd, an, ad, cn, cd);
    lemma_ratio_order(bn, bd, cn, cd, an, ad);
    lemma_ratio_order(cn, cd, an, ad, bn, bd);
    lemma_ratio_order(cn, cd, bn, bd, an, ad);
}

proof fn lemma_ratio_order(an: int, ad: int, bn: int, bd: int, cn: int, cd: int)
    requires
        ad > 0,
        bd > 0,
        cd > 0,
    ensures
        an * bd >= bn * ad && bn * cd >= cn * bd ==> an * cd >= cn * ad,
        an * bd > bn * ad && bn * cd >= cn * bd ==> an * cd > cn * ad,
        an * bd >= bn * ad && bn * cd > cn * bd ==> an * cd > cn * ad,
{
    if an * bd >= bn * ad && bn * cd >= cn * bd {
        assert(an * bd * cd >= bn * ad * cd) by (nonlinear_arith)
            requires
                an * bd >= bn * ad,
                cd > 0,
        ;
        assert(bn * cd * ad >= cn * bd * ad) by (nonlinear_arith)
            requires
                bn * cd >= cn * bd,
                ad > 0,
        ;
        assert((an * cd - cn * ad) * bd >= 0) by (nonlinear_arith)
            requires
                an * bd * cd >= bn * ad * cd,
                bn * cd * ad >= cn * bd * ad,
        ;
        assert(an * cd - cn * ad >= 0) by (nonlinear_arith)
            requires
                (an * cd - cn * ad) * bd >= 0,
                bd > 0,
        ;
        if an * bd > bn * ad || bn * cd > cn * bd {
            assert(an * bd * cd + bn * cd * ad > bn * ad * cd + cn * bd * ad) by (nonlinear_arith)
                requires
                    an * bd > bn * ad || bn * cd > cn * bd,
                    an * bd >= bn * ad,
                    bn * cd >= cn * bd,
                    ad > 0,
                    cd > 0,
            ;
            assert(an * cd - cn * ad > 0) by (nonlinear_arith)
                requires
                    an * bd * cd + bn * cd * ad > bn * ad * cd + cn * bd * ad,
                    bd > 0,
            ;
        }
    }
}

/// Inserts `x` into `t` just before the first entry that `x` outranks.
pub open spec fn insert_ranked(t: Seq<Ranked>, x: Ranked) -> Seq<Ranked>
    decreases t.len(),
{
    if t.len() == 0 {
        seq![x]
    } else if outranks(x, t[0]) {
        seq![x] + t
    } else {
        seq![t[0]] + insert_ranked(t.drop_first(), x)
    }
}

/// The stable descending sort of `s` by key.
pub open spec fn rank_sort(s: Seq<Ranked>) -> Seq<Ranked>
    decreases s.len(),
{
    if s.len() == 0 {
        s
    } else {
        insert_ranked(rank_sort(s.drop_last()), s.last())
    }
}

/// The positions of the first `limit` entries (all of them when there are fewer).
pub open spec fn top_indices(s: Seq<Ranked>, limit: int) -> Seq<usize> {
    let k = if limit < s.len() {
        limit
    } else {
        s.len() as int
    };
    s.take(k).map_values(|r: Ranked| r.idx)
}

proof fn lemma_insert_at(t: Seq<Ranked>, x: Ranked, p: int)
    requires
        0 <= p <= t.len(),
        forall|k: int| 0 <= k < p ==> !outranks(x, #[trigger] t[k]),
        p < t.len() ==> outranks(x, t[p]),
    ensures
        insert_ranked(t, x) == t.insert(p, x),
    decreases p,
{
    if t.len() == 0 {
        assert(t.insert(p, x) =~= seq![x]);
    } else if p == 0 {
        assert(t.insert(p, x) =~= seq![x] + t);
    } else {
        let r = t.drop_first();
        assert forall|k: int| 0 <= k < p - 1 implies !outranks(x, #[trigger] r[k]) by {
            assert(r[k] == t[k + 1]);
        }
        lemma_insert_at(r, x, p - 1);
        assert(t.insert(p, x) =~= seq![t[0]] + r.insert(p - 1, x));
    }
}

/// Sorts entries stably in descending key order.
pub fn sort_ranked(v: &Vec<Ranked>) -> (r: Vec<Ranked>)
    requires
        all_well_keyed(v@),
    ensures
        r@ == rank_sort(v@),
{
    let n = v.len();
    let mut out: Vec<Ranked> = Vec::new();
    let mut i: usize = 0;
    assert(v@.take(0) =~= Seq::<Ranked>::empty());
    while i < n
        invariant
            n == v@.len(),
            i <= n,
            all_well_keyed(v@),
            all_well_keyed(out@),
            out@ == rank_sort(v@.take(i as int)),
        decreases n - i,
    {
        let x = v[i];
        assert(well_keyed(v@[i as int]));
        let mut p: usize = 0;
        while p < out.len() && !outranks_exec(x, out[p])
            invariant
                p <= out@.len(),
                well_keyed(x),
                all_well_keyed(out@),
                forall|k: int| 0 <= k < p ==> !outranks(x, #[trigger] out@[k]),
            decreases out@.len() - p,
        {
            p = p + 1;
        }
        proof {
            lemma_insert_at(out@, x, p as int);
            assert(v@.take(i + 1).drop_last() =~= v@.take(i as int));
            assert(v@.take(i + 1).last() == x);
        }
        let ghost before = out@;
        out.insert(p, x);
        assert forall|k: int| 0 <= k < out@.len() implies well_keyed(#[trigger] out@[k]) by {
            if k < p {
                assert(out@[k] == before[k]);
            } else if k > p {
                assert(out@[k] == before[k - 1]);
            }
        }
        i = i + 1;
    }
    assert(v@.take(n as int) =~= v@);
    out
}

/// The positions of the first `limit` entries.
pub fn take_indices(v: &Vec<Ranked>, limit: usize) -> (r: Vec<usize>)
    ensures
        r@ == top_indices(v@, limit as int),
{
    let k = if limit < v.len() {
        limit
    } else {
        v.len()
    };
    let mut out: Vec<usize> = Vec::new();
    let mut i: usize = 0;
    while i < k
        invariant
            k <= v@.len(),
            k == (if limit < v@.len() { limit as int } else { v@.len() as int }),
            i <= k,
            out@ == v@.take(i as int).map_values(|r: Ranked| r.idx),
        decreases k - i,
    {
        out.push(v[i].idx);
        i = i + 1;
        assert(v@.take(i as int).map_values(|r: Ranked| r.idx) =~= v@.take(i - 1).map_values(
            |r: Ranked| r.idx,
        ).push(v@[i - 1].idx));
    }
    out
}

/// A sequence is in descending key order: no entry outranks an earlier one.
pub open spec fn descending(s: Seq<Ranked>) -> bool {
    forall|i: int, j: int| 0 <= i < j < s.len() ==> !outranks(#[trigger] s[j], #[trigger] s[i])
}

proof fn lemma_insert_ranked_descending(t: Seq<Ranked>, x: Ranked)
    ensures
        descending(t) && all_well_keyed(t) && well_keyed(x) ==> descending(insert_ranked(t, x)),
        insert_ranked(t, x).len() == t.len() + 1,
        insert_ranked(t, x).to_multiset() == t.to_multiset().insert(x),
    decreases t.len(),
{
    if t.len() == 0 {
        assert(insert_ranked(t, x) =~= t.push(x));
    } else if outranks(x, t[0]) {
        let u = seq![x] + t;
        assert(u.drop_first() =~= t);
        if descending(t) && all_well_keyed(t) && well_keyed(x) {
            assert forall|a: int, b: int| 0 <= a < b < u.len() implies !outranks(
                #[trigger] u[b],
                #[trigger] u[a],
            ) by {
                if a == 0 {
                    assert(u[b] == t[b - 1]);
                    assert(well_keyed(t[b - 1]));
                    assert(well_keyed(t[0]));
                    if b - 1 > 0 {
                        assert(!outranks(t[b - 1], t[0]));
                    }
                    lemma_key_order(x, t[0], t[b - 1]);
                    lemma_key_order(x, t[b - 1], t[0]);
                } else {
                    assert(u[a] == t[a - 1]);
                    assert(u[b] == t[b - 1]);
                }
            }
        }
        assert(u.remove(0) =~= t);
        assert(u.to_multiset().remove(u[0]) == t.to_multiset());
        assert(u.to_multiset() =~= t.to_multiset().insert(x));
    } else {
        let r = t.drop_first();
        assert(descending(t) ==> descending(r));
        assert(all_well_keyed(t) ==> all_well_keyed(r)) by {
            if all_well_keyed(t) {
                assert forall|k: int| 0 <= k < r.len() implies well_keyed(#[trigger] r[k]) by {
                    assert(r[k] == t[k + 1]);
                }
            }
        }
        lemma_insert_ranked_descending(r, x);
        let ir = insert_ranked(r, x);
        let u = seq![t[0]] + ir;
        if descending(t) && all_well_keyed(t) && well_keyed(x) {
            assert forall|j: int| 0 <= j < ir.len() implies !outranks(#[trigger] ir[j], t[0]) by {
                assert(ir.to_multiset().count(ir[j]) > 0);
                if ir[j] != x {
                    assert(r.to_multiset().count(ir[j]) > 0);
                    assert(r.contains(ir[j]));
                    let k = choose|k: int| 0 <= k < r.len() && r[k] == ir[j];
                    assert(t[k + 1] == r[k]);
                }
            }
            assert forall|a: int, b: int| 0 <= a < b < u.len() implies !outranks(
                #[trigger] u[b],
                #[trigger] u[a],
            ) by {
                if a == 0 {
                    assert(u[b] == ir[b - 1]);
                } else {
                    assert(u[a] == ir[a - 1]);
                    assert(u[b] == ir[b - 1]);
                }
            }
        }
        assert(u.remove(0) =~= ir);
        assert(t.remove(0) =~= r);
        assert(u.to_multiset().remove(t[0]) == ir.to_multiset());
        assert(t.to_multiset().remove(t[0]) == r.to_multiset());
        assert(u[0] == t[0]);
        assert(u.contains(t[0]));
        assert(t.contains(t[0]));
        assert(u.to_multiset() =~= ir.to_multiset().insert(t[0]));
        assert(t.to_multiset() =~= r.to_multiset().insert(t[0]));
        assert(u.to_multiset() =~= t.to_multiset().insert(x));
    }
}

/// The sort's result holds exactly the input entries, and when every key is
/// well formed it is in descending key order.
pub proof fn lemma_rank_sort_descending_permutation(s: Seq<Ranked>)
    ensures
        all_well_keyed(s) ==> descending(rank_sort(s)),
        rank_sort(s).len() == s.len(),
        rank_sort(s).to_multiset() == s.to_multiset(),
    decreases s.len(),
{
    if s.len() > 0 {
        let p = s.drop_last();
        lemma_rank_sort_descending_permutation(p);
        let t = rank_sort(p);
        lemma_insert_ranked_descending(t, s.last());
        assert(s.drop_last().push(s.last()) =~= s);
        if all_well_keyed(s) {
            assert forall|k: int| 0 <= k < t.len() implies well_keyed(#[trigger] t[k]) by {
                assert(t.to_multiset().count(t[k]) > 0);
                assert(p.to_multiset().count(t[k]) > 0);
                assert(p.contains(t[k]));
                let j = choose|j: int| 0 <= j < p.len() && p[j] == t[k];
                assert(s[j] == p[j]);
            }
            assert(well_keyed(s[s.len() - 1]));
        }
    }
}

/// The first `limit` entries of the sort: as many as there are (up to `limit`),
/// each an input entry, in descending key order, and their positions are the
/// selected positions.
pub proof fn lemma_top_entries(e: Seq<Ranked>, limit: int, ok: spec_fn(Ranked) -> bool)
    requires
        forall|k: int| 0 <= k < e.len() ==> #[trigger] ok(e[k]),
        all_well_keyed(e),
        limit >= 0,
    ensures
        top_indices(rank_sort(e), limit).len() == (if limit < e.len() {
            limit
        } else {
            e.len() as int
        }),
        forall|k: int|
            0 <= k < top_indices(rank_sort(e), limit).len() ==> ok(#[trigger] rank_sort(e)[k])
                && top_indices(rank_sort(e), limit)[k] == rank_sort(e)[k].idx,
        descending(rank_sort(e)),
{
    let s = rank_sort(e);
    lemma_rank_sort_descending_permutation(e);
    assert forall|k: int| 0 <= k < s.len() implies ok(#[trigger] s[k]) by {
        assert(s.to_multiset().count(s[k]) > 0);
        assert(e.to_multiset().count(s[k]) > 0);
        assert(e.contains(s[k]));
        let j = choose|j: int| 0 <= j < e.len() && e[j] == s[k];
        assert(ok(e[j]));
    }
}

/// Entries sharing a key come in increasing position order.
pub open spec fn ties_in_list_order(s: Seq<Ranked>) -> bool {
    forall|i: int, j: int|
        0 <= i < j < s.len() && same_key(#[trigger] s[i], #[trigger] s[j]) ==> s[i].idx < s[j].idx
}

/// Positions strictly increase along the sequence, as they do for entries
/// collected by walking a list from its start.
pub open spec fn positions_increasing(s: Seq<Ranked>) -> bool {
    forall|i: int, j: int| 0 <= i < j < s.len() ==> (#[trigger] s[i]).idx < (#[trigger] s[j]).idx
}

proof fn lemma_insert_ranked_stable(t: Seq<Ranked>, x: Ranked)
    requires
        descending(t),
        all_well_keyed(t),
        well_keyed(x),
        ties_in_list_order(t),
        forall|k: int| 0 <= k < t.len() ==> (#[trigger] t[k]).idx < x.idx,
    ensures
        ties_in_list_order(insert_ranked(t, x)),
    decreases t.len(),
{
    if t.len() == 0 {
        assert(insert_ranked(t, x) =~= seq![x]);
    } else if outranks(x, t[0]) {
        let u = seq![x] + t;
        assert forall|a: int, b: int|
            0 <= a < b < u.len() && same_key(#[trigger] u[a], #[trigger] u[b]) implies u[a].idx
            < u[b].idx by {
            if a == 0 {
                assert(u[b] == t[b - 1]);
                assert(well_keyed(t[b - 1]));
                assert(well_keyed(t[0]));
                if b - 1 > 0 {
                    assert(!outranks(t[b - 1], t[0]));
                }
                lemma_key_order(x, t[0], t[b - 1]);
            } else {
                assert(u[a] == t[a - 1]);
                assert(u[b] == t[b - 1]);
            }
        }
    } else {
        let r = t.drop_first();
        assert(descending(r));
        assert(ties_in_list_order(r));
        assert forall|k: int| 0 <= k < r.len() implies well_keyed(#[trigger] r[k]) by {
            assert(r[k] == t[k + 1]);
        }
        lemma_insert_ranked_stable(r, x);
        lemma_insert_ranked_descending(r, x);
        let ir = insert_ranked(r, x);
        let u = seq![t[0]] + ir;
        assert forall|a: int, b: int|
            0 <= a < b < u.len() && same_key(#[trigger] u[a], #[trigger] u[b]) implies u[a].idx
            < u[b].idx by {
            if a == 0 {
                let y = ir[b - 1];
                assert(u[b] == y);
                assert(ir.to_multiset().count(y) > 0);
                if y != x {
                    assert(r.to_multiset().count(y) > 0);
                    assert(r.contains(y));
                    let k = choose|k: int| 0 <= k < r.len() && r[k] == y;
                    assert(t[k + 1] == r[k]);
                }
            } else {
                assert(u[a] == ir[a - 1]);
                assert(u[b] == ir[b - 1]);
            }
        }
    }
}

/// The sort is stable: of entries that share a key, the one listed first
/// stays first.
pub proof fn law_rank_sort_stable(s: Seq<Ranked>)
    requires
        positions_increasing(s),
        all_well_keyed(s),
    ensures
        ties_in_list_order(rank_sort(s)),
    decreases s.len(),
{
    if s.len() > 0 {
        let p = s.drop_last();
        assert(positions_increasing(p));
        assert forall|k: int| 0 <= k < p.len() implies well_keyed(#[trigger] p[k]) by {
            assert(p[k] == s[k]);
        }
        law_rank_sort_stable(p);
        lemma_rank_sort_descending_permutation(p);
        let t = rank_sort(p);
        assert forall|k: int| 0 <= k < t.len() implies (#[trigger] t[k]).idx < s.last().idx by {
            assert(t.to_multiset().count(t[k]) > 0);
            assert(p.to_multiset().count(t[k]) > 0);
            assert(p.contains(t[k]));
            let j = choose|j: int| 0 <= j < p.len() && p[j] == t[k];
            assert(s[j] == p[j]);
        }
        assert forall|k: int| 0 <= k < t.len() implies well_keyed(#[trigger] t[k]) by {
            assert(t.to_multiset().count(t[k]) > 0);
            assert(p.to_multiset().count(t[k]) > 0);
            assert(p.contains(t[k]));
            let j = choose|j: int| 0 <= j < p.len() && p[j] == t[k];
            assert(s[j] == p[j]);
        }
        assert(well_keyed(s[s.len() - 1]));
        lemma_insert_ranked_stable(t, s.last());
    }
}

/// When no more entries than `limit` are ranked, the position of every entry
/// is selected.
pub proof fn lemma_top_keeps_all(e: Seq<Ranked>, limit: int, j: int)
    requires
        0 <= j < e.len() <= limit,
    ensures
        top_indices(rank_sort(e), limit).contains(e[j].idx),
{
    lemma_rank_sort_descending_permutation(e);
    let s = rank_sort(e);
    assert(e.to_multiset().count(e[j]) > 0);
    assert(s.to_multiset().count(e[j]) > 0);
    assert(s.contains(e[j]));
    let p = choose|p: int| 0 <= p < s.len() && s[p] == e[j];
    let r = top_indices(s, limit);
    assert(r[p] == s[p].idx);
}

} // verus!