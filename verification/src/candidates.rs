//! Alternative candidates for a package, found in four tiers: the directory's
//! own curated list, then topic overlap, then name-token overlap, then
//! description-keyword overlap.
use vstd::prelude::*;
use crate::api::Library;
use crate::rank::{
    all_well_keyed, lemma_rank_sort_descending_permutation, lemma_split_compare, outranks, rank_sort,
    same_key, sort_ranked, well_keyed, Ranked,
};
use crate::similarity::{
    description_tokens, lemma_overlap_bound, meaningful_topics, name_tokens, overlap,
    overlap_count, spec_description_tokens, spec_meaningful_topics, spec_name_tokens,
};
use crate::text::{eq_ignore_ascii_case, str_eq, str_eq_ignore_ascii_case, views};

verus! {

broadcast use vstd::seq_lib::group_to_multiset_ensures;

/// How a candidate was found.
#[derive(Clone, Copy, PartialEq, Eq, Structural, Debug)]
pub enum MatchReason {
    Directory,
    Topic,
    Name,
    Description,
}

/// The names and reasons of picked candidates.
pub open spec fn pairs_view(v: Seq<(String, MatchReason)>) -> Seq<(Seq<char>, MatchReason)> {
    v.map_values(|p: (String, MatchReason)| (p.0@, p.1))
}

/// The names of picked candidates.
pub open spec fn picked_names(o: Seq<(Seq<char>, MatchReason)>) -> Seq<Seq<char>> {
    o.map_values(|p: (Seq<char>, MatchReason)| p.0)
}

/// A candidate differs from the target by name, is neither archived nor
/// unmaintained, and has native code when the target has.
pub open spec fn passes_hard_filters(target: &Library, l: &Library) -> bool {
    &&& l.spec_name() != target.spec_name()
    &&& !l.spec_is_archived()
    &&& !l.unmaintained
    &&& (!target.spec_has_native_code() || l.spec_has_native_code())
}

/// The first position from `k` on whose package name equals `n` up to ASCII case.
pub open spec fn first_name_ci(libs: Seq<Library>, n: Seq<char>, k: int) -> Option<int>
    decreases libs.len() - k,
{
    if k < 0 || k >= libs.len() {
        None
    } else if eq_ignore_ascii_case(libs[k].spec_name(), n) {
        Some(k)
    } else {
        first_name_ci(libs, n, k + 1)
    }
}

/// The first position from `k` on whose package name equals `n`.
pub open spec fn first_name_eq(libs: Seq<Library>, n: Seq<char>, k: int) -> Option<int>
    decreases libs.len() - k,
{
    if k < 0 || k >= libs.len() {
        None
    } else if libs[k].spec_name() == n {
        Some(k)
    } else {
        first_name_eq(libs, n, k + 1)
    }
}

proof fn lemma_first_name_ci_range(libs: Seq<Library>, n: Seq<char>, k: int)
    ensures
        first_name_ci(libs, n, k) matches Some(i) ==> k <= i < libs.len() && eq_ignore_ascii_case(
            libs[i].spec_name(),
            n,
        ),
    decreases libs.len() - k,
{
    if 0 <= k < libs.len() && !eq_ignore_ascii_case(libs[k].spec_name(), n) {
        lemma_first_name_ci_range(libs, n, k + 1);
    }
}

pub proof fn lemma_first_name_eq_range(libs: Seq<Library>, n: Seq<char>, k: int)
    ensures
        first_name_eq(libs, n, k) matches Some(i) ==> k <= i < libs.len() && libs[i].spec_name()
            == n,
    decreases libs.len() - k,
{
    if 0 <= k < libs.len() && libs[k].spec_name() != n {
        lemma_first_name_eq_range(libs, n, k + 1);
    }
}

/// The first package whose name equals `n` up to ASCII case.
pub fn find_name_ignore_case(libs: &Vec<Library>, n: &str) -> (r: Option<usize>)
    ensures
        match r {
            Some(i) => first_name_ci(libs@, n@, 0) == Some(i as int) && i < libs@.len(),
            None => first_name_ci(libs@, n@, 0) is None,
        },
{
    let len = libs.len();
    let mut i: usize = 0;
    while i < len
        invariant
            len == libs@.len(),
            i <= len,
            first_name_ci(libs@, n@, 0) == first_name_ci(libs@, n@, i as int),
        decreases len - i,
    {
        if str_eq_ignore_ascii_case(libs[i].name(), n) {
            return Some(i);
        }
        i = i + 1;
    }
    None
}

/// The first package whose name equals `n`.
pub fn find_name(libs: &Vec<Library>, n: &str) -> (r: Option<usize>)
    ensures
        match r {
            Some(i) => first_name_eq(libs@, n@, 0) == Some(i as int) && i < libs@.len(),
            None => first_name_eq(libs@, n@, 0) is None,
        },
{
    let len = libs.len();
    let mut i: usize = 0;
    while i < len
        invariant
            len == libs@.len(),
            i <= len,
            first_name_eq(libs@, n@, 0) == first_name_eq(libs@, n@, i as int),
        decreases len - i,
    {
        if str_eq(libs[i].name(), n) {
            return Some(i);
        }
        i = i + 1;
    }
    None
}

/// The directory-curated alternative names of the target.
pub open spec fn curated_of(target: &Library) -> Seq<Seq<char>> {
    match &target.alternatives {
        Some(v) => views(v@),
        None => Seq::empty(),
    }
}

/// Tier one: each curated name, resolved case-insensitively to the first package
/// of that name, is taken when it passes the hard filters and is not taken yet.
pub open spec fn directory_picks(target: &Library, libs: Seq<Library>, cur: Seq<Seq<char>>) -> Seq<
    (Seq<char>, MatchReason),
>
    decreases cur.len(),
{
    if cur.len() == 0 {
        Seq::empty()
    } else {
        let o = directory_picks(target, libs, cur.drop_last());
        match first_name_ci(libs, cur.last(), 0) {
            Some(i) => {
                let l = libs[i];
                if passes_hard_filters(target, &l) && !picked_names(o).contains(l.spec_name()) {
                    o.push((l.spec_name(), MatchReason::Directory))
                } else {
                    o
                }
            },
            None => o,
        }
    }
}

/// Directory score plus log-stars, in millionths.
pub open spec fn weight(l: &Library) -> int {
    l.spec_score() + l.log_stars_micros
}

/// The words of the target that a tier compares.
pub open spec fn target_words(target: &Library, tier: MatchReason) -> Seq<Seq<char>> {
    match tier {
        MatchReason::Topic => spec_meaningful_topics(target),
        MatchReason::Name => spec_name_tokens(target),
        _ => spec_description_tokens(target),
    }
}

/// The words of a candidate that a tier compares.
pub open spec fn own_words(l: &Library, tier: MatchReason) -> Seq<Seq<char>> {
    match tier {
        MatchReason::Topic => spec_meaningful_topics(l),
        MatchReason::Name => spec_name_tokens(l),
        _ => spec_description_tokens(l),
    }
}

/// The tier share of a candidate as a fraction `(n, u)`, worth `n / u`
/// millionths, or none when the candidate does not qualify. Its rank in the
/// tier is the exact rational `n / u + weight(l)`.
///
/// Topics: some overlap, both sets non-empty, and at least two shared topics or a
/// Jaccard index of at least 0.2; share 1000 × Jaccard.
/// Names: some shared token; share 100 × shared.
/// Descriptions: at least one shared keyword and Jaccard ≥ 0.15 when the target has
/// at most three keywords, else at least two and Jaccard ≥ 0.2; share 500 × Jaccard.
pub open spec fn tier_share(target: &Library, l: &Library, tier: MatchReason) -> Option<(int, int)> {
    let tw = target_words(target, tier);
    let lw = own_words(l, tier);
    let ov = overlap(lw, tw) as int;
    let union = lw.len() + tw.len() - ov;
    match tier {
        MatchReason::Topic => {
            if lw.len() == 0 || tw.len() == 0 || ov == 0 {
                None
            } else if ov < 2 && 5 * ov < union {
                None
            } else {
                Some((ov * 1_000_000_000, union))
            }
        },
        MatchReason::Name => {
            if ov == 0 {
                None
            } else {
                Some((ov * 100_000_000, 1))
            }
        },
        _ => {
            if ov == 0 {
                None
            } else if tw.len() <= 3 && 20 * ov < 3 * union {
                None
            } else if tw.len() > 3 && (ov < 2 || 5 * ov < union) {
                None
            } else {
                Some((ov * 500_000_000, union))
            }
        },
    }
}

/// The entry for position `idx` ranked by the exact rational `n / u + w`: its
/// integer part, then its fractional part `(n mod u) / u`.
pub open spec fn rank_entry(idx: usize, n: int, u: int, w: int) -> Ranked {
    Ranked {
        idx,
        major: (n / u + w) as i128,
        frac_num: (n % u) as u128,
        frac_den: u as u128,
        minor: 0,
    }
}

/// Entries built by `rank_entry` are ordered by their exact rank: one outranks
/// another exactly when its `n / u + w` is larger (written over a common
/// denominator), and they share a key exactly when the ranks are equal.
pub proof fn law_rank_entry_exact(ia: usize, na: int, ua: int, wa: int, ib: usize, nb: int, ub: int, wb: int)
    requires
        na >= 0,
        nb >= 0,
        0 < ua <= u128::MAX,
        0 < ub <= u128::MAX,
        i128::MIN <= na / ua + wa <= i128::MAX,
        i128::MIN <= nb / ub + wb <= i128::MAX,
    ensures
        outranks(rank_entry(ia, na, ua, wa), rank_entry(ib, nb, ub, wb)) == ((na + wa * ua) * ub > (
        nb + wb * ub) * ua),
        same_key(rank_entry(ia, na, ua, wa), rank_entry(ib, nb, ub, wb)) == ((na + wa * ua) * ub == (
        nb + wb * ub) * ua),
{
    let a = rank_entry(ia, na, ua, wa);
    let b = rank_entry(ib, nb, ub, wb);
    let qa = na / ua + wa;
    let qb = nb / ub + wb;
    let ra = na % ua;
    let rb = nb % ub;
    assert(na == (na / ua) * ua + ra && 0 <= ra < ua) by (nonlinear_arith)
        requires
            ua > 0,
            ra == na % ua,
    ;
    assert(nb == (nb / ub) * ub + rb && 0 <= rb < ub) by (nonlinear_arith)
        requires
            ub > 0,
            rb == nb % ub,
    ;
    assert(na + wa * ua == qa * ua + ra) by (nonlinear_arith)
        requires
            na == (na / ua) * ua + ra,
            qa == na / ua + wa,
    ;
    assert(nb + wb * ub == qb * ub + rb) by (nonlinear_arith)
        requires
            nb == (nb / ub) * ub + rb,
            qb == nb / ub + wb,
    ;
    assert(a.major == qa && b.major == qb);
    assert(a.frac_num == ra && a.frac_den == ua && b.frac_num == rb && b.frac_den == ub);
    lemma_split_compare(qa, ra, ua, qb, rb, ub);
    lemma_split_compare(qb, rb, ub, qa, ra, ua);
}

/// The ranked entries of a tier among the first `n` packages: those that pass
/// the hard filters, are not picked yet and qualify.
pub open spec fn tier_entries(
    target: &Library,
    libs: Seq<Library>,
    picked: Seq<(Seq<char>, MatchReason)>,
    tier: MatchReason,
    n: int,
) -> Seq<Ranked>
    decreases n,
{
    if n <= 0 {
        Seq::empty()
    } else {
        let prev = tier_entries(target, libs, picked, tier, n - 1);
        let l = libs[n - 1];
        if passes_hard_filters(target, &l) && !picked_names(picked).contains(l.spec_name()) {
            match tier_share(target, &l, tier) {
                Some((sn, su)) => prev.push(rank_entry((n - 1) as usize, sn, su, weight(&l))),
                None => prev,
            }
        } else {
            prev
        }
    }
}

/// Takes the hits in order, each under `reason`, while fewer than `bound` are
/// picked and its name is not picked yet.
pub open spec fn accept_hits(
    out0: Seq<(Seq<char>, MatchReason)>,
    hits: Seq<Ranked>,
    libs: Seq<Library>,
    bound: int,
    reason: MatchReason,
) -> Seq<(Seq<char>, MatchReason)>
    decreases hits.len(),
{
    if hits.len() == 0 {
        out0
    } else {
        let o = accept_hits(out0, hits.drop_last(), libs, bound, reason);
        let nm = libs[hits.last().idx as int].spec_name();
        if o.len() >= bound || picked_names(o).contains(nm) {
            o
        } else {
            o.push((nm, reason))
        }
    }
}

/// A tier applied to the picks so far.
pub open spec fn run_tier(
    target: &Library,
    libs: Seq<Library>,
    picked: Seq<(Seq<char>, MatchReason)>,
    tier: MatchReason,
    bound: int,
) -> Seq<(Seq<char>, MatchReason)> {
    accept_hits(picked, rank_sort(tier_entries(target, libs, picked, tier, libs.len() as int)), libs, bound, tier)
}

/// The picks after the topic tier.
pub open spec fn picks_after_topics(target: &Library, libs: Seq<Library>, limit: int) -> Seq<
    (Seq<char>, MatchReason),
> {
    let o1 = directory_picks(target, libs, curated_of(target));
    run_tier(target, libs, o1, MatchReason::Topic, 2 * limit)
}

/// The picks after the name tier.
pub open spec fn picks_after_names(target: &Library, libs: Seq<Library>, limit: int) -> Seq<
    (Seq<char>, MatchReason),
> {
    let o2 = picks_after_topics(target, libs, limit);
    if o2.len() < limit && spec_name_tokens(target).len() > 0 {
        run_tier(target, libs, o2, MatchReason::Name, limit)
    } else {
        o2
    }
}

/// The ranked candidate names for `target`, at most `limit` of them.
pub open spec fn spec_candidate_names(target: &Library, libs: Seq<Library>, limit: int) -> Seq<
    (Seq<char>, MatchReason),
> {
    let o3 = picks_after_names(target, libs, limit);
    let o4 = if o3.len() < limit && spec_description_tokens(target).len() > 0 {
        run_tier(target, libs, o3, MatchReason::Description, limit)
    } else {
        o3
    };
    if o4.len() > limit {
        o4.take(limit)
    } else {
        o4
    }
}

/// Whether a name is already picked.
fn names_contain(out: &Vec<(String, MatchReason)>, nm: &str) -> (r: bool)
    ensures
        r == picked_names(pairs_view(out@)).contains(nm@),
{
    let n = out.len();
    let mut i: usize = 0;
    while i < n
        invariant
            n == out@.len(),
            i <= n,
            forall|j: int| 0 <= j < i ==> out@[j].0@ != nm@,
        decreases n - i,
    {
        if str_eq(out[i].0.as_str(), nm) {
            assert(picked_names(pairs_view(out@))[i as int] == nm@);
            return true;
        }
        i = i + 1;
    }
    assert forall|j: int| 0 <= j < picked_names(pairs_view(out@)).len() implies picked_names(
        pairs_view(out@),
    )[j] != nm@ by {
        assert(picked_names(pairs_view(out@))[j] == out@[j].0@);
    }
    false
}

fn push_pick(out: &mut Vec<(String, MatchReason)>, nm: &str, reason: MatchReason)
    ensures
        pairs_view(final(out)@) == pairs_view(old(out)@).push((nm@, reason)),
{
    let ghost before = out@;
    out.push((nm.to_owned(), reason));
    assert(pairs_view(out@) =~= pairs_view(before).push((nm@, reason)));
}

fn tier_one(target: &Library, libs: &Vec<Library>) -> (r: Vec<(String, MatchReason)>)
    ensures
        pairs_view(r@) == directory_picks(target, libs@, curated_of(target)),
{
    let mut out: Vec<(String, MatchReason)> = Vec::new();
    assert(pairs_view(out@) =~= Seq::<(Seq<char>, MatchReason)>::empty());
    match &target.alternatives {
        None => out,
        Some(curated) => {
            let ghost cur = views(curated@);
            let n = curated.len();
            let mut i: usize = 0;
            assert(cur.take(0) =~= Seq::<Seq<char>>::empty());
            while i < n
                invariant
                    n == curated@.len(),
                    cur == views(curated@),
                    cur == curated_of(target),
                    i <= n,
                    pairs_view(out@) == directory_picks(target, libs@, cur.take(i as int)),
                decreases n - i,
            {
                proof {
                    assert(cur.take(i + 1).drop_last() =~= cur.take(i as int));
                    assert(cur.take(i + 1).last() == curated@[i as int]@);
                    lemma_first_name_ci_range(libs@, curated@[i as int]@, 0);
                }
                if let Some(k) = find_name_ignore_case(libs, curated[i].as_str()) {
                    let l = &libs[k];
                    let passes = !str_eq(l.name(), target.name()) && !l.is_archived()
                        && !l.unmaintained && (!target.has_native_code() || l.has_native_code());
                    if passes && !names_contain(&out, l.name()) {
                        push_pick(&mut out, l.name(), MatchReason::Directory);
                    }
                }
                i = i + 1;
            }
            assert(cur.take(n as int) =~= cur);
            out
        },
    }
}

fn target_words_exec(target: &Library, tier: MatchReason) -> (r: Vec<String>)
    ensures
        views(r@) == target_words(target, tier),
{
    match tier {
        MatchReason::Topic => meaningful_topics(target),
        MatchReason::Name => name_tokens(target),
        _ => description_tokens(target),
    }
}

fn tier_entry_exec(target: &Library, tw: &Vec<String>, l: &Library, idx: usize, tier: MatchReason) -> (r: Option<
    Ranked,
>)
    requires
        views(tw@) == target_words(target, tier),
    ensures
        match r {
            Some(x) => tier_share(target, l, tier) matches Some((sn, su)) && x == rank_entry(idx, sn, su, weight(l)) && well_keyed(x),
            None => tier_share(target, l, tier) is None,
        },
{
    let lw = target_words_exec(l, tier);
    assert(views(lw@) == own_words(l, tier));
    let ov = overlap_count(&lw, tw);
    proof {
        lemma_overlap_bound(views(lw@), views(tw@));
    }
    let ovi = ov as i128;
    let union = (lw.len() as i128) + (tw.len() as i128) - ovi;
    let w = (l.score() as i128) + (l.log_stars_micros as i128);
    let (n, u): (i128, i128) = match tier {
        MatchReason::Topic => {
            if lw.len() == 0 || tw.len() == 0 || ov == 0 {
                return None;
            } else if ovi < 2 && 5 * ovi < union {
                return None;
            } else {
                (ovi * 1_000_000_000, union)
            }
        },
        MatchReason::Name => {
            if ov == 0 {
                return None;
            } else {
                (ovi * 100_000_000, 1)
            }
        },
        _ => {
            if ov == 0 {
                return None;
            } else if tw.len() <= 3 && 20 * ovi < 3 * union {
                return None;
            } else if tw.len() > 3 && (ovi < 2 || 5 * ovi < union) {
                return None;
            } else {
                (ovi * 500_000_000, union)
            }
        },
    };
    assert(u > 0);
    let q = n / u;
    let rem = n % u;
    assert(0 <= q <= n) by (nonlinear_arith)
        requires
            n >= 0,
            u > 0,
            q == n / u,
    ;
    Some(Ranked { idx, major: q + w, frac_num: rem as u128, frac_den: u as u128, minor: 0 })
}

proof fn lemma_tier_entries_idx(
    target: &Library,
    libs: Seq<Library>,
    picked: Seq<(Seq<char>, MatchReason)>,
    tier: MatchReason,
    n: int,
)
    ensures
        forall|k: int|
            0 <= k < tier_entries(target, libs, picked, tier, n).len() ==> #[trigger] tier_entries(
                target,
                libs,
                picked,
                tier,
                n,
            )[k].idx < n,
    decreases n,
{
    if n > 0 {
        lemma_tier_entries_idx(target, libs, picked, tier, n - 1);
        let prev = tier_entries(target, libs, picked, tier, n - 1);
        let cur = tier_entries(target, libs, picked, tier, n);
        assert forall|k: int| 0 <= k < cur.len() implies #[trigger] cur[k].idx < n by {
            if k < prev.len() {
                assert(cur[k] == prev[k]);
            }
        }
    }
}

fn collect_tier(
    target: &Library,
    libs: &Vec<Library>,
    out: &Vec<(String, MatchReason)>,
    tw: &Vec<String>,
    tier: MatchReason,
) -> (r: Vec<Ranked>)
    requires
        views(tw@) == target_words(target, tier),
    ensures
        r@ == tier_entries(target, libs@, pairs_view(out@), tier, libs@.len() as int),
        all_well_keyed(r@),
{
    let n = libs.len();
    let mut entries: Vec<Ranked> = Vec::new();
    let mut i: usize = 0;
    while i < n
        invariant
            n == libs@.len(),
            i <= n,
            views(tw@) == target_words(target, tier),
            all_well_keyed(entries@),
            entries@ == tier_entries(target, libs@, pairs_view(out@), tier, i as int),
        decreases n - i,
    {
        let l = &libs[i];
        let passes = !str_eq(l.name(), target.name()) && !l.is_archived() && !l.unmaintained && (
        !target.has_native_code() || l.has_native_code());
        if passes && !names_contain(out, l.name()) {
            if let Some(x) = tier_entry_exec(target, tw, l, i, tier) {
                entries.push(x);
            }
        }
        i = i + 1;
    }
    entries
}

fn take_hits(
    out: &mut Vec<(String, MatchReason)>,
    hits: &Vec<Ranked>,
    libs: &Vec<Library>,
    bound: usize,
    reason: MatchReason,
)
    requires
        forall|k: int| 0 <= k < hits@.len() ==> #[trigger] hits@[k].idx < libs@.len(),
    ensures
        pairs_view(final(out)@) == accept_hits(pairs_view(old(out)@), hits@, libs@, bound as int, reason),
{
    let ghost out0 = pairs_view(out@);
    let n = hits.len();
    let mut i: usize = 0;
    assert(hits@.take(0) =~= Seq::<Ranked>::empty());
    while i < n
        invariant
            n == hits@.len(),
            i <= n,
            forall|k: int| 0 <= k < hits@.len() ==> #[trigger] hits@[k].idx < libs@.len(),
            pairs_view(out@) == accept_hits(out0, hits@.take(i as int), libs@, bound as int, reason),
        decreases n - i,
    {
        proof {
            assert(hits@.take(i + 1).drop_last() =~= hits@.take(i as int));
            assert(hits@.take(i + 1).last() == hits@[i as int]);
        }
        let nm = libs[hits[i].idx].name();
        if out.len() < bound && !names_contain(out, nm) {
            push_pick(out, nm, reason);
        }
        i = i + 1;
    }
    assert(hits@.take(n as int) =~= hits@);
}

fn run_tier_exec(
    target: &Library,
    libs: &Vec<Library>,
    out: &mut Vec<(String, MatchReason)>,
    tw: &Vec<String>,
    tier: MatchReason,
    bound: usize,
)
    requires
        views(tw@) == target_words(target, tier),
    ensures
        pairs_view(final(out)@) == run_tier(target, libs@, pairs_view(old(out)@), tier, bound as int),
{
    let entries = collect_tier(target, libs, out, tw, tier);
    let hits = sort_ranked(&entries);
    proof {
        lemma_rank_sort_descending_permutation(entries@);
        lemma_tier_entries_idx(target, libs@, pairs_view(out@), tier, libs@.len() as int);
        assert forall|k: int| 0 <= k < hits@.len() implies #[trigger] hits@[k].idx < libs@.len() by {
            assert(hits@.to_multiset().count(hits@[k]) > 0);
            assert(entries@.to_multiset().count(hits@[k]) > 0);
            assert(entries@.contains(hits@[k]));
            let j = choose|j: int| 0 <= j < entries@.len() && entries@[j] == hits@[k];
            assert(entries@[j].idx < libs@.len());
        }
    }
    take_hits(out, &hits, libs, bound, tier);
}

/// The topic tier's bound, twice `limit`, is computed only when some package
/// qualifies for that tier; it must then fit in a `usize`.
pub open spec fn candidates_computable(target: &Library, libs: Seq<Library>, limit: int) -> bool {
    tier_entries(
        target,
        libs,
        directory_picks(target, libs, curated_of(target)),
        MatchReason::Topic,
        libs.len() as int,
    ).len() > 0 ==> 2 * limit <= usize::MAX
}

/// Whether the candidate search can run for `target`: twice `limit` fits in a
/// `usize`, or no package qualifies for the topic tier.
pub fn candidates_are_computable(target: &Library, libs: &Vec<Library>, limit: usize) -> (r: bool)
    ensures
        r == candidates_computable(target, libs@, limit as int),
{
    if limit <= usize::MAX / 2 {
        return true;
    }
    let out = tier_one(target, libs);
    let topics = target_words_exec(target, MatchReason::Topic);
    let entries = collect_tier(target, libs, &out, &topics, MatchReason::Topic);
    entries.len() == 0
}

/// Candidate alternative names for `target`, in rank order, each with the tier
/// that found it: curated names first, then topic overlap (until twice `limit`
/// are picked), then name tokens and description keywords (until `limit` are
/// picked), cut to `limit`.
pub fn compute_candidate_names(target: &Library, libs: &Vec<Library>, limit: usize) -> (r: Vec<
    (String, MatchReason),
>)
    requires
        candidates_computable(target, libs@, limit as int),
    ensures
        pairs_view(r@) == spec_candidate_names(target, libs@, limit as int),
{
    let mut out = tier_one(target, libs);
    let ghost o1 = pairs_view(out@);
    let topics = target_words_exec(target, MatchReason::Topic);
    let entries = collect_tier(target, libs, &out, &topics, MatchReason::Topic);
    if entries.len() > 0 {
        let bound = limit * 2;
        let hits = sort_ranked(&entries);
        proof {
            lemma_rank_sort_descending_permutation(entries@);
            lemma_tier_entries_idx(target, libs@, o1, MatchReason::Topic, libs@.len() as int);
            assert forall|k: int| 0 <= k < hits@.len() implies #[trigger] hits@[k].idx
                < libs@.len() by {
                assert(hits@.to_multiset().count(hits@[k]) > 0);
                assert(entries@.to_multiset().count(hits@[k]) > 0);
                assert(entries@.contains(hits@[k]));
                let j = choose|j: int| 0 <= j < entries@.len() && entries@[j] == hits@[k];
                assert(entries@[j].idx < libs@.len());
            }
        }
        take_hits(&mut out, &hits, libs, bound, MatchReason::Topic);
    } else {
        assert(rank_sort(entries@) =~= entries@);
    }
    assert(pairs_view(out@) == picks_after_topics(target, libs@, limit as int));
    if out.len() < limit {
        let tokens = target_words_exec(target, MatchReason::Name);
        if tokens.len() > 0 {
            run_tier_exec(target, libs, &mut out, &tokens, MatchReason::Name, limit);
        }
    }
    assert(pairs_view(out@) == picks_after_names(target, libs@, limit as int));
    if out.len() < limit {
        let keywords = target_words_exec(target, MatchReason::Description);
        if keywords.len() > 0 {
            run_tier_exec(target, libs, &mut out, &keywords, MatchReason::Description, limit);
        }
    }
    let ghost o4 = pairs_view(out@);
    out.truncate(limit);
    assert(pairs_view(out@) =~= (if o4.len() > limit {
        o4.take(limit as int)
    } else {
        o4
    }));
    out
}


/// The tier order of a reason.
pub open spec fn tier_order(r: MatchReason) -> int {
    match r {
        MatchReason::Directory => 0,
        MatchReason::Topic => 1,
        MatchReason::Name => 2,
        MatchReason::Description => 3,
    }
}

/// `nm` names a package that passes the hard filters for `target`.
pub open spec fn filtered_name(target: &Library, libs: Seq<Library>, nm: Seq<char>) -> bool {
    exists|k: int|
        0 <= k < libs.len() && #[trigger] libs[k].spec_name() == nm && passes_hard_filters(
            target,
            &libs[k],
        )
}

/// Picks without repeated names, each naming a package that passes the hard
/// filters, in tier order, none from a tier after `max_tier`.
pub open spec fn picks_well_formed(
    o: Seq<(Seq<char>, MatchReason)>,
    target: &Library,
    libs: Seq<Library>,
    max_tier: int,
) -> bool {
    &&& forall|i: int, j: int| 0 <= i < j < o.len() ==> #[trigger] o[i].0 != #[trigger] o[j].0
    &&& forall|i: int| 0 <= i < o.len() ==> filtered_name(target, libs, #[trigger] o[i].0)
    &&& forall|i: int, j: int|
        0 <= i < j < o.len() ==> tier_order(#[trigger] o[i].1) <= tier_order(#[trigger] o[j].1)
    &&& forall|i: int| 0 <= i < o.len() ==> tier_order(#[trigger] o[i].1) <= max_tier
}

proof fn lemma_push_pick_well_formed(
    o: Seq<(Seq<char>, MatchReason)>,
    target: &Library,
    libs: Seq<Library>,
    k: int,
    reason: MatchReason,
    max_tier: int,
)
    requires
        picks_well_formed(o, target, libs, max_tier),
        tier_order(reason) == max_tier,
        0 <= k < libs.len(),
        passes_hard_filters(target, &libs[k]),
        !picked_names(o).contains(libs[k].spec_name()),
    ensures
        picks_well_formed(o.push((libs[k].spec_name(), reason)), target, libs, max_tier),
{
    let nm = libs[k].spec_name();
    let u = o.push((nm, reason));
    assert forall|i: int| 0 <= i < o.len() implies o[i].0 != nm by {
        assert(picked_names(o)[i] == o[i].0);
    }
    assert(filtered_name(target, libs, nm));
    assert forall|i: int| 0 <= i < u.len() implies filtered_name(target, libs, #[trigger] u[i].0) by {
        if i < o.len() {
            assert(u[i] == o[i]);
        }
    }
    assert forall|i: int, j: int| 0 <= i < j < u.len() implies #[trigger] u[i].0 != #[trigger] u[j].0 by {
        assert(u[i] == o[i]);
        if j < o.len() {
            assert(u[j] == o[j]);
        }
    }
    assert forall|i: int, j: int| 0 <= i < j < u.len() implies tier_order(#[trigger] u[i].1) <= tier_order(
        #[trigger] u[j].1,
    ) by {
        assert(u[i] == o[i]);
        if j < o.len() {
            assert(u[j] == o[j]);
        }
    }
    assert forall|i: int| 0 <= i < u.len() implies tier_order(#[trigger] u[i].1) <= max_tier by {
        if i < o.len() {
            assert(u[i] == o[i]);
        }
    }
}

proof fn lemma_directory_picks_well_formed(target: &Library, libs: Seq<Library>, cur: Seq<Seq<char>>)
    ensures
        picks_well_formed(directory_picks(target, libs, cur), target, libs, 0),
    decreases cur.len(),
{
    if cur.len() > 0 {
        lemma_directory_picks_well_formed(target, libs, cur.drop_last());
        lemma_first_name_ci_range(libs, cur.last(), 0);
        let o = directory_picks(target, libs, cur.drop_last());
        match first_name_ci(libs, cur.last(), 0) {
            Some(i) => {
                if passes_hard_filters(target, &libs[i]) && !picked_names(o).contains(
                    libs[i].spec_name(),
                ) {
                    lemma_push_pick_well_formed(o, target, libs, i, MatchReason::Directory, 0);
                }
            },
            None => {},
        }
    }
}

proof fn lemma_well_formed_raise(
    o: Seq<(Seq<char>, MatchReason)>,
    target: &Library,
    libs: Seq<Library>,
    a: int,
    b: int,
)
    requires
        picks_well_formed(o, target, libs, a),
        a <= b,
    ensures
        picks_well_formed(o, target, libs, b),
{
}

proof fn lemma_accept_hits_well_formed(
    out0: Seq<(Seq<char>, MatchReason)>,
    hits: Seq<Ranked>,
    target: &Library,
    libs: Seq<Library>,
    bound: int,
    reason: MatchReason,
)
    requires
        picks_well_formed(out0, target, libs, tier_order(reason)),
        forall|k: int|
            0 <= k < hits.len() ==> #[trigger] hits[k].idx < libs.len() && passes_hard_filters(
                target,
                &libs[hits[k].idx as int],
            ),
    ensures
        picks_well_formed(accept_hits(out0, hits, libs, bound, reason), target, libs, tier_order(reason)),
        accept_hits(out0, hits, libs, bound, reason).len() <= out0.len() || accept_hits(
            out0,
            hits,
            libs,
            bound,
            reason,
        ).len() <= bound,
    decreases hits.len(),
{
    if hits.len() > 0 {
        assert forall|k: int| 0 <= k < hits.drop_last().len() implies #[trigger] hits.drop_last()[k].idx
            < libs.len() && passes_hard_filters(target, &libs[hits.drop_last()[k].idx as int]) by {
            assert(hits.drop_last()[k] == hits[k]);
        }
        lemma_accept_hits_well_formed(out0, hits.drop_last(), target, libs, bound, reason);
        let o = accept_hits(out0, hits.drop_last(), libs, bound, reason);
        let h = hits.last();
        assert(h == hits[hits.len() - 1]);
        let nm = libs[h.idx as int].spec_name();
        if !(o.len() >= bound || picked_names(o).contains(nm)) {
            lemma_push_pick_well_formed(o, target, libs, h.idx as int, reason, tier_order(reason));
        }
    }
}

proof fn lemma_tier_entries_pass(
    target: &Library,
    libs: Seq<Library>,
    picked: Seq<(Seq<char>, MatchReason)>,
    tier: MatchReason,
    n: int,
)
    requires
        n <= libs.len() <= usize::MAX,
    ensures
        forall|k: int|
            0 <= k < tier_entries(target, libs, picked, tier, n).len() ==> #[trigger] tier_entries(
                target,
                libs,
                picked,
                tier,
                n,
            )[k].idx < n && passes_hard_filters(
                target,
                &libs[tier_entries(target, libs, picked, tier, n)[k].idx as int],
            ),
    decreases n,
{
    if n > 0 {
        lemma_tier_entries_pass(target, libs, picked, tier, n - 1);
        let prev = tier_entries(target, libs, picked, tier, n - 1);
        let cur = tier_entries(target, libs, picked, tier, n);
        assert forall|k: int| 0 <= k < cur.len() implies #[trigger] cur[k].idx < n
            && passes_hard_filters(target, &libs[cur[k].idx as int]) by {
            if k < prev.len() {
                assert(cur[k] == prev[k]);
            }
        }
    }
}

proof fn lemma_run_tier_well_formed(
    target: &Library,
    libs: Seq<Library>,
    picked: Seq<(Seq<char>, MatchReason)>,
    tier: MatchReason,
    bound: int,
)
    requires
        picks_well_formed(picked, target, libs, tier_order(tier)),
        libs.len() <= usize::MAX,
    ensures
        picks_well_formed(run_tier(target, libs, picked, tier, bound), target, libs, tier_order(tier)),
        run_tier(target, libs, picked, tier, bound).len() <= picked.len() || run_tier(
            target,
            libs,
            picked,
            tier,
            bound,
        ).len() <= bound,
{
    let e = tier_entries(target, libs, picked, tier, libs.len() as int);
    let h = rank_sort(e);
    lemma_tier_entries_pass(target, libs, picked, tier, libs.len() as int);
    lemma_rank_sort_descending_permutation(e);
    assert forall|k: int| 0 <= k < h.len() implies #[trigger] h[k].idx < libs.len()
        && passes_hard_filters(target, &libs[h[k].idx as int]) by {
        assert(h.to_multiset().count(h[k]) > 0);
        assert(e.to_multiset().count(h[k]) > 0);
        assert(e.contains(h[k]));
        let j = choose|j: int| 0 <= j < e.len() && e[j] == h[k];
        assert(e[j].idx < libs.len());
    }
    lemma_accept_hits_well_formed(picked, h, target, libs, bound, tier);
}

/// The candidate list never repeats a name, holds at most `limit` names, names
/// only packages that pass the hard filters (other than the target, neither
/// archived nor unmaintained, native when the target is native), and lists the
/// tiers in order: curated, then topic, then name, then description matches.
pub proof fn lemma_candidate_names_well_formed(target: &Library, libs: Seq<Library>, limit: int)
    requires
        limit >= 0,
        libs.len() <= usize::MAX,
    ensures
        picks_well_formed(spec_candidate_names(target, libs, limit), target, libs, 3),
        spec_candidate_names(target, libs, limit).len() <= limit,
{
    let o1 = directory_picks(target, libs, curated_of(target));
    lemma_directory_picks_well_formed(target, libs, curated_of(target));
    lemma_well_formed_raise(o1, target, libs, 0, 1);
    lemma_run_tier_well_formed(target, libs, o1, MatchReason::Topic, 2 * limit);
    let o2 = picks_after_topics(target, libs, limit);
    lemma_well_formed_raise(o2, target, libs, 1, 2);
    if o2.len() < limit && spec_name_tokens(target).len() > 0 {
        lemma_run_tier_well_formed(target, libs, o2, MatchReason::Name, limit);
    }
    let o3 = picks_after_names(target, libs, limit);
    lemma_well_formed_raise(o3, target, libs, 2, 3);
    let o4 = if o3.len() < limit && spec_description_tokens(target).len() > 0 {
        lemma_run_tier_well_formed(target, libs, o3, MatchReason::Description, limit);
        run_tier(target, libs, o3, MatchReason::Description, limit)
    } else {
        o3
    };
    if o4.len() > limit {
        let t = o4.take(limit);
        assert forall|i: int| 0 <= i < t.len() implies filtered_name(target, libs, #[trigger] t[i].0) by {
            assert(t[i] == o4[i]);
        }
        assert forall|i: int, j: int| 0 <= i < j < t.len() implies #[trigger] t[i].0 != #[trigger] t[j].0 by {
            assert(t[i] == o4[i]);
            assert(t[j] == o4[j]);
        }
        assert forall|i: int, j: int| 0 <= i < j < t.len() implies tier_order(#[trigger] t[i].1) <= tier_order(
            #[trigger] t[j].1,
        ) by {
            assert(t[i] == o4[i]);
            assert(t[j] == o4[j]);
        }
        assert forall|i: int| 0 <= i < t.len() implies tier_order(#[trigger] t[i].1) <= 3 by {
            assert(t[i] == o4[i]);
        }
    }
}

/// The hard filters, spelled out: another package than the target by name,
/// neither archived nor unmaintained, and with native code when the target has
/// native code. A pure-JS target accepts packages with or without native code.
pub proof fn law_hard_filters(target: &Library, l: &Library)
    ensures
        passes_hard_filters(target, l) <==> (l.spec_name() != target.spec_name()
            && !l.spec_is_archived() && !l.unmaintained && (target.spec_has_native_code()
            ==> l.spec_has_native_code())),
        !target.spec_has_native_code() && l.spec_name() != target.spec_name()
            && !l.spec_is_archived() && !l.unmaintained ==> passes_hard_filters(target, l),
{
}

/// No tier passes over a qualifying package: every package among the first `n`
/// that is another package than the target, neither archived nor unmaintained,
/// native when the target is native (whatever it is when the target is pure JS),
/// not picked yet and qualifying for the tier has an entry in the tier, ranked
/// by its exact share plus weight.
pub proof fn law_tier_entries_complete(
    target: &Library,
    libs: Seq<Library>,
    picked: Seq<(Seq<char>, MatchReason)>,
    tier: MatchReason,
    n: int,
    k: int,
)
    requires
        0 <= k < n <= libs.len(),
        libs[k].spec_name() != target.spec_name(),
        !libs[k].spec_is_archived(),
        !libs[k].unmaintained,
        target.spec_has_native_code() ==> libs[k].spec_has_native_code(),
        !picked_names(picked).contains(libs[k].spec_name()),
        tier_share(target, &libs[k], tier) is Some,
    ensures
        exists|j: int|
            0 <= j < tier_entries(target, libs, picked, tier, n).len() && #[trigger] tier_entries(
                target,
                libs,
                picked,
                tier,
                n,
            )[j] == rank_entry(
                k as usize,
                (tier_share(target, &libs[k], tier)->0).0,
                (tier_share(target, &libs[k], tier)->0).1,
                weight(&libs[k]),
            ),
    decreases n,
{
    let e = rank_entry(
        k as usize,
        (tier_share(target, &libs[k], tier)->0).0,
        (tier_share(target, &libs[k], tier)->0).1,
        weight(&libs[k]),
    );
    let cur = tier_entries(target, libs, picked, tier, n);
    if k == n - 1 {
        assert(cur.last() == e);
        assert(cur[cur.len() - 1] == e);
    } else {
        law_tier_entries_complete(target, libs, picked, tier, n - 1, k);
        let prev = tier_entries(target, libs, picked, tier, n - 1);
        let j = choose|j: int| 0 <= j < prev.len() && #[trigger] prev[j] == e;
        assert(cur[j] == prev[j]);
    }
}

/// No curated alternative is passed over: when a curated name resolves (up to
/// ASCII case) to a package that is another package than the target, neither
/// archived nor unmaintained, and native when the target is native, that
/// package's name is among the directory picks.
pub proof fn law_directory_picks_complete(
    target: &Library,
    libs: Seq<Library>,
    cur: Seq<Seq<char>>,
    k: int,
    i: int,
)
    requires
        0 <= k < cur.len(),
        first_name_ci(libs, cur[k], 0) == Some(i),
        libs[i].spec_name() != target.spec_name(),
        !libs[i].spec_is_archived(),
        !libs[i].unmaintained,
        target.spec_has_native_code() ==> libs[i].spec_has_native_code(),
    ensures
        picked_names(directory_picks(target, libs, cur)).contains(libs[i].spec_name()),
    decreases cur.len(),
{
    let o = directory_picks(target, libs, cur.drop_last());
    let nm = libs[i].spec_name();
    if k == cur.len() - 1 {
        assert(cur.last() == cur[k]);
        if !picked_names(o).contains(nm) {
            let r = directory_picks(target, libs, cur);
            assert(r == o.push((nm, MatchReason::Directory)));
            assert(picked_names(r)[o.len() as int] == nm);
        } else {
            lemma_picks_grow(target, libs, cur);
        }
    } else {
        assert(cur.drop_last()[k] == cur[k]);
        law_directory_picks_complete(target, libs, cur.drop_last(), k, i);
        lemma_picks_grow(target, libs, cur);
    }
}

/// Each curated name only adds to the directory picks.
proof fn lemma_picks_grow(target: &Library, libs: Seq<Library>, cur: Seq<Seq<char>>)
    requires
        cur.len() > 0,
    ensures
        forall|x: Seq<char>|
            picked_names(directory_picks(target, libs, cur.drop_last())).contains(x) ==> #[trigger] picked_names(
                directory_picks(target, libs, cur),
            ).contains(x),
{
    let o = directory_picks(target, libs, cur.drop_last());
    let r = directory_picks(target, libs, cur);
    assert forall|x: Seq<char>| picked_names(o).contains(x) implies #[trigger] picked_names(r).contains(x) by {
        let j = choose|j: int| 0 <= j < picked_names(o).len() && picked_names(o)[j] == x;
        if r != o {
            let p = r.last();
            assert(r == o.push(p));
            assert(picked_names(r)[j] == picked_names(o)[j]);
        }
    }
}

/// The topic tier's qualification: a package sharing no topic with the target
/// does not qualify; one sharing at least two topics, or whose Jaccard index
/// with the target is at least one fifth, qualifies with share 10⁹ × overlap /
/// union (1000 × Jaccard, in millionths).
pub proof fn law_topic_share(target: &Library, l: &Library)
    ensures
        ({
            let tw = spec_meaningful_topics(target);
            let lw = spec_meaningful_topics(l);
            let ov = overlap(lw, tw) as int;
            let union = lw.len() + tw.len() - ov;
            &&& ov == 0 ==> tier_share(target, l, MatchReason::Topic) is None
            &&& (ov >= 2 || (ov >= 1 && 5 * ov >= union)) ==> tier_share(target, l, MatchReason::Topic)
                == Some((ov * 1_000_000_000, union))
        }),
{
    lemma_overlap_bound(spec_meaningful_topics(l), spec_meaningful_topics(target));
}

} // verus!