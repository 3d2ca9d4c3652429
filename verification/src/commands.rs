//! The selections behind the query commands: which packages each command
//! shows, and in which order. Each returns positions into the package list.
use vstd::prelude::*;
use crate::api::Library;
use crate::candidates::{
    candidates_are_computable, candidates_computable, compute_candidate_names, find_name, find_name_ignore_case,
    first_name_ci, first_name_eq, pairs_view, spec_candidate_names, MatchReason,
};
use crate::dates::{iso8601_computable, iso8601_is_computable, parse_iso8601_secs, spec_parse_iso8601_secs};
use crate::rank::{
    all_well_keyed, law_rank_sort_stable, lemma_top_entries, lemma_top_keeps_all, lemma_whole_keys, outranks,
    positions_increasing, rank_sort, well_keyed,
    same_key, sort_ranked, take_indices, ties_in_list_order, top_indices, Ranked,
};
use crate::text::{chars_eq, chars_of, lowercase, occurs_in, str_contains, to_lowercase};

verus! {

/// Packages matching a query, most-starred first, then by weekly downloads.
pub open spec fn search_entries(libs: Seq<Library>, q: Seq<char>, n: int) -> Seq<Ranked>
    decreases n,
{
    if n <= 0 {
        Seq::empty()
    } else {
        let prev = search_entries(libs, q, n - 1);
        let l = libs[n - 1];
        if l.spec_matches_query(q) {
            prev.push(
                Ranked {
                    idx: (n - 1) as usize, frac_num: 0, frac_den: 1,
                    major: l.spec_stars() as i128,
                    minor: l.spec_weekly_downloads() as i128,
                },
            )
        } else {
            prev
        }
    }
}

/// The positions of the first `limit` packages that match `query`, ordered by
/// stars and then weekly downloads, both descending (ties keep list order).
pub fn search(libs: &Vec<Library>, query: &str, limit: usize) -> (r: Vec<usize>)
    ensures
        r@ == top_indices(rank_sort(search_entries(libs@, query@, libs@.len() as int)), limit as int),
{
    let n = libs.len();
    let mut entries: Vec<Ranked> = Vec::new();
    let mut i: usize = 0;
    while i < n
        invariant
            n == libs@.len(),
            i <= n,
            all_well_keyed(entries@),
            entries@ == search_entries(libs@, query@, i as int),
        decreases n - i,
    {
        let l = &libs[i];
        if l.matches_query(query) {
            entries.push(
                Ranked { idx: i, frac_num: 0, frac_den: 1, major: l.stars() as i128, minor: l.weekly_downloads() as i128 },
            );
        }
        i = i + 1;
    }
    let sorted = sort_ranked(&entries);
    take_indices(&sorted, limit)
}

/// The package `info` describes: the first whose name equals `name` up to
/// ASCII case; nothing when no name does.
pub fn info(libs: &Vec<Library>, name: &str) -> (r: Option<usize>)
    ensures
        match r {
            Some(i) => first_name_ci(libs@, name@, 0) == Some(i as int),
            None => first_name_ci(libs@, name@, 0) is None,
        },
{
    find_name_ignore_case(libs, name)
}

/// The two packages `compare` sets side by side, each the first whose name
/// equals the given name up to ASCII case. When one is missing the error holds
/// the missing name, the first one when both are.
pub fn compare(libs: &Vec<Library>, a: &str, b: &str) -> (r: Result<(usize, usize), String>)
    ensures
        match (first_name_ci(libs@, a@, 0), first_name_ci(libs@, b@, 0)) {
            (Some(i), Some(j)) => r == Ok::<(usize, usize), String>((i as usize, j as usize)),
            (None, _) => r matches Err(e) && e@ == a@,
            (Some(_), None) => r matches Err(e) && e@ == b@,
        },
{
    let i = match find_name_ignore_case(libs, a) {
        Some(i) => i,
        None => {
            return Err(a.to_string());
        },
    };
    let j = match find_name_ignore_case(libs, b) {
        Some(j) => j,
        None => {
            return Err(b.to_string());
        },
    };
    Ok((i, j))
}

/// Packages that are neither archived nor unmaintained, with native code unless
/// pure-JS packages are included, by weekly downloads.
pub open spec fn trending_entries(libs: Seq<Library>, include_js: bool, n: int) -> Seq<Ranked>
    decreases n,
{
    if n <= 0 {
        Seq::empty()
    } else {
        let prev = trending_entries(libs, include_js, n - 1);
        let l = libs[n - 1];
        if !l.spec_is_archived() && !l.unmaintained && (include_js || l.spec_has_native_code()) {
            prev.push(
                Ranked {
                    idx: (n - 1) as usize, frac_num: 0, frac_den: 1,
                    major: l.spec_weekly_downloads() as i128,
                    minor: 0,
                },
            )
        } else {
            prev
        }
    }
}

/// The positions of the `limit` most-downloaded maintained packages
/// (native-only unless `include_js`).
pub fn trending(libs: &Vec<Library>, limit: usize, include_js: bool) -> (r: Vec<usize>)
    ensures
        r@ == top_indices(
            rank_sort(trending_entries(libs@, include_js, libs@.len() as int)),
            limit as int,
        ),
{
    let n = libs.len();
    let mut entries: Vec<Ranked> = Vec::new();
    let mut i: usize = 0;
    while i < n
        invariant
            n == libs@.len(),
            i <= n,
            all_well_keyed(entries@),
            entries@ == trending_entries(libs@, include_js, i as int),
        decreases n - i,
    {
        let l = &libs[i];
        if !l.is_archived() && !l.unmaintained && (include_js || l.has_native_code()) {
            entries.push(Ranked { idx: i, frac_num: 0, frac_den: 1, major: l.weekly_downloads() as i128, minor: 0 });
        }
        i = i + 1;
    }
    let sorted = sort_ranked(&entries);
    take_indices(&sorted, limit)
}

/// The filters of `discover` before the push date is read.
pub open spec fn discover_prefilter(l: &Library, min_score: i64) -> bool {
    !l.spec_is_archived() && !l.unmaintained && l.spec_has_native_code() && l.spec_score()
        >= min_score
}

/// Pushed within the window: the push date reads as a timestamp no more than
/// `window` seconds before `now`.
pub open spec fn pushed_within(l: &Library, now: i64, window: int) -> bool {
    match l.spec_pushed_at() {
        Some(p) => match spec_parse_iso8601_secs(p) {
            Some(secs) => now - secs <= window,
            None => false,
        },
        None => false,
    }
}

/// The push date of a prefiltered package can be read and compared with `now`
/// without overflow.
pub open spec fn discover_computable(l: &Library, now: i64) -> bool {
    match l.spec_pushed_at() {
        Some(p) => iso8601_computable(p) && match spec_parse_iso8601_secs(p) {
            Some(secs) => i64::MIN <= now - secs <= i64::MAX,
            None => true,
        },
        None => true,
    }
}

/// Actively maintained, well-scored native packages, by score then stars.
pub open spec fn discover_entries(
    libs: Seq<Library>,
    min_score: i64,
    days: u32,
    now: i64,
    n: int,
) -> Seq<Ranked>
    decreases n,
{
    if n <= 0 {
        Seq::empty()
    } else {
        let prev = discover_entries(libs, min_score, days, now, n - 1);
        let l = libs[n - 1];
        if discover_prefilter(&l, min_score) && pushed_within(&l, now, days * 86400) {
            prev.push(
                Ranked { idx: (n - 1) as usize, frac_num: 0, frac_den: 1, major: l.spec_score() as i128, minor: l.spec_stars() as i128 },
            )
        } else {
            prev
        }
    }
}

/// The positions of the first `limit` maintained native packages scoring at
/// least `min_score` (millionths) and pushed within `days` days of `now`
/// (Unix seconds), ordered by score and then stars, both descending.
pub fn discover(libs: &Vec<Library>, limit: usize, min_score: i64, days: u32, now: i64) -> (r: Vec<
    usize,
>)
    requires
        forall|i: int|
            0 <= i < libs@.len() && discover_prefilter(#[trigger] &libs@[i], min_score)
                ==> discover_computable(&libs@[i], now),
    ensures
        r@ == top_indices(
            rank_sort(discover_entries(libs@, min_score, days, now, libs@.len() as int)),
            limit as int,
        ),
{
    let n = libs.len();
    let threshold: i64 = (days as i64) * 86400;
    let mut entries: Vec<Ranked> = Vec::new();
    let mut i: usize = 0;
    while i < n
        invariant
            n == libs@.len(),
            i <= n,
            all_well_keyed(entries@),
            threshold == days * 86400,
            forall|i: int|
                0 <= i < libs@.len() && discover_prefilter(#[trigger] &libs@[i], min_score)
                    ==> discover_computable(&libs@[i], now),
            entries@ == discover_entries(libs@, min_score, days, now, i as int),
        decreases n - i,
    {
        let l = &libs[i];
        if !l.is_archived() && !l.unmaintained && l.has_native_code() && l.score() >= min_score {
            assert(discover_prefilter(&libs@[i as int], min_score));
            if let Some(p) = l.pushed_at() {
                if let Some(secs) = parse_iso8601_secs(p) {
                    if now - secs <= threshold {
                        entries.push(
                            Ranked { idx: i, frac_num: 0, frac_den: 1, major: l.score() as i128, minor: l.stars() as i128 },
                        );
                    }
                }
            }
        }
        i = i + 1;
    }
    let sorted = sort_ranked(&entries);
    take_indices(&sorted, limit)
}

/// Whether `discover` can read every prefiltered push date and compare it with
/// `now` without an arithmetic overflow.
pub fn discover_is_computable(libs: &Vec<Library>, min_score: i64, now: i64) -> (r: bool)
    ensures
        r == forall|i: int|
            0 <= i < libs@.len() && discover_prefilter(#[trigger] &libs@[i], min_score)
                ==> discover_computable(&libs@[i], now),
{
    let n = libs.len();
    let mut i: usize = 0;
    while i < n
        invariant
            n == libs@.len(),
            i <= n,
            forall|j: int|
                0 <= j < i && discover_prefilter(#[trigger] &libs@[j], min_score)
                    ==> discover_computable(&libs@[j], now),
        decreases n - i,
    {
        let l = &libs[i];
        if !l.is_archived() && !l.unmaintained && l.has_native_code() && l.score() >= min_score {
            if let Some(p) = l.pushed_at() {
                if !iso8601_is_computable(p) {
                    assert(!discover_computable(&libs@[i as int], now));
                    return false;
                }
                if let Some(secs) = parse_iso8601_secs(p) {
                    if now.checked_sub(secs).is_none() {
                        assert(!discover_computable(&libs@[i as int], now));
                        return false;
                    }
                }
            }
        }
        i = i + 1;
    }
    true
}

/// The `list` command's filters.
pub struct ListFilters {
    pub category: Option<String>,
    pub platforms: Vec<String>,
    pub works_with: Vec<String>,
    pub module_type: Option<String>,
    pub new_arch: bool,
    pub has_types: bool,
    pub native: bool,
    pub config_plugin: bool,
    pub nightly: bool,
    pub include_unmaintained: bool,
    pub no_dev: bool,
    pub limit: usize,
    pub refresh: bool,
    pub json: bool,
}

/// Whether a package supports a platform named case-insensitively.
pub open spec fn spec_platform_supported(l: &Library, name: Seq<char>) -> bool {
    let n = lowercase(name);
    if n == "ios"@ {
        l.ios
    } else if n == "android"@ {
        l.android
    } else if n == "web"@ {
        l.web
    } else if n == "macos"@ {
        l.macos
    } else if n == "tvos"@ {
        l.tvos
    } else if n == "visionos"@ {
        l.visionos
    } else if n == "windows"@ {
        l.windows
    } else {
        false
    }
}

fn is_word(v: &Vec<char>, w: &str) -> (r: bool)
    ensures
        r == (v@ == w@),
{
    let wv = chars_of(w);
    chars_eq(v, &wv)
}

pub fn platform_supported(l: &Library, name: &str) -> (r: bool)
    ensures
        r == spec_platform_supported(l, name@),
{
    let lower = to_lowercase(name);
    let v = chars_of(lower.as_str());
    if is_word(&v, "ios") {
        l.ios
    } else if is_word(&v, "android") {
        l.android
    } else if is_word(&v, "web") {
        l.web
    } else if is_word(&v, "macos") {
        l.macos
    } else if is_word(&v, "tvos") {
        l.tvos
    } else if is_word(&v, "visionos") {
        l.visionos
    } else if is_word(&v, "windows") {
        l.windows
    } else {
        false
    }
}

/// `s` with every underscore replaced by a hyphen.
pub open spec fn underscores_to_hyphens(s: Seq<char>) -> Seq<char> {
    s.map_values(|c: char| if c == '_' { '-' } else { c })
}

/// Whether a package is compatible with a target named case-insensitively
/// (underscores read as hyphens).
pub open spec fn spec_works_with_target(l: &Library, name: Seq<char>) -> bool {
    let n = underscores_to_hyphens(lowercase(name));
    if n == "expo-go"@ || n == "expogo"@ {
        l.expo_go
    } else if n == "fireos"@ {
        l.fireos
    } else if n == "horizon"@ {
        l.horizon
    } else if n == "vegaos"@ {
        match &l.vegaos {
            Some(v) => v.spec_is_truthy(),
            None => false,
        }
    } else {
        false
    }
}

pub fn works_with_target(l: &Library, name: &str) -> (r: bool)
    ensures
        r == spec_works_with_target(l, name@),
{
    let lower = to_lowercase(name);
    let v = chars_of(lower.as_str());
    let n = v.len();
    let mut w: Vec<char> = Vec::new();
    let mut i: usize = 0;
    while i < n
        invariant
            n == v@.len(),
            i <= n,
            w@ == underscores_to_hyphens(v@.take(i as int)),
        decreases n - i,
    {
        let c = v[i];
        w.push(
            if c == '_' {
                '-'
            } else {
                c
            },
        );
        i = i + 1;
        assert(w@ =~= underscores_to_hyphens(v@.take(i as int)));
    }
    assert(v@.take(n as int) =~= v@);
    if is_word(&w, "expo-go") || is_word(&w, "expogo") {
        l.expo_go
    } else if is_word(&w, "fireos") {
        l.fireos
    } else if is_word(&w, "horizon") {
        l.horizon
    } else if is_word(&w, "vegaos") {
        match &l.vegaos {
            Some(v) => v.is_truthy(),
            None => false,
        }
    } else {
        false
    }
}

/// The repository's module type, else the empty string.
pub open spec fn module_type_of(l: &Library) -> Seq<char> {
    match &l.github {
        Some(g) => match &g.module_type {
            Some(m) => m@,
            None => Seq::empty(),
        },
        None => Seq::empty(),
    }
}

/// The lowercased category occurs in a lowercased repository topic or in the
/// lowercased topic string.
pub open spec fn in_category(l: &Library, cat: Seq<char>) -> bool {
    let c = lowercase(cat);
    let in_topics = match &l.github {
        Some(g) => exists|k: int| 0 <= k < g.topics@.len() && occurs_in(c, lowercase(#[trigger] g.topics@[k]@)),
        None => false,
    };
    in_topics || occurs_in(c, lowercase(l.topics_flat@))
}

/// All filters of `list` hold of a package.
pub open spec fn list_keeps(f: &ListFilters, l: &Library) -> bool {
    &&& f.include_unmaintained || !(l.spec_is_archived() || l.unmaintained)
    &&& !(f.no_dev && l.dev)
    &&& match &f.category {
        Some(cat) => in_category(l, cat@),
        None => true,
    }
    &&& forall|k: int| 0 <= k < f.platforms@.len() ==> spec_platform_supported(l, #[trigger] f.platforms@[k]@)
    &&& forall|k: int| 0 <= k < f.works_with@.len() ==> spec_works_with_target(l, #[trigger] f.works_with@[k]@)
    &&& match &f.module_type {
        Some(mt) => occurs_in(lowercase(mt@), lowercase(module_type_of(l))),
        None => true,
    }
    &&& f.new_arch ==> l.spec_supports_new_architecture() == Some(true)
    &&& f.has_types ==> l.spec_has_types()
    &&& f.native ==> l.spec_has_native_code()
    &&& f.config_plugin ==> match &l.config_plugin {
        Some(v) => v.spec_is_truthy(),
        None => false,
    }
    &&& f.nightly ==> l.nightly_program
}

/// Packages kept by the filters, by score then stars.
pub open spec fn list_entries(f: &ListFilters, libs: Seq<Library>, n: int) -> Seq<Ranked>
    decreases n,
{
    if n <= 0 {
        Seq::empty()
    } else {
        let prev = list_entries(f, libs, n - 1);
        let l = libs[n - 1];
        if list_keeps(f, &l) {
            prev.push(
                Ranked { idx: (n - 1) as usize, frac_num: 0, frac_den: 1, major: l.spec_score() as i128, minor: l.spec_stars() as i128 },
            )
        } else {
            prev
        }
    }
}

fn in_category_exec(l: &Library, cat_lc: &str) -> (r: bool)
    ensures
        r == (match &l.github {
            Some(g) => exists|k: int| 0 <= k < g.topics@.len() && occurs_in(cat_lc@, lowercase(#[trigger] g.topics@[k]@)),
            None => false,
        } || occurs_in(cat_lc@, lowercase(l.topics_flat@))),
{
    let in_topics = match &l.github {
        Some(g) => {
            let n = g.topics.len();
            let mut found = false;
            let mut k: usize = 0;
            while k < n && !found
                invariant
                    n == g.topics@.len(),
                    k <= n,
                    found ==> exists|j: int| 0 <= j < n && occurs_in(cat_lc@, lowercase(#[trigger] g.topics@[j]@)),
                    !found ==> forall|j: int| 0 <= j < k ==> !occurs_in(cat_lc@, lowercase(#[trigger] g.topics@[j]@)),
                decreases n - k,
            {
                let t = to_lowercase(g.topics[k].as_str());
                if str_contains(t.as_str(), cat_lc) {
                    found = true;
                }
                k = k + 1;
            }
            found
        },
        None => false,
    };
    if in_topics {
        return true;
    }
    let flat = to_lowercase(l.topics_flat.as_str());
    str_contains(flat.as_str(), cat_lc)
}

fn list_keeps_exec(f: &ListFilters, l: &Library, cat_lc: &Option<String>, mt_lc: &Option<String>) -> (r: bool)
    requires
        match &f.category {
            Some(c) => cat_lc matches Some(x) && x@ == lowercase(c@),
            None => cat_lc is None,
        },
        match &f.module_type {
            Some(m) => mt_lc matches Some(x) && x@ == lowercase(m@),
            None => mt_lc is None,
        },
    ensures
        r == list_keeps(f, l),
{
    if !f.include_unmaintained && (l.is_archived() || l.unmaintained) {
        return false;
    }
    if f.no_dev && l.dev {
        return false;
    }
    if let Some(c) = cat_lc {
        if !in_category_exec(l, c.as_str()) {
            return false;
        }
    }
    let np = f.platforms.len();
    let mut k: usize = 0;
    while k < np
        invariant
            np == f.platforms@.len(),
            k <= np,
            forall|j: int| 0 <= j < k ==> spec_platform_supported(l, #[trigger] f.platforms@[j]@),
        decreases np - k,
    {
        if !platform_supported(l, f.platforms[k].as_str()) {
            return false;
        }
        k = k + 1;
    }
    let nw = f.works_with.len();
    let mut k: usize = 0;
    while k < nw
        invariant
            nw == f.works_with@.len(),
            k <= nw,
            forall|j: int| 0 <= j < k ==> spec_works_with_target(l, #[trigger] f.works_with@[j]@),
        decreases nw - k,
    {
        if !works_with_target(l, f.works_with[k].as_str()) {
            return false;
        }
        k = k + 1;
    }
    if let Some(mt) = mt_lc {
        let lib_mt: &str = match &l.github {
            Some(g) => match &g.module_type {
                Some(m) => m.as_str(),
                None => {
                    proof {
                        reveal_strlit("");
                    }
                    ""
                },
            },
            None => {
                proof {
                    reveal_strlit("");
                }
                ""
            },
        };
        assert(lib_mt@ == module_type_of(l));
        let lib_lc = to_lowercase(lib_mt);
        if !str_contains(lib_lc.as_str(), mt.as_str()) {
            return false;
        }
    }
    if f.new_arch {
        match l.supports_new_architecture() {
            Some(true) => {},
            _ => {
                return false;
            },
        }
    }
    if f.has_types && !l.has_types() {
        return false;
    }
    if f.native && !l.has_native_code() {
        return false;
    }
    if f.config_plugin {
        let truthy = match &l.config_plugin {
            Some(v) => v.is_truthy(),
            None => false,
        };
        if !truthy {
            return false;
        }
    }
    if f.nightly && !l.nightly_program {
        return false;
    }
    true
}

/// The positions of the first `f.limit` packages that pass every filter,
/// ordered by score and then stars, both descending.
pub fn list(f: &ListFilters, libs: &Vec<Library>) -> (r: Vec<usize>)
    ensures
        r@ == top_indices(rank_sort(list_entries(f, libs@, libs@.len() as int)), f.limit as int),
{
    let cat_lc: Option<String> = match &f.category {
        Some(c) => Some(to_lowercase(c.as_str())),
        None => None,
    };
    let mt_lc: Option<String> = match &f.module_type {
        Some(m) => Some(to_lowercase(m.as_str())),
        None => None,
    };
    let n = libs.len();
    let mut entries: Vec<Ranked> = Vec::new();
    let mut i: usize = 0;
    while i < n
        invariant
            n == libs@.len(),
            i <= n,
            all_well_keyed(entries@),
            match &f.category {
                Some(c) => cat_lc matches Some(x) && x@ == lowercase(c@),
                None => cat_lc is None,
            },
            match &f.module_type {
                Some(m) => mt_lc matches Some(x) && x@ == lowercase(m@),
                None => mt_lc is None,
            },
            entries@ == list_entries(f, libs@, i as int),
        decreases n - i,
    {
        let l = &libs[i];
        if list_keeps_exec(f, l, &cat_lc, &mt_lc) {
            entries.push(Ranked { idx: i, frac_num: 0, frac_den: 1, major: l.score() as i128, minor: l.stars() as i128 });
        }
        i = i + 1;
    }
    let sorted = sort_ranked(&entries);
    take_indices(&sorted, f.limit)
}

/// Each candidate name resolved to the first package of exactly that name
/// (names without a package are left out).
pub open spec fn resolve_picks(libs: Seq<Library>, picks: Seq<(Seq<char>, MatchReason)>) -> Seq<
    (int, MatchReason),
>
    decreases picks.len(),
{
    if picks.len() == 0 {
        Seq::empty()
    } else {
        let prev = resolve_picks(libs, picks.drop_last());
        match first_name_eq(libs, picks.last().0, 0) {
            Some(i) => prev.push((i, picks.last().1)),
            None => prev,
        }
    }
}

/// Views of resolved candidates.
pub open spec fn resolved_view(v: Seq<(usize, MatchReason)>) -> Seq<(int, MatchReason)> {
    v.map_values(|p: (usize, MatchReason)| (p.0 as int, p.1))
}

/// The `alternatives` selection: nothing when no package is named `name` (up
/// to ASCII case); else that package's position and its candidates, each as
/// the position of the package it names and the tier that found it.
pub fn alternatives(libs: &Vec<Library>, name: &str, limit: usize) -> (r: Option<
    (usize, Vec<(usize, MatchReason)>),
>)
    requires
        forall|t: int|
            first_name_ci(libs@, name@, 0) == Some(t) ==> candidates_computable(
                #[trigger] &libs@[t],
                libs@,
                limit as int,
            ),
    ensures
        match first_name_ci(libs@, name@, 0) {
            None => r is None,
            Some(t) => r matches Some((tt, v)) && tt == t && resolved_view(v@) == resolve_picks(
                libs@,
                spec_candidate_names(&libs@[t], libs@, limit as int),
            ),
        },
{
    let t = match find_name_ignore_case(libs, name) {
        Some(t) => t,
        None => {
            return None;
        },
    };
    let target = &libs[t];
    assert(candidates_computable(&libs@[t as int], libs@, limit as int));
    let names = compute_candidate_names(target, libs, limit);
    let ghost picks = pairs_view(names@);
    let n = names.len();
    let mut chosen: Vec<(usize, MatchReason)> = Vec::new();
    let mut i: usize = 0;
    assert(picks.take(0) =~= Seq::<(Seq<char>, MatchReason)>::empty());
    assert(resolved_view(chosen@) =~= Seq::<(int, MatchReason)>::empty());
    while i < n
        invariant
            n == names@.len(),
            picks == pairs_view(names@),
            i <= n,
            resolved_view(chosen@) == resolve_picks(libs@, picks.take(i as int)),
        decreases n - i,
    {
        proof {
            assert(picks.take(i + 1).drop_last() =~= picks.take(i as int));
            assert(picks.take(i + 1).last() == picks[i as int]);
        }
        match find_name(libs, names[i].0.as_str()) {
            Some(k) => {
                let ghost before = chosen@;
                chosen.push((k, names[i].1));
                assert(resolved_view(chosen@) =~= resolved_view(before).push((k as int, names@[i as int].1)));
            },
            None => {},
        }
        i = i + 1;
    }
    assert(picks.take(n as int) =~= picks);
    Some((t, chosen))
}

/// `alternatives` for any limit: `Err` with the target's position when the
/// search for its candidates cannot run (twice `limit` overflows while some
/// package qualifies for the topic tier); otherwise what `alternatives` gives.
pub fn alternatives_checked(libs: &Vec<Library>, name: &str, limit: usize) -> (r: Result<
    Option<(usize, Vec<(usize, MatchReason)>)>,
    usize,
>)
    ensures
        match first_name_ci(libs@, name@, 0) {
            None => r matches Ok(None),
            Some(t) => if candidates_computable(&libs@[t], libs@, limit as int) {
                r matches Ok(Some((tt, v))) && tt == t && resolved_view(v@) == resolve_picks(
                    libs@,
                    spec_candidate_names(&libs@[t], libs@, limit as int),
                )
            } else {
                r == Err::<Option<(usize, Vec<(usize, MatchReason)>)>, usize>(t as usize)
            },
        },
{
    match find_name_ignore_case(libs, name) {
        None => Ok(None),
        Some(t) => {
            if candidates_are_computable(&libs[t], libs, limit) {
                Ok(alternatives(libs, name, limit))
            } else {
                Err(t)
            }
        },
    }
}

proof fn lemma_search_entries(libs: Seq<Library>, q: Seq<char>, n: int)
    requires
        0 <= n <= libs.len() <= usize::MAX,
    ensures
        forall|k: int|
            0 <= k < search_entries(libs, q, n).len() ==> {
                let x = #[trigger] search_entries(libs, q, n)[k];
                &&& x.idx < n
                &&& x.frac_num == 0 && x.frac_den == 1
                &&& libs[x.idx as int].spec_matches_query(q)
                &&& x.major == libs[x.idx as int].spec_stars() as i128
                &&& x.minor == libs[x.idx as int].spec_weekly_downloads() as i128
            },
        positions_increasing(search_entries(libs, q, n)),
    decreases n,
{
    if n > 0 {
        lemma_search_entries(libs, q, n - 1);
        let prev = search_entries(libs, q, n - 1);
        let cur = search_entries(libs, q, n);
        assert forall|k: int| 0 <= k < cur.len() && k < prev.len() implies cur[k] == prev[k] by {}
        assert(positions_increasing(cur));
    }
}

/// Search results match the query, are at most `limit`, number as many of the
/// matching packages as `limit` allows, and come most-starred first, ties by
/// weekly downloads and then in directory order.
pub proof fn law_search_results(libs: Seq<Library>, q: Seq<char>, limit: usize)
    requires
        libs.len() <= usize::MAX,
    ensures
        ({
            let r = top_indices(rank_sort(search_entries(libs, q, libs.len() as int)), limit as int);
            let m = search_entries(libs, q, libs.len() as int).len();
            &&& r.len() == if limit < m { limit as int } else { m as int }
            &&& forall|k: int| 0 <= k < r.len() ==> libs[#[trigger] r[k] as int].spec_matches_query(q)
            &&& forall|a: int, b: int|
                0 <= a < b < r.len() ==> {
                    let x = libs[#[trigger] r[a] as int];
                    let y = libs[#[trigger] r[b] as int];
                    x.spec_stars() > y.spec_stars() || (x.spec_stars() == y.spec_stars()
                        && x.spec_weekly_downloads() >= y.spec_weekly_downloads())
                }
            &&& forall|a: int, b: int|
                0 <= a < b < r.len() && libs[#[trigger] r[a] as int].spec_stars() == libs[#[trigger] r[b] as int].spec_stars()
                    && libs[r[a] as int].spec_weekly_downloads() == libs[r[b] as int].spec_weekly_downloads()
                    ==> r[a] < r[b]
        }),
{
    let e = search_entries(libs, q, libs.len() as int);
    lemma_search_entries(libs, q, libs.len() as int);
    assert forall|k: int| 0 <= k < e.len() implies well_keyed(#[trigger] e[k]) by {}
    law_rank_sort_stable(e);
    let ok = |x: Ranked|
        x.idx < libs.len() && libs[x.idx as int].spec_matches_query(q) && x.major == libs[x.idx as int].spec_stars() as i128
            && x.minor == libs[x.idx as int].spec_weekly_downloads() as i128 && x.frac_num == 0;
    assert forall|k: int| 0 <= k < e.len() implies #[trigger] ok(e[k]) by {}
    lemma_top_entries(e, limit as int, ok);
    let s = rank_sort(e);
    let r = top_indices(s, limit as int);
    assert forall|a: int, b: int| 0 <= a < b < r.len() implies {
        let x = libs[#[trigger] r[a] as int];
        let y = libs[#[trigger] r[b] as int];
        x.spec_stars() > y.spec_stars() || (x.spec_stars() == y.spec_stars()
            && x.spec_weekly_downloads() >= y.spec_weekly_downloads())
    } by {
        assert(ok(s[a]));
        assert(ok(s[b]));
        lemma_whole_keys(s[a], s[b]);
        lemma_whole_keys(s[b], s[a]);
        assert(!outranks(s[b], s[a]));
    }
    assert forall|k: int| 0 <= k < r.len() implies libs[#[trigger] r[k] as int].spec_matches_query(q) by {
        assert(ok(s[k]));
    }
    assert forall|a: int, b: int|
        0 <= a < b < r.len() && libs[#[trigger] r[a] as int].spec_stars() == libs[#[trigger] r[b] as int].spec_stars()
            && libs[r[a] as int].spec_weekly_downloads() == libs[r[b] as int].spec_weekly_downloads()
        implies r[a] < r[b] by {
        assert(ok(s[a]));
        assert(ok(s[b]));
        lemma_whole_keys(s[a], s[b]);
        lemma_whole_keys(s[b], s[a]);
        assert(same_key(s[a], s[b]));
    }
}

proof fn lemma_trending_entries(libs: Seq<Library>, include_js: bool, n: int)
    requires
        0 <= n <= libs.len() <= usize::MAX,
    ensures
        forall|k: int|
            0 <= k < trending_entries(libs, include_js, n).len() ==> {
                let x = #[trigger] trending_entries(libs, include_js, n)[k];
                let l = libs[x.idx as int];
                &&& x.idx < n
                &&& x.frac_num == 0 && x.frac_den == 1
                &&& !l.spec_is_archived() && !l.unmaintained
                &&& (include_js || l.spec_has_native_code())
                &&& x.major == l.spec_weekly_downloads() as i128
                &&& x.minor == 0
            },
        positions_increasing(trending_entries(libs, include_js, n)),
    decreases n,
{
    if n > 0 {
        lemma_trending_entries(libs, include_js, n - 1);
        let prev = trending_entries(libs, include_js, n - 1);
        let cur = trending_entries(libs, include_js, n);
        assert forall|k: int| 0 <= k < cur.len() && k < prev.len() implies cur[k] == prev[k] by {}
        assert(positions_increasing(cur));
    }
}

/// Trending shows only maintained packages, only packages with native code
/// unless pure-JS ones are included, most weekly downloads first, ties in
/// directory order.
pub proof fn law_trending_results(libs: Seq<Library>, include_js: bool, limit: usize)
    requires
        libs.len() <= usize::MAX,
    ensures
        ({
            let r = top_indices(
                rank_sort(trending_entries(libs, include_js, libs.len() as int)),
                limit as int,
            );
            &&& r.len() <= limit
            &&& forall|k: int|
                0 <= k < r.len() ==> {
                    let l = libs[#[trigger] r[k] as int];
                    !l.spec_is_archived() && !l.unmaintained && (include_js || l.spec_has_native_code())
                }
            &&& forall|a: int, b: int|
                0 <= a < b < r.len() ==> libs[#[trigger] r[a] as int].spec_weekly_downloads()
                    >= libs[#[trigger] r[b] as int].spec_weekly_downloads()
            &&& forall|a: int, b: int|
                0 <= a < b < r.len() && libs[#[trigger] r[a] as int].spec_weekly_downloads()
                    == libs[#[trigger] r[b] as int].spec_weekly_downloads() ==> r[a] < r[b]
        }),
{
    let e = trending_entries(libs, include_js, libs.len() as int);
    lemma_trending_entries(libs, include_js, libs.len() as int);
    assert forall|k: int| 0 <= k < e.len() implies well_keyed(#[trigger] e[k]) by {}
    law_rank_sort_stable(e);
    let ok = |x: Ranked| {
        let l = libs[x.idx as int];
        x.idx < libs.len() && !l.spec_is_archived() && !l.unmaintained && (include_js
            || l.spec_has_native_code()) && x.major == l.spec_weekly_downloads() as i128 && x.minor
            == 0 && x.frac_num == 0
    };
    assert forall|k: int| 0 <= k < e.len() implies #[trigger] ok(e[k]) by {}
    lemma_top_entries(e, limit as int, ok);
    let s = rank_sort(e);
    let r = top_indices(s, limit as int);
    assert forall|a: int, b: int| 0 <= a < b < r.len() implies libs[#[trigger] r[a] as int].spec_weekly_downloads()
        >= libs[#[trigger] r[b] as int].spec_weekly_downloads() by {
        assert(ok(s[a]));
        assert(ok(s[b]));
        lemma_whole_keys(s[a], s[b]);
        lemma_whole_keys(s[b], s[a]);
        assert(!outranks(s[b], s[a]));
    }
    assert forall|k: int| 0 <= k < r.len() implies {
        let l = libs[#[trigger] r[k] as int];
        !l.spec_is_archived() && !l.unmaintained && (include_js || l.spec_has_native_code())
    } by {
        assert(ok(s[k]));
    }    assert forall|a: int, b: int|
        0 <= a < b < r.len() && libs[#[trigger] r[a] as int].spec_weekly_downloads()
            == libs[#[trigger] r[b] as int].spec_weekly_downloads() implies r[a] < r[b] by {
        assert(ok(s[a]));
        assert(ok(s[b]));
        lemma_whole_keys(s[a], s[b]);
        lemma_whole_keys(s[b], s[a]);
        assert(same_key(s[a], s[b]));
    }
}

proof fn lemma_list_entries(f: &ListFilters, libs: Seq<Library>, n: int)
    requires
        0 <= n <= libs.len() <= usize::MAX,
    ensures
        forall|k: int|
            0 <= k < list_entries(f, libs, n).len() ==> {
                let x = #[trigger] list_entries(f, libs, n)[k];
                let l = libs[x.idx as int];
                &&& x.idx < n
                &&& x.frac_num == 0 && x.frac_den == 1
                &&& list_keeps(f, &l)
                &&& x.major == l.spec_score() as i128
                &&& x.minor == l.spec_stars() as i128
            },
        positions_increasing(list_entries(f, libs, n)),
    decreases n,
{
    if n > 0 {
        lemma_list_entries(f, libs, n - 1);
        let prev = list_entries(f, libs, n - 1);
        let cur = list_entries(f, libs, n);
        assert forall|k: int| 0 <= k < cur.len() && k < prev.len() implies cur[k] == prev[k] by {}
        assert(positions_increasing(cur));
    }
}

/// Every listed package passes every filter (in particular it supports all
/// requested platforms and works with all requested targets), at most `limit`
/// are listed, highest score first, ties by stars and then in directory order.
pub proof fn law_list_results(f: &ListFilters, libs: Seq<Library>)
    requires
        libs.len() <= usize::MAX,
    ensures
        ({
            let r = top_indices(rank_sort(list_entries(f, libs, libs.len() as int)), f.limit as int);
            &&& r.len() <= f.limit
            &&& forall|k: int| 0 <= k < r.len() ==> list_keeps(f, &libs[#[trigger] r[k] as int])
            &&& forall|k: int, p: int|
                0 <= k < r.len() && 0 <= p < f.platforms@.len() ==> spec_platform_supported(
                    &libs[#[trigger] r[k] as int],
                    #[trigger] f.platforms@[p]@,
                )
            &&& forall|a: int, b: int|
                0 <= a < b < r.len() ==> {
                    let x = libs[#[trigger] r[a] as int];
                    let y = libs[#[trigger] r[b] as int];
                    x.spec_score() > y.spec_score() || (x.spec_score() == y.spec_score()
                        && x.spec_stars() >= y.spec_stars())
                }
            &&& forall|a: int, b: int|
                0 <= a < b < r.len() && libs[#[trigger] r[a] as int].spec_score() == libs[#[trigger] r[b] as int].spec_score()
                    && libs[r[a] as int].spec_stars() == libs[r[b] as int].spec_stars() ==> r[a] < r[b]
        }),
{
    let e = list_entries(f, libs, libs.len() as int);
    lemma_list_entries(f, libs, libs.len() as int);
    assert forall|k: int| 0 <= k < e.len() implies well_keyed(#[trigger] e[k]) by {}
    law_rank_sort_stable(e);
    let ok = |x: Ranked| {
        let l = libs[x.idx as int];
        x.idx < libs.len() && list_keeps(f, &l) && x.major == l.spec_score() as i128 && x.minor
            == l.spec_stars() as i128 && x.frac_num == 0
    };
    assert forall|k: int| 0 <= k < e.len() implies #[trigger] ok(e[k]) by {}
    lemma_top_entries(e, f.limit as int, ok);
    let s = rank_sort(e);
    let r = top_indices(s, f.limit as int);
    assert forall|a: int, b: int| 0 <= a < b < r.len() implies {
        let x = libs[#[trigger] r[a] as int];
        let y = libs[#[trigger] r[b] as int];
        x.spec_score() > y.spec_score() || (x.spec_score() == y.spec_score() && x.spec_stars()
            >= y.spec_stars())
    } by {
        assert(ok(s[a]));
        assert(ok(s[b]));
        lemma_whole_keys(s[a], s[b]);
        lemma_whole_keys(s[b], s[a]);
        assert(!outranks(s[b], s[a]));
    }
    assert forall|k: int| 0 <= k < r.len() implies list_keeps(f, &libs[#[trigger] r[k] as int]) by {
        assert(ok(s[k]));
    }
    assert forall|k: int, p: int|
        0 <= k < r.len() && 0 <= p < f.platforms@.len() implies spec_platform_supported(
        &libs[#[trigger] r[k] as int],
        #[trigger] f.platforms@[p]@,
    ) by {
        assert(list_keeps(f, &libs[r[k] as int]));
    }
    assert forall|a: int, b: int|
        0 <= a < b < r.len() && libs[#[trigger] r[a] as int].spec_score() == libs[#[trigger] r[b] as int].spec_score()
            && libs[r[a] as int].spec_stars() == libs[r[b] as int].spec_stars() implies r[a] < r[b] by {
        assert(ok(s[a]));
        assert(ok(s[b]));
        lemma_whole_keys(s[a], s[b]);
        lemma_whole_keys(s[b], s[a]);
        assert(same_key(s[a], s[b]));
    }
}

proof fn lemma_discover_entries(libs: Seq<Library>, min_score: i64, days: u32, now: i64, n: int)
    requires
        0 <= n <= libs.len() <= usize::MAX,
    ensures
        forall|k: int|
            0 <= k < discover_entries(libs, min_score, days, now, n).len() ==> {
                let x = #[trigger] discover_entries(libs, min_score, days, now, n)[k];
                let l = libs[x.idx as int];
                &&& x.idx < n
                &&& x.frac_num == 0 && x.frac_den == 1
                &&& discover_prefilter(&l, min_score)
                &&& pushed_within(&l, now, days * 86400)
                &&& x.major == l.spec_score() as i128
                &&& x.minor == l.spec_stars() as i128
            },
        positions_increasing(discover_entries(libs, min_score, days, now, n)),
    decreases n,
{
    if n > 0 {
        lemma_discover_entries(libs, min_score, days, now, n - 1);
        let prev = discover_entries(libs, min_score, days, now, n - 1);
        let cur = discover_entries(libs, min_score, days, now, n);
        assert forall|k: int| 0 <= k < cur.len() && k < prev.len() implies cur[k] == prev[k] by {}
        assert(positions_increasing(cur));
    }
}

/// Discovered packages are maintained, ship native code, score at least
/// `min_score` and were pushed within `days` days of `now`; at most `limit`
/// come, highest score first, ties by stars and then in directory order.
pub proof fn law_discover_results(libs: Seq<Library>, limit: usize, min_score: i64, days: u32, now: i64)
    requires
        libs.len() <= usize::MAX,
    ensures
        ({
            let r = top_indices(
                rank_sort(discover_entries(libs, min_score, days, now, libs.len() as int)),
                limit as int,
            );
            &&& r.len() <= limit
            &&& forall|k: int|
                0 <= k < r.len() ==> {
                    let l = libs[#[trigger] r[k] as int];
                    &&& !l.spec_is_archived() && !l.unmaintained && l.spec_has_native_code()
                    &&& l.spec_score() >= min_score
                    &&& pushed_within(&l, now, days * 86400)
                }
            &&& forall|a: int, b: int|
                0 <= a < b < r.len() ==> {
                    let x = libs[#[trigger] r[a] as int];
                    let y = libs[#[trigger] r[b] as int];
                    x.spec_score() > y.spec_score() || (x.spec_score() == y.spec_score()
                        && x.spec_stars() >= y.spec_stars())
                }
            &&& forall|a: int, b: int|
                0 <= a < b < r.len() && libs[#[trigger] r[a] as int].spec_score() == libs[#[trigger] r[b] as int].spec_score()
                    && libs[r[a] as int].spec_stars() == libs[r[b] as int].spec_stars() ==> r[a] < r[b]
        }),
{
    let e = discover_entries(libs, min_score, days, now, libs.len() as int);
    lemma_discover_entries(libs, min_score, days, now, libs.len() as int);
    assert forall|k: int| 0 <= k < e.len() implies well_keyed(#[trigger] e[k]) by {}
    law_rank_sort_stable(e);
    let ok = |x: Ranked| {
        let l = libs[x.idx as int];
        x.idx < libs.len() && discover_prefilter(&l, min_score) && pushed_within(&l, now, days * 86400)
            && x.major == l.spec_score() as i128 && x.minor == l.spec_stars() as i128
            && x.frac_num == 0
    };
    assert forall|k: int| 0 <= k < e.len() implies #[trigger] ok(e[k]) by {}
    lemma_top_entries(e, limit as int, ok);
    let s = rank_sort(e);
    let r = top_indices(s, limit as int);
    assert forall|k: int| 0 <= k < r.len() implies {
        let l = libs[#[trigger] r[k] as int];
        &&& !l.spec_is_archived() && !l.unmaintained && l.spec_has_native_code()
        &&& l.spec_score() >= min_score
        &&& pushed_within(&l, now, days * 86400)
    } by {
        assert(ok(s[k]));
    }
    assert forall|a: int, b: int| 0 <= a < b < r.len() implies {
        let x = libs[#[trigger] r[a] as int];
        let y = libs[#[trigger] r[b] as int];
        x.spec_score() > y.spec_score() || (x.spec_score() == y.spec_score() && x.spec_stars()
            >= y.spec_stars())
    } by {
        assert(ok(s[a]));
        assert(ok(s[b]));
        lemma_whole_keys(s[a], s[b]);
        lemma_whole_keys(s[b], s[a]);
        assert(!outranks(s[b], s[a]));
    }
    assert forall|a: int, b: int|
        0 <= a < b < r.len() && libs[#[trigger] r[a] as int].spec_score() == libs[#[trigger] r[b] as int].spec_score()
            && libs[r[a] as int].spec_stars() == libs[r[b] as int].spec_stars() implies r[a] < r[b] by {
        assert(ok(s[a]));
        assert(ok(s[b]));
        lemma_whole_keys(s[a], s[b]);
        lemma_whole_keys(s[b], s[a]);
        assert(same_key(s[a], s[b]));
    }
}

/// Each filter of `list`, spelled out, holds of every listed package: unless
/// unmaintained packages are asked for, none is archived or unmaintained; with
/// `no_dev` none is a development package; with `has_types`, `native`,
/// `new_arch`, `nightly` or `config_plugin` each has TypeScript types, native
/// code, declared New Architecture support, nightly-program membership or a
/// config plugin.
pub proof fn law_list_filters(f: &ListFilters, libs: Seq<Library>)
    requires
        libs.len() <= usize::MAX,
    ensures
        ({
            let r = top_indices(rank_sort(list_entries(f, libs, libs.len() as int)), f.limit as int);
            forall|k: int|
                0 <= k < r.len() ==> {
                    let l = #[trigger] libs[r[k] as int];
                    &&& !f.include_unmaintained ==> !l.spec_is_archived() && !l.unmaintained
                    &&& f.no_dev ==> !l.dev
                    &&& f.has_types ==> l.spec_has_types()
                    &&& f.native ==> l.spec_has_native_code()
                    &&& f.new_arch ==> l.spec_supports_new_architecture() == Some(true)
                    &&& f.nightly ==> l.nightly_program
                    &&& f.config_plugin ==> (l.config_plugin matches Some(v) && v.spec_is_truthy())
                }
        }),
{
    law_list_results(f, libs);
    let r = top_indices(rank_sort(list_entries(f, libs, libs.len() as int)), f.limit as int);
    assert forall|k: int| 0 <= k < r.len() implies list_keeps(f, &#[trigger] libs[r[k] as int]) by {}
}

/// With no filter set, `list` passes over no maintained package: every package
/// that is neither archived nor unmaintained has an entry, and when they are no
/// more than `limit`, all of them are listed.
pub proof fn law_list_default_complete(f: &ListFilters, libs: Seq<Library>, k: int)
    requires
        libs.len() <= usize::MAX,
        0 <= k < libs.len(),
        f.category is None,
        f.platforms@.len() == 0,
        f.works_with@.len() == 0,
        f.module_type is None,
        !f.new_arch && !f.has_types && !f.native && !f.config_plugin && !f.nightly && !f.no_dev,
        !libs[k].spec_is_archived(),
        !libs[k].unmaintained,
    ensures
        exists|j: int|
            0 <= j < list_entries(f, libs, libs.len() as int).len() && (#[trigger] list_entries(
                f,
                libs,
                libs.len() as int,
            )[j]).idx == k,
        list_entries(f, libs, libs.len() as int).len() <= f.limit ==> top_indices(
            rank_sort(list_entries(f, libs, libs.len() as int)),
            f.limit as int,
        ).contains(k as usize),
{
    lemma_list_keeps_entry(f, libs, libs.len() as int, k);
    let e = list_entries(f, libs, libs.len() as int);
    let j = choose|j: int| 0 <= j < e.len() && (#[trigger] e[j]).idx == k;
    if e.len() <= f.limit {
        lemma_top_keeps_all(e, f.limit as int, j);
    }
}

proof fn lemma_list_keeps_entry(f: &ListFilters, libs: Seq<Library>, n: int, k: int)
    requires
        0 <= k < n <= libs.len() <= usize::MAX,
        f.category is None,
        f.platforms@.len() == 0,
        f.works_with@.len() == 0,
        f.module_type is None,
        !f.new_arch && !f.has_types && !f.native && !f.config_plugin && !f.nightly && !f.no_dev,
        !libs[k].spec_is_archived(),
        !libs[k].unmaintained,
    ensures
        exists|j: int| 0 <= j < list_entries(f, libs, n).len() && (#[trigger] list_entries(f, libs, n)[j]).idx == k,
    decreases n,
{
    let cur = list_entries(f, libs, n);
    if k == n - 1 {
        assert(list_keeps(f, &libs[k]));
        assert(cur[cur.len() - 1].idx == k);
    } else {
        lemma_list_keeps_entry(f, libs, n - 1, k);
        let prev = list_entries(f, libs, n - 1);
        let j = choose|j: int| 0 <= j < prev.len() && (#[trigger] prev[j]).idx == k;
        assert(cur[j] == prev[j]);
    }
}

/// Search passes over no match: every package whose lowercased name,
/// description or topic string contains the lowercased query has an entry, and
/// when the matches are no more than `limit`, all of them are in the result.
/// Conversely every result contains the query in one of those three texts.
pub proof fn law_search_complete(libs: Seq<Library>, q: Seq<char>, limit: usize, k: int)
    requires
        libs.len() <= usize::MAX,
        0 <= k < libs.len(),
        occurs_in(lowercase(q), lowercase(libs[k].spec_name())) || occurs_in(
            lowercase(q),
            lowercase(libs[k].spec_description()),
        ) || occurs_in(lowercase(q), lowercase(libs[k].topics_flat@)),
    ensures
        exists|j: int|
            0 <= j < search_entries(libs, q, libs.len() as int).len() && (#[trigger] search_entries(
                libs,
                q,
                libs.len() as int,
            )[j]).idx == k,
        search_entries(libs, q, libs.len() as int).len() <= limit ==> top_indices(
            rank_sort(search_entries(libs, q, libs.len() as int)),
            limit as int,
        ).contains(k as usize),
{
    lemma_search_entry(libs, q, libs.len() as int, k);
    let e = search_entries(libs, q, libs.len() as int);
    let j = choose|j: int| 0 <= j < e.len() && (#[trigger] e[j]).idx == k;
    if e.len() <= limit {
        lemma_top_keeps_all(e, limit as int, j);
    }
}

/// Every search result contains the lowercased query in its lowercased name,
/// description or topic string.
pub proof fn law_search_sound(libs: Seq<Library>, q: Seq<char>, limit: usize)
    requires
        libs.len() <= usize::MAX,
    ensures
        ({
            let r = top_indices(rank_sort(search_entries(libs, q, libs.len() as int)), limit as int);
            forall|k: int|
                0 <= k < r.len() ==> {
                    let l = #[trigger] libs[r[k] as int];
                    occurs_in(lowercase(q), lowercase(l.spec_name())) || occurs_in(
                        lowercase(q),
                        lowercase(l.spec_description()),
                    ) || occurs_in(lowercase(q), lowercase(l.topics_flat@))
                }
        }),
{
    law_search_results(libs, q, limit);
    let r = top_indices(rank_sort(search_entries(libs, q, libs.len() as int)), limit as int);
    assert forall|k: int| 0 <= k < r.len() implies libs[r[k] as int].spec_matches_query(q) by {}
}

proof fn lemma_search_entry(libs: Seq<Library>, q: Seq<char>, n: int, k: int)
    requires
        0 <= k < n <= libs.len() <= usize::MAX,
        occurs_in(lowercase(q), lowercase(libs[k].spec_name())) || occurs_in(
            lowercase(q),
            lowercase(libs[k].spec_description()),
        ) || occurs_in(lowercase(q), lowercase(libs[k].topics_flat@)),
    ensures
        exists|j: int| 0 <= j < search_entries(libs, q, n).len() && (#[trigger] search_entries(libs, q, n)[j]).idx == k,
    decreases n,
{
    let cur = search_entries(libs, q, n);
    if k == n - 1 {
        assert(libs[k].spec_matches_query(q));
        assert(cur[cur.len() - 1].idx == k);
    } else {
        lemma_search_entry(libs, q, n - 1, k);
        let prev = search_entries(libs, q, n - 1);
        let j = choose|j: int| 0 <= j < prev.len() && (#[trigger] prev[j]).idx == k;
        assert(cur[j] == prev[j]);
    }
}

} // verus!