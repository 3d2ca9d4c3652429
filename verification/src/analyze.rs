//! Project analysis: the facts reported for each dependency of a project.
use vstd::prelude::*;
use crate::api::Library;
use crate::candidates::{
    candidates_computable, compute_candidate_names, find_name, first_name_eq, pairs_view,
    picked_names, spec_candidate_names, MatchReason,
};
use crate::scanner::{locations_view, Location, ScanResult};
use crate::text::{str_eq, views};

verus! {

/// The size of the candidate list consulted for alternatives already in the project.
pub const PROJECT_ALTERNATIVES_LIMIT: usize = 20;

/// One flagged dependency and what the directory says of it.
pub struct PackageFinding {
    pub package: String,
    pub flags: Vec<String>,
    pub in_directory: bool,
    /// The position of the dependency's package in the package list.
    pub lib_index: Option<usize>,
    pub github_url: Option<String>,
    pub license: Option<String>,
    pub latest_release: Option<String>,
    pub latest_release_date: Option<String>,
    pub last_pushed_at: Option<String>,
    pub stars: u64,
    pub weekly_downloads: u64,
    pub topics: Vec<String>,
    pub has_native_code: bool,
    pub has_types: bool,
    pub new_architecture: Option<bool>,
    pub used_in: Vec<Location>,
    /// Packages of the project that the candidate search names as alternatives.
    pub alternatives_in_project: Vec<String>,
}

/// The analysis of a project.
pub struct AnalyzeReport {
    pub files_scanned: usize,
    pub deps_total: usize,
    pub deps_flagged: usize,
    pub package_findings: Vec<PackageFinding>,
}

/// What the analysis found, for the exit status.
pub struct AnalyzeOutcome {
    pub any_finding: bool,
    pub has_unmaintained: bool,
}

/// The view of an optional string.
pub open spec fn opt_view(o: Option<String>) -> Option<Seq<char>> {
    match o {
        Some(s) => Some(s@),
        None => None,
    }
}

/// Flags of a package: archived, unmaintained, and for packages with native
/// code missing New Architecture support and missing TypeScript types.
pub open spec fn package_flags(l: &Library) -> Seq<Seq<char>> {
    let a = if l.spec_is_archived() {
        seq!["archived"@]
    } else {
        Seq::empty()
    };
    let b = if l.unmaintained {
        a.push("unmaintained"@)
    } else {
        a
    };
    let c = if l.spec_has_native_code() && l.spec_supports_new_architecture() == Some(false) {
        b.push("no new-arch support"@)
    } else {
        b
    };
    if l.spec_has_native_code() && !l.spec_has_types() {
        c.push("no TypeScript types"@)
    } else {
        c
    }
}

/// The flags of a dependency: those of the first package of its name, none
/// when the directory has no such package.
pub open spec fn dep_flags(libs: Seq<Library>, dep: Seq<char>) -> Seq<Seq<char>> {
    match first_name_eq(libs, dep, 0) {
        Some(i) => package_flags(&libs[i]),
        None => Seq::empty(),
    }
}

/// The candidate names that are dependencies of the project, in candidate order.
pub open spec fn in_project(names: Seq<Seq<char>>, deps: Seq<Seq<char>>) -> Seq<Seq<char>>
    decreases names.len(),
{
    if names.len() == 0 {
        Seq::empty()
    } else {
        let prev = in_project(names.drop_last(), deps);
        if deps.contains(names.last()) {
            prev.push(names.last())
        } else {
            prev
        }
    }
}

/// The candidates for package `i` that the project already depends on.
pub open spec fn project_alternatives(libs: Seq<Library>, i: int, deps: Seq<Seq<char>>) -> Seq<
    Seq<char>,
> {
    in_project(
        picked_names(spec_candidate_names(&libs[i], libs, PROJECT_ALTERNATIVES_LIMIT as int)),
        deps,
    )
}

/// The package facts a finding repeats.
pub open spec fn finding_describes(f: &PackageFinding, l: &Library) -> bool {
    &&& opt_view(f.github_url) == opt_view(l.github_url)
    &&& opt_view(f.license) == match &l.github {
        Some(g) => match &g.license {
            Some(lic) => opt_view(lic.spdx_id),
            None => None,
        },
        None => None,
    }
    &&& opt_view(f.latest_release) == match &l.npm {
        Some(n) => opt_view(n.latest_release),
        None => None,
    }
    &&& opt_view(f.latest_release_date) == match &l.npm {
        Some(n) => opt_view(n.latest_release_date),
        None => None,
    }
    &&& opt_view(f.last_pushed_at) == l.spec_pushed_at()
    &&& f.stars == l.spec_stars()
    &&& f.weekly_downloads == l.spec_weekly_downloads()
    &&& views(f.topics@) == match &l.github {
        Some(g) => views(g.topics@),
        None => Seq::empty(),
    }
    &&& f.has_native_code == l.spec_has_native_code()
    &&& f.has_types == l.spec_has_types()
    &&& f.new_architecture == l.spec_supports_new_architecture()
}

/// The finding for dependency `dep`, whose package is at `i`.
pub open spec fn finding_for(
    f: &PackageFinding,
    dep: Seq<char>,
    i: int,
    libs: Seq<Library>,
    scan: &ScanResult,
    deps: Seq<Seq<char>>,
) -> bool {
    &&& f.package@ == dep
    &&& views(f.flags@) == package_flags(&libs[i])
    &&& f.in_directory
    &&& f.lib_index == Some(i as usize)
    &&& finding_describes(f, &libs[i])
    &&& locations_view(f.used_in@) == match scan.locations(dep) {
        Some(locs) => locs,
        None => Seq::empty(),
    }
    &&& views(f.alternatives_in_project@) == project_alternatives(libs, i, deps)
}

/// The positions of the flagged dependencies among the first `n`.
pub open spec fn flagged_deps(deps: Seq<Seq<char>>, libs: Seq<Library>, n: int) -> Seq<int>
    decreases n,
{
    if n <= 0 {
        Seq::empty()
    } else {
        let prev = flagged_deps(deps, libs, n - 1);
        if dep_flags(libs, deps[n - 1]).len() > 0 {
            prev.push(n - 1)
        } else {
            prev
        }
    }
}

/// The package of a dependency is archived or unmaintained.
pub open spec fn dep_unmaintained(libs: Seq<Library>, dep: Seq<char>) -> bool {
    match first_name_eq(libs, dep, 0) {
        Some(i) => libs[i].spec_is_archived() || libs[i].unmaintained,
        None => false,
    }
}

/// Some dependency among the first `n` is archived or unmaintained.
pub open spec fn any_unmaintained(deps: Seq<Seq<char>>, libs: Seq<Library>, n: int) -> bool {
    exists|k: int| 0 <= k < n && dep_unmaintained(libs, #[trigger] deps[k])
}

proof fn lemma_any_unmaintained_step(deps: Seq<Seq<char>>, libs: Seq<Library>, n: int)
    requires
        0 <= n < deps.len(),
    ensures
        any_unmaintained(deps, libs, n + 1) == (any_unmaintained(deps, libs, n) || dep_unmaintained(
            libs,
            deps[n],
        )),
{
    if any_unmaintained(deps, libs, n + 1) && !dep_unmaintained(libs, deps[n]) {
        let k = choose|k: int| 0 <= k < n + 1 && dep_unmaintained(libs, #[trigger] deps[k]);
        assert(k != n);
    }
}

/// Finding `f` reports dependency `d`.
#[verifier::opaque]
pub open spec fn reports_dep(
    f: &PackageFinding,
    d: int,
    deps: Seq<Seq<char>>,
    libs: Seq<Library>,
    scan: &ScanResult,
) -> bool {
    match first_name_eq(libs, deps[d], 0) {
        Some(i) => finding_for(f, deps[d], i, libs, scan, deps),
        None => false,
    }
}

fn clone_opt(o: &Option<String>) -> (r: Option<String>)
    ensures
        opt_view(r) == opt_view(*o),
{
    match o {
        Some(s) => Some(s.clone()),
        None => None,
    }
}

fn clone_strings(v: &Vec<String>) -> (r: Vec<String>)
    ensures
        views(r@) == views(v@),
{
    let n = v.len();
    let mut out: Vec<String> = Vec::new();
    let mut i: usize = 0;
    while i < n
        invariant
            n == v@.len(),
            i <= n,
            views(out@) == views(v@).take(i as int),
        decreases n - i,
    {
        let ghost before = out@;
        out.push(v[i].clone());
        assert(views(out@) =~= views(before).push(v@[i as int]@));
        i = i + 1;
        assert(views(v@).take(i as int) =~= views(v@).take(i - 1).push(v@[i - 1]@));
    }
    assert(views(v@).take(n as int) =~= views(v@));
    out
}

fn clone_locations(v: &Vec<Location>) -> (r: Vec<Location>)
    ensures
        locations_view(r@) == locations_view(v@),
{
    let n = v.len();
    let mut out: Vec<Location> = Vec::new();
    let mut i: usize = 0;
    while i < n
        invariant
            n == v@.len(),
            i <= n,
            locations_view(out@) == locations_view(v@).take(i as int),
        decreases n - i,
    {
        let ghost before = out@;
        let loc = Location { file: v[i].file.clone(), line: v[i].line };
        out.push(loc);
        assert(locations_view(out@) =~= locations_view(before).push(v@[i as int]@));
        i = i + 1;
        assert(locations_view(v@).take(i as int) =~= locations_view(v@).take(i - 1).push(v@[i - 1]@));
    }
    assert(locations_view(v@).take(n as int) =~= locations_view(v@));
    out
}

fn flags_of(l: &Library) -> (r: Vec<String>)
    ensures
        views(r@) == package_flags(l),
{
    let mut flags: Vec<String> = Vec::new();
    let ghost e = views(flags@);
    assert(e =~= Seq::<Seq<char>>::empty());
    if l.is_archived() {
        flags.push("archived".to_owned());
    }
    assert(views(flags@) =~= (if l.spec_is_archived() {
        seq!["archived"@]
    } else {
        Seq::empty()
    }));
    let ghost a = views(flags@);
    if l.unmaintained {
        flags.push("unmaintained".to_owned());
    }
    assert(views(flags@) =~= (if l.unmaintained {
        a.push("unmaintained"@)
    } else {
        a
    }));
    let ghost b = views(flags@);
    if l.has_native_code() {
        match l.supports_new_architecture() {
            Some(false) => {
                flags.push("no new-arch support".to_owned());
            },
            _ => {},
        }
    }
    assert(views(flags@) =~= (if l.spec_has_native_code() && l.spec_supports_new_architecture()
        == Some(false) {
        b.push("no new-arch support"@)
    } else {
        b
    }));
    let ghost c = views(flags@);
    if l.has_native_code() && !l.has_types() {
        flags.push("no TypeScript types".to_owned());
    }
    assert(views(flags@) =~= (if l.spec_has_native_code() && !l.spec_has_types() {
        c.push("no TypeScript types"@)
    } else {
        c
    }));
    flags
}

fn alternatives_among(names: &Vec<(String, MatchReason)>, deps: &Vec<String>) -> (r: Vec<String>)
    ensures
        views(r@) == in_project(picked_names(pairs_view(names@)), views(deps@)),
{
    let ghost ns = picked_names(pairs_view(names@));
    let n = names.len();
    let mut out: Vec<String> = Vec::new();
    let mut i: usize = 0;
    assert(ns.take(0) =~= Seq::<Seq<char>>::empty());
    assert(views(out@) =~= Seq::<Seq<char>>::empty());
    while i < n
        invariant
            n == names@.len(),
            ns == picked_names(pairs_view(names@)),
            i <= n,
            views(out@) == in_project(ns.take(i as int), views(deps@)),
        decreases n - i,
    {
        proof {
            assert(ns.take(i + 1).drop_last() =~= ns.take(i as int));
            assert(ns.take(i + 1).last() == names@[i as int].0@);
        }
        if crate::similarity::strings_contain(deps, names[i].0.as_str()) {
            let ghost before = out@;
            out.push(names[i].0.clone());
            assert(views(out@) =~= views(before).push(names@[i as int].0@));
        }
        i = i + 1;
    }
    assert(ns.take(n as int) =~= ns);
    out
}

fn license_of(l: &Library) -> (r: Option<String>)
    ensures
        opt_view(r) == match &l.github {
            Some(g) => match &g.license {
                Some(lic) => opt_view(lic.spdx_id),
                None => None,
            },
            None => None,
        },
{
    match &l.github {
        Some(g) => match &g.license {
            Some(lic) => clone_opt(&lic.spdx_id),
            None => None,
        },
        None => None,
    }
}

fn pushed_of(l: &Library) -> (r: Option<String>)
    ensures
        opt_view(r) == l.spec_pushed_at(),
{
    match l.pushed_at() {
        Some(p) => Some(p.to_owned()),
        None => None,
    }
}

fn finding(
    dep: &String,
    i: usize,
    libs: &Vec<Library>,
    scan: &ScanResult,
    deps: &Vec<String>,
    flags: Vec<String>,
) -> (f: PackageFinding)
    requires
        i < libs@.len(),
        views(flags@) == package_flags(&libs@[i as int]),
    ensures
        finding_for(&f, dep@, i as int, libs@, scan, views(deps@)),
{
    let l = &libs[i];
    let used_in = match scan.get(dep.as_str()) {
        Some(locs) => clone_locations(locs),
        None => Vec::new(),
    };
    assert(locations_view(used_in@) =~= match scan.locations(dep@) {
        Some(locs) => locs,
        None => Seq::empty(),
    });
    assert(candidates_computable(l, libs@, PROJECT_ALTERNATIVES_LIMIT as int));
    let names = compute_candidate_names(l, libs, PROJECT_ALTERNATIVES_LIMIT);
    let alternatives_in_project = alternatives_among(&names, deps);
    let topics = match &l.github {
        Some(g) => clone_strings(&g.topics),
        None => Vec::new(),
    };
    assert(views(topics@) =~= match &l.github {
        Some(g) => views(g.topics@),
        None => Seq::empty(),
    });
    PackageFinding {
        package: dep.clone(),
        flags,
        in_directory: true,
        lib_index: Some(i),
        github_url: clone_opt(&l.github_url),
        license: license_of(l),
        latest_release: match &l.npm {
            Some(n) => clone_opt(&n.latest_release),
            None => None,
        },
        latest_release_date: match &l.npm {
            Some(n) => clone_opt(&n.latest_release_date),
            None => None,
        },
        last_pushed_at: pushed_of(l),
        stars: l.stars(),
        weekly_downloads: l.weekly_downloads(),
        topics,
        has_native_code: l.has_native_code(),
        has_types: l.has_types(),
        new_architecture: l.supports_new_architecture(),
        used_in,
        alternatives_in_project,
    }
}

/// `r` is the analysis of dependencies `ds`: one finding for each dependency
/// that has flags, in dependency order, and the outcome that follows.
pub open spec fn analysis_holds(
    r: &(AnalyzeReport, AnalyzeOutcome),
    ds: Seq<Seq<char>>,
    libs: Seq<Library>,
    scan: &ScanResult,
) -> bool {
    &&& r.0.files_scanned == scan.files_scanned
    &&& r.0.deps_total == ds.len()
    &&& r.0.deps_flagged == r.0.package_findings@.len()
    &&& r.0.package_findings@.len() == flagged_deps(ds, libs, ds.len() as int).len()
    &&& forall|k: int|
        0 <= k < r.0.package_findings@.len() ==> reports_dep(
            #[trigger] &r.0.package_findings@[k],
            flagged_deps(ds, libs, ds.len() as int)[k],
            ds,
            libs,
            scan,
        )
    &&& r.1.any_finding == (r.0.package_findings@.len() > 0)
    &&& r.1.has_unmaintained == any_unmaintained(ds, libs, ds.len() as int)
}

/// Analyzes a project's dependencies against the directory and a scan of its
/// sources: a finding for each dependency that has flags, in dependency order.
pub fn analyze(deps: &Vec<String>, libs: &Vec<Library>, scan: &ScanResult) -> (r: (
    AnalyzeReport,
    AnalyzeOutcome,
))
    ensures
        analysis_holds(&r, views(deps@), libs@, scan),
{
    let ghost ds = views(deps@);
    let n = deps.len();
    let mut findings: Vec<PackageFinding> = Vec::new();
    let mut has_unmaintained = false;
    let mut i: usize = 0;
    while i < n
        invariant
            n == deps@.len(),
            ds == views(deps@),
            i <= n,
            findings@.len() == flagged_deps(ds, libs@, i as int).len(),
            forall|k: int|
                0 <= k < findings@.len() ==> reports_dep(
                    #[trigger] &findings@[k],
                    flagged_deps(ds, libs@, i as int)[k],
                    ds,
                    libs@,
                    scan,
                ),
            has_unmaintained == any_unmaintained(ds, libs@, i as int),
        decreases n - i,
    {
        let dep = &deps[i];
        let ghost prev_flagged = flagged_deps(ds, libs@, i as int);
        assert(ds[i as int] == dep@);
        proof {
            crate::candidates::lemma_first_name_eq_range(libs@, dep@, 0);
            lemma_any_unmaintained_step(ds, libs@, i as int);
        }
        match find_name(libs, dep.as_str()) {
            Some(j) => {
                let l = &libs[j];
                if l.is_archived() || l.unmaintained {
                    has_unmaintained = true;
                }
                let flags = flags_of(l);
                if flags.len() > 0 {
                    let f = finding(dep, j, libs, scan, deps, flags);
                    proof {
                        reveal(reports_dep);
                        assert(reports_dep(&f, i as int, ds, libs@, scan));
                    }
                    let ghost before = findings@;
                    findings.push(f);
                    proof {
                        let nf = flagged_deps(ds, libs@, i + 1);
                        assert(nf == prev_flagged.push(i as int));
                        assert forall|k: int| 0 <= k < findings@.len() implies reports_dep(
                            #[trigger] &findings@[k],
                            nf[k],
                            ds,
                            libs@,
                            scan,
                        ) by {
                            if k < before.len() {
                                assert(findings@[k] == before[k]);
                                assert(nf[k] == prev_flagged[k]);
                            }
                        }
                    }
                } else {
                    assert(flagged_deps(ds, libs@, i + 1) == prev_flagged);
                }
            },
            None => {
                assert(flagged_deps(ds, libs@, i + 1) == prev_flagged);
            },
        }
        i = i + 1;
    }
    let count = findings.len();
    let report = AnalyzeReport {
        files_scanned: scan.files_scanned,
        deps_total: n,
        deps_flagged: count,
        package_findings: findings,
    };
    let outcome = AnalyzeOutcome { any_finding: count > 0, has_unmaintained };
    assert(ds.len() == n);
    (report, outcome)
}

/// The dependency lists of a `package.json`: the member names of its
/// `dependencies` and `devDependencies` objects, each absent when that member is
/// missing or not an object.
pub struct Manifest {
    pub dependencies: Option<Vec<String>>,
    pub dev_dependencies: Option<Vec<String>>,
}

/// What `serde_json` reads from a JSON text for a member: `None` when the text
/// is not JSON; otherwise the names of the member's entries in the order of the
/// parsed object, or `None` inside when the member is missing or not an object.
pub uninterp spec fn json_member_keys(text: Seq<char>, member: Seq<char>) -> Option<Option<Seq<Seq<char>>>>;

/// Calls `serde_json::from_str` for a `serde_json::Value`, then `Value::get` with
/// the member, `Value::as_object` and `Map::keys`. The contract names the result
/// `json_member_keys(text@, member@)`; the JSON grammar is not written out here.
#[verifier::external_body]
fn member_keys(text: &str, member: &str) -> (r: Option<Option<Vec<String>>>)
    ensures
        json_member_keys(text@, member@) == match r {
            Some(k) => Some(opt_views(k)),
            None => None::<Option<Seq<Seq<char>>>>,
        },
{
    let v: serde_json::Value = serde_json::from_str(text).ok()?;
    Some(v.get(member).and_then(serde_json::Value::as_object).map(|m| m.keys().cloned().collect()))
}

/// The views of an optional list of strings.
pub open spec fn opt_views(o: Option<Vec<String>>) -> Option<Seq<Seq<char>>> {
    match o {
        Some(v) => Some(views(v@)),
        None => None,
    }
}

/// A list, or the empty list when absent.
pub open spec fn or_empty(o: Option<Seq<Seq<char>>>) -> Seq<Seq<char>> {
    match o {
        Some(v) => v,
        None => Seq::empty(),
    }
}

/// The dependency names a `package.json` text declares: those of `dependencies`
/// and then those of `devDependencies`; `None` when the text is not JSON.
pub open spec fn manifest_deps(text: Seq<char>) -> Option<Seq<Seq<char>>> {
    match (json_member_keys(text, "dependencies"@), json_member_keys(text, "devDependencies"@)) {
        (Some(a), Some(b)) => Some(or_empty(a) + or_empty(b)),
        _ => None,
    }
}

/// Reads the dependency lists of a `package.json` text.
pub fn parse_manifest(text: &str) -> (r: Option<Manifest>)
    ensures
        match r {
            Some(m) => json_member_keys(text@, "dependencies"@) == Some(opt_views(m.dependencies))
                && json_member_keys(text@, "devDependencies"@) == Some(opt_views(m.dev_dependencies)),
            None => json_member_keys(text@, "dependencies"@) is None || json_member_keys(
                text@,
                "devDependencies"@,
            ) is None,
        },
{
    let dependencies = member_keys(text, "dependencies")?;
    let dev_dependencies = member_keys(text, "devDependencies")?;
    Some(Manifest { dependencies, dev_dependencies })
}

fn append_all(out: &mut Vec<String>, src: &Option<Vec<String>>)
    ensures
        views(final(out)@) == views(old(out)@) + or_empty(opt_views(*src)),
{
    if let Some(v) = src {
        let n = v.len();
        let mut i: usize = 0;
        let ghost start = views(out@);
        while i < n
            invariant
                n == v@.len(),
                i <= n,
                views(out@) == start + views(v@).take(i as int),
            decreases n - i,
        {
            let ghost before = views(out@);
            out.push(v[i].clone());
            assert(views(out@) =~= before.push(v@[i as int]@));
            assert(views(v@).take(i + 1) =~= views(v@).take(i as int).push(v@[i as int]@));
            i = i + 1;
        }
        assert(views(v@).take(n as int) =~= views(v@));
    } else {
        assert(views(out@) + Seq::<Seq<char>>::empty() =~= views(out@));
    }
}

/// The dependency names of a manifest: `dependencies` first, then `devDependencies`.
pub fn dependency_names(m: &Manifest) -> (r: Vec<String>)
    ensures
        views(r@) == or_empty(opt_views(m.dependencies)) + or_empty(opt_views(m.dev_dependencies)),
{
    let mut out: Vec<String> = Vec::new();
    assert(views(out@) =~= Seq::<Seq<char>>::empty());
    append_all(&mut out, &m.dependencies);
    append_all(&mut out, &m.dev_dependencies);
    out
}

/// Analyzes a project from the text of its `package.json`: nothing when the text
/// is not JSON, else the analysis of the dependencies it declares.
pub fn analyze_manifest(text: &str, libs: &Vec<Library>, scan: &ScanResult) -> (r: Option<
    (AnalyzeReport, AnalyzeOutcome),
>)
    ensures
        match manifest_deps(text@) {
            None => r is None,
            Some(ds) => r matches Some(x) && analysis_holds(&x, ds, libs@, scan),
        },
{
    let m = match parse_manifest(text) {
        Some(m) => m,
        None => {
            return None;
        },
    };
    let deps = dependency_names(&m);
    Some(analyze(&deps, libs, scan))
}

/// Alternatives reported as already in the project are dependencies of the project.
pub proof fn law_project_alternatives_are_dependencies(names: Seq<Seq<char>>, deps: Seq<Seq<char>>)
    ensures
        forall|k: int| 0 <= k < in_project(names, deps).len() ==> deps.contains(
            #[trigger] in_project(names, deps)[k],
        ),
    decreases names.len(),
{
    if names.len() > 0 {
        law_project_alternatives_are_dependencies(names.drop_last(), deps);
        let prev = in_project(names.drop_last(), deps);
        let cur = in_project(names, deps);
        assert forall|k: int| 0 <= k < cur.len() implies deps.contains(#[trigger] cur[k]) by {
            if k < prev.len() {
                assert(cur[k] == prev[k]);
            }
        }
    }
}

/// Every applicable flag is raised: an archived package is flagged `archived`,
/// an unmaintained one `unmaintained`, and a package with native code is
/// flagged `no new-arch support` when it declares no New Architecture support
/// and `no TypeScript types` when it ships no types. A dependency whose
/// directory package gets any flag is reported.
pub proof fn law_flags_complete(l: &Library)
    ensures
        l.spec_is_archived() ==> package_flags(l).contains("archived"@),
        l.unmaintained ==> package_flags(l).contains("unmaintained"@),
        l.spec_has_native_code() && l.spec_supports_new_architecture() == Some(false) ==> package_flags(
            l,
        ).contains("no new-arch support"@),
        l.spec_has_native_code() && !l.spec_has_types() ==> package_flags(l).contains(
            "no TypeScript types"@,
        ),
        (l.spec_is_archived() || l.unmaintained || (l.spec_has_native_code() && (!l.spec_has_types()
            || l.spec_supports_new_architecture() == Some(false)))) ==> package_flags(l).len() > 0,
        forall|k: int|
            0 <= k < package_flags(l).len() ==> {
                let x = #[trigger] package_flags(l)[k];
                x == "archived"@ || x == "unmaintained"@ || x == "no new-arch support"@ || x
                    == "no TypeScript types"@
            },
{
    let a = if l.spec_is_archived() {
        seq!["archived"@]
    } else {
        Seq::empty()
    };
    let b = if l.unmaintained {
        a.push("unmaintained"@)
    } else {
        a
    };
    let c = if l.spec_has_native_code() && l.spec_supports_new_architecture() == Some(false) {
        b.push("no new-arch support"@)
    } else {
        b
    };
    let f = package_flags(l);
    if l.spec_is_archived() {
        assert(a[0] == "archived"@);
        assert(b[0] == "archived"@);
        assert(c[0] == "archived"@);
        assert(f[0] == "archived"@);
    }
    if l.unmaintained {
        assert(b[b.len() - 1] == "unmaintained"@);
        assert(c[b.len() - 1] == "unmaintained"@);
        assert(f[b.len() - 1] == "unmaintained"@);
    }
    if l.spec_has_native_code() && l.spec_supports_new_architecture() == Some(false) {
        assert(c[c.len() - 1] == "no new-arch support"@);
        assert(f[c.len() - 1] == "no new-arch support"@);
    }
    if l.spec_has_native_code() && !l.spec_has_types() {
        assert(f[f.len() - 1] == "no TypeScript types"@);
    }
    assert forall|k: int| 0 <= k < f.len() implies {
        let x = #[trigger] f[k];
        x == "archived"@ || x == "unmaintained"@ || x == "no new-arch support"@ || x
            == "no TypeScript types"@
    } by {
        if k < c.len() {
            if k < b.len() {
                if k < a.len() {
                    assert(c[k] == b[k] && b[k] == a[k]);
                } else {
                    assert(c[k] == b[k]);
                }
            }
        }
    }
}

/// A dependency whose package in the directory has native code but no
/// TypeScript types, or is archived or unmaintained, is among the flagged ones.
pub proof fn law_flagged_deps_complete(deps: Seq<Seq<char>>, libs: Seq<Library>, n: int, d: int)
    requires
        0 <= d < n <= deps.len(),
        first_name_eq(libs, deps[d], 0) matches Some(i) && (libs[i].spec_is_archived()
            || libs[i].unmaintained || (libs[i].spec_has_native_code() && (!libs[i].spec_has_types()
            || libs[i].spec_supports_new_architecture() == Some(false)))),
    ensures
        flagged_deps(deps, libs, n).contains(d),
    decreases n,
{
    let i = first_name_eq(libs, deps[d], 0)->0;
    law_flags_complete(&libs[i]);
    let cur = flagged_deps(deps, libs, n);
    if d == n - 1 {
        assert(cur[cur.len() - 1] == d);
    } else {
        law_flagged_deps_complete(deps, libs, n - 1, d);
        let prev = flagged_deps(deps, libs, n - 1);
        let j = choose|j: int| 0 <= j < prev.len() && prev[j] == d;
        assert(cur[j] == prev[j]);
    }
}

/// Only packages with native code are flagged for missing New Architecture
/// support or missing TypeScript types; only archived or unmaintained packages
/// are flagged as such.
pub proof fn law_flags_follow_package(l: &Library)
    ensures
        package_flags(l).contains("no new-arch support"@) ==> l.spec_has_native_code(),
        package_flags(l).contains("no TypeScript types"@) ==> l.spec_has_native_code(),
        package_flags(l).contains("archived"@) ==> l.spec_is_archived(),
        package_flags(l).contains("unmaintained"@) ==> l.unmaintained,
{
    reveal_strlit("archived");
    reveal_strlit("unmaintained");
    reveal_strlit("no new-arch support");
    reveal_strlit("no TypeScript types");
    let f = package_flags(l);
    if f.contains("no new-arch support"@) || f.contains("no TypeScript types"@) || f.contains("archived"@) || f.contains("unmaintained"@) {
        let a = if l.spec_is_archived() {
            seq!["archived"@]
        } else {
            Seq::empty()
        };
        let b = if l.unmaintained {
            a.push("unmaintained"@)
        } else {
            a
        };
        let c = if l.spec_has_native_code() && l.spec_supports_new_architecture() == Some(false) {
            b.push("no new-arch support"@)
        } else {
            b
        };
        assert(forall|k: int| 0 <= k < a.len() ==> a[k] == "archived"@);
        assert(forall|k: int| 0 <= k < b.len() ==> b[k] == "archived"@ || b[k] == "unmaintained"@);
        assert(!l.unmaintained ==> forall|k: int| 0 <= k < b.len() ==> b[k] == "archived"@);
        assert("archived"@.len() == 8);
        assert("unmaintained"@.len() == 12);
        assert("no new-arch support"@.len() == 19);
        assert("no TypeScript types"@.len() == 19);
        if !l.spec_is_archived() {
            assert(forall|k: int| 0 <= k < f.len() ==> f[k].len() != 8);
        }
    }
}

} // verus!
