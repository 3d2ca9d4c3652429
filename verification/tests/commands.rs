use rnd::api::{BoolOrStr, GithubInfo, GithubStats, Library, NewArchValue, NpmInfo};
use rnd::candidates::{compute_candidate_names, MatchReason};
use rnd::commands::{
    alternatives, alternatives_checked, compare, discover, info, list, platform_supported, search, trending,
    works_with_target, ListFilters,
};
use rnd::dates::parse_iso8601_secs;

fn library(name: &str) -> Library {
    Library {
        github_url: None,
        npm_pkg: Some(name.to_string()),
        ios: false,
        android: false,
        web: false,
        macos: false,
        tvos: false,
        visionos: false,
        windows: false,
        fireos: false,
        horizon: false,
        vegaos: None,
        expo_go: false,
        expo: false,
        dev: false,
        unmaintained: false,
        nightly_program: false,
        config_plugin: None,
        new_architecture: None,
        score_micros: None,
        log_stars_micros: 0,
        topics_flat: String::new(),
        alternatives: None,
        github: None,
        npm: None,
    }
}

fn with_github(mut lib: Library, desc: &str, topics: &[&str], stars: u64, native: bool) -> Library {
    lib.github = Some(GithubInfo {
        name: None,
        full_name: None,
        description: Some(desc.to_string()),
        topics: topics.iter().map(|t| t.to_string()).collect(),
        license: None,
        stats: Some(GithubStats { stars, forks: 0, issues: 0, pushed_at: None, updated_at: None }),
        is_archived: false,
        has_types: true,
        new_architecture: false,
        has_native_code: native,
        module_type: None,
    });
    lib
}

fn with_downloads(mut lib: Library, week: u64) -> Library {
    lib.npm = Some(NpmInfo {
        downloads: 0,
        week_downloads: week,
        latest_release: None,
        latest_release_date: None,
    });
    lib
}

fn filters() -> ListFilters {
    ListFilters {
        category: None,
        platforms: vec![],
        works_with: vec![],
        module_type: None,
        new_arch: false,
        has_types: false,
        native: false,
        config_plugin: false,
        nightly: false,
        include_unmaintained: false,
        no_dev: false,
        limit: 30,
        refresh: false,
        json: false,
    }
}

#[test]
fn iso8601_epoch_and_dates() {
    assert_eq!(parse_iso8601_secs("1970-01-01T00:00:00Z"), Some(0));
    assert_eq!(parse_iso8601_secs("2024-02-27T00:00:00Z"), Some(1_708_992_000));
    assert_eq!(parse_iso8601_secs("2000-03-01T12:34:56Z"), Some(951_914_096));
    assert_eq!(parse_iso8601_secs("1969-12-31T23:59:59Z"), Some(-1));
    assert_eq!(parse_iso8601_secs("2024-02-27"), None);
    assert_eq!(parse_iso8601_secs("2024-0x-27T00:00:00Z"), None);
    assert_eq!(parse_iso8601_secs("2024é02-27T00:00:00Z"), None);
    assert_eq!(parse_iso8601_secs("+024-02-27T00:00:00Z"), parse_iso8601_secs("0024-02-27T00:00:00Z"));
}

#[test]
fn search_orders_by_stars_then_downloads() {
    let libs = vec![
        with_downloads(with_github(library("cam-a"), "Camera module", &[], 10, true), 5),
        with_downloads(with_github(library("other"), "Nothing here", &[], 99, true), 5),
        with_downloads(with_github(library("cam-b"), "camera", &[], 10, true), 50),
        with_downloads(with_github(library("cam-c"), "CAMERA kit", &[], 30, true), 1),
    ];
    assert_eq!(search(&libs, "Camera", 10), vec![3, 2, 0]);
    assert_eq!(search(&libs, "camera", 2), vec![3, 2]);
    assert!(search(&libs, "zzz", 10).is_empty());
}

#[test]
fn trending_is_native_only_by_default() {
    let mut archived = with_downloads(with_github(library("arch"), "", &[], 0, true), 1000);
    archived.github.as_mut().unwrap().is_archived = true;
    let libs = vec![
        with_downloads(with_github(library("js"), "", &[], 0, false), 500),
        with_downloads(with_github(library("nat"), "", &[], 0, true), 100),
        archived,
        with_downloads(with_github(library("nat2"), "", &[], 0, true), 300),
    ];
    assert_eq!(trending(&libs, 10, false), vec![3, 1]);
    assert_eq!(trending(&libs, 10, true), vec![0, 3, 1]);
    assert_eq!(trending(&libs, 1, true), vec![0]);
}

#[test]
fn discover_keeps_recent_well_scored_native_packages() {
    let now = parse_iso8601_secs("2024-06-01T00:00:00Z").unwrap();
    let mk = |name: &str, score: i64, pushed: &str, stars: u64| {
        let mut l = with_github(library(name), "", &[], stars, true);
        l.score_micros = Some(score * 1_000_000);
        l.github.as_mut().unwrap().stats.as_mut().unwrap().pushed_at = Some(pushed.to_string());
        l
    };
    let libs = vec![
        mk("old", 90, "2023-01-01T00:00:00Z", 1),
        mk("low", 50, "2024-05-30T00:00:00Z", 1),
        mk("good", 80, "2024-05-01T00:00:00Z", 1),
        mk("best", 95, "2024-05-20T00:00:00Z", 1),
        mk("tie", 80, "2024-05-25T00:00:00Z", 9),
        mk("bad-date", 99, "not a date at all!!!", 1),
    ];
    assert_eq!(discover(&libs, 25, 70_000_000, 90, now), vec![3, 4, 2]);
    assert_eq!(discover(&libs, 25, 70_000_000, 15, now), vec![3, 4]);
    assert_eq!(discover(&libs, 25, 70_000_000, 10, now), vec![4]);
}

#[test]
fn list_requires_every_platform_and_target() {
    let mut a = with_github(library("a"), "", &["Camera-Kit"], 5, true);
    a.ios = true;
    a.android = true;
    a.expo_go = true;
    a.score_micros = Some(10);
    let mut b = with_github(library("b"), "", &["storage"], 50, true);
    b.ios = true;
    b.score_micros = Some(10);
    let mut c = with_github(library("c"), "", &[], 1, false);
    c.ios = true;
    c.android = true;
    c.topics_flat = "camera".to_string();
    c.score_micros = Some(20);
    c.vegaos = Some(BoolOrStr::Str("fork".to_string()));
    let libs = vec![a, b, c];
    let mut f = filters();
    f.platforms = vec!["IOS".to_string(), "android".to_string()];
    assert_eq!(list(&f, &libs), vec![2, 0]);
    f.works_with = vec!["Expo_Go".to_string()];
    assert_eq!(list(&f, &libs), vec![0]);
    let mut f = filters();
    f.category = Some("CAMERA".to_string());
    assert_eq!(list(&f, &libs), vec![2, 0]);
    f.native = true;
    assert_eq!(list(&f, &libs), vec![0]);
    let mut f = filters();
    f.works_with = vec!["vegaos".to_string()];
    assert_eq!(list(&f, &libs), vec![2]);
    let mut f = filters();
    f.limit = 1;
    assert_eq!(list(&f, &libs), vec![2]);
}

#[test]
fn platform_and_target_names_are_case_insensitive() {
    let mut l = library("p");
    l.visionos = true;
    l.expo_go = true;
    assert!(platform_supported(&l, "VisionOS"));
    assert!(!platform_supported(&l, "ios"));
    assert!(!platform_supported(&l, "unknown"));
    assert!(works_with_target(&l, "EXPO_GO"));
    assert!(works_with_target(&l, "expogo"));
    assert!(!works_with_target(&l, "fireos"));
}

#[test]
fn new_arch_value_support() {
    assert!(NewArchValue::Str("new-arch-only".to_string()).supports());
    assert!(NewArchValue::Str("true".to_string()).supports());
    assert!(!NewArchValue::Str("false".to_string()).supports());
    assert!(NewArchValue::Bool(true).supports());
    assert!(!BoolOrStr::Str(String::new()).is_truthy());
    assert!(BoolOrStr::Str("x".to_string()).is_truthy());
    let mut l = library("n");
    assert_eq!(l.supports_new_architecture(), None);
    l.new_architecture = Some(NewArchValue::Bool(false));
    assert_eq!(l.supports_new_architecture(), Some(false));
}

#[test]
fn library_name_falls_back_to_repository() {
    let mut l = library("x");
    l.npm_pkg = None;
    assert_eq!(l.name(), "<unknown>");
    l = with_github(l, "Some Desc", &[], 3, false);
    l.github.as_mut().unwrap().full_name = Some("owner/repo".to_string());
    assert_eq!(l.name(), "owner/repo");
    assert_eq!(l.description(), "Some Desc");
    assert_eq!(l.stars(), 3);
    assert!(l.matches_query("SOME"));
    assert!(l.matches_query("OWNER/"));
    assert!(!l.matches_query("absent"));
}

#[test]
fn candidates_follow_the_tiers() {
    let mut target = with_github(
        library("react-native-fast-image"),
        "Performant image component with caching",
        &["image", "cache", "performance"],
        100,
        true,
    );
    target.alternatives = Some(vec!["EXPO-IMAGE".to_string(), "missing".to_string()]);
    let expo_image = with_github(library("expo-image"), "Image library", &["image"], 10, true);
    let topic = with_github(library("topic-img"), "x", &["image", "cache"], 10, true);
    let name_match = with_github(library("fast-thing"), "y", &[], 10, true);
    let js_only = with_github(library("js-image"), "z", &["image", "cache"], 10, false);
    let desc = with_github(library("pix"), "A performant caching helper", &[], 10, true);
    let libs = vec![target, expo_image, topic, name_match, js_only, desc];
    let got = compute_candidate_names(&libs[0], &libs, 10);
    assert_eq!(
        got,
        vec![
            ("expo-image".to_string(), MatchReason::Directory),
            ("topic-img".to_string(), MatchReason::Topic),
            ("fast-thing".to_string(), MatchReason::Name),
            ("pix".to_string(), MatchReason::Description),
        ]
    );
    let got = compute_candidate_names(&libs[0], &libs, 2);
    assert_eq!(got.len(), 2);
    let (t, chosen) = alternatives(&libs, "React-Native-Fast-Image", 10).unwrap();
    assert_eq!(t, 0);
    assert_eq!(chosen[0], (1, MatchReason::Directory));
    assert!(alternatives(&libs, "nope", 10).is_none());
}

#[test]
fn info_finds_names_up_to_ascii_case() {
    let libs = vec![library("react-native-mmkv"), library("React-Native-MMKV"), library("expo-image")];
    assert_eq!(info(&libs, "REACT-native-mmkv"), Some(0));
    assert_eq!(info(&libs, "expo-image"), Some(2));
    assert_eq!(info(&libs, "expo-video"), None);
}

#[test]
fn compare_reports_the_first_missing_name() {
    let libs = vec![library("expo-image"), library("react-native-fast-image")];
    assert_eq!(compare(&libs, "React-Native-Fast-Image", "EXPO-IMAGE"), Ok((1, 0)));
    assert_eq!(compare(&libs, "nope", "expo-image"), Err("nope".to_string()));
    assert_eq!(compare(&libs, "expo-image", "gone"), Err("gone".to_string()));
    assert_eq!(compare(&libs, "first", "second"), Err("first".to_string()));
}

#[test]
fn ties_keep_directory_order() {
    let a = with_downloads(with_github(library("a"), "", &[], 10, true), 5);
    let b = with_downloads(with_github(library("b"), "", &[], 10, true), 5);
    let c = with_downloads(with_github(library("c"), "", &[], 20, true), 1);
    let libs = vec![a, b, c];
    assert_eq!(search(&libs, "", 10), vec![2, 0, 1]);
    assert_eq!(trending(&libs, 10, false), vec![0, 1, 2]);
}

#[test]
fn topic_ranks_compare_exactly() {
    let target = with_github(library("code-reader"), "", &["qrcode", "barcode"], 1, true);
    let mut b = with_github(library("bbb"), "", &["qrcode", "vision", "ocr"], 1, true);
    b.score_micros = Some(93_333_333);
    let mut a = with_github(library("aaa"), "", &["qrcode", "vision"], 1, true);
    a.score_micros = Some(10_000_000);
    let libs = vec![target, b, a];
    let got = compute_candidate_names(&libs[0], &libs, 10);
    assert_eq!(
        got,
        vec![("aaa".to_string(), MatchReason::Topic), ("bbb".to_string(), MatchReason::Topic)]
    );
}

#[test]
fn alternatives_checked_refuses_overflowing_limits() {
    let target = with_github(library("img-target"), "", &["image", "cache"], 1, true);
    let other = with_github(library("other"), "", &["image", "cache"], 1, true);
    let libs = vec![target, other];
    assert_eq!(alternatives_checked(&libs, "IMG-TARGET", usize::MAX), Err(0));
    assert_eq!(alternatives_checked(&libs, "missing", usize::MAX), Ok(None));
    let got = alternatives_checked(&libs, "img-target", 5).unwrap().unwrap();
    assert_eq!(got, (0, vec![(1, MatchReason::Topic)]));
    let lone = vec![with_github(library("solo-thing"), "", &[], 1, true)];
    assert_eq!(alternatives_checked(&lone, "solo-thing", usize::MAX), Ok(Some((0, vec![]))));
}
