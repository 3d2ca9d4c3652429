use owo_colors::OwoColorize;
use rnd::analyze::{
    analyze, analyze_manifest, dependency_names, parse_manifest, AnalyzeReport, PackageFinding,
};
use rnd::scanner::Location;
use rnd::api::{GithubInfo, Library, NewArchValue};
use rnd::cache::{is_fresh, next_load_action, LoadAction, LoadEvent, DEFAULT_TTL_SECS};
use rnd::env::{exit_code, resolve_json, should_auto_json, should_fail, should_skip_prompts, FailOn};
use rnd::output::{
    decimal_string, detail_lines, pad_left_str, pad_right_str, report_lines, row_text, FindingNumbers,
    maintenance_status, platforms, row_platforms, runs_on, truncate_description, yes_no,
    MaintenanceStatus,
};
use rnd::scanner::ScanResult;
use rnd::ui;

fn library(name: &str, native: bool, types: bool) -> Library {
    Library {
        github_url: Some(format!("https://github.com/o/{name}")),
        npm_pkg: Some(name.to_string()),
        ios: false,
        android: false,
        web: false,
        macos: false,
        tvos: false,
        visionos: false,
        windows: false,
        fireos: false,
        horizon: false,
        vegaos: None,
        expo_go: false,
        expo: false,
        dev: false,
        unmaintained: false,
        nightly_program: false,
        config_plugin: None,
        new_architecture: None,
        score_micros: None,
        log_stars_micros: 0,
        topics_flat: String::new(),
        alternatives: None,
        github: Some(GithubInfo {
            name: None,
            full_name: None,
            description: Some(String::new()),
            topics: vec!["gradient".to_string()],
            license: None,
            stats: None,
            is_archived: false,
            has_types: types,
            new_architecture: false,
            has_native_code: native,
            module_type: None,
        }),
        npm: None,
    }
}

#[test]
fn analyze_flags_and_cross_references() {
    let mut old = library("easing-gradient", true, true);
    old.unmaintained = true;
    old.new_architecture = Some(NewArchValue::Bool(false));
    let mut good = library("expo-linear-gradient", true, true);
    good.new_architecture = Some(NewArchValue::Str("new-arch-only".to_string()));
    let js = library("zod", false, false);
    let libs = vec![old, good, js];
    let deps = vec![
        "easing-gradient".to_string(),
        "zod".to_string(),
        "expo-linear-gradient".to_string(),
        "not-in-directory".to_string(),
    ];
    let mut scan = ScanResult::new();
    scan.scan_source("app.tsx", "import G from 'easing-gradient'");
    let (report, outcome) = analyze(&deps, &libs, &scan);
    assert_eq!(report.files_scanned, 1);
    assert_eq!(report.deps_total, 4);
    assert_eq!(report.deps_flagged, 1);
    let f = &report.package_findings[0];
    assert_eq!(f.package, "easing-gradient");
    assert_eq!(f.flags, vec!["unmaintained".to_string(), "no new-arch support".to_string()]);
    assert_eq!(f.lib_index, Some(0));
    assert_eq!(f.used_in.len(), 1);
    assert_eq!(f.used_in[0].line, 1);
    assert_eq!(f.alternatives_in_project, vec!["expo-linear-gradient".to_string()]);
    assert_eq!(f.topics, vec!["gradient".to_string()]);
    assert!(outcome.any_finding);
    assert!(outcome.has_unmaintained);
    assert!(should_fail(FailOn::Unmaintained, &outcome));
    assert!(!should_fail(FailOn::Never, &outcome));
    assert_eq!(exit_code(FailOn::Any, &outcome), 1);
}

#[test]
fn analyze_without_findings() {
    let mut fine = library("fine", true, true);
    fine.new_architecture = Some(NewArchValue::Bool(true));
    let libs = vec![fine];
    let deps = vec!["fine".to_string()];
    let (report, outcome) = analyze(&deps, &libs, &ScanResult::new());
    assert!(report.package_findings.is_empty());
    assert!(!outcome.any_finding && !outcome.has_unmaintained);
    assert_eq!(exit_code(FailOn::Any, &outcome), 0);
}

#[test]
fn output_mode_and_prompts() {
    assert!(should_auto_json(true, true));
    assert!(should_auto_json(false, false));
    assert!(!should_auto_json(false, true));
    assert!(should_skip_prompts(false, false));
    assert!(!should_skip_prompts(false, true));
    assert!(!resolve_json(true, true, true));
    assert!(resolve_json(false, false, true));
    assert!(!resolve_json(false, false, false));
}

#[test]
fn cache_decisions() {
    assert!(is_fresh(Some((10, 5)), DEFAULT_TTL_SECS));
    assert!(!is_fresh(Some((86_400, 0)), DEFAULT_TTL_SECS));
    assert!(!is_fresh(None, DEFAULT_TTL_SECS));
    assert_eq!(next_load_action(LoadEvent::Start { force_refresh: true, fresh: true }), LoadAction::Fetch);
    assert_eq!(next_load_action(LoadEvent::Start { force_refresh: false, fresh: true }), LoadAction::ReadCache);
    assert_eq!(next_load_action(LoadEvent::CacheParsed { ok: false }), LoadAction::Fetch);
    assert_eq!(next_load_action(LoadEvent::Fetched), LoadAction::WriteCache);
}

#[test]
fn styles_wrap_text_in_escape_codes() {
    assert_eq!(ui::info("hi"), "\x1b[36mhi\x1b[39m");
    assert_eq!(ui::warn("hi"), "\x1b[33mhi\x1b[39m");
    assert_eq!(ui::error("hi"), "\x1b[31mhi\x1b[39m");
    assert_eq!(ui::success("hi"), "\x1b[32mhi\x1b[39m");
    assert_eq!(ui::dim("hi"), "\x1b[2mhi\x1b[0m");
    assert_eq!(ui::bold("hi"), "\x1b[1mhi\x1b[0m");
}

#[test]
fn row_and_detail_pieces() {
    let mut l = library("p", true, true);
    l.ios = true;
    l.web = true;
    l.expo = true;
    assert_eq!(yes_no(true), "yes");
    assert_eq!(platforms(&l), "yes/no/yes");
    assert_eq!(row_platforms(&l), "ios,web");
    assert_eq!(runs_on(&l), "iOS, Web, Expo");
    assert_eq!(maintenance_status(&l), MaintenanceStatus::Maintained);
    l.unmaintained = true;
    assert_eq!(maintenance_status(&l), MaintenanceStatus::Unmaintained);
    let long = "x".repeat(75);
    assert_eq!(truncate_description(&long), format!("{}…", "x".repeat(70)));
    assert_eq!(truncate_description("short"), "short");
}

#[test]
fn manifest_lists_dependencies_then_dev_dependencies() {
    let text = r#"{"name":"app","dependencies":{"react":"18","expo":"51"},"devDependencies":{"jest":"29"}}"#;
    let m = parse_manifest(text).unwrap();
    assert_eq!(m.dependencies, Some(vec!["expo".to_string(), "react".to_string()]));
    assert_eq!(m.dev_dependencies, Some(vec!["jest".to_string()]));
    assert_eq!(dependency_names(&m), vec!["expo", "react", "jest"]);
    let m = parse_manifest(r#"{"dependencies":[1,2]}"#).unwrap();
    assert_eq!(m.dependencies, None);
    assert_eq!(m.dev_dependencies, None);
    assert!(dependency_names(&m).is_empty());
    assert!(parse_manifest("{not json").is_none());
}

#[test]
fn analyze_manifest_reads_the_text() {
    let mut old = library("easing-gradient", true, true);
    old.unmaintained = true;
    let libs = vec![old];
    let scan = ScanResult::new();
    let text = r#"{"devDependencies":{"easing-gradient":"1"},"dependencies":{"left-pad":"1"}}"#;
    let (report, outcome) = analyze_manifest(text, &libs, &scan).unwrap();
    assert_eq!(report.deps_total, 2);
    assert_eq!(report.deps_flagged, 1);
    assert_eq!(report.package_findings[0].package, "easing-gradient");
    assert!(outcome.has_unmaintained);
    assert!(analyze_manifest("[", &libs, &scan).is_none());
}

#[test]
fn decimal_and_padding_match_std_formatting() {
    for n in [0usize, 7, 10, 99, 100, 12345, usize::MAX] {
        assert_eq!(decimal_string(n), n.to_string());
    }
    assert_eq!(pad_right_str("ab", 5), format!("{:<5}", "ab"));
    assert_eq!(pad_left_str("★12", 7), format!("{:>7}", "★12"));
    assert_eq!(pad_left_str("toolongtext", 4), "toolongtext");
}

#[test]
fn row_text_matches_the_row_format() {
    let mut l = library("react-native-mmkv", true, true);
    l.ios = true;
    l.android = true;
    l.github.as_mut().unwrap().description = Some("é".repeat(40));
    l.unmaintained = true;
    let desc = "é".repeat(35) + "…";
    let expected = format!(
        "{:<40} {:>7} {:>8}/wk  [{:>11}]{}\n    {}",
        "react-native-mmkv".bold(),
        format!("★{}", "6.0k").yellow(),
        "44.5k".cyan(),
        "ios,and".dimmed(),
        format!(" {}", "[unmaintained]".yellow()),
        desc.dimmed()
    );
    assert_eq!(row_text(&l, "6.0k", "44.5k"), expected);
}

#[test]
fn report_lines_lay_out_findings() {
    let finding = PackageFinding {
        package: "easing-gradient".to_string(),
        flags: vec!["unmaintained".to_string()],
        in_directory: true,
        lib_index: Some(0),
        github_url: Some("https://github.com/o/easing-gradient".to_string()),
        license: None,
        latest_release: None,
        latest_release_date: None,
        last_pushed_at: Some("2024-02-27T10:00:00Z".to_string()),
        stars: 258,
        weekly_downloads: 0,
        topics: vec![],
        has_native_code: true,
        has_types: true,
        new_architecture: None,
        used_in: (1..=7).map(|i| Location { file: format!("src/f{i}.tsx"), line: i * 10 }).collect(),
        alternatives_in_project: vec!["expo-linear-gradient".to_string(), "x".to_string()],
    };
    let report = AnalyzeReport { files_scanned: 335, deps_total: 58, deps_flagged: 1, package_findings: vec![finding] };
    let numbers = vec![FindingNumbers { stars: "258".to_string(), downloads: "0".to_string(), score: Some("0".to_string()) }];
    let lines = report_lines(&report, &numbers);
    let mut expected = vec![
        format!("Scanned {} source files, {} deps, {} flagged", ui::bold("335"), ui::bold("58"), ui::warn("1")),
        String::new(),
        format!("{} {}{}", ui::error("⚠"), ui::bold("easing-gradient"), ui::dim(" — used in 7 files")),
        format!("    - {}", ui::dim("unmaintained")),
        format!("    {} expo-linear-gradient, x", ui::info("already in deps that could cover this:")),
        format!("    {} {}", ui::dim("repo:"), ui::dim("https://github.com/o/easing-gradient")),
        format!("    {} {}", ui::dim("stats:"), ui::dim("★258  score 0  pushed 2024-02-27")),
    ];
    for i in 1..=5 {
        expected.push(format!("    {}:{}", ui::dim(&format!("src/f{i}.tsx")), ui::dim(&(i * 10).to_string())));
    }
    expected.push(format!("    {} (+2 more)", ui::dim("…")));
    assert_eq!(lines, expected);
    let empty = AnalyzeReport { files_scanned: 3, deps_total: 2, deps_flagged: 0, package_findings: vec![] };
    assert_eq!(
        report_lines(&empty, &vec![]),
        vec![
            format!("Scanned {} source files, {} deps, {} flagged", ui::bold("3"), ui::bold("2"), ui::warn("0")),
            String::new(),
            format!("{} no issues found", ui::success("✓")),
        ]
    );
}

#[test]
fn detail_lines_match_the_details_view() {
    let mut l = library("expo-camera", true, true);
    l.ios = true;
    l.expo = true;
    l.github.as_mut().unwrap().description = Some("Camera access".to_string());
    l.new_architecture = Some(NewArchValue::Bool(true));
    l.github.as_mut().unwrap().is_archived = true;
    let lines = detail_lines(&l, "1.2k", "300", "87");
    let expected = vec![
        format!("{}", "expo-camera".bold()),
        "  Camera access".to_string(),
        String::new(),
        format!("  {} ★{}  ⭳ {}/week  score {}", "stats:".dimmed(), "1.2k", "300", 87),
        format!("  {} {}", "runs on:".dimmed(), "iOS, Expo"),
        format!("  {} yes", "typescript:".dimmed()),
        format!("  {} yes", "new arch:".dimmed()),
        format!("  {} {}", "status:".dimmed(), "ARCHIVED".red().bold()),
        format!("  {} {}", "github:".dimmed(), "https://github.com/o/expo-camera"),
    ];
    assert_eq!(lines, expected);
}
