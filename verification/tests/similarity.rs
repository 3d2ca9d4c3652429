use rnd::api::{GithubInfo, Library};
use rnd::similarity::{
    description_tokens, meaningful_topics, name_tokens, normalize_topic, overlap_count, stem_5,
};

fn bare_library(npm: &str) -> Library {
    Library {
        github_url: None,
        npm_pkg: Some(npm.to_string()),
        ios: false,
        android: false,
        web: false,
        macos: false,
        tvos: false,
        visionos: false,
        windows: false,
        fireos: false,
        horizon: false,
        vegaos: None,
        expo_go: false,
        expo: false,
        dev: false,
        unmaintained: false,
        nightly_program: false,
        config_plugin: None,
        new_architecture: None,
        score_micros: None,
        log_stars_micros: 0,
        topics_flat: String::new(),
        alternatives: None,
        github: None,
        npm: None,
    }
}

fn github(description: &str, topics: &[&str]) -> GithubInfo {
    GithubInfo {
        name: None,
        full_name: None,
        description: Some(description.to_string()),
        topics: topics.iter().map(|t| t.to_string()).collect(),
        license: None,
        stats: None,
        is_archived: false,
        has_types: false,
        new_architecture: false,
        has_native_code: false,
        module_type: None,
    }
}

#[test]
fn stem_normalizes_plural_variants() {
    assert_eq!(stem_5("animated"), stem_5("animation"));
    assert_eq!(stem_5("animations"), stem_5("animated"));
}

#[test]
fn stem_handles_short_and_multibyte() {
    assert_eq!(stem_5("cat"), "cat");
    let s = stem_5("高德地图导航");
    assert!(s.chars().count() <= 5);
}

#[test]
fn stem_strips_common_suffixes() {
    assert_eq!(stem_5("navigating"), "navig");
    assert_eq!(stem_5("navigation"), "navig");
    assert_eq!(stem_5("navigate"), "navig");
}

#[test]
fn name_tokens_strips_rn_prefixes() {
    let mut lib = bare_library("react-native-mmkv");
    let tokens = name_tokens(&lib);
    assert!(tokens.contains(&"mmkv".to_string()), "tokens = {tokens:?}");
    assert!(!tokens.contains(&"react".to_string()));
    assert!(!tokens.contains(&"native".to_string()));

    lib.npm_pkg = Some("@legendapp/list".into());
    let tokens = name_tokens(&lib);
    assert!(tokens.contains(&"legendapp".to_string()) || tokens.contains(&"list".to_string()));
}

#[test]
fn stem_repeats_trims_and_keeps_five_chars() {
    assert_eq!(stem_5("settingsings"), "setti");
    assert_eq!(stem_5("ses"), "s");
    assert_eq!(stem_5("tiontion"), "");
    assert_eq!(stem_5("updated"), "updat");
}

#[test]
fn normalize_topic_drops_plural_s_when_long_enough() {
    assert_eq!(normalize_topic("Animations"), "animation");
    assert_eq!(normalize_topic("ss"), "ss");
    assert_eq!(normalize_topic("gass"), "gass");
    assert_eq!(normalize_topic("BUS"), "bus");
    assert_eq!(normalize_topic("us"), "us");
}

#[test]
fn meaningful_topics_normalize_dedup_and_skip_stopwords() {
    let mut lib = bare_library("x");
    lib.github = Some(github("", &["Animations", "animation", "react-native", "ios", "a", "Gesture"]));
    assert_eq!(meaningful_topics(&lib), vec!["animation".to_string(), "gesture".to_string()]);
    assert!(meaningful_topics(&bare_library("y")).is_empty());
}

#[test]
fn name_tokens_split_on_non_alphanumeric_and_drop_short() {
    let lib = bare_library("@react-native-community/Slider-UI_kit");
    assert_eq!(name_tokens(&lib), vec!["slider".to_string(), "kit".to_string()]);
    let lib = bare_library("expo-image-picker");
    assert_eq!(name_tokens(&lib), vec!["image".to_string(), "picker".to_string()]);
}

#[test]
fn description_tokens_stem_and_skip_common_words() {
    let mut lib = bare_library("x");
    lib.github = Some(github("Smooth animations with powerful animated gestures, easy to use", &[]));
    let t = description_tokens(&lib);
    assert_eq!(t, vec!["smoot".to_string(), "anima".to_string(), "gestu".to_string()]);
}

#[test]
fn overlap_counts_shared_words() {
    let a = vec!["a".to_string(), "b".to_string(), "c".to_string()];
    let b = vec!["c".to_string(), "a".to_string(), "z".to_string()];
    assert_eq!(overlap_count(&a, &b), 2);
    assert_eq!(overlap_count(&b, &Vec::new()), 0);
}
