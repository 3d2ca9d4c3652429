use rnd::scanner::{extract_package_name, import_specifiers, source_imports_exec, Location, ScanResult};

#[test]
fn bare_package() {
    assert_eq!(extract_package_name("lodash"), Some("lodash".into()));
}

#[test]
fn scoped_package() {
    assert_eq!(
        extract_package_name("@react-native-async-storage/async-storage"),
        Some("@react-native-async-storage/async-storage".into())
    );
}

#[test]
fn scoped_with_subpath() {
    assert_eq!(
        extract_package_name("@legendapp/list/reanimated"),
        Some("@legendapp/list".into())
    );
}

#[test]
fn bare_with_subpath() {
    assert_eq!(
        extract_package_name("react-native/Libraries/Foo"),
        Some("react-native".into())
    );
}

#[test]
fn relative_import_skipped() {
    assert_eq!(extract_package_name("./foo"), None);
    assert_eq!(extract_package_name("../../bar"), None);
    assert_eq!(extract_package_name("/abs/path"), None);
}

#[test]
fn empty_string_skipped() {
    assert_eq!(extract_package_name(""), None);
}

#[test]
fn import_regex_captures_various_shapes() {
    let samples = [
        (r#"import X from "foo""#, Some("foo")),
        (r#"import X from 'foo'"#, Some("foo")),
        (r#"import 'side-effect'"#, Some("side-effect")),
        (r#"const x = require("foo")"#, Some("foo")),
        (r#"const x = require ( 'foo' )"#, Some("foo")),
    ];
    for (src, expected) in samples {
        let caps = import_specifiers(src);
        let cap = caps.first().map(|s| s.as_str());
        assert_eq!(cap, expected, "input: {src}");
    }
}

#[test]
fn scoped_edge_cases() {
    assert_eq!(extract_package_name("@scope"), None);
    assert_eq!(extract_package_name("@/x"), None);
    assert_eq!(extract_package_name("@scope/"), None);
    assert_eq!(extract_package_name("@é/x"), Some("@é/x".into()));
    assert_eq!(extract_package_name("a"), Some("a".into()));
}

#[test]
fn specifiers_left_to_right_without_overlap() {
    let line = r#"import a from 'x'; import {b} from "y/z"; require('.rel'); from 'w"#;
    assert_eq!(import_specifiers(line), vec!["x".to_string(), "y/z".to_string()]);
    assert!(import_specifiers("fromage 'x'").is_empty());
    assert_eq!(import_specifiers("from\u{3000}'k'"), vec!["k".to_string()]);
    assert_eq!(import_specifiers("from 'a\"b'"), vec!["a".to_string()]);
}

#[test]
fn specifiers_agree_with_the_regex_engine() {
    let re = regex::Regex::new(r#"(?m)(?:from\s+|require\s*\(\s*|import\s+)['"]([^'"./][^'"]*)['"]"#)
        .unwrap();
    let lines = [
        r#"import React, { useState } from 'react';"#,
        r#"import type { Foo } from "@scope/pkg/sub";"#,
        r#"const a = require('a'), b = require ("b");"#,
        r#"export * from './local';"#,
        r#"import 'x' import "y""#,
        r#"from   "a"from 'b'"#,
        r#"require( ''); require('"x')"#,
        r#"import	'tab'"#,
        r#"xfrom 'q' ximport 'r'"#,
        "",
        r#"from ''"#,
    ];
    for line in lines {
        let expected: Vec<String> = re
            .captures_iter(line)
            .map(|c| c.get(1).unwrap().as_str().to_string())
            .collect();
        assert_eq!(import_specifiers(line), expected, "line: {line}");
    }
}

#[test]
fn source_imports_keep_line_numbers() {
    let src = "import a from 'alpha';\r\n\r\nconst b = require(\"@s/beta/x\");\nimport './local'\nfrom 'gamma'";
    let found = source_imports_exec(src);
    assert_eq!(
        found,
        vec![("alpha".to_string(), 1), ("@s/beta".to_string(), 3), ("gamma".to_string(), 5)]
    );
    assert!(source_imports_exec("").is_empty());
    assert_eq!(source_imports_exec("from 'x'\n"), vec![("x".to_string(), 1)]);
}

#[test]
fn scan_records_locations_per_package() {
    let mut scan = ScanResult::new();
    assert!(scan.get("alpha").is_none());
    scan.scan_source("src/a.ts", "import a from 'alpha'\nimport b from 'beta'\nimport c from 'alpha/c'");
    scan.scan_source("src/b.ts", "from 'alpha'");
    assert_eq!(scan.files_scanned, 2);
    let alpha: Vec<(String, usize)> =
        scan.get("alpha").unwrap().iter().map(|l| (l.file.clone(), l.line)).collect();
    assert_eq!(
        alpha,
        vec![("src/a.ts".to_string(), 1), ("src/a.ts".to_string(), 3), ("src/b.ts".to_string(), 1)]
    );
    assert_eq!(scan.get("beta").unwrap().len(), 1);
    assert!(scan.get("gamma").is_none());
}

#[test]
fn record_then_get_returns_the_location() {
    let mut scan = ScanResult::new();
    scan.record("p", Location { file: "f".to_string(), line: 7 });
    let got = scan.get("p").unwrap();
    assert_eq!(got.len(), 1);
    assert_eq!(got[0].file, "f");
    assert_eq!(got[0].line, 7);
    assert_eq!(scan.files_scanned, 0);
}
