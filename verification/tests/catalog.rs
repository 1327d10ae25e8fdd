use rsrun::catalog::{build_catalog, candidates, Catalog};
use rsrun::scan::{FileMeta, ScanDir, ScanEntry};

fn file(name: &str, mode: u32) -> ScanEntry {
    ScanEntry {
        name: name.to_string(),
        meta: Some(FileMeta {
            is_regular: true,
            mode,
        }),
    }
}

fn non_regular(name: &str, mode: u32) -> ScanEntry {
    ScanEntry {
        name: name.to_string(),
        meta: Some(FileMeta {
            is_regular: false,
            mode,
        }),
    }
}

fn unreadable_meta(name: &str) -> ScanEntry {
    ScanEntry {
        name: name.to_string(),
        meta: None,
    }
}

fn listed(entries: Vec<ScanEntry>) -> ScanDir {
    ScanDir {
        entries: Some(entries),
    }
}

fn unlistable() -> ScanDir {
    ScanDir { entries: None }
}

fn as_strs(v: &[String]) -> Vec<&str> {
    v.iter().map(|s| s.as_str()).collect()
}

#[test]
fn two_directories_dedup_and_sort() {
    let scan = vec![
        listed(vec![file("ls", 0o755), file("grep", 0o755)]),
        listed(vec![file("grep", 0o755), file("gzip", 0o755)]),
    ];
    let catalog = build_catalog(&scan);
    assert_eq!(as_strs(&catalog.names), vec!["grep", "gzip", "ls"]);
    assert_eq!(as_strs(&candidates(&catalog, "g")), vec!["grep", "gzip"]);
    let empty: Vec<&str> = Vec::new();
    assert_eq!(as_strs(&candidates(&catalog, "z")), empty);
}

#[test]
fn empty_scan_gives_empty_catalog() {
    let scan: Vec<ScanDir> = Vec::new();
    let catalog = build_catalog(&scan);
    assert!(catalog.names.is_empty());
    assert!(candidates(&catalog, "a").is_empty());
    assert_eq!(catalog.count(), 0);
}

#[test]
fn unlistable_directories_are_skipped_not_fatal() {
    let scan = vec![
        listed(vec![file("awk", 0o755)]),
        unlistable(),
        listed(vec![file("sed", 0o755)]),
    ];
    let catalog = build_catalog(&scan);
    assert_eq!(as_strs(&catalog.names), vec!["awk", "sed"]);
}

#[test]
fn entries_without_metadata_are_skipped() {
    let scan = vec![listed(vec![
        unreadable_meta("broken"),
        file("cat", 0o755),
    ])];
    let catalog = build_catalog(&scan);
    assert_eq!(as_strs(&catalog.names), vec!["cat"]);
}

#[test]
fn only_readable_regular_files_are_kept() {
    let scan = vec![listed(vec![
        file("readable", 0o400),
        file("mode_zero", 0),
        file("group_read_only", 0o044),
        non_regular("subdir", 0o755),
        file("usual", 0o644),
    ])];
    let catalog = build_catalog(&scan);
    assert_eq!(as_strs(&catalog.names), vec!["readable", "usual"]);
}

#[test]
fn duplicate_name_appears_once() {
    let scan = vec![
        listed(vec![file("python", 0o755)]),
        listed(vec![file("python", 0o755)]),
        listed(vec![file("python", 0o400)]),
    ];
    let catalog = build_catalog(&scan);
    assert_eq!(as_strs(&catalog.names), vec!["python"]);
}

#[test]
fn duplicate_rejected_first_then_accepted_later() {
    // the first occurrence is not a program; the later, accepted one counts
    let scan = vec![
        listed(vec![non_regular("tools", 0o755)]),
        listed(vec![file("tools", 0o755)]),
    ];
    let catalog = build_catalog(&scan);
    assert_eq!(as_strs(&catalog.names), vec!["tools"]);
}

#[test]
fn catalog_is_sorted_and_unique() {
    let scan = vec![listed(vec![
        file("b", 0o755),
        file("a", 0o755),
        file("ab", 0o755),
        file("B", 0o755),
        file("a", 0o755),
    ])];
    let catalog = build_catalog(&scan);
    assert_eq!(as_strs(&catalog.names), vec!["B", "a", "ab", "b"]);
    for pair in catalog.names.windows(2) {
        assert!(pair[0] < pair[1]);
    }
}

#[test]
fn empty_prefix_returns_full_catalog_in_order() {
    let scan = vec![listed(vec![
        file("tail", 0o755),
        file("head", 0o755),
        file("sort", 0o755),
    ])];
    let catalog = build_catalog(&scan);
    let all = candidates(&catalog, "");
    assert_eq!(as_strs(&all), as_strs(&catalog.names));
}

#[test]
fn query_returns_exact_matching_subsequence() {
    let scan = vec![listed(vec![
        file("app", 0o755),
        file("apple", 0o755),
        file("apricot", 0o755),
        file("banana", 0o755),
    ])];
    let catalog = build_catalog(&scan);
    let hits = candidates(&catalog, "app");
    assert_eq!(as_strs(&hits), vec!["app", "apple"]);
    for name in &hits {
        assert!(name.starts_with("app"));
    }
    for name in &catalog.names {
        if !hits.contains(name) {
            assert!(!name.starts_with("app"));
        }
    }
}

#[test]
fn whole_name_is_its_own_prefix() {
    let scan = vec![listed(vec![file("vim", 0o755)])];
    let catalog = build_catalog(&scan);
    assert_eq!(as_strs(&candidates(&catalog, "vim")), vec!["vim"]);
    assert!(candidates(&catalog, "vimx").is_empty());
}

#[test]
fn catalog_type_is_plain_data() {
    let catalog = Catalog { names: Vec::new() };
    assert_eq!(catalog.count(), 0);
}
