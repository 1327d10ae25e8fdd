use rsrun::cache::CatalogCache;
use rsrun::scan::{FileMeta, ScanDir, ScanEntry};

fn file(name: &str, mode: u32) -> ScanEntry {
    ScanEntry {
        name: name.to_string(),
        meta: Some(FileMeta {
            is_regular: true,
            mode,
        }),
    }
}

fn listed(entries: Vec<ScanEntry>) -> ScanDir {
    ScanDir {
        entries: Some(entries),
    }
}

fn as_strs(v: &[String]) -> Vec<&str> {
    v.iter().map(|s| s.as_str()).collect()
}

#[test]
fn warm_up_builds_once_and_queries_see_the_snapshot() {
    let scan = vec![listed(vec![file("ls", 0o755), file("grep", 0o755)])];
    let mut cache = CatalogCache::new();
    cache.warm_up(&scan);
    assert_eq!(as_strs(&cache.query("")), vec!["grep", "ls"]);
    assert_eq!(as_strs(&cache.query("l")), vec!["ls"]);
    assert!(cache.query("x").is_empty());
}

#[test]
fn warm_up_is_idempotent_even_with_a_changed_scan() {
    let first = vec![listed(vec![file("ls", 0o755)])];
    let second = vec![listed(vec![file("mv", 0o755), file("cp", 0o755)])];
    let mut cache = CatalogCache::new();
    cache.warm_up(&first);
    let after_one = cache.query("");
    // later warm-ups change nothing: the catalog is built exactly once
    cache.warm_up(&second);
    cache.warm_up(&second);
    assert_eq!(cache.query(""), after_one);
    assert_eq!(as_strs(&cache.query("")), vec!["ls"]);
}

#[test]
fn empty_search_path_warms_to_an_empty_catalog() {
    let scan: Vec<ScanDir> = Vec::new();
    let mut cache = CatalogCache::new();
    cache.warm_up(&scan);
    assert!(cache.query("").is_empty());
    assert!(cache.query("a").is_empty());
}
