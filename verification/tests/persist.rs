use crit_core::findings::{Category, Finding, Pos, Severity, Span};
use crit_core::persist::{
    baseline_path, cache_path, join_path, now_rfc3339, rfc3339_from_secs, state_dir, Baseline, Cache,
    CacheEntry, ENGINE_VERSION,
};

fn finding(rule: &str, file: &str, fp: &str) -> Finding {
    let p = Pos { line: 1, column: 1 };
    Finding {
        rule_id: rule.to_string(),
        severity: Severity::High,
        category: Category::Security,
        message: "m".to_string(),
        file: file.to_string(),
        language: "javascript".to_string(),
        span: Span { start: p, end: p, start_byte: 0, end_byte: 1 },
        snippet: "x".to_string(),
        trace: vec![],
        fingerprint: fp.to_string(),
        cwe: vec![],
        owasp: vec![],
        nist: vec![],
    }
}

#[test]
fn timestamp_shape() {
    let ts = now_rfc3339();
    assert_eq!(ts.len(), 20, "{ts}");
    assert!(ts.ends_with('Z'));
}

#[test]
fn epoch_and_leap_day_timestamps() {
    assert_eq!(rfc3339_from_secs(0), "1970-01-01T00:00:00Z");
    assert_eq!(rfc3339_from_secs(951_782_400), "2000-02-29T00:00:00Z");
    assert_eq!(rfc3339_from_secs(1_700_000_000), "2023-11-14T22:13:20Z");
    assert_eq!(rfc3339_from_secs(253_402_300_799), "9999-12-31T23:59:59Z");
    // Past the year 9999 the year simply grows wider.
    assert_eq!(rfc3339_from_secs(253_402_300_800), "10000-01-01T00:00:00Z");
}

#[test]
fn state_paths_join_like_paths() {
    assert_eq!(state_dir("repo"), "repo/.crit");
    assert_eq!(state_dir("repo/"), "repo/.crit");
    assert_eq!(state_dir(""), ".crit");
    assert_eq!(baseline_path("/r"), "/r/.crit/baseline.json");
    assert_eq!(cache_path("/r"), "/r/.crit/cache.json");
    assert_eq!(join_path("a", "/abs"), "/abs");
}

#[test]
fn baseline_holds_each_fingerprint_once_in_order() {
    let fs = vec![finding("r", "a.js", "bb"), finding("r", "b.js", "aa"), finding("q", "a.js", "bb")];
    let b = Baseline::from_findings(&fs);
    assert_eq!(b.engine, ENGINE_VERSION);
    assert_eq!(b.fingerprints, vec!["aa".to_string(), "bb".to_string()]);
    assert!(b.contains("aa"));
    assert!(b.contains("bb"));
    assert!(!b.contains("cc"));
    assert!(b.created.ends_with('Z'));
}

#[test]
fn cache_lookup_insert_remove() {
    let mut c = Cache::fresh("rules-1");
    assert_eq!(c.engine, ENGINE_VERSION);
    assert_eq!(c.rules_hash, "rules-1");
    c.insert(
        "a.js".to_string(),
        CacheEntry { hash: "h1".to_string(), link_fp: String::new(), findings: vec![finding("r", "a.js", "f")] },
    );
    assert!(c.lookup("a.js", "h1", "").is_some());
    assert!(c.lookup("a.js", "h2", "").is_none(), "changed content misses");
    assert!(c.lookup("a.js", "h1", "dep").is_none(), "changed dependency misses");
    assert!(c.lookup("b.js", "h1", "").is_none());
    c.insert("a.js".to_string(), CacheEntry { hash: "h2".to_string(), link_fp: String::new(), findings: vec![] });
    assert_eq!(c.files.len(), 1, "re-inserting replaces");
    assert_eq!(c.lookup("a.js", "h2", "").unwrap().findings.len(), 0);
    c.remove("a.js");
    assert!(c.lookup("a.js", "h2", "").is_none());
    assert!(c.files.is_empty());
}

#[test]
fn stale_cache_is_replaced() {
    let mut stored = Cache::fresh("old");
    stored.insert("a.js".to_string(), CacheEntry { hash: "h".to_string(), link_fp: String::new(), findings: vec![] });
    let kept = Cache::or_fresh(Some(stored), "old");
    assert_eq!(kept.files.len(), 1);
    let replaced = Cache::or_fresh(Some(kept), "new");
    assert!(replaced.files.is_empty());
    assert_eq!(replaced.rules_hash, "new");
    let missing = Cache::or_fresh(None, "x");
    assert!(missing.files.is_empty());
}
