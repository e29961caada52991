use crit_core::config::parse_fail_on;
use crit_core::diff::{changed_files, parse_z, path_less};
use crit_core::findings::{Category, Finding, Pos, Severity, Span};
use crit_core::languages::Registry;
use crit_core::persist::{Baseline, Cache, CacheEntry};
use crit_core::scanner::{
    apply_baseline, build_globset, collect_findings, effective_max_size, exceeds_threshold, finish_findings,
    merged_globs, relative_to, select_jobs, Candidate, Job, ScanStats, DEFAULT_MAX_FILE_SIZE,
};

fn finding(rule: &str, file: &str, sev: Severity, line: u32, fp: &str) -> Finding {
    let p = Pos { line, column: 1 };
    Finding {
        rule_id: rule.to_string(),
        severity: sev,
        category: Category::Security,
        message: "m".to_string(),
        file: file.to_string(),
        language: "javascript".to_string(),
        span: Span { start: p, end: p, start_byte: 0, end_byte: 1 },
        snippet: "x".to_string(),
        trace: vec![],
        fingerprint: fp.to_string(),
        cwe: vec![],
        owasp: vec![],
        nist: vec![],
    }
}

#[test]
fn language_detection() {
    let reg = Registry::with_builtins(Vec::new()).unwrap();
    assert_eq!(reg.detect("a/b.cls").unwrap().id, "objectscript");
    assert_eq!(reg.detect("x.pas").unwrap().id, "pascal");
    assert_eq!(reg.detect("x.tsx").unwrap().id, "tsx");
    assert!(reg.detect("x.unknownext").is_none());
}

#[test]
fn detection_ignores_case_and_dotfiles() {
    let reg = Registry::with_builtins(Vec::new()).unwrap();
    assert_eq!(reg.detect("src/Main.RS").unwrap().id, "rust");
    assert!(reg.detect(".go").is_none(), "a leading dot is not an extension");
    assert!(reg.detect("Makefile").is_none());
}

#[test]
fn extension_override_remaps() {
    let mut reg = Registry::with_builtins(Vec::new()).unwrap();
    assert_eq!(reg.detect("x.inc").unwrap().id, "objectscript");
    reg.override_extension(".INC", "pascal").unwrap();
    assert_eq!(reg.detect("x.inc").unwrap().id, "pascal");
    assert_eq!(reg.detect("x.cls").unwrap().id, "objectscript");
    let err = reg.override_extension("foo", "cobol").unwrap_err();
    assert_eq!(err, "unknown language `cobol` in [extensions] override");
}

#[test]
fn relative_paths_strip_the_root() {
    assert_eq!(relative_to("/repo/src/a.js", "/repo"), "src/a.js");
    assert_eq!(relative_to("/repo/src/a.js", "/repo/"), "src/a.js");
    assert_eq!(relative_to("/repository/a.js", "/repo"), "/repository/a.js");
    assert_eq!(relative_to("/other/a.js", "/repo"), "/other/a.js");
}

#[test]
fn globs_compile_or_report() {
    assert!(build_globset(&vec![]).unwrap().is_none());
    let only = build_globset(&vec!["src/**".to_string(), "*.ts".to_string()]).unwrap();
    assert!(only.is_some());
    let reg = Registry::with_builtins(Vec::new()).unwrap();
    let cands = vec![
        Candidate { path: "/r/src/a/b.js".to_string(), size: Some(1) },
        Candidate { path: "/r/x.ts".to_string(), size: Some(1) },
        Candidate { path: "/r/lib/a.js".to_string(), size: Some(1) },
    ];
    let mut stats = ScanStats::default();
    let jobs = select_jobs("/r", &cands, &reg, &vec![], &only, &None, 100, &mut stats);
    let rels: Vec<&str> = jobs.iter().map(|j| j.rel.as_str()).collect();
    assert_eq!(rels, vec!["src/a/b.js", "x.ts"]);
    let err = build_globset(&vec!["ok/*".to_string(), "a[".to_string()]).err().unwrap();
    assert!(err.starts_with("invalid glob `a[`: "), "{err}");
}

#[test]
fn jobs_follow_filters_and_size() {
    let reg = Registry::with_builtins(Vec::new()).unwrap();
    let cands = vec![
        Candidate { path: "/r/src/a.js".to_string(), size: Some(10) },
        Candidate { path: "/r/src/b.go".to_string(), size: Some(10) },
        Candidate { path: "/r/src/big.js".to_string(), size: Some(5_000_000) },
        Candidate { path: "/r/.crit/x.js".to_string(), size: Some(1) },
        Candidate { path: "/r/README.md".to_string(), size: Some(1) },
        Candidate { path: "/r/vendor/c.js".to_string(), size: None },
    ];
    let exclude = build_globset(&vec!["vendor/**".to_string()]).unwrap();
    let mut stats = ScanStats::default();
    let jobs = select_jobs(
        "/r",
        &cands,
        &reg,
        &vec!["javascript".to_string()],
        &None,
        &exclude,
        effective_max_size(None, None),
        &mut stats,
    );
    let rels: Vec<&str> = jobs.iter().map(|j| j.rel.as_str()).collect();
    assert_eq!(rels, vec!["src/a.js"]);
    assert_eq!(jobs[0].lang_id, "javascript");
    assert_eq!(stats.files_considered, 2);
    assert_eq!(stats.files_skipped_size, 1);
}

#[test]
fn size_limit_precedence() {
    assert_eq!(effective_max_size(Some(5), Some(7)), 5);
    assert_eq!(effective_max_size(None, Some(7)), 7);
    assert_eq!(effective_max_size(None, None), DEFAULT_MAX_FILE_SIZE);
    assert_eq!(DEFAULT_MAX_FILE_SIZE, 2 * 1024 * 1024);
    let g = merged_globs(&vec!["a".to_string()], &vec!["b".to_string()]);
    assert_eq!(g, vec!["a".to_string(), "b".to_string()]);
}

#[test]
fn findings_are_collected_filtered_and_ordered() {
    let mut cache = Cache::fresh("h");
    cache.insert(
        "b.js".to_string(),
        CacheEntry {
            hash: "x".to_string(),
            link_fp: String::new(),
            findings: vec![finding("r1", "b.js", Severity::Low, 3, "f1"), finding("r2", "b.js", Severity::Critical, 9, "f2")],
        },
    );
    cache.insert(
        "a.js".to_string(),
        CacheEntry { hash: "y".to_string(), link_fp: String::new(), findings: vec![finding("r1", "a.js", Severity::Low, 1, "f3")] },
    );
    cache.insert(
        "gone.js".to_string(),
        CacheEntry { hash: "z".to_string(), link_fp: String::new(), findings: vec![finding("r1", "gone.js", Severity::High, 1, "f4")] },
    );
    let jobs = vec![
        Job { abs: "/r/a.js".to_string(), rel: "a.js".to_string(), lang_id: "javascript".to_string() },
        Job { abs: "/r/b.js".to_string(), rel: "b.js".to_string(), lang_id: "javascript".to_string() },
    ];
    let all = collect_findings(&cache, &jobs, &vec![]);
    assert_eq!(all.len(), 3, "files not scanned this time are left out");
    let only_r1 = collect_findings(&cache, &jobs, &vec!["r1".to_string()]);
    assert_eq!(only_r1.len(), 2);
    let mut stats = ScanStats::default();
    let ordered = finish_findings(&cache, &jobs, &vec![], None, &mut stats);
    let keys: Vec<(&str, u32)> = ordered.iter().map(|f| (f.file.as_str(), f.span.start.line)).collect();
    assert_eq!(keys, vec![("b.js", 9), ("a.js", 1), ("b.js", 3)]);
}

#[test]
fn baseline_suppresses_known_findings_only() {
    let known = vec![finding("r", "a.js", Severity::High, 1, "k1"), finding("r", "a.js", Severity::High, 2, "k2")];
    let baseline = Baseline::from_findings(&known);
    let (kept, suppressed) = apply_baseline(vec![finding("r", "a.js", Severity::High, 1, "k1"), finding("r", "a.js", Severity::High, 2, "k2")], &baseline);
    assert!(kept.is_empty(), "baseline should suppress all known findings");
    assert_eq!(suppressed, known.len());
    let (kept, suppressed) = apply_baseline(vec![finding("r", "a.js", Severity::High, 1, "k1"), finding("r", "a.js", Severity::High, 5, "new")], &baseline);
    assert_eq!(kept.len(), 1);
    assert_eq!(kept[0].fingerprint, "new");
    assert_eq!(suppressed, 1);
}

#[test]
fn fail_on_threshold() {
    let fs = vec![finding("r", "a.js", Severity::Medium, 1, "a"), finding("r", "a.js", Severity::High, 2, "b")];
    assert!(exceeds_threshold(&fs, Some(Severity::High)));
    assert!(!exceeds_threshold(&fs, Some(Severity::Critical)));
    assert!(!exceeds_threshold(&fs, None));
    assert!(!exceeds_threshold(&vec![], Some(Severity::Info)));
}

#[test]
fn fail_on_parsing() {
    assert_eq!(parse_fail_on(&None, &None), Ok(Some(Severity::High)));
    assert_eq!(parse_fail_on(&Some("NEVER".to_string()), &None), Ok(None));
    assert_eq!(parse_fail_on(&None, &Some("critical".to_string())), Ok(Some(Severity::Critical)));
    assert_eq!(parse_fail_on(&Some("low".to_string()), &Some("critical".to_string())), Ok(Some(Severity::Low)));
    assert_eq!(parse_fail_on(&Some("loud".to_string()), &None), Err("invalid --fail-on `loud`".to_string()));
}

#[test]
fn git_path_lists_are_merged() {
    let diffed = b"src/b.rs\0src/a.rs\0\0".to_vec();
    let untracked = b"src/a.rs\0new.rs".to_vec();
    assert_eq!(parse_z(&diffed), vec!["src/b.rs".to_string(), "src/a.rs".to_string()]);
    let files = changed_files(&diffed, &untracked);
    assert_eq!(files, vec!["new.rs".to_string(), "src/a.rs".to_string(), "src/b.rs".to_string()]);
    // Invalid UTF-8 is replaced, not dropped.
    assert_eq!(parse_z(&vec![b'a', 0xff, 0]), vec!["a\u{fffd}".to_string()]);
}

#[test]
fn paths_order_by_component() {
    // As text "a.b" < "a/b"; as paths "a" (the first component) < "a.b".
    assert!(path_less(&"a/b".to_string(), &"a.b".to_string()));
    assert!(!path_less(&"a.b".to_string(), &"a/b".to_string()));
    assert!(!path_less(&"x".to_string(), &"x".to_string()));
}

#[test]
fn changed_files_are_strictly_increasing_in_path_order() {
    let diffed = b"b/x.rs\0a.b\0a/b\0b//x.rs\0".to_vec();
    let untracked = b"a/b\0c\0".to_vec();
    let files = changed_files(&diffed, &untracked);
    assert_eq!(files, vec!["a/b".to_string(), "a.b".to_string(), "b/x.rs".to_string(), "c".to_string()]);
    for w in files.windows(2) {
        assert!(path_less(&w[0], &w[1]));
    }
}
