use crit_core::coverage::{
    checklist_hits, checklist_missing, covered_languages, cwe_top25, language_coverage, overall_coverage, owasp_top10,
};
use crit_core::findings::{Category, Severity};
use crit_core::hashing::content_hash;
use crit_core::model::{Metadata, RuleKind, RuleSpec};
use std::sync::Arc;

fn tagged(id: &str, langs: &[&str], cwe: &[&str], owasp: &[&str]) -> Arc<RuleSpec> {
    let strings = |v: &[&str]| v.iter().map(|s| s.to_string()).collect::<Vec<String>>();
    Arc::new(RuleSpec {
        id: id.to_string(),
        name: None,
        kind: RuleKind::Pattern,
        severity: Severity::High,
        category: Category::Security,
        languages: strings(langs),
        message: "m".to_string(),
        description: None,
        remediation: None,
        metadata: Metadata { cwe: strings(cwe), owasp: strings(owasp), nist: vec![], references: vec![], tags: vec![] },
        query: Some("(x) @x".to_string()),
        filters: vec![],
        sources: vec![],
        sinks: vec![],
        sanitizers: vec![],
        origin: String::new(),
        precision: None,
    })
}

fn rules() -> Vec<Arc<RuleSpec>> {
    vec![
        tagged("a", &["javascript", "typescript"], &["CWE-89", "CWE-79"], &["A03:2021"]),
        tagged("b", &["go"], &["CWE-78"], &["A03:2021", "A01:2021"]),
        tagged("c", &["javascript"], &["CWE-1333", "CWE-79"], &[]),
    ]
}

#[test]
fn checklists_are_the_published_lists() {
    let owasp = owasp_top10();
    assert_eq!(owasp.len(), 10);
    assert_eq!(owasp[0], ("A01:2021".to_string(), "Broken Access Control".to_string()));
    assert_eq!(owasp[9].0, "A10:2021");
    let cwe = cwe_top25();
    assert_eq!(cwe.len(), 25);
    assert_eq!(cwe[0], ("CWE-787".to_string(), "Out-of-bounds Write".to_string()));
    assert_eq!(cwe[24].0, "CWE-276");
}

#[test]
fn languages_are_listed_once_in_order_under_the_filter() {
    let rs = rules();
    assert_eq!(covered_languages(&rs, &vec![]), vec!["go", "javascript", "typescript"]);
    assert_eq!(covered_languages(&rs, &vec!["javascript".to_string(), "rust".to_string()]), vec!["javascript"]);
}

#[test]
fn a_language_covers_the_tags_of_its_rules() {
    let rs = rules();
    let js = language_coverage(&rs, "javascript");
    assert_eq!(js.rule_count, 2);
    assert_eq!(js.cwe, vec!["CWE-1333", "CWE-79", "CWE-89"]);
    assert_eq!(js.owasp, vec!["A03:2021"]);
    let rust = language_coverage(&rs, "rust");
    assert_eq!(rust.rule_count, 0);
    assert!(rust.cwe.is_empty() && rust.owasp.is_empty());
}

#[test]
fn a_rule_listing_a_language_twice_counts_twice() {
    let rs = vec![tagged("d", &["go", "go"], &[], &[])];
    assert_eq!(language_coverage(&rs, "go").rule_count, 2);
    assert_eq!(overall_coverage(&rs, &vec![]).rule_count, 1);
}

#[test]
fn the_whole_set_counts_each_selected_rule_once() {
    let rs = rules();
    let all = overall_coverage(&rs, &vec![]);
    assert_eq!(all.rule_count, 3);
    assert_eq!(all.cwe, vec!["CWE-1333", "CWE-78", "CWE-79", "CWE-89"]);
    assert_eq!(all.owasp, vec!["A01:2021", "A03:2021"]);
    let go = overall_coverage(&rs, &vec!["go".to_string()]);
    assert_eq!(go.rule_count, 1);
    assert_eq!(go.cwe, vec!["CWE-78"]);
}

#[test]
fn checklist_hits_and_misses() {
    let all = overall_coverage(&rules(), &vec![]);
    assert_eq!(checklist_hits(&owasp_top10(), &all.owasp), 2);
    assert_eq!(checklist_hits(&cwe_top25(), &all.cwe), 3);
    let missing = checklist_missing(&owasp_top10(), &all.owasp);
    assert_eq!(missing.len(), 8);
    assert_eq!(missing[0], "A02:2021");
    assert!(!missing.contains(&"A03:2021".to_string()));
}

#[test]
fn content_hash_is_hex_blake3() {
    let h = content_hash(b"abc");
    assert_eq!(h, "6437b3ac38465133ffb63b75273a8db548c558465d79db03fd359c6cd5bd9d85");
    assert_ne!(content_hash(b"abd"), h);
}
