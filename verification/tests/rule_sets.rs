use crit_core::findings::{Category, Severity};
use crit_core::model::{Metadata, RuleFile, RuleKind, RuleSpec};
use crit_core::rules::{derive_precision, is_rule_file, EvidenceEntry, LoadedRules};

fn rule(id: &str, query: Option<&str>) -> RuleSpec {
    RuleSpec {
        id: id.to_string(),
        name: None,
        kind: RuleKind::Pattern,
        severity: Severity::Medium,
        category: Category::Quality,
        languages: vec!["javascript".to_string()],
        message: "msg".to_string(),
        description: None,
        remediation: None,
        metadata: Metadata { cwe: vec![], owasp: vec![], nist: vec![], references: vec![], tags: vec![] },
        query: query.map(|q| q.to_string()),
        filters: vec![],
        sources: vec![],
        sinks: vec![],
        sanitizers: vec![],
        origin: String::new(),
        precision: None,
    }
}

#[test]
fn rule_documents_are_recognised() {
    assert!(is_rule_file("rules/js/sqli.yaml"));
    assert!(is_rule_file("rules/js/sqli.yml"));
    assert!(!is_rule_file("rules/evidence.yaml"));
    assert!(!is_rule_file("rules/js/tests/sqli/case.yaml"));
    assert!(!is_rule_file("rules/js/sqli.json"));
}

#[test]
fn documents_merge_by_id() {
    let mut l = LoadedRules::new();
    l.add_rules(RuleFile { rules: vec![rule("b", Some("(x)")), rule("a", Some("(y)")), rule("", Some("(z)"))] }, "builtin:pack.yaml");
    let ids: Vec<&str> = l.rules.iter().map(|(k, _)| k.as_str()).collect();
    assert_eq!(ids, vec!["a", "b"]);
    assert_eq!(l.rules[0].1.origin, "builtin:pack.yaml");
    assert_eq!(l.warnings, vec!["builtin:pack.yaml: rule `` skipped: rule id must not be empty".to_string()]);
    l.add_rules(RuleFile { rules: vec![rule("a", Some("(w)")), rule("c", None)] }, "mine.yaml");
    assert_eq!(l.rules[0].1.query.as_deref(), Some("(w)"));
    assert_eq!(l.rules[0].1.origin, "mine.yaml");
    assert_eq!(
        l.warnings[1..],
        [
            "mine.yaml: rule `a` overrides a previously loaded rule".to_string(),
            "mine.yaml: rule `c` skipped: pattern rule requires `query`".to_string(),
        ]
    );
    l.disable(&vec!["b".to_string(), "zzz".to_string()]);
    let ids: Vec<&str> = l.rules.iter().map(|(k, _)| k.as_str()).collect();
    assert_eq!(ids, vec!["a"]);
    assert!(l.has("a") && !l.has("b"));
}

#[test]
fn precision_follows_fixture_evidence() {
    let e = |positives: u32, negatives: u32| EvidenceEntry { positives, negatives };
    assert_eq!(derive_precision(&e(2, 2)), "high");
    assert_eq!(derive_precision(&e(5, 3)), "high");
    assert_eq!(derive_precision(&e(2, 1)), "medium");
    assert_eq!(derive_precision(&e(1, 1)), "medium");
    assert_eq!(derive_precision(&e(3, 0)), "low");
    assert_eq!(derive_precision(&e(0, 0)), "low");

    let mut l = LoadedRules::new();
    l.add_rules(RuleFile { rules: vec![rule("a", Some("(x)")), rule("b", Some("(y)")), rule("c", Some("(z)"))] }, "pack.yaml");
    l.apply_evidence(&vec![
        ("b".to_string(), e(1, 4)),
        ("zz".to_string(), e(9, 9)),
        ("a".to_string(), e(0, 2)),
        ("b".to_string(), e(2, 2)),
    ]);
    let prec: Vec<Option<&str>> = l.rules.iter().map(|(_, r)| r.precision.as_deref()).collect();
    assert_eq!(prec, vec![Some("low"), Some("high"), None]);
    let ids: Vec<&str> = l.rules.iter().map(|(k, _)| k.as_str()).collect();
    assert_eq!(ids, vec!["a", "b", "c"]);
    assert_eq!(l.rules[1].1.query.as_deref(), Some("(y)"));
}
