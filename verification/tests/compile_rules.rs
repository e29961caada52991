use crit_core::compiled::CompiledRuleSet;
use crit_core::findings::{Category, Severity};
use crit_core::languages::Registry;
use crit_core::model::{Metadata, RuleFile, RuleKind, RuleSpec, TaintPattern};
use crit_core::rules::LoadedRules;
use crit_core::profile::{ProfileQuery, TaintProfileSpec};

fn rule(id: &str, kind: RuleKind, query: Option<&str>, langs: &[&str]) -> RuleSpec {
    RuleSpec {
        id: id.to_string(),
        name: None,
        kind,
        severity: Severity::Medium,
        category: Category::Security,
        languages: langs.iter().map(|l| l.to_string()).collect(),
        message: "msg".to_string(),
        description: None,
        remediation: None,
        metadata: Metadata { cwe: vec![], owasp: vec![], nist: vec![], references: vec![], tags: vec![] },
        query: query.map(|q| q.to_string()),
        filters: vec![],
        sources: vec![],
        sinks: vec![],
        sanitizers: vec![],
        origin: String::new(),
        precision: None,
    }
}

fn taint_rule(id: &str) -> RuleSpec {
    let mut r = rule(id, RuleKind::Taint, None, &["javascript"]);
    let q = |s: &str| TaintPattern { query: Some(s.to_string()), resolved: None, label: None };
    r.sources = vec![q("(identifier) @source")];
    r.sinks = vec![q("(call_expression) @sink")];
    r
}

#[test]
fn compile_keeps_what_compiles_and_reports_the_rest() {
    let reg = Registry::with_builtins(Vec::new()).unwrap();
    let mut loaded = LoadedRules::new();
    loaded.add_rules(
        RuleFile {
            rules: vec![
                rule("js.call", RuleKind::Pattern, Some("(call_expression) @call"), &["javascript", "typescript"]),
                rule("js.bad", RuleKind::Pattern, Some("(no_such_node) @x"), &["javascript"]),
                rule("go.only", RuleKind::Pattern, Some("(call_expression) @call"), &["go"]),
                taint_rule("js.taint"),
            ],
        },
        "test.yaml",
    );
    let docs: Vec<Vec<u8>> = loaded.rules.iter().map(|(id, _)| id.as_bytes().to_vec()).collect();
    let profiles: Vec<Option<Vec<u8>>> = vec![None; 8];
    let set = CompiledRuleSet::compile(loaded, &reg, &docs, &profiles);
    let ids: Vec<&str> = set.rules.iter().map(|r| r.id.as_str()).collect();
    assert_eq!(ids, vec!["go.only", "js.call"]);
    assert_eq!(set.by_language.len(), 8);
    let js = set.for_language("javascript").unwrap();
    assert_eq!(js.patterns.len(), 1);
    assert_eq!(js.pattern_queries[0].source, "(call_expression) @call");
    assert!(js.is_wf());
    assert!(js.taints.is_empty());
    assert_eq!(set.for_language("typescript").unwrap().patterns.len(), 1);
    assert!(set.for_language("cobol").is_none());
    assert!(set.warnings.iter().any(|w| w.starts_with("rule `js.bad` query does not compile for `javascript`: ")));
    assert!(set
        .warnings
        .contains(&"taint rule `js.taint` skipped for `javascript`: language has no taint profile".to_string()));
    assert_eq!(set.rules_hash.len(), 64);
    assert_eq!(set.max_severity(), Some(Severity::Medium));
}

#[test]
fn rules_hash_tracks_content() {
    let reg = Registry::with_builtins(Vec::new()).unwrap();
    let build = |doc: &str| {
        let mut loaded = LoadedRules::new();
        loaded.add_rules(
            RuleFile { rules: vec![rule("js.call", RuleKind::Pattern, Some("(call_expression) @c"), &["javascript"])] },
            "t.yaml",
        );
        let docs = vec![doc.as_bytes().to_vec()];
        CompiledRuleSet::compile(loaded, &reg, &docs, &vec![None; 8]).rules_hash
    };
    assert_eq!(build("v1"), build("v1"));
    assert_ne!(build("v1"), build("v2"));
}

#[test]
fn warnings_name_each_refused_query_in_order() {
    let q = |s: &str| ProfileQuery { query: s.to_string() };
    let profile = TaintProfileSpec {
        identifiers: vec!["identifier".to_string()],
        assignments: vec![q("(variable_declarator) @a"), q("(not_a_node) @b")],
        functions: vec![],
        params: vec![],
        calls: vec![q("(call_expression) @call")],
        returns: vec![],
        member_access: vec![],
        method_calls: vec![],
        imports: vec![],
        exports: vec![],
        module_resolution: None,
    };
    let reg = Registry::with_builtins(vec![("javascript".to_string(), profile)]).unwrap();
    let mut bad_sink = taint_rule("js.bad-sink");
    bad_sink.sinks = vec![TaintPattern { query: Some("(nothing_here) @sink".to_string()), resolved: None, label: None }];
    let mut loaded = LoadedRules::new();
    loaded.add_rules(RuleFile { rules: vec![bad_sink, taint_rule("js.good")] }, "t.yaml");
    let docs: Vec<Vec<u8>> = loaded.rules.iter().map(|(id, _)| id.as_bytes().to_vec()).collect();
    let profiles: Vec<Option<Vec<u8>>> = vec![None; 8];
    let set = CompiledRuleSet::compile(loaded, &reg, &docs, &profiles);
    assert_eq!(set.warnings.len(), 2, "{:?}", set.warnings);
    assert!(set.warnings[0].starts_with("profile assignments query invalid for `javascript`: "), "{}", set.warnings[0]);
    assert!(set.warnings[1].starts_with("taint rule `js.bad-sink` skipped for `javascript`: sink query invalid: "), "{}", set.warnings[1]);
    let js = set.for_language("javascript").unwrap();
    assert_eq!(js.taints.len(), 1);
    assert_eq!(js.taints[0].rule.id, "js.good");
    assert_eq!(js.profile.as_ref().unwrap().assignments.len(), 1);
    assert_eq!(js.profile.as_ref().unwrap().assignments[0].source, "(variable_declarator) @a");
    assert_eq!(js.taint_queries[0].sinks[0].source, "(call_expression) @sink");
    assert!(js.is_wf());
    let ids: Vec<&str> = set.rules.iter().map(|r| r.id.as_str()).collect();
    assert_eq!(ids, vec!["js.good"]);
}
