//! The engine end to end on JavaScript parsed by tree-sitter: a small taint
//! profile, the README's SQL-injection taint rule and an `eval` pattern
//! rule.

use crit_core::compiled::{CompiledRuleSet, LanguageRules};
use crit_core::engine::{evaluate, explain, extract, runs_fit_tree, TaintInputs};
use crit_core::findings::{Category, Finding, Pos, Severity, Span};
use crit_core::languages::Registry;
use crit_core::linker::{link, FileArtifact, FileLinked};
use crit_core::scanner::{file_link_fp, file_linked};
use crit_core::model::{Metadata, RuleFile, RuleKind, RuleSpec, TaintPattern};
use crit_core::profile::{ProfileQuery, TaintProfileSpec};
use crit_core::rules::LoadedRules;
use crit_core::syntax::{Capture, QueryMatch, SyntaxNode, SyntaxTree};
use crit_core::taint::TaintMatches;
use crit_core::tables::{evaluate_source, explain_source, extract_source, file_inputs};
use std::collections::HashMap;
use streaming_iterator::StreamingIterator;

fn q(s: &str) -> ProfileQuery {
    ProfileQuery { query: s.to_string() }
}

fn js_profile() -> TaintProfileSpec {
    TaintProfileSpec {
        identifiers: vec!["identifier".to_string()],
        assignments: vec![
            q("(variable_declarator name: (_) @lhs value: (_) @rhs)"),
            q("(assignment_expression left: (_) @lhs right: (_) @rhs)"),
        ],
        functions: vec![q("(function_declaration name: (identifier) @name) @function")],
        params: vec![q("(formal_parameters (identifier) @param)")],
        calls: vec![q("(call_expression function: (_) @callee arguments: (arguments) @args) @call")],
        returns: vec![q("(return_statement (_) @value)")],
        member_access: vec![],
        method_calls: vec![],
        imports: vec![],
        exports: vec![],
        module_resolution: None,
    }
}

fn rule(id: &str, kind: RuleKind) -> RuleSpec {
    RuleSpec {
        id: id.to_string(),
        name: None,
        kind,
        severity: Severity::Critical,
        category: Category::Security,
        languages: vec!["javascript".to_string()],
        message: "User-controlled data flows into a SQL query".to_string(),
        description: None,
        remediation: None,
        metadata: Metadata {
            cwe: vec!["CWE-89".to_string()],
            owasp: vec!["A03:2021".to_string()],
            nist: vec!["SI-10".to_string()],
            references: vec![],
            tags: vec![],
        },
        query: None,
        filters: vec![],
        sources: vec![],
        sinks: vec![],
        sanitizers: vec![],
        origin: String::new(),
        precision: None,
    }
}

fn pat(label: Option<&str>, query: &str) -> TaintPattern {
    TaintPattern { query: Some(query.to_string()), resolved: None, label: label.map(|l| l.to_string()) }
}

fn sql_rule() -> RuleSpec {
    let mut r = rule("js.sql-injection", RuleKind::Taint);
    r.sources = vec![pat(
        Some("HTTP request data"),
        "((member_expression) @source (#match? @source \"^req\\\\.(query|body|params)\"))",
    )];
    r.sinks = vec![pat(
        Some("SQL query execution"),
        "(call_expression function: (member_expression property: (property_identifier) @m) \
         arguments: (arguments . (_) @sink) (#any-of? @m \"query\" \"execute\"))",
    )];
    r.sanitizers = vec![pat(None, "((call_expression function: (identifier) @f) @sanitizer (#eq? @f \"parseInt\"))")];
    r
}

fn eval_rule() -> RuleSpec {
    let mut r = rule("js.eval", RuleKind::Pattern);
    r.message = "eval of `${callee}`".to_string();
    r.query = Some("(call_expression function: (identifier) @callee (#eq? @callee \"eval\")) @finding".to_string());
    r
}

fn setup() -> (Registry, CompiledRuleSet) {
    setup_with(js_profile())
}

/// The profile with import/export sections and path module resolution.
fn js_profile_with_modules() -> TaintProfileSpec {
    let mut p = js_profile();
    p.imports = vec![q(
        "(import_statement (import_clause (named_imports (import_specifier name: (identifier) @name alias: (identifier)? @alias))) \
         source: (string) @module)",
    )];
    p.exports = vec![q("(export_statement declaration: (function_declaration name: (identifier) @name))")];
    p.module_resolution = Some(crit_core::profile::ModuleResolution {
        strategy: "path".to_string(),
        extensions: vec![".js".to_string()],
        index_files: vec!["index.js".to_string()],
    });
    p
}

fn setup_with(profile: TaintProfileSpec) -> (Registry, CompiledRuleSet) {
    let reg = Registry::with_builtins(vec![("javascript".to_string(), profile)]).unwrap();
    let mut loaded = LoadedRules::new();
    loaded.add_rules(RuleFile { rules: vec![sql_rule(), eval_rule()] }, "test.yaml");
    let docs: Vec<Vec<u8>> = loaded.rules.iter().map(|(id, _)| id.as_bytes().to_vec()).collect();
    let profiles: Vec<Option<Vec<u8>>> = vec![None; 8];
    let set = CompiledRuleSet::compile(loaded, &reg, &docs, &profiles);
    assert!(set.warnings.is_empty(), "{:?}", set.warnings);
    (reg, set)
}

fn span_of(node: &tree_sitter::Node) -> Span {
    let r = node.range();
    Span {
        start: Pos { line: r.start_point.row as u32 + 1, column: r.start_point.column as u32 + 1 },
        end: Pos { line: r.end_point.row as u32 + 1, column: r.end_point.column as u32 + 1 },
        start_byte: r.start_byte as u32,
        end_byte: r.end_byte as u32,
    }
}

/// A parsed file as tables, and everything its queries matched.
struct Inputs {
    tree: SyntaxTree,
    patterns: Vec<Vec<QueryMatch>>,
    profile: crit_core::structure::ProfileMatches,
    bindings: crit_core::binder::BindingMatches,
    rules: Vec<TaintMatches>,
}

fn hand_inputs(lr: &LanguageRules, lang: &tree_sitter::Language, src: &str) -> Inputs {
    let mut parser = tree_sitter::Parser::new();
    parser.set_language(lang).unwrap();
    let ts = parser.parse(src, None).unwrap();
    let mut nodes: Vec<SyntaxNode> = Vec::new();
    let mut rows: HashMap<usize, usize> = HashMap::new();
    let mut stack = vec![(ts.root_node(), None::<usize>)];
    while let Some((node, parent)) = stack.pop() {
        let row = nodes.len();
        rows.insert(node.id(), row);
        nodes.push(SyntaxNode {
            kind: node.kind().to_string(),
            span: span_of(&node),
            text: node.utf8_text(src.as_bytes()).unwrap().to_string(),
            named: node.is_named(),
            parent,
            children: vec![],
        });
        if let Some(p) = parent {
            nodes[p].children.push(row);
        }
        let mut cursor = node.walk();
        let kids: Vec<tree_sitter::Node> = node.children(&mut cursor).collect();
        for k in kids.into_iter().rev() {
            stack.push((k, Some(row)));
        }
    }
    let run = |query: &tree_sitter::Query| -> Vec<QueryMatch> {
        let names = query.capture_names();
        let mut cursor = tree_sitter::QueryCursor::new();
        let mut ms = cursor.matches(query, ts.root_node(), src.as_bytes());
        let mut out = vec![];
        while let Some(m) = ms.next() {
            out.push(QueryMatch {
                captures: m
                    .captures
                    .iter()
                    .map(|c| Capture { name: names[c.index as usize].to_string(), node: rows[&c.node.id()] })
                    .collect(),
            });
        }
        out
    };
    let all = |qs: &[crit_core::compiled::SourcedQuery]| -> Vec<QueryMatch> { qs.iter().flat_map(|x| run(&x.query)).collect() };
    let p = lr.profile.as_ref().unwrap();
    Inputs {
        patterns: lr.pattern_queries.iter().map(|x| run(&x.query)).collect(),
        profile: crit_core::structure::ProfileMatches {
            functions: all(&p.functions),
            assignments: all(&p.assignments),
            params: all(&p.params),
            calls: all(&p.calls),
            returns: all(&p.returns),
        },
        bindings: crit_core::binder::BindingMatches {
            imports: all(&p.imports),
            exports: all(&p.exports),
            functions: all(&p.functions),
            calls: all(&p.calls),
            method_calls: all(&p.method_calls),
            member_access: all(&p.member_access),
        },
        rules: lr
            .taint_queries
            .iter()
            .map(|s| TaintMatches {
                sources: s.sources.iter().map(|x| run(&x.query)).collect(),
                sinks: s.sinks.iter().map(|x| run(&x.query)).collect(),
                sanitizers: s.sanitizers.iter().map(|x| run(&x.query)).collect(),
            })
            .collect(),
        tree: SyntaxTree { nodes },
    }
}

/// The library's own tables and matches for a source text.
fn inputs(lr: &LanguageRules, lang: &tree_sitter::Language, src: &str) -> Inputs {
    let fi = file_inputs("app.js", src, lr, lang).unwrap();
    Inputs {
        tree: fi.tree,
        patterns: fi.pattern_matches,
        profile: fi.profile_matches.unwrap(),
        bindings: fi.binding_matches.unwrap(),
        rules: fi.rule_matches,
    }
}

fn taint<'a>(lr: &'a LanguageRules, i: &'a Inputs) -> TaintInputs<'a> {
    TaintInputs {
        identifiers: &lr.profile.as_ref().unwrap().identifiers,
        profile_matches: &i.profile,
        binding_matches: &i.bindings,
        rules: &lr.taints,
        rule_matches: &i.rules,
    }
}

fn scan_js(src: &str) -> Vec<Finding> {
    let (reg, set) = setup();
    let lr = set.for_language("javascript").unwrap();
    let lang = &reg.get("javascript").unwrap().language;
    let i = inputs(lr, lang, src);
    assert!(i.tree.is_wf());
    assert!(runs_fit_tree(&i.tree, &i.patterns));
    assert!(taint(lr, &i).is_ok(&i.tree));
    evaluate("app.js", src, "javascript", &i.tree, &lr.patterns, &i.patterns, Some(taint(lr, &i)), &FileLinked::new())
}

const SQLI: &str = "function handler(req, db) {\n\
                    \x20 const id = req.query.id;\n\
                    \x20 const sql = \"SELECT * FROM t WHERE id = \" + id;\n\
                    \x20 db.query(sql);\n\
                    }\n";

#[test]
fn tainted_request_data_reaching_a_query_is_reported_with_its_flow() {
    let fs = scan_js(SQLI);
    let f = fs.iter().find(|f| f.rule_id == "js.sql-injection").expect("sql injection finding");
    assert_eq!(f.severity, Severity::Critical);
    assert_eq!(f.file, "app.js");
    assert_eq!(f.language, "javascript");
    assert_eq!(f.span.start.line, 4);
    assert_eq!(f.snippet, "db.query(sql);");
    assert_eq!(f.cwe, vec!["CWE-89".to_string()]);
    assert!(f.trace.len() >= 3, "{:?}", f.trace);
    assert_eq!(f.trace.first().unwrap().label, "source: HTTP request data");
    assert_eq!(f.trace.last().unwrap().label, "sink: SQL query execution");
    assert!(f.trace.iter().any(|s| s.label == "assigned to `sql`"), "{:?}", f.trace);
    assert_eq!(f.fingerprint.len(), 32);
}

#[test]
fn a_sanitized_value_is_not_reported() {
    let src = "function handler(req, db) {\n\
               \x20 const id = parseInt(req.query.id);\n\
               \x20 db.query(id);\n\
               }\n";
    assert!(!scan_js(src).iter().any(|f| f.rule_id == "js.sql-injection"));
}

#[test]
fn a_use_before_the_tainted_assignment_is_not_reported() {
    let src = "function handler(req, db) {\n\
               \x20 let q = \"SELECT 1\";\n\
               \x20 db.query(q);\n\
               \x20 q = req.query.id;\n\
               }\n";
    assert!(!scan_js(src).iter().any(|f| f.rule_id == "js.sql-injection"));
}

#[test]
fn pattern_rules_report_the_finding_capture_with_its_message() {
    let src = "let x = 1;\neval(userCode);\n";
    let fs = scan_js(src);
    assert_eq!(fs.len(), 1);
    assert_eq!(fs[0].rule_id, "js.eval");
    assert_eq!(fs[0].message, "eval of `eval`");
    assert_eq!(fs[0].span.start.line, 2);
    assert_eq!(fs[0].span.start.column, 1);
    assert_eq!(fs[0].snippet, "eval(userCode);");
    assert!(fs[0].trace.is_empty());
}

#[test]
fn identical_matches_get_distinct_fingerprints() {
    let src = "eval(a);\neval(a);\n";
    let fs = scan_js(src);
    assert_eq!(fs.len(), 2);
    assert_eq!(fs[0].span.start.line, 1);
    assert_eq!(fs[1].span.start.line, 2);
    assert_ne!(fs[0].fingerprint, fs[1].fingerprint);
    assert_eq!(scan_js(src)[0].fingerprint, fs[0].fingerprint);
}

#[test]
fn explain_lists_scopes_calls_and_sink_verdicts() {
    let (reg, set) = setup();
    let lr = set.for_language("javascript").unwrap();
    let lang = &reg.get("javascript").unwrap().language;
    let i = inputs(lr, lang, SQLI);
    let e = explain("app.js", "javascript", SQLI, &i.tree, Some(taint(lr, &i)), None);
    assert_eq!(e.file, "app.js");
    assert_eq!(e.language, "javascript");
    assert!(e.scopes.iter().any(|s| s.name == "handler" && s.start_line == 1 && s.end_line == 5), "{:?}", e.scopes);
    assert!(e.calls.iter().any(|c| c.line == 4), "{:?}", e.calls);
    assert_eq!(e.rules.len(), 1);
    let r = &e.rules[0];
    assert_eq!(r.rule_id, "js.sql-injection");
    assert!(!r.sources.is_empty());
    assert!(r.sinks.iter().any(|s| s.line == 4 && s.reported), "{:?}", r.sinks);

    let filtered = explain("app.js", "javascript", SQLI, &i.tree, Some(taint(lr, &i)), Some("other.rule"));
    assert!(filtered.rules.is_empty());
}

#[test]
fn extract_summarizes_functions_without_binding_sections() {
    let (reg, set) = setup();
    let lr = set.for_language("javascript").unwrap();
    let lang = &reg.get("javascript").unwrap().language;

    // No source and no sink: nothing to summarize.
    let plain = "function build(x) {\n  return \"cmd \" + x;\n}\n";
    let i = inputs(lr, lang, plain);
    let (bindings, rules) = extract("lib.js", plain, &i.tree, Some(taint(lr, &i)));
    assert!(bindings.module_decl.is_none());
    assert!(bindings.imports.is_empty() && bindings.exports.is_empty());
    assert!(rules.is_empty());

    // A parameter that reaches a sink inside the function.
    let sinking = "function run(db, x) {\n  db.query(x);\n}\n";
    let i = inputs(lr, lang, sinking);
    let (_, rules) = extract("lib.js", sinking, &i.tree, Some(taint(lr, &i)));
    assert_eq!(rules.len(), 1);
    assert_eq!(rules[0].rule, "js.sql-injection");
    let f = rules[0].functions.iter().find(|f| f.name == "run").expect("summary of run");
    assert_eq!(f.param_to_sink.len(), 1);
    assert_eq!(f.param_to_sink[0].index, 1);
    assert_eq!(f.param_to_sink[0].sink_label, "SQL query execution");
    assert_eq!(f.param_to_sink[0].sink_step.file, "lib.js");
}

#[test]
fn tainted_argument_reaches_a_sink_in_an_imported_function() {
    let (reg, set) = setup_with(js_profile_with_modules());
    let lr = set.for_language("javascript").unwrap();
    let lang = &reg.get("javascript").unwrap().language;
    let lib_src = "export function run(db, x) {\n  db.query(x);\n}\n";
    let app_src = "import { run } from './lib';\nfunction handler(req, db) {\n  run(db, req.query.id);\n}\n";
    let other_src = "import { run } from './other';\nfunction handler(req, db) {\n  run(db, req.query.id);\n}\n";

    let artifact = |file: &str, src: &str| -> FileArtifact {
        let i = inputs(lr, lang, src);
        let (bindings, rules) = extract(file, src, &i.tree, Some(taint(lr, &i)));
        FileArtifact {
            file: file.to_string(),
            summary_hash: format!("h-{file}"),
            bindings,
            rules: rules.into_iter().map(|r| (r.rule, r.functions)).collect(),
            resolution: Some(crit_core::profile::ModuleResolution {
                strategy: "path".to_string(),
                extensions: vec![".js".to_string()],
                index_files: vec!["index.js".to_string()],
            }),
        }
    };
    let lib_art = artifact("src/lib.js", lib_src);
    assert_eq!(lib_art.bindings.exports, vec!["run".to_string()]);
    let app_art = artifact("src/app.js", app_src);
    assert_eq!(app_art.bindings.imports.len(), 1);
    assert_eq!(app_art.bindings.imports[0].0, "run");
    let linked = link(&vec![lib_art, app_art, artifact("src/other.js", other_src)]);

    let fl = file_linked(&linked, "src/app.js").expect("app.js links to lib.js");
    let i = inputs(lr, lang, app_src);
    let fs = evaluate("src/app.js", app_src, "javascript", &i.tree, &lr.patterns, &i.patterns, Some(taint(lr, &i)), fl);
    let f = fs.iter().find(|f| f.rule_id == "js.sql-injection").expect("cross-file finding");
    assert_eq!(f.file, "src/app.js");
    assert_eq!(f.span.start.line, 3);
    assert!(f.trace.iter().any(|s| s.file.as_deref() == Some("src/lib.js")), "{:?}", f.trace);
    assert_eq!(f.trace.first().unwrap().label, "source: HTTP request data");

    // Without the link the same file reports nothing.
    let alone = evaluate("src/app.js", app_src, "javascript", &i.tree, &lr.patterns, &i.patterns, Some(taint(lr, &i)), &FileLinked::new());
    assert!(!alone.iter().any(|f| f.rule_id == "js.sql-injection"));

    // An import of a module that is not in the corpus links nothing.
    assert!(file_linked(&linked, "src/other.js").is_none());
}

fn module_artifact(lr: &LanguageRules, lang: &tree_sitter::Language, file: &str, src: &str, hash: &str) -> FileArtifact {
    let i = inputs(lr, lang, src);
    let (bindings, rules) = extract(file, src, &i.tree, Some(taint(lr, &i)));
    FileArtifact {
        file: file.to_string(),
        summary_hash: hash.to_string(),
        bindings,
        rules: rules.into_iter().map(|r| (r.rule, r.functions)).collect(),
        resolution: Some(crit_core::profile::ModuleResolution {
            strategy: "path".to_string(),
            extensions: vec![".js".to_string()],
            index_files: vec!["index.js".to_string()],
        }),
    }
}

const CALLER: &str = "import { getInput } from './util';\n\
                      function handler(req, db) {\n\
                      \x20 const n = getInput(req);\n\
                      \x20 db.query(\"SELECT id = \" + n);\n\
                      }\n";

#[test]
fn tainted_return_of_an_imported_function_reaches_the_callers_sink() {
    let (reg, set) = setup_with(js_profile_with_modules());
    let lr = set.for_language("javascript").unwrap();
    let lang = &reg.get("javascript").unwrap().language;
    let util = "export function getInput(req) {\n  return req.query.data;\n}\n";
    let linked = link(&vec![module_artifact(lr, lang, "util.js", util, "u1"), module_artifact(lr, lang, "app.js", CALLER, "a1")]);
    let fl = file_linked(&linked, "app.js").expect("app.js links to util.js");
    let i = inputs(lr, lang, CALLER);
    let fs = evaluate("app.js", CALLER, "javascript", &i.tree, &lr.patterns, &i.patterns, Some(taint(lr, &i)), fl);
    let f = fs.iter().find(|f| f.rule_id == "js.sql-injection").expect("cross-file finding in app.js");
    assert_eq!(f.span.start.line, 4);
    assert!(f.trace.iter().any(|s| s.file.as_deref() == Some("util.js")), "{:?}", f.trace);
    assert!(f.trace.first().unwrap().label.starts_with("source:"));
    assert!(f.trace.last().unwrap().label.starts_with("sink:"));
}

#[test]
fn a_same_named_safe_function_does_not_taint_and_edits_change_the_link_fingerprint() {
    let (reg, set) = setup_with(js_profile_with_modules());
    let lr = set.for_language("javascript").unwrap();
    let lang = &reg.get("javascript").unwrap().language;
    let tainting = "export function getInput(req) {\n  return req.query.data;\n}\n";
    let safe = "export function getInput(req) {\n  return \"constant\";\n}\n";

    let before = link(&vec![module_artifact(lr, lang, "util.js", tainting, "u1"), module_artifact(lr, lang, "app.js", CALLER, "a1")]);
    let after = link(&vec![module_artifact(lr, lang, "util.js", safe, "u2"), module_artifact(lr, lang, "app.js", CALLER, "a1")]);

    // The caller depends on the dependency's summary: its link fingerprint
    // moves with it, so a cached result for the unchanged caller is not reused.
    let fp_before = file_link_fp(&before, "app.js");
    let fp_after = file_link_fp(&after, "app.js");
    assert!(!fp_before.is_empty());
    assert_ne!(fp_before, fp_after);
    assert_eq!(file_link_fp(&before, "util.js"), "");

    let i = inputs(lr, lang, CALLER);
    let empty = FileLinked::new();
    let fl = file_linked(&after, "app.js").unwrap_or(&empty);
    let fs = evaluate("app.js", CALLER, "javascript", &i.tree, &lr.patterns, &i.patterns, Some(taint(lr, &i)), fl);
    assert!(!fs.iter().any(|f| f.rule_id == "js.sql-injection"), "a constant return carries no taint");
}

#[test]
fn explain_says_why_a_sanitized_sink_is_not_reported() {
    let (reg, set) = setup();
    let lr = set.for_language("javascript").unwrap();
    let lang = &reg.get("javascript").unwrap().language;
    let src = "function handler(req, db) {\n\
               \x20 const id = req.query.id;\n\
               \x20 db.query(\"SELECT \" + id);\n\
               }\n\
               function safe(req, db) {\n\
               \x20 const n = parseInt(req.query.n);\n\
               \x20 db.query(\"SELECT \" + n);\n\
               }\n";
    let i = inputs(lr, lang, src);
    let e = explain("app.js", "javascript", src, &i.tree, Some(taint(lr, &i)), Some("js.sql-injection"));
    assert!(e.rules.iter().all(|r| r.rule_id == "js.sql-injection"));
    let r = &e.rules[0];
    assert!(r.sinks.iter().any(|s| s.reported && s.line == 3), "{:?}", r.sinks);
    let clean = r.sinks.iter().find(|s| s.line == 7).expect("the sanitized sink is listed");
    assert!(!clean.reported);
    assert!(clean.reason.contains("no tainted data") || clean.reason.contains("sanitiz"), "{}", clean.reason);
}

fn captures_of(ms: &[QueryMatch]) -> Vec<Vec<(String, usize)>> {
    ms.iter().map(|m| m.captures.iter().map(|c| (c.name.clone(), c.node)).collect()).collect()
}

#[test]
fn the_library_lays_out_the_tree_and_matches_as_a_preorder_walk_does() {
    let (reg, set) = setup();
    let lr = set.for_language("javascript").unwrap();
    let lang = &reg.get("javascript").unwrap().language;
    let src = "function handler(req, db) {\n  const id = req.query.id;\n  db.query(\"x\" + id); // é\n}\n";
    let mine = inputs(lr, lang, src);
    let theirs = hand_inputs(lr, lang, src);
    assert_eq!(mine.tree.nodes.len(), theirs.tree.nodes.len());
    for (a, b) in mine.tree.nodes.iter().zip(theirs.tree.nodes.iter()) {
        assert_eq!(a.kind, b.kind);
        assert_eq!(a.span, b.span);
        assert_eq!(a.text, b.text);
        assert_eq!(a.named, b.named);
        assert_eq!(a.parent, b.parent);
        assert_eq!(a.children, b.children);
    }
    assert_eq!(mine.tree.nodes[0].kind, "program");
    assert_eq!(mine.tree.nodes[0].text, src);
    assert_eq!(mine.patterns.len(), theirs.patterns.len());
    for (a, b) in mine.patterns.iter().zip(theirs.patterns.iter()) {
        assert_eq!(captures_of(a), captures_of(b));
    }
    assert_eq!(captures_of(&mine.profile.calls), captures_of(&theirs.profile.calls));
    assert_eq!(captures_of(&mine.bindings.member_access), captures_of(&theirs.bindings.member_access));
}

#[test]
fn analysis_from_the_source_text_matches_analysis_of_the_tables() {
    let (reg, set) = setup();
    let lr = set.for_language("javascript").unwrap();
    let lang = &reg.get("javascript").unwrap().language;
    let from_source = evaluate_source("app.js", SQLI, lr, lang, &FileLinked::new()).unwrap();
    let from_tables = scan_js(SQLI);
    assert_eq!(from_source.len(), from_tables.len());
    for (a, b) in from_source.iter().zip(from_tables.iter()) {
        assert_eq!(a.rule_id, b.rule_id);
        assert_eq!(a.span, b.span);
        assert_eq!(a.fingerprint, b.fingerprint);
    }
    let e = explain_source("app.js", SQLI, lr, lang, None).unwrap();
    assert_eq!(e.rules.len(), 1);
    let (_, rules) = extract_source("app.js", "function run(db, x) {\n  db.query(x);\n}\n", lr, lang).unwrap();
    assert_eq!(rules.len(), 1);
}

#[test]
fn explain_verdicts_agree_with_the_scan() {
    let (reg, set) = setup();
    let lr = set.for_language("javascript").unwrap();
    let lang = &reg.get("javascript").unwrap().language;
    let src = "function handler(req, db) {\n\
               \x20 const id = req.query.id;\n\
               \x20 db.query(\"SELECT \" + id);\n\
               }\n\
               function safe(req, db) {\n\
               \x20 const n = parseInt(req.query.n);\n\
               \x20 db.query(\"SELECT \" + n);\n\
               }\n";
    let i = inputs(lr, lang, src);
    let e = explain("app.js", "javascript", src, &i.tree, Some(taint(lr, &i)), Some("js.sql-injection"));
    let found = scan_js(src);
    for s in &e.rules[0].sinks {
        let at = found.iter().any(|f| f.rule_id == "js.sql-injection" && f.span.start.line == s.line);
        assert_eq!(s.reported, at, "{:?}", s);
    }
    assert!(e.rules[0].sinks.iter().any(|s| s.reported));
    assert!(e.rules[0].sinks.iter().any(|s| !s.reported));
}
