use std::str::FromStr;
use crit_core::findings::{fingerprint, Category, Severity};
use crit_core::languages::{abi_problem, grammar_abi_problem, grammar_library_path, grammar_symbol, path_extension, GrammarConfig, Registry};
use crit_core::text::trimmed;
use crit_core::matcher::CompiledFilter;
use crit_core::model::{CaptureFilter, Metadata, RuleError, RuleKind, RuleSpec};
use crit_core::sarif::describe_rule;

#[test]
fn fingerprints_are_short_stable_hex() {
    let a = fingerprint("r", "a.js", "  exec(x)  ", 0);
    assert_eq!(a.len(), 32);
    assert!(a.chars().all(|c| c.is_ascii_hexdigit() && !c.is_ascii_uppercase()));
    assert_eq!(a, fingerprint("r", "a.js", "exec(x)", 0), "the snippet is trimmed");
    assert_ne!(a, fingerprint("r", "a.js", "exec(x)", 1));
    assert_ne!(a, fingerprint("q", "a.js", "exec(x)", 0));
}

#[test]
fn regex_filters_match_and_negate() {
    let f = CaptureFilter {
        capture: "name".to_string(),
        pattern: Some("^exec".to_string()),
        equals: None,
        any_of: None,
        negate: false,
    };
    let c = CompiledFilter::compile(&f);
    assert!(c.accept("execSync"));
    assert!(!c.accept("spawn"));
    let n = CompiledFilter::compile(&CaptureFilter { negate: true, ..f });
    assert!(!n.accept("execSync"));
    assert!(n.accept("spawn"));
}

#[test]
fn bad_filter_regex_is_reported() {
    let e = RuleError::InvalidFilterRegex("name".to_string(), "boom".to_string());
    assert_eq!(e.message(), "invalid filter regex for `name`: boom");
    assert_eq!(RuleError::NoLanguages.message(), "rule must list at least one language");
}

#[test]
fn grammar_paths_and_symbols() {
    assert_eq!(grammar_library_path("lib/g.so", "/cfg"), "/cfg/lib/g.so");
    assert_eq!(grammar_library_path("/abs/g.so", "/cfg"), "/abs/g.so");
    assert_eq!(grammar_symbol("my-lang", &None), "tree_sitter_my_lang");
    assert_eq!(grammar_symbol("x", &Some("sym".to_string())), "sym");
    assert_eq!(path_extension("a/b.tar.gz"), Some("gz".to_string()));
    assert_eq!(path_extension("a/.bashrc"), None);
    assert_eq!(path_extension("a/b."), Some(String::new()));
    assert_eq!(path_extension(".."), None);
}

#[test]
fn runtime_grammars_register_after_the_abi_check() {
    let mut reg = Registry::with_builtins(Vec::new()).unwrap();
    let cfg = GrammarConfig {
        name: "mini-js".to_string(),
        display_name: None,
        library: "mini.so".to_string(),
        symbol: None,
        extensions: vec!["MJ".to_string(), "mjx".to_string()],
        profile: None,
    };
    let lang: tree_sitter::Language = tree_sitter_javascript::LANGUAGE.into();
    assert!(reg.add_grammar(&cfg, lang.clone(), None).is_ok());
    let d = reg.detect("src/a.mj").expect("lowercased extension maps to the new grammar");
    assert_eq!(d.id, "mini-js");
    assert_eq!(d.display_name, "mini-js");
    assert!(!d.builtin);
    assert_eq!(d.extensions, vec!["mj".to_string(), "mjx".to_string()]);
    assert_eq!(reg.all().len(), 9);
    // The name is taken now.
    assert!(reg.add_grammar(&cfg, lang, None).is_err());
    assert_eq!(reg.all().len(), 9);
}

#[test]
fn sarif_tags_lowercase_cwe_ids() {
    let r = RuleSpec {
        id: "js.x".to_string(),
        name: None,
        kind: RuleKind::Pattern,
        severity: Severity::High,
        category: Category::Security,
        languages: vec!["javascript".to_string()],
        message: "m".to_string(),
        description: None,
        remediation: Some("fix it".to_string()),
        metadata: Metadata {
            cwe: vec!["CWE-89".to_string()],
            owasp: vec!["A03:2021".to_string()],
            nist: vec!["SI-10".to_string()],
            references: vec![],
            tags: vec!["sql".to_string()],
        },
        query: Some("(x) @x".to_string()),
        filters: vec![],
        sources: vec![],
        sinks: vec![],
        sanitizers: vec![],
        origin: String::new(),
        precision: None,
    };
    let d = describe_rule(&r, "https://example.invalid/crit");
    assert_eq!(d.tags, vec!["security", "external/cwe/cwe-89", "owasp/A03:2021", "nist/SI-10", "sql"]);
    assert_eq!(d.help_text, "Remediation: fix it");
    assert_eq!(d.help_uri, "https://example.invalid/crit");
    assert_eq!(d.level, "error");
    assert_eq!(d.precision, "low");
}

#[test]
fn fingerprint_is_the_hash_of_its_fields() {
    let mut msg: Vec<u8> = b"crit-fp-v1\0js.eval\0src/a.js\0eval(x);\0".to_vec();
    msg.extend_from_slice(&3u32.to_le_bytes());
    let want = blake3::hash(&msg).to_hex().to_string();
    assert_eq!(fingerprint("js.eval", "src/a.js", " eval(x); ", 3), want[..32]);
}

#[test]
fn grammars_with_unsupported_abi_are_refused_by_name() {
    let mut reg = Registry::with_builtins(Vec::new()).unwrap();
    let cfg = GrammarConfig {
        name: "old-lang".to_string(),
        display_name: Some("Old".to_string()),
        library: "old.so".to_string(),
        symbol: None,
        extensions: vec!["OL".to_string()],
        profile: None,
    };
    let lang: tree_sitter::Language = tree_sitter_javascript::LANGUAGE.into();
    let err = reg.add_grammar_at_abi(&cfg, lang.clone(), None, 12).unwrap_err();
    assert_eq!(err, "grammar `old-lang` has incompatible ABI version 12 (supported: 13..=15)");
    assert!(reg.add_grammar_at_abi(&cfg, lang.clone(), None, 16).is_err());
    assert_eq!(reg.all().len(), 8);
    assert!(reg.add_grammar_at_abi(&cfg, lang.clone(), None, 14).is_ok());
    assert_eq!(reg.detect("x.ol").unwrap().display_name, "Old");
    let dup = reg.add_grammar_at_abi(&cfg, lang, None, 14).unwrap_err();
    assert_eq!(dup, "duplicate language id `old-lang`");
}

#[test]
fn formats_parse_through_from_str() {
    assert_eq!(crit_core::output::Format::from_str("SARIF"), Ok(crit_core::output::Format::Sarif));
    assert_eq!(crit_core::output::Format::from_str("text"), Ok(crit_core::output::Format::Human));
    assert_eq!(
        crit_core::output::Format::from_str("xml"),
        Err("unknown format `xml` (human, json, sarif)".to_string())
    );
}

#[test]
fn abi_versions_outside_what_tree_sitter_supports_are_named() {
    assert_eq!(abi_problem("lang", 13), None);
    assert_eq!(abi_problem("lang", 15), None);
    assert_eq!(
        abi_problem("lang", 12),
        Some("grammar `lang` has incompatible ABI version 12 (supported: 13..=15)".to_string())
    );
    assert_eq!(
        abi_problem("lang", 16),
        Some("grammar `lang` has incompatible ABI version 16 (supported: 13..=15)".to_string())
    );
    let reg = Registry::with_builtins(Vec::new()).unwrap();
    let js = reg.get("javascript").unwrap();
    let cfg = GrammarConfig {
        name: "js2".to_string(),
        display_name: None,
        library: "x.so".to_string(),
        symbol: None,
        extensions: vec![],
        profile: None,
    };
    assert_eq!(grammar_abi_problem(&cfg, &js.language), None);
}

#[test]
fn trimming_removes_unicode_whitespace_and_is_idempotent() {
    let once: String = trimmed("\u{3000}\t x y \u{a0}\n").into_iter().collect();
    assert_eq!(once, "x y");
    let twice: String = trimmed(&once).into_iter().collect();
    assert_eq!(twice, once);
}
