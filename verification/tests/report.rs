use crit_core::findings::{Category, Finding, Pos, Severity, Span, TraceStep};
use crit_core::output::{render, text_lines, truncate, Format};
use crit_core::scanner::ScanStats;

fn finding(rule: &str, file: &str, sev: Severity, start: (u32, u32), end: (u32, u32)) -> Finding {
    Finding {
        rule_id: rule.to_string(),
        severity: sev,
        category: Category::Security,
        message: "Command built from request data".to_string(),
        file: file.to_string(),
        language: "javascript".to_string(),
        span: Span {
            start: Pos { line: start.0, column: start.1 },
            end: Pos { line: end.0, column: end.1 },
            start_byte: 0,
            end_byte: 1,
        },
        snippet: "foo(a);".to_string(),
        trace: vec![],
        fingerprint: "fp".to_string(),
        cwe: vec![],
        owasp: vec![],
        nist: vec![],
    }
}

#[test]
fn format_names() {
    assert_eq!(Format::parse("JSON"), Ok(Format::Json));
    assert_eq!(Format::parse("text"), Ok(Format::Human));
    assert_eq!(Format::parse("Sarif"), Ok(Format::Sarif));
    assert_eq!("human".parse::<Format>(), Ok(Format::Human));
    assert_eq!(Format::parse("XML"), Err("unknown format `xml` (human, json, sarif)".to_string()));
}

#[test]
fn truncation_marks_the_cut() {
    assert_eq!(truncate("abcdef", 6), "abcdef");
    assert_eq!(truncate("abcdef", 3), "abc…");
    assert_eq!(truncate("ééé", 2), "éé…");
}

#[test]
fn lines_split_like_str_lines() {
    let v: Vec<String> = text_lines("a\r\nb\n\nc\r").into_iter().map(|l| l.into_iter().collect()).collect();
    assert_eq!(v, vec!["a", "b", "", "c\r"]);
    assert!(text_lines("").is_empty());
}

#[test]
fn plain_report_without_sources() {
    let fs = vec![finding("js.cmd", "a.js", Severity::High, (1, 1), (1, 4))];
    let out = render(&fs, &ScanStats::default(), &vec![], &vec![], &vec![], false);
    assert_eq!(
        out,
        "a.js\n  HIGH js.cmd a.js:1:1\n    Command built from request data\n\n1 finding (1 high) in 0 files — 0 scanned, 0 cached, 0 ms\n"
    );
}

#[test]
fn empty_report_says_so() {
    let mut stats = ScanStats::default();
    stats.files_scanned = 1;
    stats.duration_ms = 12;
    stats.baseline_suppressed = 2;
    stats.files_skipped_size = 1;
    let out = render(&vec![], &stats, &vec!["x.js: unreadable".to_string()], &vec![], &vec![], false);
    assert_eq!(
        out,
        "warnings:\n  x.js: unreadable\n\n✓ no findings\n0 findings (none) in 1 file — 1 scanned, 0 cached, 12 ms (2 pre-existing suppressed by baseline) (1 oversized skipped)\n"
    );
}

#[test]
fn full_report_with_frame_flow_tags_and_fix() {
    let mut f = finding("js.cmd", "web/a.js", Severity::Critical, (2, 1), (2, 7));
    f.cwe = vec!["CWE-78".to_string()];
    f.owasp = vec!["A03:2021".to_string()];
    f.trace = vec![TraceStep {
        label: "source".to_string(),
        span: f.span,
        snippet: "foo(a);".to_string(),
        file: None,
    }];
    let mut g = finding("js.low", "b.js", Severity::Low, (1, 1), (1, 2));
    g.message = "minor".to_string();
    let sources = vec![("web/a.js".to_string(), Some("let a = 1;\nfoo(a);\n".to_string()))];
    let rems = vec![("js.cmd".to_string(), "  Use execFile.\nNever a shell.  ".to_string())];
    let out = render(&vec![f, g], &ScanStats::default(), &vec![], &rems, &sources, false);
    let expected = [
        "b.js\n",
        "  LOW js.low b.js:1:1\n",
        "    minor\n",
        "\n",
        "web/a.js\n",
        "  CRITICAL js.cmd web/a.js:2:1\n",
        "    Command built from request data\n",
        "    CWE-78 · OWASP A03:2021\n",
        "      1 │ let a = 1;\n",
        "      2 │ foo(a);\n",
        "        │ ^^^^^^\n",
        "    flow:\n",
        "      ● line 2 source  foo(a);\n",
        "    fix: Use execFile.\n",
        "         Never a shell.\n",
        "\n",
        "2 findings (1 critical, 1 low) in 0 files — 0 scanned, 0 cached, 0 ms\n",
    ]
    .concat();
    assert_eq!(out, expected);
}

#[test]
fn color_changes_the_rendering() {
    let fs = vec![finding("js.cmd", "a.js", Severity::High, (1, 1), (1, 4))];
    let plain = render(&fs, &ScanStats::default(), &vec![], &vec![], &vec![], false);
    let colored = render(&fs, &ScanStats::default(), &vec![], &vec![], &vec![], true);
    assert_ne!(plain, colored);
    assert!(colored.contains("\u{1b}["));
}

fn strip_escapes(s: &str) -> String {
    let mut out = String::new();
    let mut chars = s.chars();
    while let Some(c) = chars.next() {
        if c == '\u{1b}' {
            for d in chars.by_ref() {
                if d == 'm' {
                    break;
                }
            }
        } else {
            out.push(c);
        }
    }
    out
}

#[test]
fn color_only_wraps_text_in_escape_sequences() {
    let fs = vec![finding("js.cmd", "a.js", Severity::High, (1, 1), (1, 4))];
    let plain = render(&fs, &ScanStats::default(), &vec![], &vec![], &vec![], false);
    let colored = render(&fs, &ScanStats::default(), &vec![], &vec![], &vec![], true);
    assert_eq!(strip_escapes(&colored), plain);
    assert!(colored.contains("\u{1b}[0m"));
    assert!(colored.contains("\u{1b}[1m") || colored.contains("\u{1b}[31;1m") || colored.contains("\u{1b}[2m"));
}

#[test]
fn severity_names_parse_back_in_any_case() {
    for s in [Severity::Info, Severity::Low, Severity::Medium, Severity::High, Severity::Critical] {
        assert_eq!(Severity::parse(s.as_str()), Some(s));
        assert_eq!(Severity::parse(&s.as_str().to_uppercase()), Some(s));
    }
    assert_eq!(Severity::parse("Warning"), Some(Severity::Medium));
    assert_eq!(Severity::parse("ERROR"), Some(Severity::Critical));
    assert_eq!(Severity::parse("severe"), None);
}

#[test]
fn sorted_findings_come_most_severe_first_then_by_place() {
    let v = vec![
        finding("r.b", "b.js", Severity::Low, (1, 1), (1, 2)),
        finding("r.a", "a.js", Severity::Low, (3, 1), (3, 2)),
        finding("r.c", "a.js", Severity::High, (9, 9), (9, 10)),
        finding("r.a", "a.js", Severity::Low, (1, 5), (1, 6)),
        finding("r.0", "a.js", Severity::Low, (1, 5), (1, 6)),
    ];
    let sorted = crit_core::findings::sort_findings(v);
    let got: Vec<(&str, &str, u32, u32)> =
        sorted.iter().map(|f| (f.rule_id.as_str(), f.file.as_str(), f.span.start.line, f.span.start.column)).collect();
    assert_eq!(
        got,
        vec![("r.c", "a.js", 9, 9), ("r.0", "a.js", 1, 5), ("r.a", "a.js", 1, 5), ("r.a", "a.js", 3, 1), ("r.b", "b.js", 1, 1)]
    );
    for w in sorted.windows(2) {
        assert!(!crit_core::findings::report_less(&w[1], &w[0]));
    }
}
