//! Core finding data model shared by the engine, cache, and renderers.
//! Findings are self-contained (message, snippet, framework tags) so cached
//! entries can be rendered without re-parsing files.

use vstd::prelude::*;
use crate::text::{chars_of, str_is, to_ascii_lower, lower_seq, string_of, trim, trimmed};
use crate::hashing::{hash_hex, blake3_hex, utf8_bytes, push_bytes, le_bytes, le_bytes_of, is_lower_hex};
use crate::paths::strings_view;
use crate::sorting::{text_lt, text_less, views, ssort_by, stable_sort_by, strict_weak, sorted_by, lemma_ssort_by_sorted, lemma_text_lt};

verus! {

/// Severity of a finding, ordered from least to most severe.
#[derive(Debug, Clone, Copy, PartialEq, Eq, Structural, Hash)]
pub enum Severity {
    Info,
    Low,
    Medium,
    High,
    Critical,
}

impl Severity {
    /// Position in the order Info < Low < Medium < High < Critical.
    pub open spec fn level(self) -> nat {
        match self {
            Severity::Info => 0,
            Severity::Low => 1,
            Severity::Medium => 2,
            Severity::High => 3,
            Severity::Critical => 4,
        }
    }

    /// Executable form of [`Severity::level`].
    pub fn rank(&self) -> (r: u8)
        ensures
            r as nat == self.level(),
    {
        match self {
            Severity::Info => 0,
            Severity::Low => 1,
            Severity::Medium => 2,
            Severity::High => 3,
            Severity::Critical => 4,
        }
    }

    /// Whether `self` is at least as severe as `other`.
    pub fn at_least(&self, other: &Severity) -> (r: bool)
        ensures
            r == (self.level() >= other.level()),
    {
        self.rank() >= other.rank()
    }

    pub open spec fn name(self) -> Seq<char> {
        match self {
            Severity::Info => "info"@,
            Severity::Low => "low"@,
            Severity::Medium => "medium"@,
            Severity::High => "high"@,
            Severity::Critical => "critical"@,
        }
    }

    pub fn as_str(&self) -> (r: &'static str)
        ensures
            r@ == self.name(),
    {
        match self {
            Severity::Info => "info",
            Severity::Low => "low",
            Severity::Medium => "medium",
            Severity::High => "high",
            Severity::Critical => "critical",
        }
    }

    pub open spec fn sarif_name(self) -> Seq<char> {
        match self {
            Severity::Info => "note"@,
            Severity::Low | Severity::Medium => "warning"@,
            Severity::High | Severity::Critical => "error"@,
        }
    }

    /// SARIF `level` for this severity.
    pub fn sarif_level(&self) -> (r: &'static str)
        ensures
            r@ == self.sarif_name(),
    {
        match self {
            Severity::Info => "note",
            Severity::Low | Severity::Medium => "warning",
            Severity::High | Severity::Critical => "error",
        }
    }

    pub open spec fn security_score(self) -> Seq<char> {
        match self {
            Severity::Info => "0.0"@,
            Severity::Low => "3.0"@,
            Severity::Medium => "5.5"@,
            Severity::High => "8.0"@,
            Severity::Critical => "9.5"@,
        }
    }

    /// SARIF `security-severity` score (GitHub uses this for display buckets).
    pub fn security_severity(&self) -> (r: &'static str)
        ensures
            r@ == self.security_score(),
    {
        match self {
            Severity::Info => "0.0",
            Severity::Low => "3.0",
            Severity::Medium => "5.5",
            Severity::High => "8.0",
            Severity::Critical => "9.5",
        }
    }

    /// The severity a (lower-cased) name denotes; SARIF level names are
    /// accepted as aliases.
    pub open spec fn from_lower(l: Seq<char>) -> Option<Severity> {
        if l == "info"@ || l == "note"@ {
            Some(Severity::Info)
        } else if l == "low"@ {
            Some(Severity::Low)
        } else if l == "medium"@ || l == "warning"@ {
            Some(Severity::Medium)
        } else if l == "high"@ {
            Some(Severity::High)
        } else if l == "critical"@ || l == "error"@ {
            Some(Severity::Critical)
        } else {
            None
        }
    }

    /// Parse a severity name, ignoring ASCII case.
    pub fn parse(s: &str) -> (r: Option<Severity>)
        ensures
            r == Severity::from_lower(lower_seq(s@)),
    {
        let l = to_ascii_lower(s);
        let ls = string_of(l.as_slice());
        let t = ls.as_str();
        if str_is(t, "info") || str_is(t, "note") {
            Some(Severity::Info)
        } else if str_is(t, "low") {
            Some(Severity::Low)
        } else if str_is(t, "medium") || str_is(t, "warning") {
            Some(Severity::Medium)
        } else if str_is(t, "high") {
            Some(Severity::High)
        } else if str_is(t, "critical") || str_is(t, "error") {
            Some(Severity::Critical)
        } else {
            None
        }
    }
}

/// `Severity::parse` reads each severity's own name back.
pub proof fn lemma_severity_name_parses(s: Severity)
    ensures
        Severity::from_lower(lower_seq(s.name())) == Some(s),
{
    reveal_strlit("info");
    reveal_strlit("note");
    reveal_strlit("low");
    reveal_strlit("medium");
    reveal_strlit("warning");
    reveal_strlit("high");
    reveal_strlit("critical");
    reveal_strlit("error");
    assert(lower_seq(s.name()) =~= s.name());
    match s {
        Severity::Info => {}
        Severity::Low => {
            assert("low"@ != "info"@ && "low"@ != "note"@);
        }
        Severity::Medium => {
            assert("medium"@ != "info"@ && "medium"@ != "note"@ && "medium"@ != "low"@);
        }
        Severity::High => {
            assert("high"@[0] != "info"@[0] && "high"@[0] != "note"@[0]);
            assert("high"@ != "info"@ && "high"@ != "note"@ && "high"@ != "low"@);
            assert("high"@ != "medium"@ && "high"@ != "warning"@);
        }
        Severity::Critical => {
            assert("critical"@ != "info"@ && "critical"@ != "note"@ && "critical"@ != "low"@);
            assert("critical"@ != "medium"@ && "critical"@ != "warning"@ && "critical"@ != "high"@);
        }
    }
}

/// `Severity::parse` ignores ASCII case: a text and its lower-case form
/// parse alike.
pub proof fn lemma_severity_parse_ignores_case(x: Seq<char>)
    ensures
        Severity::from_lower(lower_seq(lower_seq(x))) == Severity::from_lower(lower_seq(x)),
{
    assert forall|i: int| 0 <= i < x.len() implies #[trigger] lower_seq(lower_seq(x))[i] == lower_seq(x)[i] by {
        let c = x[i];
        if 'A' <= c && c <= 'Z' {
            assert(((c as u32) + 32) as char == lower_seq(x)[i]);
            assert('a' <= ((c as u32) + 32) as char <= 'z');
        }
    }
    assert(lower_seq(lower_seq(x)) =~= lower_seq(x));
}

/// Rule category: what kind of problem the rule detects.
#[derive(Debug, Clone, Copy, PartialEq, Eq, Structural, Hash)]
pub enum Category {
    Security,
    Quality,
    Correctness,
    Performance,
}

impl Category {
    pub open spec fn name(self) -> Seq<char> {
        match self {
            Category::Security => "security"@,
            Category::Quality => "quality"@,
            Category::Correctness => "correctness"@,
            Category::Performance => "performance"@,
        }
    }

    pub fn as_str(&self) -> (r: &'static str)
        ensures
            r@ == self.name(),
    {
        match self {
            Category::Security => "security",
            Category::Quality => "quality",
            Category::Correctness => "correctness",
            Category::Performance => "performance",
        }
    }
}

/// A position in a file. Lines and columns are 1-based.
#[derive(Debug, Clone, Copy, PartialEq, Eq, Structural)]
pub struct Pos {
    pub line: u32,
    pub column: u32,
}

/// A source span with both point and byte coordinates.
#[derive(Debug, Clone, Copy, PartialEq, Eq, Structural)]
pub struct Span {
    pub start: Pos,
    pub end: Pos,
    pub start_byte: u32,
    pub end_byte: u32,
}

impl Span {
    /// Byte-based containment of `other` in `self`.
    pub open spec fn covers(self, other: Span) -> bool {
        self.start_byte <= other.start_byte && other.end_byte <= self.end_byte
    }

    /// Whether this span fully contains `other` (byte-based).
    pub fn contains(&self, other: &Span) -> (r: bool)
        ensures
            r == self.covers(*other),
    {
        self.start_byte <= other.start_byte && other.end_byte <= self.end_byte
    }

    /// Same span, comparing all coordinates.
    pub fn same(&self, other: &Span) -> (r: bool)
        ensures
            r == (*self == *other),
    {
        self.start.line == other.start.line && self.start.column == other.start.column
            && self.end.line == other.end.line && self.end.column == other.end.column
            && self.start_byte == other.start_byte && self.end_byte == other.end_byte
    }
}


/// One step in a taint flow trace, from source to sink.
#[derive(Debug)]
pub struct TraceStep {
    /// Human label, e.g. `source: HTTP request parameter`.
    pub label: String,
    pub span: Span,
    /// The source line at this step, trimmed.
    pub snippet: String,
    /// File this step is in, when it differs from the finding's file.
    pub file: Option<String>,
}

/// The content of a trace step.
pub struct TraceStepView {
    pub label: Seq<char>,
    pub span: Span,
    pub snippet: Seq<char>,
    pub file: Option<Seq<char>>,
}

impl View for TraceStep {
    type V = TraceStepView;

    open spec fn view(&self) -> TraceStepView {
        TraceStepView {
            label: self.label@,
            span: self.span,
            snippet: self.snippet@,
            file: match self.file { Some(f) => Some(f@), None => None },
        }
    }
}

/// The content of each trace step.
pub open spec fn trace_view(v: Seq<TraceStep>) -> Seq<TraceStepView> {
    v.map_values(|t: TraceStep| t@)
}

impl TraceStep {
    pub fn duplicate(&self) -> (r: TraceStep)
        ensures
            r@ == self@,
    {
        TraceStep {
            label: self.label.clone(),
            span: self.span,
            snippet: self.snippet.clone(),
            file: match &self.file { Some(f) => Some(f.clone()), None => None },
        }
    }
}

/// A single scan finding.
#[derive(Debug)]
pub struct Finding {
    pub rule_id: String,
    pub severity: Severity,
    pub category: Category,
    /// Rendered message (capture placeholders already substituted).
    pub message: String,
    /// Path relative to the scan root, always with forward slashes.
    pub file: String,
    pub language: String,
    pub span: Span,
    /// Trimmed text of the first matched line.
    pub snippet: String,
    /// Taint flow steps (empty for plain pattern findings).
    pub trace: Vec<TraceStep>,
    /// Stable fingerprint used for baselines.
    pub fingerprint: String,
    pub cwe: Vec<String>,
    pub owasp: Vec<String>,
    pub nist: Vec<String>,
}

/// The content of a finding.
pub struct FindingView {
    pub rule_id: Seq<char>,
    pub severity: Severity,
    pub category: Category,
    pub message: Seq<char>,
    pub file: Seq<char>,
    pub language: Seq<char>,
    pub span: Span,
    pub snippet: Seq<char>,
    pub trace: Seq<TraceStepView>,
    pub fingerprint: Seq<char>,
    pub cwe: Seq<Seq<char>>,
    pub owasp: Seq<Seq<char>>,
    pub nist: Seq<Seq<char>>,
}

impl View for Finding {
    type V = FindingView;

    open spec fn view(&self) -> FindingView {
        FindingView {
            rule_id: self.rule_id@,
            severity: self.severity,
            category: self.category,
            message: self.message@,
            file: self.file@,
            language: self.language@,
            span: self.span,
            snippet: self.snippet@,
            trace: trace_view(self.trace@),
            fingerprint: self.fingerprint@,
            cwe: strings_view(self.cwe@),
            owasp: strings_view(self.owasp@),
            nist: strings_view(self.nist@),
        }
    }
}

impl Finding {
    pub fn duplicate(&self) -> (r: Finding)
        ensures
            r@ == self@,
    {
        let mut trace: Vec<TraceStep> = Vec::new();
        let n = self.trace.len();
        for i in 0..n
            invariant
                n == self.trace@.len(),
                trace_view(trace@) == trace_view(self.trace@.take(i as int)),
        {
            let ghost before = trace_view(trace@);
            trace.push(self.trace[i].duplicate());
            assert(trace_view(trace@) =~= before.push(self.trace@[i as int]@));
            assert(trace_view(self.trace@.take(i + 1)) =~= trace_view(self.trace@.take(i as int)).push(self.trace@[i as int]@));
        }
        assert(self.trace@.take(n as int) =~= self.trace@);
        Finding {
            rule_id: self.rule_id.clone(),
            severity: self.severity,
            category: self.category,
            message: self.message.clone(),
            file: self.file.clone(),
            language: self.language.clone(),
            span: self.span,
            snippet: self.snippet.clone(),
            trace,
            fingerprint: self.fingerprint.clone(),
            cwe: crate::paths::copy_strings(&self.cwe),
            owasp: crate::paths::copy_strings(&self.owasp),
            nist: crate::paths::copy_strings(&self.nist),
        }
    }

    /// Sort key: most severe first (the key holds the distance from
    /// `Critical`), then file, line, column and rule id.
    pub fn sort_key(&self) -> (r: (u8, &str, u32, u32, &str))
        ensures
            r.0 as int == 4 - self.severity.level(),
            r.1@ == self.file@,
            r.2 == self.span.start.line,
            r.3 == self.span.start.column,
            r.4@ == self.rule_id@,
    {
        (4 - self.severity.rank(), self.file.as_str(), self.span.start.line, self.span.start.column, self.rule_id.as_str())
    }
}

/// Findings in report order: most severe first, then by file, line,
/// column and rule id.
pub open spec fn report_lt(a: FindingView, b: FindingView) -> bool {
    ||| a.severity.level() > b.severity.level()
    ||| (a.severity.level() == b.severity.level() && text_lt(a.file, b.file))
    ||| (a.severity.level() == b.severity.level() && a.file == b.file && a.span.start.line < b.span.start.line)
    ||| (a.severity.level() == b.severity.level() && a.file == b.file && a.span.start.line == b.span.start.line
        && a.span.start.column < b.span.start.column)
    ||| (a.severity.level() == b.severity.level() && a.file == b.file && a.span.start.line == b.span.start.line
        && a.span.start.column == b.span.start.column && text_lt(a.rule_id, b.rule_id))
}

/// Whether `a` sorts before `b` by [`Finding::sort_key`].
pub fn report_less(a: &Finding, b: &Finding) -> (r: bool)
    ensures
        r == report_lt(a@, b@),
{
    let ka = a.sort_key();
    let kb = b.sort_key();
    if ka.0 != kb.0 {
        return ka.0 < kb.0;
    }
    if !str_is(ka.1, kb.1) {
        proof { crate::sorting::lemma_text_lt(a.file@, b.file@, a.file@); }
        return text_less(ka.1, kb.1);
    }
    assert(a.file@ == b.file@);
    proof { crate::sorting::lemma_text_lt(a.file@, b.file@, a.file@); }
    if ka.2 != kb.2 {
        return ka.2 < kb.2;
    }
    if ka.3 != kb.3 {
        return ka.3 < kb.3;
    }
    text_less(ka.4, kb.4)
}

/// Report order as a comparison.
pub open spec fn report_order() -> spec_fn(FindingView, FindingView) -> bool {
    |a: FindingView, b: FindingView| report_lt(a, b)
}

proof fn lemma_report_lt(a: FindingView, b: FindingView, c: FindingView)
    ensures
        !report_lt(a, a),
        report_lt(a, b) && report_lt(b, c) ==> report_lt(a, c),
        report_lt(a, c) ==> report_lt(a, b) || report_lt(b, c),
{
    lemma_text_lt(a.file, b.file, c.file);
    lemma_text_lt(b.file, c.file, a.file);
    lemma_text_lt(c.file, a.file, b.file);
    lemma_text_lt(a.file, c.file, b.file);
    lemma_text_lt(b.file, a.file, c.file);
    lemma_text_lt(c.file, b.file, a.file);
    lemma_text_lt(a.rule_id, b.rule_id, c.rule_id);
    lemma_text_lt(b.rule_id, c.rule_id, a.rule_id);
    lemma_text_lt(c.rule_id, a.rule_id, b.rule_id);
    lemma_text_lt(a.rule_id, c.rule_id, b.rule_id);
    lemma_text_lt(b.rule_id, a.rule_id, c.rule_id);
    lemma_text_lt(c.rule_id, b.rule_id, a.rule_id);
}

/// Sorted findings are in report order: no finding sorts before one
/// ahead of it (more severe first, then by file, line, column and rule
/// id).
pub proof fn lemma_sorted_findings_in_report_order(s: Seq<FindingView>)
    ensures
        sorted_by(ssort_by(s, report_order()), report_order()),
{
    assert(strict_weak(report_order())) by {
        assert forall|a: FindingView, b: FindingView, c: FindingView| #[trigger] report_lt(a, c) implies report_lt(a, b) || #[trigger] report_lt(b, c) by {
            lemma_report_lt(a, b, c);
        }
        assert forall|a: FindingView, b: FindingView, c: FindingView| #[trigger] report_lt(a, b) && #[trigger] report_lt(b, c) implies report_lt(a, c) by {
            lemma_report_lt(a, b, c);
        }
        assert forall|a: FindingView| !#[trigger] report_lt(a, a) by {
            lemma_report_lt(a, a, a);
        }
    }
    lemma_ssort_by_sorted(s, report_order());
}

/// Sort findings stably into report order.
pub fn sort_findings(v: Vec<Finding>) -> (r: Vec<Finding>)
    ensures
        views(r@) == ssort_by(views(v@), report_order()),
{
    let less = |a: &Finding, b: &Finding| -> (r: bool)
        ensures
            r == report_lt(a@, b@),
    {
        report_less(a, b)
    };
    stable_sort_by(v, less, Ghost(report_order()))
}

/// The bytes a finding fingerprint hashes: a version tag, the rule id, the
/// file, the trimmed snippet (each NUL-terminated) and the occurrence index
/// as four little-endian bytes.
pub open spec fn fp_message(rule_id: Seq<char>, file: Seq<char>, snippet: Seq<char>, occurrence: u32) -> Seq<u8> {
    vstd::utf8::encode_utf8("crit-fp-v1"@) + seq![0u8]
        + vstd::utf8::encode_utf8(rule_id) + seq![0u8]
        + vstd::utf8::encode_utf8(file) + seq![0u8]
        + vstd::utf8::encode_utf8(trim(snippet)) + seq![0u8]
        + le_bytes(occurrence)
}

/// The stable fingerprint: the first 32 hex characters of the hash.
pub open spec fn fingerprint_spec(rule_id: Seq<char>, file: Seq<char>, snippet: Seq<char>, occurrence: u32) -> Seq<char> {
    blake3_hex(fp_message(rule_id, file, snippet, occurrence)).take(32)
}

/// Compute the stable fingerprint for a finding. `occurrence`
/// disambiguates several identical matches (same rule, file and snippet),
/// numbered in document order.
pub fn fingerprint(rule_id: &str, file: &str, snippet: &str, occurrence: u32) -> (r: String)
    ensures
        r@ == fingerprint_spec(rule_id@, file@, snippet@, occurrence),
        r@.len() == 32,
        forall|i: int| 0 <= i < 32 ==> is_lower_hex(#[trigger] r@[i]),
{
    let mut msg = utf8_bytes("crit-fp-v1");
    msg.push(0u8);
    let b = utf8_bytes(rule_id);
    push_bytes(&mut msg, b.as_slice());
    msg.push(0u8);
    let b = utf8_bytes(file);
    push_bytes(&mut msg, b.as_slice());
    msg.push(0u8);
    let t = trimmed(snippet);
    let ts = string_of(t.as_slice());
    let b = utf8_bytes(ts.as_str());
    push_bytes(&mut msg, b.as_slice());
    msg.push(0u8);
    let b = le_bytes_of(occurrence);
    push_bytes(&mut msg, b.as_slice());
    assert(msg@ =~= fp_message(rule_id@, file@, snippet@, occurrence));
    let h = hash_hex(msg.as_slice());
    let hc = chars_of(h.as_str());
    let head = crate::text::slice_chars(&hc, 0, 32);
    assert(head@ =~= h@.take(32));
    string_of(head.as_slice())
}

} // verus!
