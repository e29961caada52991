//! The rule model: pattern rules (one tree-sitter query) and taint rules
//! (sources, sinks, sanitizers), with their framework metadata.

use vstd::prelude::*;
use crate::findings::{Category, Severity};
use crate::paths::strings_view;

verus! {

#[derive(Debug, Clone, Copy, PartialEq, Eq, Structural)]
pub enum RuleKind {
    Pattern,
    Taint,
}

#[derive(Debug)]
pub struct Metadata {
    /// CWE identifiers, e.g. `CWE-89`.
    pub cwe: Vec<String>,
    /// OWASP Top 10 identifiers, e.g. `A03:2021`.
    pub owasp: Vec<String>,
    /// NIST SP 800-53 control identifiers, e.g. `SI-10`.
    pub nist: Vec<String>,
    pub references: Vec<String>,
    pub tags: Vec<String>,
}

/// Post-match filter applied to the text of a named capture.
#[derive(Debug)]
pub struct CaptureFilter {
    pub capture: String,
    /// Regex the capture text must match.
    pub pattern: Option<String>,
    /// Exact string the capture text must equal.
    pub equals: Option<String>,
    /// The capture text must equal one of these.
    pub any_of: Option<Vec<String>>,
    /// Invert the filter.
    pub negate: bool,
}

/// Identity-based matcher against binder-resolved calls and member reads.
#[derive(Debug)]
pub struct ResolvedMatcher {
    pub module: Option<String>,
    pub member_of: Option<String>,
    pub name: Option<String>,
    pub path: Vec<String>,
    pub arg_index: Option<usize>,
    pub match_unresolved: bool,
}

/// A taint source/sink/sanitizer declaration: exactly one of `query` or
/// `resolved` must be present.
#[derive(Debug)]
pub struct TaintPattern {
    pub query: Option<String>,
    pub resolved: Option<ResolvedMatcher>,
    /// Human-readable label used in flow traces.
    pub label: Option<String>,
}

#[derive(Debug)]
pub struct RuleSpec {
    pub id: String,
    pub name: Option<String>,
    pub kind: RuleKind,
    pub severity: Severity,
    pub category: Category,
    /// Language ids this rule applies to.
    pub languages: Vec<String>,
    /// Finding message; `${capture}` placeholders are substituted.
    pub message: String,
    pub description: Option<String>,
    pub remediation: Option<String>,
    pub metadata: Metadata,
    /// Pattern rule: the tree-sitter query.
    pub query: Option<String>,
    pub filters: Vec<CaptureFilter>,
    /// Taint rule parts.
    pub sources: Vec<TaintPattern>,
    pub sinks: Vec<TaintPattern>,
    pub sanitizers: Vec<TaintPattern>,
    /// Where this rule was loaded from.
    pub origin: String,
    /// SARIF precision tier derived from verified fixture evidence.
    pub precision: Option<String>,
}

/// A rules document.
#[derive(Debug)]
pub struct RuleFile {
    pub rules: Vec<RuleSpec>,
}

/// Which taint role a pattern plays.
#[derive(Debug, Clone, Copy, PartialEq, Eq, Structural)]
pub enum Role {
    Source,
    Sink,
    Sanitizer,
}

/// Why a rule is rejected.
#[derive(Debug)]
pub enum RuleError {
    EmptyId,
    NoLanguages,
    PatternWithoutQuery,
    PatternWithTaintParts,
    TaintWithoutSourceOrSink,
    TaintWithQuery,
    BothQueryAndResolved(Role),
    NeitherQueryNorResolved(Role),
    FilterWithoutCondition(String),
    InvalidFilterRegex(String, String),
}

/// A [`RuleError`] with its strings taken as character sequences.
pub enum RuleErrorV {
    EmptyId,
    NoLanguages,
    PatternWithoutQuery,
    PatternWithTaintParts,
    TaintWithoutSourceOrSink,
    TaintWithQuery,
    BothQueryAndResolved(Role),
    NeitherQueryNorResolved(Role),
    FilterWithoutCondition(Seq<char>),
    InvalidFilterRegex(Seq<char>, Seq<char>),
}

impl View for RuleError {
    type V = RuleErrorV;

    open spec fn view(&self) -> RuleErrorV {
        match self {
            RuleError::EmptyId => RuleErrorV::EmptyId,
            RuleError::NoLanguages => RuleErrorV::NoLanguages,
            RuleError::PatternWithoutQuery => RuleErrorV::PatternWithoutQuery,
            RuleError::PatternWithTaintParts => RuleErrorV::PatternWithTaintParts,
            RuleError::TaintWithoutSourceOrSink => RuleErrorV::TaintWithoutSourceOrSink,
            RuleError::TaintWithQuery => RuleErrorV::TaintWithQuery,
            RuleError::BothQueryAndResolved(r) => RuleErrorV::BothQueryAndResolved(*r),
            RuleError::NeitherQueryNorResolved(r) => RuleErrorV::NeitherQueryNorResolved(*r),
            RuleError::FilterWithoutCondition(c) => RuleErrorV::FilterWithoutCondition(c@),
            RuleError::InvalidFilterRegex(c, m) => RuleErrorV::InvalidFilterRegex(c@, m@),
        }
    }
}

/// Whether `pattern` compiles as a regular expression.
pub uninterp spec fn regex_compiles(pattern: Seq<char>) -> bool;

/// The error text for a pattern that does not compile.
pub uninterp spec fn regex_error(pattern: Seq<char>) -> Seq<char>;

/// Whether `text` contains a match of `pattern`.
pub uninterp spec fn regex_matches(pattern: Seq<char>, text: Seq<char>) -> bool;

/// `regex::Regex::new(pattern)`: `None` when it compiles, else the
/// rendered error. Both are named; the result depends on the pattern only.
#[verifier::external_body]
pub(crate) fn regex_check(pattern: &str) -> (r: Option<String>)
    ensures
        r is None == regex_compiles(pattern@),
        r matches Some(e) ==> e@ == regex_error(pattern@),
{
    match regex::Regex::new(pattern) {
        Ok(_) => None,
        Err(e) => Some(e.to_string()),
    }
}

/// `regex::Regex::new(pattern)` then `is_match(text)`: whether `text`
/// contains a match of `pattern` (named); false when the pattern does not
/// compile.
#[verifier::external_body]
pub(crate) fn regex_is_match(pattern: &str, text: &str) -> (r: bool)
    ensures
        regex_compiles(pattern@) ==> r == regex_matches(pattern@, text@),
        !regex_compiles(pattern@) ==> !r,
{
    match regex::Regex::new(pattern) {
        Ok(re) => re.is_match(text),
        Err(_) => false,
    }
}

/// The first problem with a role's patterns, if any.
pub open spec fn patterns_problem(pats: Seq<TaintPattern>, role: Role) -> Option<RuleErrorV>
    decreases pats.len(),
{
    if pats.len() == 0 {
        None
    } else {
        match patterns_problem(pats.drop_last(), role) {
            Some(e) => Some(e),
            None => {
                let p = pats.last();
                if p.query is Some && p.resolved is Some {
                    Some(RuleErrorV::BothQueryAndResolved(role))
                } else if p.query is None && p.resolved is None {
                    Some(RuleErrorV::NeitherQueryNorResolved(role))
                } else {
                    None
                }
            },
        }
    }
}

/// The first problem with the capture filters, if any.
pub open spec fn filters_problem(fs: Seq<CaptureFilter>) -> Option<RuleErrorV>
    decreases fs.len(),
{
    if fs.len() == 0 {
        None
    } else {
        match filters_problem(fs.drop_last()) {
            Some(e) => Some(e),
            None => {
                let f = fs.last();
                if f.pattern is None && f.equals is None && f.any_of is None {
                    Some(RuleErrorV::FilterWithoutCondition(f.capture@))
                } else if f.pattern matches Some(p) && !regex_compiles(p@) {
                    Some(RuleErrorV::InvalidFilterRegex(f.capture@, regex_error(f.pattern->0@)))
                } else {
                    None
                }
            },
        }
    }
}

impl RuleSpec {
    /// Why the rule is invalid (the first problem found), or `None`.
    pub open spec fn problem(&self) -> Option<RuleErrorV> {
        if self.id@.len() == 0 {
            Some(RuleErrorV::EmptyId)
        } else if self.languages@.len() == 0 {
            Some(RuleErrorV::NoLanguages)
        } else if self.kind == RuleKind::Pattern && self.query is None {
            Some(RuleErrorV::PatternWithoutQuery)
        } else if self.kind == RuleKind::Pattern && (self.sources@.len() > 0 || self.sinks@.len() > 0) {
            Some(RuleErrorV::PatternWithTaintParts)
        } else if self.kind == RuleKind::Taint && (self.sources@.len() == 0 || self.sinks@.len() == 0) {
            Some(RuleErrorV::TaintWithoutSourceOrSink)
        } else if self.kind == RuleKind::Taint && self.query is Some {
            Some(RuleErrorV::TaintWithQuery)
        } else if self.kind == RuleKind::Taint && patterns_problem(self.sources@, Role::Source) is Some {
            patterns_problem(self.sources@, Role::Source)
        } else if self.kind == RuleKind::Taint && patterns_problem(self.sinks@, Role::Sink) is Some {
            patterns_problem(self.sinks@, Role::Sink)
        } else if self.kind == RuleKind::Taint && patterns_problem(self.sanitizers@, Role::Sanitizer) is Some {
            patterns_problem(self.sanitizers@, Role::Sanitizer)
        } else {
            filters_problem(self.filters@)
        }
    }

    /// Check the rule's shape: non-empty id and languages; a pattern rule
    /// has a query and no taint parts; a taint rule has sources and sinks,
    /// no query, and each pattern uses exactly one of `query`/`resolved`;
    /// each filter has a condition and a regex that compiles.
    pub fn validate(&self) -> (r: Result<(), RuleError>)
        ensures
            r is Ok == self.problem() is None,
            r matches Err(e) ==> self.problem() == Some(e@),
    {
        if self.id.as_str().unicode_len() == 0 {
            return Err(RuleError::EmptyId);
        }
        if self.languages.len() == 0 {
            return Err(RuleError::NoLanguages);
        }
        match self.kind {
            RuleKind::Pattern => {
                if self.query.is_none() {
                    return Err(RuleError::PatternWithoutQuery);
                }
                if self.sources.len() > 0 || self.sinks.len() > 0 {
                    return Err(RuleError::PatternWithTaintParts);
                }
            },
            RuleKind::Taint => {
                if self.sources.len() == 0 || self.sinks.len() == 0 {
                    return Err(RuleError::TaintWithoutSourceOrSink);
                }
                if self.query.is_some() {
                    return Err(RuleError::TaintWithQuery);
                }
                match check_patterns(&self.sources, Role::Source) {
                    Some(e) => return Err(e),
                    None => {},
                }
                match check_patterns(&self.sinks, Role::Sink) {
                    Some(e) => return Err(e),
                    None => {},
                }
                match check_patterns(&self.sanitizers, Role::Sanitizer) {
                    Some(e) => return Err(e),
                    None => {},
                }
            },
        }
        assert(self.problem() == filters_problem(self.filters@));
        let n = self.filters.len();
        for i in 0..n
            invariant
                n == self.filters@.len(),
                self.problem() == filters_problem(self.filters@),
                filters_problem(self.filters@.take(i as int)) is None,
        {
            assert(self.filters@.take(i + 1).drop_last() =~= self.filters@.take(i as int));
            let f = &self.filters[i];
            if f.pattern.is_none() && f.equals.is_none() && f.any_of.is_none() {
                proof { lemma_filters_prefix(self.filters@, i as int + 1); }
                return Err(RuleError::FilterWithoutCondition(f.capture.clone()));
            }
            match &f.pattern {
                Some(p) => {
                    match regex_check(p.as_str()) {
                        Some(msg) => {
                            proof { lemma_filters_prefix(self.filters@, i as int + 1); }
                            return Err(RuleError::InvalidFilterRegex(f.capture.clone(), msg));
                        },
                        None => {},
                    }
                },
                None => {},
            }
        }
        assert(self.filters@.take(n as int) =~= self.filters@);
        Ok(())
    }

    pub open spec fn display(&self) -> Seq<char> {
        match self.name {
            Some(n) => n@,
            None => self.id@,
        }
    }

    /// Short display name: the name, else the id.
    pub fn display_name(&self) -> (r: &str)
        ensures
            r@ == self.display(),
    {
        match &self.name {
            Some(n) => n.as_str(),
            None => self.id.as_str(),
        }
    }
}

/// Once a problem is found in a prefix, it is the first problem overall.
proof fn lemma_filters_prefix(fs: Seq<CaptureFilter>, k: int)
    requires
        0 <= k <= fs.len(),
        filters_problem(fs.take(k)) is Some,
    ensures
        filters_problem(fs) == filters_problem(fs.take(k)),
    decreases fs.len() - k,
{
    if k < fs.len() {
        assert(fs.take(k + 1).drop_last() =~= fs.take(k));
        lemma_filters_prefix(fs, k + 1);
    } else {
        assert(fs.take(k) =~= fs);
    }
}

proof fn lemma_patterns_prefix(ps: Seq<TaintPattern>, role: Role, k: int)
    requires
        0 <= k <= ps.len(),
        patterns_problem(ps.take(k), role) is Some,
    ensures
        patterns_problem(ps, role) == patterns_problem(ps.take(k), role),
    decreases ps.len() - k,
{
    if k < ps.len() {
        assert(ps.take(k + 1).drop_last() =~= ps.take(k));
        lemma_patterns_prefix(ps, role, k + 1);
    } else {
        assert(ps.take(k) =~= ps);
    }
}

/// The first pattern using both or neither of `query` and `resolved`.
fn check_patterns(pats: &Vec<TaintPattern>, role: Role) -> (r: Option<RuleError>)
    ensures
        r is None == patterns_problem(pats@, role) is None,
        r matches Some(e) ==> patterns_problem(pats@, role) == Some(e@),
{
    let n = pats.len();
    for i in 0..n
        invariant
            n == pats@.len(),
            patterns_problem(pats@.take(i as int), role) is None,
    {
        assert(pats@.take(i + 1).drop_last() =~= pats@.take(i as int));
        let p = &pats[i];
        if p.query.is_some() && p.resolved.is_some() {
            proof { lemma_patterns_prefix(pats@, role, i as int + 1); }
            return Some(RuleError::BothQueryAndResolved(role));
        }
        if p.query.is_none() && p.resolved.is_none() {
            proof { lemma_patterns_prefix(pats@, role, i as int + 1); }
            return Some(RuleError::NeitherQueryNorResolved(role));
        }
    }
    assert(pats@.take(n as int) =~= pats@);
    None
}


/// The name of a taint role in messages.
pub open spec fn role_name(r: Role) -> Seq<char> {
    match r {
        Role::Source => "source"@,
        Role::Sink => "sink"@,
        Role::Sanitizer => "sanitizer"@,
    }
}

/// The text a rejected rule is reported with.
pub open spec fn error_text(e: RuleErrorV) -> Seq<char> {
    match e {
        RuleErrorV::EmptyId => "rule id must not be empty"@,
        RuleErrorV::NoLanguages => "rule must list at least one language"@,
        RuleErrorV::PatternWithoutQuery => "pattern rule requires `query`"@,
        RuleErrorV::PatternWithTaintParts => "pattern rule must not declare sources/sinks (use kind: taint)"@,
        RuleErrorV::TaintWithoutSourceOrSink => "taint rule requires at least one source and one sink"@,
        RuleErrorV::TaintWithQuery => "taint rule must not declare `query`"@,
        RuleErrorV::BothQueryAndResolved(r) => role_name(r) + " declares both `query` and `resolved`; use one"@,
        RuleErrorV::NeitherQueryNorResolved(r) => role_name(r) + " needs one of `query` or `resolved`"@,
        RuleErrorV::FilterWithoutCondition(c) => "filter on `"@ + c + "` needs one of pattern/equals/any_of"@,
        RuleErrorV::InvalidFilterRegex(c, m) => "invalid filter regex for `"@ + c + "`: "@ + m,
    }
}

impl RuleError {
    /// The error's text.
    pub fn message(&self) -> (r: String)
        ensures
            r@ == error_text(self@),
    {
        match self {
            RuleError::EmptyId => "rule id must not be empty".to_owned(),
            RuleError::NoLanguages => "rule must list at least one language".to_owned(),
            RuleError::PatternWithoutQuery => "pattern rule requires `query`".to_owned(),
            RuleError::PatternWithTaintParts => "pattern rule must not declare sources/sinks (use kind: taint)".to_owned(),
            RuleError::TaintWithoutSourceOrSink => "taint rule requires at least one source and one sink".to_owned(),
            RuleError::TaintWithQuery => "taint rule must not declare `query`".to_owned(),
            RuleError::BothQueryAndResolved(r) => {
                let mut s = role_str(*r).to_owned();
                s.append(" declares both `query` and `resolved`; use one");
                s
            }
            RuleError::NeitherQueryNorResolved(r) => {
                let mut s = role_str(*r).to_owned();
                s.append(" needs one of `query` or `resolved`");
                s
            }
            RuleError::FilterWithoutCondition(c) => {
                let mut s = "filter on `".to_owned();
                s.append(c.as_str());
                s.append("` needs one of pattern/equals/any_of");
                s
            }
            RuleError::InvalidFilterRegex(c, m) => {
                let mut s = "invalid filter regex for `".to_owned();
                s.append(c.as_str());
                s.append("`: ");
                s.append(m.as_str());
                s
            }
        }
    }
}

fn role_str(r: Role) -> (s: &'static str)
    ensures
        s@ == role_name(r),
{
    match r {
        Role::Source => "source",
        Role::Sink => "sink",
        Role::Sanitizer => "sanitizer",
    }
}

} // verus!
