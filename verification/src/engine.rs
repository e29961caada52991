//! Per-file analysis helpers: snippets, finding skeletons, message
//! templating and fingerprint numbering.

use vstd::prelude::*;
use crate::findings::{Finding, FindingView, Span, fingerprint, fingerprint_spec};
use crate::sorting::{text_lt, text_less, views, ssort_by, stable_sort_by};
use crate::model::RuleSpec;
use crate::binder::{FileBindings, BindingMatches, ImportFactV};
use crate::explain::{Explanation, ScopeInfo, CallInfo, RuleExplain};
use crate::extract::{extract_summaries, rule_summaries_view};
use crate::linker::FileLinked;
use crate::matcher::{CompiledPattern, run_patterns, patterns_hits, runs_fit};
use crate::structure::ProfileMatches;
use crate::summary::{PortableBindings, RuleSummaries, PortableFunctionSummary, PortableStep, PortableStepView, SummaryView, ParamSink};
use crate::syntax::{SyntaxTree, QueryMatch};
use crate::taint::{TaintRule, TaintMatches, matches_ok, run_taint};
use crate::paths::{strings_view, copy_strings};
use crate::text::{chars_of, string_of, trim, trim_bounds, slice_chars};

verus! {

/// Longest snippet kept, in characters.
pub const MAX_SNIPPET: usize = 400;

/// Index of the first line break of `s` (its length if none).
pub open spec fn nl_index(s: Seq<char>) -> int
    decreases s.len(),
{
    if s.len() == 0 {
        0
    } else if s[0] == '\n' {
        0
    } else {
        1 + nl_index(s.drop_first())
    }
}

/// Line `k` (0-based) of `s`, as `str::lines().nth(k)` gives it up to a
/// trailing carriage return (which trimming removes); empty past the end.
pub open spec fn nth_line(s: Seq<char>, k: nat) -> Seq<char>
    decreases k,
{
    if k == 0 {
        s.take(nl_index(s))
    } else if nl_index(s) < s.len() {
        nth_line(s.skip(nl_index(s) + 1), (k - 1) as nat)
    } else {
        Seq::empty()
    }
}

/// The trimmed text of the (1-based) line containing `span`'s start, at
/// most `MAX_SNIPPET` characters.
pub open spec fn snippet_of(s: Seq<char>, span: Span) -> Seq<char> {
    let line = if span.start.line == 0 { 0nat } else { (span.start.line - 1) as nat };
    let t = trim(nth_line(s, line));
    if t.len() > MAX_SNIPPET { t.take(MAX_SNIPPET as int) } else { t }
}

proof fn lemma_nl_index(s: Seq<char>, m: int)
    requires
        0 <= m <= s.len(),
        m == s.len() || s[m] == '\n',
        forall|i: int| 0 <= i < m ==> s[i] != '\n',
    ensures
        nl_index(s) == m,
    decreases s.len(),
{
    if s.len() > 0 && m > 0 {
        assert forall|i: int| 0 <= i < m - 1 implies s.drop_first()[i] != '\n' by {
            assert(s.drop_first()[i] == s[i + 1]);
        }
        lemma_nl_index(s.drop_first(), m - 1);
    }
}

/// Extract the trimmed text of the (1-based) line containing `span`'s
/// start, from the characters of the source.
pub fn snippet_in(cs: &Vec<char>, span: &Span) -> (r: String)
    ensures
        r@ == snippet_of(cs@, *span),
{
    let line: u32 = if span.start.line == 0 { 0 } else { span.start.line - 1 };
    let n = cs.len();
    let mut pos: usize = 0;
    let mut k: u32 = 0;
    let mut past_end = false;
    assert(cs@.skip(0) =~= cs@);
    while k < line
        invariant
            pos <= n,
            n == cs@.len(),
            k <= line,
            !past_end ==> nth_line(cs@, line as nat) == nth_line(cs@.skip(pos as int), (line - k) as nat),
            past_end ==> nth_line(cs@, line as nat) == Seq::<char>::empty(),
        decreases line - k,
    {
        let mut q = pos;
        while q < n && cs[q] != '\n'
            invariant
                pos <= q <= n,
                n == cs@.len(),
                forall|i: int| pos <= i < q ==> cs@[i] != '\n',
            decreases n - q,
        {
            q = q + 1;
        }
        let ghost t = cs@.skip(pos as int);
        proof { lemma_nl_index(t, q - pos); }
        if q < n {
            assert(t.skip(q - pos + 1) =~= cs@.skip(q + 1));
            pos = q + 1;
            k = k + 1;
        } else {
            past_end = true;
            k = line;
        }
    }
    let ghost cur = if past_end { Seq::<char>::empty() } else { nth_line(cs@, line as nat) };
    let mut q = pos;
    while q < n && cs[q] != '\n'
        invariant
            pos <= q <= n,
            n == cs@.len(),
            forall|i: int| pos <= i < q ==> cs@[i] != '\n',
        decreases n - q,
    {
        q = q + 1;
    }
    let body = if past_end { Vec::new() } else {
        proof {
            lemma_nl_index(cs@.skip(pos as int), q - pos);
            assert(cs@.skip(pos as int).take(q - pos) =~= cs@.subrange(pos as int, q as int));
        }
        slice_chars(cs, pos, q)
    };
    assert(body@ == nth_line(cs@, line as nat));
    let (lo, hi) = trim_bounds(body.as_slice());
    let hi2 = if hi - lo > MAX_SNIPPET { lo + MAX_SNIPPET } else { hi };
    let t = slice_chars(&body, lo, hi2);
    proof {
        let tt = trim(nth_line(cs@, line as nat));
        if hi - lo > MAX_SNIPPET {
            assert(t@ =~= tt.take(MAX_SNIPPET as int));
        }
    }
    string_of(t.as_slice())
}

/// Extract the trimmed text of the (1-based) line containing `span`'s start.
pub fn snippet_at(source: &str, span: &Span) -> (r: String)
    ensures
        r@ == snippet_of(source@, *span),
{
    let cs = chars_of(source);
    snippet_in(&cs, span)
}

/// `f` is the skeleton of a finding of `rule` at `span` in file `path`
/// (language `lang`, source text `src`) with `message`: rule identity,
/// severity, category and framework tags copied, the snippet read from the
/// source, no fingerprint yet.
pub open spec fn is_base_finding(f: Finding, rule: RuleSpec, lang: Seq<char>, path: Seq<char>, src: Seq<char>, span: Span, message: Seq<char>) -> bool {
    &&& f.rule_id@ == rule.id@
    &&& f.severity == rule.severity
    &&& f.category == rule.category
    &&& f.message@ == message
    &&& f.file@ == path
    &&& f.language@ == lang
    &&& f.span == span
    &&& f.snippet@ == snippet_of(src, span)
    &&& f.fingerprint@.len() == 0
    &&& strings_view(f.cwe@) == strings_view(rule.metadata.cwe@)
    &&& strings_view(f.owasp@) == strings_view(rule.metadata.owasp@)
    &&& strings_view(f.nist@) == strings_view(rule.metadata.nist@)
}

/// Build a finding skeleton from a rule and a matched span; `cs` holds the
/// characters of the file's source.
pub fn base_finding(rule: &RuleSpec, lang_id: &str, rel_path: &str, cs: &Vec<char>, span: Span, message: String) -> (f: Finding)
    ensures
        is_base_finding(f, *rule, lang_id@, rel_path@, cs@, span, message@),
        f.trace@.len() == 0,
{
    Finding {
        rule_id: rule.id.clone(),
        severity: rule.severity,
        category: rule.category,
        message,
        file: rel_path.to_owned(),
        language: lang_id.to_owned(),
        span,
        snippet: snippet_in(cs, &span),
        trace: Vec::new(),
        fingerprint: String::new(),
        cwe: copy_strings(&rule.metadata.cwe),
        owasp: copy_strings(&rule.metadata.owasp),
        nist: copy_strings(&rule.metadata.nist),
    }
}

/// Document order of findings: by start byte, end byte, then rule id.
pub open spec fn doc_lt(a: FindingView, b: FindingView) -> bool {
    ||| a.span.start_byte < b.span.start_byte
    ||| (a.span.start_byte == b.span.start_byte && a.span.end_byte < b.span.end_byte)
    ||| (a.span.start_byte == b.span.start_byte && a.span.end_byte == b.span.end_byte && text_lt(a.rule_id, b.rule_id))
}

fn doc_less(a: &Finding, b: &Finding) -> (r: bool)
    ensures
        r == doc_lt(a@, b@),
{
    if a.span.start_byte != b.span.start_byte {
        return a.span.start_byte < b.span.start_byte;
    }
    if a.span.end_byte != b.span.end_byte {
        return a.span.end_byte < b.span.end_byte;
    }
    text_less(a.rule_id.as_str(), b.rule_id.as_str())
}

/// How many of `s` share `f`'s rule and snippet.
pub open spec fn same_match_count(s: Seq<FindingView>, rule_id: Seq<char>, snippet: Seq<char>) -> nat
    decreases s.len(),
{
    if s.len() == 0 {
        0
    } else {
        same_match_count(s.drop_last(), rule_id, snippet)
            + if s.last().rule_id == rule_id && s.last().snippet == snippet { 1nat } else { 0nat }
    }
}

/// `f` with fingerprint `fp`.
pub open spec fn with_fingerprint(f: FindingView, fp: Seq<char>) -> FindingView {
    FindingView { fingerprint: fp, ..f }
}

/// Each finding fingerprinted with its occurrence index among the earlier
/// findings of the same rule and snippet.
pub open spec fn fingerprinted(s: Seq<FindingView>, path: Seq<char>) -> Seq<FindingView> {
    Seq::new(s.len(), |i: int| with_fingerprint(s[i],
        fingerprint_spec(s[i].rule_id, path, s[i].snippet, same_match_count(s.take(i), s[i].rule_id, s[i].snippet) as u32)))
}

proof fn lemma_same_match_count_le(s: Seq<FindingView>, rule_id: Seq<char>, snippet: Seq<char>)
    ensures
        same_match_count(s, rule_id, snippet) <= s.len(),
    decreases s.len(),
{
    if s.len() > 0 {
        lemma_same_match_count_le(s.drop_last(), rule_id, snippet);
    }
}

proof fn lemma_same_match_count_mono(s: Seq<FindingView>, a: int, b: int, rule_id: Seq<char>, snippet: Seq<char>)
    requires
        0 <= a <= b <= s.len(),
    ensures
        same_match_count(s.take(a), rule_id, snippet) <= same_match_count(s.take(b), rule_id, snippet),
    decreases b - a,
{
    if a < b {
        lemma_same_match_count_mono(s, a, b - 1, rule_id, snippet);
        assert(s.take(b).drop_last() =~= s.take(b - 1));
    }
}

/// Identical matches are numbered apart: of two findings of one file with
/// the same rule and snippet, the later one's occurrence index (the number
/// of earlier findings with that rule and snippet) is larger, so their
/// fingerprints are computed from different inputs.
pub proof fn lemma_identical_matches_numbered_apart(s: Seq<FindingView>, i: int, j: int)
    requires
        0 <= i < j < s.len(),
        s[i].rule_id == s[j].rule_id,
        s[i].snippet == s[j].snippet,
    ensures
        same_match_count(s.take(i), s[i].rule_id, s[i].snippet) < same_match_count(s.take(j), s[j].rule_id, s[j].snippet),
{
    assert(s.take(i + 1).drop_last() =~= s.take(i));
    assert(s.take(i + 1).last() == s[i]);
    lemma_same_match_count_mono(s, i + 1, j, s[i].rule_id, s[i].snippet);
}

/// A file's findings in document order, with occurrence-indexed
/// fingerprints so several identical matches do not collide in baselines.
pub fn number_findings(findings: Vec<Finding>, rel_path: &str) -> (r: Vec<Finding>)
    requires
        findings@.len() <= u32::MAX,
    ensures
        views(r@) == fingerprinted(ssort_by(views(findings@), |a: FindingView, b: FindingView| doc_lt(a, b)), rel_path@),
{
    let ghost lt = |a: FindingView, b: FindingView| doc_lt(a, b);
    let less = |a: &Finding, b: &Finding| -> (r: bool)
        ensures
            r == doc_lt(a@, b@),
    {
        doc_less(a, b)
    };
    let sorted = stable_sort_by(findings, less, Ghost(lt));
    proof {
        crate::sorting::lemma_ssort_by_len(views(findings@), lt);
    }
    let ghost d = views(sorted@);
    let mut sorted = sorted;
    let mut out: Vec<Finding> = Vec::new();
    let n = sorted.len();
    let mut i: usize = 0;
    while sorted.len() > 0
        invariant
            i + sorted@.len() == n,
            n <= u32::MAX,
            d.len() == n,
            views(sorted@) == d.skip(i as int),
            views(out@) == fingerprinted(d, rel_path@).take(i as int),
            out@.len() == i,
            forall|k: int| 0 <= k < i ==> (#[trigger] out@[k]).rule_id@ == d[k].rule_id && out@[k].snippet@ == d[k].snippet,
        decreases sorted@.len(),
    {
        let ghost rest = views(sorted@);
        let ghost vv = sorted@;
        let mut f = sorted.remove(0);
        assert(views(sorted@) =~= rest.drop_first());
        assert(rest[0] == vv[0]@);
        assert(f@ == d[i as int]);
        let mut count: u32 = 0;
        for j in 0..i
            invariant
                i < n,
                n <= u32::MAX,
                d.len() == n,
                j <= i,
                out@.len() == i,
                count as nat == same_match_count(d.take(j as int), f@.rule_id, f@.snippet),
                count <= j,
                forall|k: int| 0 <= k < i ==> (#[trigger] out@[k]).rule_id@ == d[k].rule_id && out@[k].snippet@ == d[k].snippet,
        {
            assert(d.take(j + 1).drop_last() =~= d.take(j as int));
            assert(d.take(j + 1).last() == d[j as int]);
            assert(out@[j as int].rule_id@ == d[j as int].rule_id);
            if out[j].rule_id == f.rule_id && out[j].snippet == f.snippet {
                count += 1;
            }
        }
        let fp = fingerprint(f.rule_id.as_str(), rel_path, f.snippet.as_str(), count);
        f.fingerprint = fp;
        let ghost fv = f@;
        let ghost ob = out@;
        assert(fv == fingerprinted(d, rel_path@)[i as int]);
        out.push(f);
        assert(views(out@) =~= views(ob).push(fv));
        assert(fingerprinted(d, rel_path@).take(i + 1) =~= fingerprinted(d, rel_path@).take(i as int).push(fingerprinted(d, rel_path@)[i as int]));
        assert forall|k: int| 0 <= k < i + 1 implies (#[trigger] out@[k]).rule_id@ == d[k].rule_id && out@[k].snippet@ == d[k].snippet by {
            if k < i { assert(out@[k] == ob[k]); }
        }
        assert(d.skip(i + 1) =~= d.skip(i as int).drop_first());
        i += 1;
    }
    assert(fingerprinted(d, rel_path@).take(n as int) =~= fingerprinted(d, rel_path@));
    out
}

/// The taint side of one file's analysis: the profile's identifier kinds
/// and matches, and each taint rule with its matches.
pub struct TaintInputs<'a> {
    pub identifiers: &'a Vec<String>,
    pub profile_matches: &'a ProfileMatches,
    pub binding_matches: &'a BindingMatches,
    pub rules: &'a Vec<TaintRule>,
    pub rule_matches: &'a Vec<TaintMatches>,
}

impl<'a> TaintInputs<'a> {
    pub open spec fn ok(&self, t: SyntaxTree) -> bool {
        &&& self.profile_matches.fits(t)
        &&& self.binding_matches.fits(t)
        &&& 3 * self.profile_matches.calls@.len() <= usize::MAX
        &&& self.rules@.len() == self.rule_matches@.len()
        &&& forall|k: int| 0 <= k < self.rules@.len() ==> matches_ok(t, #[trigger] self.rules@[k], self.rule_matches@[k])
    }
}

/// Do all captures of every match list name nodes of the tree?
pub fn runs_fit_tree(t: &SyntaxTree, mss: &Vec<Vec<QueryMatch>>) -> (r: bool)
    ensures
        r == crate::matcher::runs_fit(*t, mss@),
{
    let n = mss.len();
    for k in 0..n
        invariant
            n == mss@.len(),
            forall|j: int| 0 <= j < k ==> crate::structure::matches_fit((#[trigger] mss@[j])@, t.nodes@.len() as int),
    {
        if !crate::structure::check_fit(&mss[k], t.nodes.len()) {
            return false;
        }
    }
    true
}

impl<'a> TaintInputs<'a> {
    /// Check [`TaintInputs::ok`].
    pub fn is_ok(&self, t: &SyntaxTree) -> (r: bool)
        ensures
            r == self.ok(*t),
    {
        if !self.profile_matches.fits_tree(t) || !self.binding_matches.fits_tree(t) {
            return false;
        }
        if self.profile_matches.calls.len() > usize::MAX / 3 {
            return false;
        }
        if self.rules.len() != self.rule_matches.len() {
            return false;
        }
        let n = self.rules.len();
        for k in 0..n
            invariant
                n == self.rules@.len(),
                n == self.rule_matches@.len(),
                forall|j: int| 0 <= j < k ==> crate::taint::matches_ok(*t, #[trigger] self.rules@[j], self.rule_matches@[j]),
        {
            let r = &self.rules[k];
            let m = &self.rule_matches[k];
            if r.sources.len() != m.sources.len() || r.sinks.len() != m.sinks.len() || r.sanitizers.len() != m.sanitizers.len() {
                return false;
            }
            if !runs_fit_tree(t, &m.sources) || !runs_fit_tree(t, &m.sinks) || !runs_fit_tree(t, &m.sanitizers) {
                return false;
            }
        }
        true
    }
}

/// What analyzing one file gives: the pattern findings first, then (with
/// a taint profile and taint rules) each rule's findings, all put in
/// document order and numbered.
pub open spec fn evaluated(rel_path: Seq<char>, source: Seq<char>, lang_id: Seq<char>, t: SyntaxTree, patterns: Seq<CompiledPattern>,
    pattern_matches: Seq<Vec<QueryMatch>>, taint: Option<TaintInputs>, linked: FileLinked, r: Seq<Finding>) -> bool {
    exists|pre: Seq<Finding>| {
        let h = patterns_hits(t, patterns, pattern_matches, patterns.len() as int);
        &&& #[trigger] pre.len() >= h.len()
        &&& forall|i: int| 0 <= i < h.len() ==> {
            let e = h[i];
            &&& is_base_finding(#[trigger] pre[i], *patterns[e.0].rule, lang_id, rel_path, source, e.1, e.2)
            &&& pre[i].trace@.len() == 0
        }
        &&& (taint is None ==> pre.len() == h.len())
        &&& (taint matches Some(ti) ==> ti.rules@.len() == 0 ==> pre.len() == h.len())
        &&& (taint matches Some(ti) ==> ti.rules@.len() > 0 ==>
            exists|s: crate::structure::Structure, b: FileBindings, chunks: Seq<Seq<Finding>>| {
                &&& #[trigger] crate::structure::built_from(s, t, ti.identifiers@, *ti.profile_matches)
                &&& #[trigger] crate::taint::bindings_for(b, crate::taint::needs_binder_spec(ti.rules@), t, *ti.binding_matches)
                &&& #[trigger] chunks.len() == ti.rules@.len()
                &&& pre.skip(h.len() as int) == chunks.flatten_alt()
                &&& forall|k: int| 0 <= k < chunks.len() ==>
                    crate::taint::rule_outcome(s, t, b, ti.rules@[k], ti.rule_matches@[k], linked, lang_id, rel_path, source, #[trigger] chunks[k])
            })
        &&& (pre.len() <= u32::MAX ==> views(r) == fingerprinted(ssort_by(views(pre), |a: FindingView, b: FindingView| doc_lt(a, b)), rel_path))
        &&& (pre.len() > u32::MAX ==> r == pre)
    }
}

/// Analyze one file: pattern rules, then (with a taint profile) taint rules
/// with the cross-file summaries `linked`; then document order and
/// occurrence-indexed fingerprints.
pub fn evaluate(rel_path: &str, source: &str, lang_id: &str, t: &SyntaxTree, patterns: &Vec<CompiledPattern>,
    pattern_matches: &Vec<Vec<QueryMatch>>, taint: Option<TaintInputs>, linked: &FileLinked) -> (r: Vec<Finding>)
    requires
        t.wf(),
        patterns@.len() == pattern_matches@.len(),
        runs_fit(*t, pattern_matches@),
        taint matches Some(ti) ==> ti.ok(*t),
    ensures
        evaluated(rel_path@, source@, lang_id@, *t, patterns@, pattern_matches@, taint, *linked, r@),
{
    let mut findings: Vec<Finding> = Vec::new();
    run_patterns(rel_path, source, t, lang_id, patterns, pattern_matches, &mut findings);
    let ghost after_patterns = findings@;
    match taint {
        Some(ti) => {
            run_taint(rel_path, source, t, lang_id, ti.identifiers, ti.profile_matches, ti.binding_matches, ti.rules, ti.rule_matches, linked, &mut findings);
        },
        None => {},
    }
    let ghost pre = findings@;
    let ghost h = patterns_hits(*t, patterns@, pattern_matches@, patterns@.len() as int);
    proof {
        assert(after_patterns.len() == h.len());
        assert forall|i: int| 0 <= i < h.len() implies {
            let e = h[i];
            &&& is_base_finding(#[trigger] pre[i], *patterns@[e.0].rule, lang_id@, rel_path@, source@, e.1, e.2)
            &&& pre[i].trace@.len() == 0
        } by {
            if taint is Some && taint->0.rules@.len() > 0 {
                let ti = taint->0;
                let (s, b, chunks) = choose|s: crate::structure::Structure, b: FileBindings, chunks: Seq<Seq<Finding>>| {
                    &&& #[trigger] crate::structure::built_from(s, *t, ti.identifiers@, *ti.profile_matches)
                    &&& #[trigger] crate::taint::bindings_for(b, crate::taint::needs_binder_spec(ti.rules@), *t, *ti.binding_matches)
                    &&& #[trigger] chunks.len() == ti.rules@.len()
                    &&& pre == after_patterns + chunks.flatten_alt()
                    &&& forall|k: int| 0 <= k < chunks.len() ==>
                        crate::taint::rule_outcome(s, *t, b, ti.rules@[k], ti.rule_matches@[k], *linked, lang_id@, rel_path@, source@, #[trigger] chunks[k])
                };
                assert(pre[i] == after_patterns[i]);
            } else {
                assert(pre[i] == after_patterns[i]);
            }
        }
        if taint is Some && taint->0.rules@.len() > 0 {
            let ti = taint->0;
            let (s, b, chunks) = choose|s: crate::structure::Structure, b: FileBindings, chunks: Seq<Seq<Finding>>| {
                &&& #[trigger] crate::structure::built_from(s, *t, ti.identifiers@, *ti.profile_matches)
                &&& #[trigger] crate::taint::bindings_for(b, crate::taint::needs_binder_spec(ti.rules@), *t, *ti.binding_matches)
                &&& #[trigger] chunks.len() == ti.rules@.len()
                &&& pre == after_patterns + chunks.flatten_alt()
                &&& forall|k: int| 0 <= k < chunks.len() ==>
                    crate::taint::rule_outcome(s, *t, b, ti.rules@[k], ti.rule_matches@[k], *linked, lang_id@, rel_path@, source@, #[trigger] chunks[k])
            };
            assert(pre.skip(h.len() as int) =~= chunks.flatten_alt());
        }
    }
    if findings.len() > 4294967295 {
        return findings;
    }
    number_findings(findings, rel_path)
}

/// Analyze one file with no cross-file summaries (intra-file only).
pub fn analyze_file(rel_path: &str, source: &str, lang_id: &str, t: &SyntaxTree, patterns: &Vec<CompiledPattern>,
    pattern_matches: &Vec<Vec<QueryMatch>>, taint: Option<TaintInputs>) -> (r: Vec<Finding>)
    requires
        t.wf(),
        patterns@.len() == pattern_matches@.len(),
        runs_fit(*t, pattern_matches@),
        taint matches Some(ti) ==> ti.ok(*t),
    ensures
        exists|linked: FileLinked| #[trigger] crate::linker::fl_view(linked).len() == 0
            && evaluated(rel_path@, source@, lang_id@, *t, patterns@, pattern_matches@, taint, linked, r@),
{
    let linked = FileLinked::new();
    let r = evaluate(rel_path, source, lang_id, t, patterns, pattern_matches, taint, &linked);
    assert(crate::linker::fl_view(linked).len() == 0);
    r
}

/// What explaining one file gives: with a taint profile, its scopes,
/// calls and per-rule explanations (nothing linked); without one, empty
/// lists.
pub open spec fn explained(rel_path: Seq<char>, lang_id: Seq<char>, source: Seq<char>, t: SyntaxTree, taint: Option<TaintInputs>,
    rule_filter: Option<Seq<char>>, r: Explanation) -> bool {
    &&& r.file@ == rel_path
    &&& r.language@ == lang_id
    &&& (taint is None ==> r.scopes@.len() == 0 && r.calls@.len() == 0 && r.rules@.len() == 0)
    &&& (taint matches Some(ti) ==> exists|linked: FileLinked| #[trigger] crate::linker::fl_view(linked).len() == 0
        && exists|s: crate::structure::Structure, b: FileBindings, per: Seq<Option<crate::explain::RuleExplainV>>| {
            &&& #[trigger] crate::structure::built_from(s, t, ti.identifiers@, *ti.profile_matches)
            &&& #[trigger] crate::binder::bound_from(b, t, *ti.binding_matches)
            &&& views(r.scopes@) == crate::explain::scope_infos(views(s.scopes@))
            &&& views(r.calls@) == views(b.calls@).map_values(|c: crate::binder::ResolvedCallV| crate::explain::call_info(c))
            &&& #[trigger] per.len() == ti.rules@.len()
            &&& forall|k: int| 0 <= k < per.len() ==>
                crate::explain::rule_explanation(s, t, b, ti.rules@[k], ti.rule_matches@[k], rule_filter,
                    linked, source, #[trigger] per[k])
            &&& views(r.rules@) == crate::explain::somes(per)
        })
}

/// Build the structured explanation of one file: with a taint profile,
/// its scopes, calls and per-rule explanations (nothing linked); without
/// one, empty lists.
pub fn explain(rel_path: &str, lang_id: &str, source: &str, t: &SyntaxTree, taint: Option<TaintInputs>,
    rule_filter: Option<&str>) -> (r: Explanation)
    requires
        t.wf(),
        taint matches Some(ti) ==> ti.ok(*t),
    ensures
        explained(rel_path@, lang_id@, source@, *t, taint, match rule_filter { Some(w) => Some(w@), None => None }, r),
{
    match taint {
        Some(ti) => {
            let linked = FileLinked::new();
            let (scopes, calls, rules) = crate::explain::explain(source, t, ti.identifiers, ti.profile_matches, ti.binding_matches,
                ti.rules, ti.rule_matches, rule_filter, &linked);
            assert(crate::linker::fl_view(linked).len() == 0);
            Explanation { file: rel_path.to_owned(), language: lang_id.to_owned(), scopes, calls, rules }
        },
        None => Explanation { file: rel_path.to_owned(), language: lang_id.to_owned(), scopes: Vec::new(), calls: Vec::new(), rules: Vec::new() },
    }
}

/// A portable step tagged with `path` when it names no file.
pub open spec fn tag_step(p: PortableStepView, path: Seq<char>) -> PortableStepView {
    if p.file.len() == 0 { PortableStepView { file: path, ..p } } else { p }
}

pub open spec fn tag_steps(s: Seq<PortableStepView>, path: Seq<char>) -> Seq<PortableStepView> {
    s.map_values(|p: PortableStepView| tag_step(p, path))
}

/// A summary with every step that names no file tagged with `path`.
pub open spec fn tag_summary(f: SummaryView, path: Seq<char>) -> SummaryView {
    SummaryView {
        name: f.name,
        returns_source: tag_steps(f.returns_source, path),
        returns_params: f.returns_params.map_values(|e: (usize, Seq<PortableStepView>)| (e.0, tag_steps(e.1, path))),
        param_to_sink: f.param_to_sink.map_values(|ps: crate::summary::ParamSinkView| crate::summary::ParamSinkView {
            index: ps.index,
            sink_label: ps.sink_label,
            sink_step: tag_step(ps.sink_step, path),
            steps: tag_steps(ps.steps, path),
        }),
    }
}

fn tag_portable(p: &mut PortableStep, path: &str)
    ensures
        final(p)@ == tag_step(old(p)@, path@),
{
    if p.file.as_str().unicode_len() == 0 {
        p.file = path.to_owned();
    }
    assert(old(p)@.file.len() == 0 ==> final(p)@ =~= tag_step(old(p)@, path@));
}

fn tag_portables(v: &mut Vec<PortableStep>, path: &str)
    ensures
        crate::summary::psteps_view(final(v)@) == tag_steps(crate::summary::psteps_view(old(v)@), path@),
{
    let ghost orig = crate::summary::psteps_view(v@);
    let n = v.len();
    for i in 0..n
        invariant
            n == v@.len(),
            orig.len() == n,
            forall|j: int| 0 <= j < i ==> (#[trigger] v@[j])@ == tag_step(orig[j], path@),
            forall|j: int| i <= j < n ==> (#[trigger] v@[j])@ == orig[j],
    {
        let mut p = PortableStep { label: String::new(), span: v[i].span, file: String::new(), snippet: String::new() };
        std::mem::swap(&mut p, &mut v[i]);
        let ghost before = v@;
        tag_portable(&mut p, path);
        v.set(i, p);
        assert forall|j: int| 0 <= j < n && j != i implies v@[j] == before[j] by {}
    }
    assert(crate::summary::psteps_view(v@) =~= tag_steps(orig, path@));
}

fn tag_function(f: &mut PortableFunctionSummary, path: &str)
    ensures
        final(f)@ == tag_summary(old(f)@, path@),
{
    tag_portables(&mut f.returns_source, path);
    let ghost rs = f@.returns_source;
    let ghost rp = old(f)@.returns_params;
    let n = f.returns_params.len();
    for i in 0..n
        invariant
            n == f.returns_params@.len(),
            rp == old(f)@.returns_params,
            f.param_to_sink@ == old(f).param_to_sink@,
            f.name@ == old(f).name@,
            f@.returns_source == rs,
            f.returns_params@.map_values(|e: (usize, Vec<PortableStep>)| (e.0, crate::summary::psteps_view(e.1@))).len() == n,
            forall|j: int| 0 <= j < i ==> (#[trigger] f.returns_params@[j]).0 == rp[j].0 && crate::summary::psteps_view(f.returns_params@[j].1@) == tag_steps(rp[j].1, path@),
            forall|j: int| i <= j < n ==> (#[trigger] f.returns_params@[j]).0 == rp[j].0 && crate::summary::psteps_view(f.returns_params@[j].1@) == rp[j].1,
    {
        let mut e: (usize, Vec<PortableStep>) = (0, Vec::new());
        std::mem::swap(&mut e, &mut f.returns_params[i]);
        let ghost before = f.returns_params@;
        tag_portables(&mut e.1, path);
        f.returns_params.set(i, e);
        assert forall|j: int| 0 <= j < n && j != i implies f.returns_params@[j] == before[j] by {}
    }
    assert(f@.returns_params =~= rp.map_values(|e: (usize, Seq<PortableStepView>)| (e.0, tag_steps(e.1, path@))));
    let ghost pts = old(f)@.param_to_sink;
    let ghost rpt = f@.returns_params;
    let m = f.param_to_sink.len();
    assert forall|j: int| 0 <= j < m implies (#[trigger] f.param_to_sink@[j])@ == pts[j] by {}
    for i in 0..m
        invariant
            m == f.param_to_sink@.len(),
            pts == old(f)@.param_to_sink,
            pts.len() == m,
            f.name@ == old(f).name@,
            f@.returns_source == rs,
            f@.returns_params == rpt,
            forall|j: int| 0 <= j < i ==> (#[trigger] f.param_to_sink@[j])@ == (crate::summary::ParamSinkView {
                index: pts[j].index, sink_label: pts[j].sink_label, sink_step: tag_step(pts[j].sink_step, path@), steps: tag_steps(pts[j].steps, path@) }),
            forall|j: int| i <= j < m ==> (#[trigger] f.param_to_sink@[j])@ == pts[j],
    {
        let mut ps = ParamSink {
            index: 0,
            sink_label: String::new(),
            sink_step: PortableStep { label: String::new(), span: f.param_to_sink[i].sink_step.span, file: String::new(), snippet: String::new() },
            steps: Vec::new(),
        };
        std::mem::swap(&mut ps, &mut f.param_to_sink[i]);
        let ghost before = f.param_to_sink@;
        tag_portable(&mut ps.sink_step, path);
        tag_portables(&mut ps.steps, path);
        f.param_to_sink.set(i, ps);
        assert forall|j: int| 0 <= j < m && j != i implies f.param_to_sink@[j] == before[j] by {}
    }
    assert(f@.param_to_sink =~= pts.map_values(|ps: crate::summary::ParamSinkView| crate::summary::ParamSinkView {
        index: ps.index, sink_label: ps.sink_label, sink_step: tag_step(ps.sink_step, path@), steps: tag_steps(ps.steps, path@) }));
}

/// Each rule's summaries with their steps tagged with `path`.
pub open spec fn tag_rules(m: Seq<(Seq<char>, Seq<SummaryView>)>, path: Seq<char>) -> Seq<(Seq<char>, Seq<SummaryView>)> {
    m.map_values(|e: (Seq<char>, Seq<SummaryView>)| (e.0, e.1.map_values(|f: SummaryView| tag_summary(f, path))))
}

/// The import triples (local, module, name) of binding facts.
pub open spec fn import_triples(imps: Seq<ImportFactV>) -> Seq<(Seq<char>, Seq<char>, Seq<char>)> {
    imps.map_values(|i: ImportFactV| (i.local, i.module, i.name))
}

pub open spec fn triples_view(v: Seq<(String, String, String)>) -> Seq<(Seq<char>, Seq<char>, Seq<char>)> {
    v.map_values(|e: (String, String, String)| (e.0@, e.1@, e.2@))
}

/// What extracting one file gives: its binding facts and each taint
/// rule's function summaries (every step that names no file tagged with
/// the file's path); both empty without a taint profile.
pub open spec fn extracted(rel_path: Seq<char>, source: Seq<char>, t: SyntaxTree, taint: Option<TaintInputs>, r: (PortableBindings, Vec<RuleSummaries>)) -> bool {
    &&& (taint is None ==> r.0.module_decl is None && r.0.imports@.len() == 0 && r.0.exports@.len() == 0 && r.1@.len() == 0)
    &&& (taint matches Some(ti) ==> exists|b: FileBindings| {
            &&& #[trigger] crate::binder::bound_from(b, t, *ti.binding_matches)
            &&& r.0.module_decl is None
            &&& triples_view(r.0.imports@) == import_triples(views(b.imports@))
            &&& crate::paths::strings_view(r.0.exports@) == crate::paths::strings_view(b.exports@)
        })
    &&& (taint matches Some(ti) ==> ti.rules@.len() == 0 ==> r.1@.len() == 0)
    &&& (taint matches Some(ti) ==> ti.rules@.len() > 0 ==>
            exists|s: crate::structure::Structure, b: FileBindings, per: Seq<Seq<SummaryView>>| {
                &&& #[trigger] crate::structure::built_from(s, t, ti.identifiers@, *ti.profile_matches)
                &&& #[trigger] crate::taint::bindings_for(b, crate::taint::needs_binder_spec(ti.rules@), t, *ti.binding_matches)
                &&& #[trigger] per.len() == ti.rules@.len()
                &&& forall|k: int| 0 <= k < per.len() ==>
                    crate::extract::rule_summaries(s, t, b, ti.rules@[k], ti.rule_matches@[k], source, #[trigger] per[k])
                &&& rule_summaries_view(r.1@) == tag_rules(crate::extract::rules_put(per, ti.rules@, ti.rules@.len() as int), rel_path)
            })
}

/// Extract a file's binding facts and per-rule function summaries for
/// cross-file linking, every step that names no file tagged with this
/// file's path. Without a taint profile, both are empty.
pub fn extract(rel_path: &str, source: &str, t: &SyntaxTree, taint: Option<TaintInputs>) -> (r: (PortableBindings, Vec<RuleSummaries>))
    requires
        t.wf(),
        taint matches Some(ti) ==> ti.ok(*t),
    ensures
        extracted(rel_path@, source@, *t, taint, r),
{
    match taint {
        None => {
            (PortableBindings { module_decl: None, imports: Vec::new(), exports: Vec::new() }, Vec::new())
        },
        Some(ti) => {
            let fb = FileBindings::build(t, ti.binding_matches);
            let mut imports: Vec<(String, String, String)> = Vec::new();
            let ghost iv = views(fb.imports@);
            let n = fb.imports.len();
            for i in 0..n
                invariant
                    n == fb.imports@.len(),
                    iv == views(fb.imports@),
                    triples_view(imports@) == import_triples(iv.take(i as int)),
            {
                let f = &fb.imports[i];
                let ghost before = triples_view(imports@);
                imports.push((f.local.clone(), f.module.clone(), f.name.clone()));
                assert(triples_view(imports@) =~= before.push((f.local@, f.module@, f.name@)));
                assert(import_triples(iv.take(i + 1)) =~= import_triples(iv.take(i as int)).push((f.local@, f.module@, f.name@)));
            }
            assert(iv.take(n as int) =~= iv);
            let bindings = PortableBindings { module_decl: None, imports, exports: crate::paths::copy_strings(&fb.exports) };
            let mut rules = extract_summaries(source, t, ti.identifiers, ti.profile_matches, ti.binding_matches, ti.rules, ti.rule_matches);
            let ghost rv = rule_summaries_view(rules@);
            let nr = rules.len();
            for i in 0..nr
                invariant
                    nr == rules@.len(),
                    rv.len() == nr,
                    forall|j: int| 0 <= j < i ==> (#[trigger] rule_summaries_view(rules@)[j]) == tag_rules(rv, rel_path@)[j],
                    forall|j: int| i <= j < nr ==> (#[trigger] rule_summaries_view(rules@)[j]) == rv[j],
            {
                let ghost pre = rules@;
                assert(rule_summaries_view(pre)[i as int] == rv[i as int]);
                let mut entry = RuleSummaries { rule: String::new(), functions: Vec::new() };
                std::mem::swap(&mut entry, &mut rules[i]);
                let ghost before = rules@;
                assert(entry == pre[i as int]);
                assert forall|j: int| 0 <= j < nr && j != i implies before[j] == pre[j] by {}
                let ghost ev = (entry.rule@, views(entry.functions@));
                assert(ev == rv[i as int]);
                let ghost fv = views(entry.functions@);
                let nf = entry.functions.len();
                for k in 0..nf
                    invariant
                        nf == entry.functions@.len(),
                        fv.len() == nf,
                        entry.rule@ == ev.0,
                        forall|q: int| 0 <= q < k ==> (#[trigger] entry.functions@[q])@ == tag_summary(fv[q], rel_path@),
                        forall|q: int| k <= q < nf ==> (#[trigger] entry.functions@[q])@ == fv[q],
                {
                    let mut f = PortableFunctionSummary::named(String::new());
                    std::mem::swap(&mut f, &mut entry.functions[k]);
                    let ghost fb2 = entry.functions@;
                    tag_function(&mut f, rel_path);
                    entry.functions.set(k, f);
                    assert forall|q: int| 0 <= q < nf && q != k implies entry.functions@[q] == fb2[q] by {}
                }
                assert(views(entry.functions@) =~= fv.map_values(|f: SummaryView| tag_summary(f, rel_path@)));
                let ghost done = (entry.rule@, views(entry.functions@));
                rules.set(i, entry);
                assert(rule_summaries_view(rules@)[i as int] == done);
                assert(tag_rules(rv, rel_path@)[i as int] == (rv[i as int].0, rv[i as int].1.map_values(|f: SummaryView| tag_summary(f, rel_path@))));
                assert forall|j: int| 0 <= j < nr && j != i implies rules@[j] == pre[j] by {}
                assert forall|j: int| 0 <= j < i + 1 implies (#[trigger] rule_summaries_view(rules@)[j]) == tag_rules(rv, rel_path@)[j] by {
                    if j < i {
                        assert(rules@[j] == pre[j]);
                        assert(rule_summaries_view(rules@)[j] == rule_summaries_view(pre)[j]);
                    }
                }
                assert forall|j: int| i + 1 <= j < nr implies (#[trigger] rule_summaries_view(rules@)[j]) == rv[j] by {
                    assert(rules@[j] == pre[j]);
                    assert(rule_summaries_view(rules@)[j] == rule_summaries_view(pre)[j]);
                }
            }
            assert(rule_summaries_view(rules@) =~= tag_rules(rv, rel_path@));
            (bindings, rules)
        },
    }
}

} // verus!
