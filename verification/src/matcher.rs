//! Pattern rule execution: apply capture filters to the matches of a rule's
//! query and materialise findings, with `${capture}` placeholders in the
//! message substituted.

use vstd::prelude::*;
use crate::engine::{base_finding, is_base_finding};
use crate::findings::{Finding, Span};
use crate::model::{CaptureFilter, RuleSpec, regex_matches, regex_compiles, regex_is_match};
use crate::paths::strings_view;
use crate::state::opt_view;
use crate::syntax::{SyntaxTree, QueryMatch, Capture, capture_spec, capture_named};
use crate::text::{chars_of, string_of, str_is};

verus! {

/// A compiled capture filter.
#[derive(Debug)]
pub struct CompiledFilter {
    pub capture: String,
    /// Regex the capture text must match.
    pub pattern: Option<String>,
    pub equals: Option<String>,
    pub any_of: Option<Vec<String>>,
    pub negate: bool,
}

impl CompiledFilter {
    /// The filter of a (validated) rule filter.
    pub fn compile(f: &CaptureFilter) -> (r: CompiledFilter)
        ensures
            r.capture@ == f.capture@,
            opt_view(r.pattern) == opt_view(f.pattern),
            opt_view(r.equals) == opt_view(f.equals),
            (match (r.any_of, f.any_of) {
                (Some(a), Some(b)) => strings_view(a@) == strings_view(b@),
                (None, None) => true,
                _ => false,
            }),
            r.negate == f.negate,
    {
        CompiledFilter {
            capture: f.capture.clone(),
            pattern: match &f.pattern { Some(p) => Some(p.clone()), None => None },
            equals: match &f.equals { Some(e) => Some(e.clone()), None => None },
            any_of: match &f.any_of { Some(v) => Some(crate::paths::copy_strings(v)), None => None },
            negate: f.negate,
        }
    }

    /// The capture text passes every condition (before negation): it
    /// matches the regex, equals the string, and is one of the set.
    pub open spec fn matches_spec(&self, text: Seq<char>) -> bool {
        &&& (self.pattern matches Some(p) ==> regex_compiles(p@) && regex_matches(p@, text))
        &&& (self.equals matches Some(e) ==> text == e@)
        &&& (self.any_of matches Some(set) ==> strings_view(set@).contains(text))
    }

    pub open spec fn accept_spec(&self, text: Seq<char>) -> bool {
        self.matches_spec(text) != self.negate
    }

    fn matches(&self, text: &str) -> (r: bool)
        ensures
            r == self.matches_spec(text@),
    {
        match &self.pattern {
            Some(p) => {
                if !regex_is_match(p.as_str(), text) {
                    return false;
                }
            },
            None => {},
        }
        match &self.equals {
            Some(e) => {
                if !str_is(text, e.as_str()) {
                    return false;
                }
            },
            None => {},
        }
        match &self.any_of {
            Some(set) => {
                let n = set.len();
                let mut found = false;
                for i in 0..n
                    invariant
                        n == set@.len(),
                        found == exists|j: int| 0 <= j < i && (#[trigger] set@[j])@ == text@,
                {
                    if str_is(set[i].as_str(), text) {
                        found = true;
                    }
                }
                proof {
                    if found {
                        let j = choose|j: int| 0 <= j < n && (#[trigger] set@[j])@ == text@;
                        assert(strings_view(set@)[j] == text@);
                    }
                    if strings_view(set@).contains(text@) {
                        let j = choose|j: int| 0 <= j < strings_view(set@).len() && strings_view(set@)[j] == text@;
                        assert(set@[j]@ == text@);
                    }
                }
                if !found {
                    return false;
                }
            },
            None => {},
        }
        true
    }

    /// Test a capture's text: its conditions, inverted when negated.
    pub fn accept(&self, text: &str) -> (r: bool)
        ensures
            r == self.accept_spec(text@),
    {
        self.matches(text) != self.negate
    }
}

/// What a capture filter accepts: a text passes when it matches the
/// filter's regex (if any), equals its string (if any) and equals some
/// member of its set, at any position (if any); negation inverts the
/// outcome. In particular a set-only filter accepts every member of its
/// set and nothing else.
pub proof fn lemma_filter_accepts(f: CompiledFilter, text: Seq<char>)
    ensures
        f.accept_spec(text) <==> ({
            &&& (f.pattern is Some ==> regex_compiles(f.pattern->0@) && regex_matches(f.pattern->0@, text))
            &&& (f.equals is Some ==> text == f.equals->0@)
            &&& (f.any_of is Some ==> exists|j: int| 0 <= j < f.any_of->0@.len() && (#[trigger] f.any_of->0@[j])@ == text)
        } != f.negate),
        f.pattern is None && f.equals is None && !f.negate && f.any_of is Some ==>
            forall|j: int| 0 <= j < f.any_of->0@.len() ==> f.accept_spec((#[trigger] f.any_of->0@[j])@),
        f.pattern is None && f.equals is None && f.any_of is None ==> f.accept_spec(text) == !f.negate,
{
    if f.any_of is Some {
        let set = f.any_of->0;
        if strings_view(set@).contains(text) {
            let j = choose|j: int| 0 <= j < strings_view(set@).len() && strings_view(set@)[j] == text;
            assert(set@[j]@ == text);
        }
        if exists|j: int| 0 <= j < set@.len() && (#[trigger] set@[j])@ == text {
            let j = choose|j: int| 0 <= j < set@.len() && (#[trigger] set@[j])@ == text;
            assert(strings_view(set@)[j] == text);
        }
        assert forall|j: int| 0 <= j < set@.len() implies strings_view(set@).contains((#[trigger] set@[j])@) by {
            assert(strings_view(set@)[j] == set@[j]@);
        }
    }
}

/// `s` begins with `p`.
pub open spec fn starts_with(s: Seq<char>, p: Seq<char>) -> bool {
    p.len() <= s.len() && s.take(p.len() as int) == p
}

/// `p` occurs in `s`.
pub open spec fn contains_sub(s: Seq<char>, p: Seq<char>) -> bool
    decreases s.len(),
{
    if starts_with(s, p) {
        true
    } else if s.len() == 0 {
        false
    } else {
        contains_sub(s.drop_first(), p)
    }
}

/// Every occurrence of the non-empty `p` in `s`, left to right and not
/// overlapping, replaced by `v` (`str::replace`).
pub open spec fn replace_all(s: Seq<char>, p: Seq<char>, v: Seq<char>) -> Seq<char>
    decreases s.len(),
{
    if p.len() == 0 || s.len() == 0 {
        s
    } else if starts_with(s, p) {
        v + replace_all(s.skip(p.len() as int), p, v)
    } else {
        seq![s[0]] + replace_all(s.drop_first(), p, v)
    }
}

fn starts_at(s: &Vec<char>, i: usize, p: &Vec<char>) -> (r: bool)
    requires
        i <= s@.len(),
    ensures
        r == starts_with(s@.skip(i as int), p@),
{
    if p.len() > s.len() - i {
        return false;
    }
    for j in 0..p.len()
        invariant
            i + p@.len() <= s@.len(),
            s@.len() <= usize::MAX,
            forall|k: int| 0 <= k < j ==> s@[i + k] == p@[k],
    {
        if s[i + j] != p[j] {
            assert(s@.skip(i as int).take(p@.len() as int)[j as int] != p@[j as int]);
            return false;
        }
    }
    assert(s@.skip(i as int).take(p@.len() as int) =~= p@);
    true
}

fn contains_chars(s: &Vec<char>, p: &Vec<char>) -> (r: bool)
    ensures
        r == contains_sub(s@, p@),
{
    let n = s.len();
    let mut i: usize = 0;
    assert(s@.skip(0) =~= s@);
    while i < n
        invariant
            i <= n,
            n == s@.len(),
            contains_sub(s@, p@) == contains_sub(s@.skip(i as int), p@),
        decreases n - i,
    {
        if starts_at(s, i, p) {
            return true;
        }
        assert(s@.skip(i as int).drop_first() =~= s@.skip(i + 1));
        i += 1;
    }
    starts_at(s, n, p)
}

fn replace_chars(s: &Vec<char>, p: &Vec<char>, v: &Vec<char>) -> (r: Vec<char>)
    requires
        p@.len() > 0,
    ensures
        r@ == replace_all(s@, p@, v@),
{
    let n = s.len();
    let mut out: Vec<char> = Vec::new();
    let mut i: usize = 0;
    assert(s@.skip(0) =~= s@);
    while i < n
        invariant
            i <= n,
            n == s@.len(),
            p@.len() > 0,
            replace_all(s@, p@, v@) == out@ + replace_all(s@.skip(i as int), p@, v@),
        decreases n - i,
    {
        if starts_at(s, i, p) {
            let ghost before = out@;
            for k in 0..v.len()
                invariant
                    out@ == before + v@.take(k as int),
            {
                out.push(v[k]);
                assert(v@.take(k + 1) =~= v@.take(k as int).push(v@[k as int]));
            }
            assert(v@.take(v@.len() as int) =~= v@);
            assert(s@.skip(i as int).skip(p@.len() as int) =~= s@.skip(i + p@.len()));
            assert(out@ + replace_all(s@.skip(i + p@.len()), p@, v@) =~= before + (v@ + replace_all(s@.skip(i + p@.len()), p@, v@)));
            i = i + p.len();
        } else {
            let ghost before = out@;
            out.push(s[i]);
            assert(s@.skip(i as int)[0] == s@[i as int]);
            assert(s@.skip(i as int).drop_first() =~= s@.skip(i + 1));
            assert(out@ + replace_all(s@.skip(i + 1), p@, v@) =~= before + (seq![s@[i as int]] + replace_all(s@.skip(i + 1), p@, v@)));
            i = i + 1;
        }
    }
    assert(replace_all(s@.skip(n as int), p@, v@) =~= s@.skip(n as int));
    assert(s@.skip(n as int) =~= Seq::<char>::empty());
    assert(out@ + Seq::<char>::empty() =~= out@);
    out
}

/// At most the first `n` characters.
pub open spec fn first_n(x: Seq<char>, n: int) -> Seq<char> {
    if x.len() <= n { x } else { x.take(n) }
}

/// The text substituted for capture `name`: its first 120 characters, or
/// `?` if the match did not capture it.
pub open spec fn capture_value(t: SyntaxTree, cs: Seq<Capture>, name: Seq<char>) -> Seq<char> {
    match capture_spec(cs, name) {
        Some(n) => first_n(t.nodes@[n as int].text@, 120),
        None => "?"@,
    }
}

/// The message after substituting the placeholders of the first `k`
/// capture names.
pub open spec fn render_upto(template: Seq<char>, t: SyntaxTree, names: Seq<Seq<char>>, cs: Seq<Capture>, k: int) -> Seq<char>
    decreases k,
{
    if k <= 0 {
        template
    } else {
        let m = render_upto(template, t, names, cs, k - 1);
        let ph = "${"@ + names[k - 1] + "}"@;
        if contains_sub(m, ph) { replace_all(m, ph, capture_value(t, cs, names[k - 1])) } else { m }
    }
}

/// A message with each `${name}` placeholder replaced by the captured text.
pub open spec fn render_spec(template: Seq<char>, t: SyntaxTree, names: Seq<Seq<char>>, cs: Seq<Capture>) -> Seq<char> {
    if !contains_sub(template, "${"@) {
        template
    } else {
        render_upto(template, t, names, cs, names.len() as int)
    }
}

proof fn lemma_replace_absent(s: Seq<char>, p: Seq<char>, v: Seq<char>)
    requires
        !contains_sub(s, p),
    ensures
        replace_all(s, p, v) == s,
    decreases s.len(),
{
    if p.len() > 0 && s.len() > 0 {
        lemma_replace_absent(s.drop_first(), p, v);
        assert(seq![s[0]] + s.drop_first() =~= s);
    }
}

/// Rendering leaves a message alone when it holds no placeholder opening
/// `${`, when the rule names no captures, or when none of the captures'
/// placeholders occurs in it.
pub proof fn lemma_render_unchanged(template: Seq<char>, t: SyntaxTree, names: Seq<Seq<char>>, cs: Seq<Capture>)
    ensures
        !contains_sub(template, "${"@) ==> render_spec(template, t, names, cs) == template,
        names.len() == 0 ==> render_spec(template, t, names, cs) == template,
        (forall|k: int| 0 <= k < names.len() ==> !contains_sub(template, "${"@ + #[trigger] names[k] + "}"@))
            ==> render_spec(template, t, names, cs) == template,
{
    if forall|k: int| 0 <= k < names.len() ==> !contains_sub(template, "${"@ + #[trigger] names[k] + "}"@) {
        lemma_render_upto_unchanged(template, t, names, cs, names.len() as int);
    }
}

proof fn lemma_render_upto_unchanged(template: Seq<char>, t: SyntaxTree, names: Seq<Seq<char>>, cs: Seq<Capture>, k: int)
    requires
        k <= names.len(),
        forall|q: int| 0 <= q < names.len() ==> !contains_sub(template, "${"@ + #[trigger] names[q] + "}"@),
    ensures
        render_upto(template, t, names, cs, k) == template,
    decreases k,
{
    if k > 0 {
        lemma_render_upto_unchanged(template, t, names, cs, k - 1);
        assert(!contains_sub(template, "${"@ + names[k - 1] + "}"@));
    }
}

/// Substitute `${capture}` placeholders in a rule message.
pub fn render_message(template: &str, t: &SyntaxTree, names: &Vec<String>, m: &QueryMatch) -> (r: String)
    requires
        forall|j: int| 0 <= j < m.captures@.len() ==> (#[trigger] m.captures@[j]).node < t.nodes@.len(),
    ensures
        r@ == render_spec(template@, *t, strings_view(names@), m.captures@),
{
    proof {
        reveal_strlit("${");
    }
    let tc = chars_of(template);
    let open = chars_of("${");
    if !contains_chars(&tc, &open) {
        return template.to_owned();
    }
    let ghost nv = strings_view(names@);
    let mut msg = tc;
    let n = names.len();
    for i in 0..n
        invariant
            n == names@.len(),
            nv == strings_view(names@),
            forall|j: int| 0 <= j < m.captures@.len() ==> (#[trigger] m.captures@[j]).node < t.nodes@.len(),
            msg@ == render_upto(template@, *t, nv, m.captures@, i as int),
    {
        proof {
            reveal_strlit("${");
            reveal_strlit("}");
            reveal_strlit("?");
        }
        let ph_s = crate::text::cat3("${", names[i].as_str(), "}");
        let ph = chars_of(ph_s.as_str());
        assert(nv[i as int] == names@[i as int]@);
        assert(ph@.len() > 0);
        if contains_chars(&msg, &ph) {
            let value: Vec<char> = match capture_named(m, names[i].as_str()) {
                Some(node) => {
                    proof {
                        let j = choose|j: int| 0 <= j < m.captures@.len() && (#[trigger] m.captures@[j]).node == node;
                    }
                    let full = chars_of(t.nodes[node].text.as_str());
                    if full.len() <= 120 {
                        full
                    } else {
                        let v = crate::text::slice_chars(&full, 0, 120);
                        assert(v@ =~= full@.take(120));
                        v
                    }
                },
                None => chars_of("?"),
            };
            msg = replace_chars(&msg, &ph, &value);
        }
    }
    string_of(msg.as_slice())
}

/// The capture text a filter tests passes it: a captured text must be
/// accepted; a missing capture fails a positive filter and passes a
/// negated one.
pub open spec fn filter_passes(t: SyntaxTree, f: CompiledFilter, cs: Seq<Capture>) -> bool {
    match capture_spec(cs, f.capture@) {
        Some(n) => f.accept_spec(t.nodes@[n as int].text@),
        None => f.negate,
    }
}

proof fn lemma_capture_first(cs: Seq<Capture>, name: Seq<char>)
    ensures
        capture_spec(cs, name) is None <==> forall|j: int| 0 <= j < cs.len() ==> (#[trigger] cs[j]).name@ != name,
        capture_spec(cs, name) is Some ==> exists|j: int| 0 <= j < cs.len() && (#[trigger] cs[j]).name@ == name
            && cs[j].node == capture_spec(cs, name)->0
            && forall|q: int| 0 <= q < j ==> (#[trigger] cs[q]).name@ != name,
    decreases cs.len(),
{
    if cs.len() > 0 {
        let rest = cs.drop_first();
        lemma_capture_first(rest, name);
        if cs[0].name@ != name {
            assert forall|j: int| 0 <= j < rest.len() implies #[trigger] rest[j] == cs[j + 1] by {}
            if capture_spec(rest, name) is Some {
                let j = choose|j: int| 0 <= j < rest.len() && (#[trigger] rest[j]).name@ == name
                    && rest[j].node == capture_spec(rest, name)->0
                    && forall|q: int| 0 <= q < j ==> (#[trigger] rest[q]).name@ != name;
                assert(cs[j + 1] == rest[j]);
                assert forall|q: int| 0 <= q < j + 1 implies (#[trigger] cs[q]).name@ != name by {
                    if q > 0 { assert(cs[q] == rest[q - 1]); }
                }
            } else {
                assert forall|j: int| 0 <= j < cs.len() implies (#[trigger] cs[j]).name@ != name by {
                    if j > 0 { assert(cs[j] == rest[j - 1]); }
                }
            }
        }
    }
}

/// How a filter judges a match: it tests the text of the first capture
/// with the filter's capture name; when the match has no such capture, a
/// filter passes only if it is negated.
pub proof fn lemma_filter_passes(t: SyntaxTree, f: CompiledFilter, cs: Seq<Capture>, j: int)
    ensures
        (forall|q: int| 0 <= q < cs.len() ==> (#[trigger] cs[q]).name@ != f.capture@) ==> (filter_passes(t, f, cs) == f.negate),
        0 <= j < cs.len() && cs[j].name@ == f.capture@ && (forall|q: int| 0 <= q < j ==> (#[trigger] cs[q]).name@ != f.capture@)
            ==> (filter_passes(t, f, cs) == f.accept_spec(t.nodes@[cs[j].node as int].text@)),
{
    lemma_capture_first(cs, f.capture@);
    if capture_spec(cs, f.capture@) is Some {
        let k = choose|k: int| 0 <= k < cs.len() && (#[trigger] cs[k]).name@ == f.capture@
            && cs[k].node == capture_spec(cs, f.capture@)->0
            && forall|q: int| 0 <= q < k ==> (#[trigger] cs[q]).name@ != f.capture@;
        if 0 <= j < cs.len() && cs[j].name@ == f.capture@ && (forall|q: int| 0 <= q < j ==> (#[trigger] cs[q]).name@ != f.capture@) {
            if j < k { assert(cs[j].name@ != f.capture@); }
            if k < j { assert(cs[k].name@ != f.capture@); }
        }
    }
}

/// A match passes all of a pattern's filters.
pub fn apply_filters(t: &SyntaxTree, filters: &Vec<CompiledFilter>, m: &QueryMatch) -> (r: bool)
    requires
        forall|j: int| 0 <= j < m.captures@.len() ==> (#[trigger] m.captures@[j]).node < t.nodes@.len(),
    ensures
        r == forall|i: int| 0 <= i < filters@.len() ==> filter_passes(*t, #[trigger] filters@[i], m.captures@),
{
    let n = filters.len();
    for i in 0..n
        invariant
            n == filters@.len(),
            forall|j: int| 0 <= j < m.captures@.len() ==> (#[trigger] m.captures@[j]).node < t.nodes@.len(),
            forall|k: int| 0 <= k < i ==> filter_passes(*t, #[trigger] filters@[k], m.captures@),
    {
        let f = &filters[i];
        let ok = match capture_named(m, f.capture.as_str()) {
            Some(node) => {
                proof {
                    let j = choose|j: int| 0 <= j < m.captures@.len() && (#[trigger] m.captures@[j]).node == node;
                }
                f.accept(t.nodes[node].text.as_str())
            },
            None => f.negate,
        };
        if !ok {
            assert(!filter_passes(*t, filters@[i as int], m.captures@));
            return false;
        }
    }
    true
}

/// A pattern rule ready to run: the rule, its query's capture names (in
/// capture order) and its compiled filters.
#[derive(Debug)]
pub struct CompiledPattern {
    pub rule: std::sync::Arc<RuleSpec>,
    pub capture_names: Vec<String>,
    pub filters: Vec<CompiledFilter>,
}

/// The reported node of a match: its `finding` capture, else its first.
pub open spec fn report_node(cs: Seq<Capture>) -> usize {
    match capture_spec(cs, "finding"@) {
        Some(n) => n,
        None => cs[0].node,
    }
}

/// A hit at the bytes of `sp` was recorded already.
pub open spec fn seen(h: Seq<(Span, Seq<char>)>, sp: Span) -> bool {
    exists|i: int| 0 <= i < h.len() && (#[trigger] h[i]).0.start_byte == sp.start_byte && h[i].0.end_byte == sp.end_byte
}

/// The (span, message) hits of a pattern over its matches: each match with
/// captures that passes the filters, at most one per reported span.
pub open spec fn pattern_hits(t: SyntaxTree, p: CompiledPattern, ms: Seq<QueryMatch>) -> Seq<(Span, Seq<char>)>
    decreases ms.len(),
{
    if ms.len() == 0 {
        Seq::empty()
    } else {
        let prev = pattern_hits(t, p, ms.drop_last());
        let cs = ms.last().captures@;
        if cs.len() == 0 || !(forall|i: int| 0 <= i < p.filters@.len() ==> filter_passes(t, #[trigger] p.filters@[i], cs)) {
            prev
        } else {
            let sp = t.nodes@[report_node(cs) as int].span;
            if seen(prev, sp) {
                prev
            } else {
                prev.push((sp, render_spec(p.rule.message@, t, strings_view(p.capture_names@), cs)))
            }
        }
    }
}

/// Match `m` yields a finding for pattern `p`: it captured something and
/// passes every filter.
pub open spec fn reportable_match(t: SyntaxTree, p: CompiledPattern, m: QueryMatch) -> bool {
    &&& m.captures@.len() > 0
    &&& forall|i: int| 0 <= i < p.filters@.len() ==> filter_passes(t, #[trigger] p.filters@[i], m.captures@)
}

/// The hit a reportable match gives: its reported node's span and its
/// rendered message.
pub open spec fn hit_of(t: SyntaxTree, p: CompiledPattern, m: QueryMatch) -> (Span, Seq<char>) {
    (t.nodes@[report_node(m.captures@) as int].span, render_spec(p.rule.message@, t, strings_view(p.capture_names@), m.captures@))
}

/// `x` is the hit of one of the reportable matches of `ms`.
pub open spec fn hit_from(t: SyntaxTree, p: CompiledPattern, ms: Seq<QueryMatch>, x: (Span, Seq<char>)) -> bool {
    exists|k: int| 0 <= k < ms.len() && reportable_match(t, p, #[trigger] ms[k]) && x == hit_of(t, p, ms[k])
}

/// A pattern's hits: every match that captured something and passes every
/// filter has a hit at the bytes of its reported node; every hit is such a
/// match's, with its rendered message; and no two hits share their bytes.
#[verifier::rlimit(30)]
pub proof fn lemma_pattern_hits(t: SyntaxTree, p: CompiledPattern, ms: Seq<QueryMatch>)
    ensures
        forall|k: int| 0 <= k < ms.len() && reportable_match(t, p, #[trigger] ms[k]) ==>
            seen(pattern_hits(t, p, ms), t.nodes@[report_node(ms[k].captures@) as int].span),
        forall|h: int| 0 <= h < pattern_hits(t, p, ms).len() ==> hit_from(t, p, ms, #[trigger] pattern_hits(t, p, ms)[h]),
        forall|a: int, b: int| 0 <= a < b < pattern_hits(t, p, ms).len() ==>
            !((#[trigger] pattern_hits(t, p, ms)[a]).0.start_byte == (#[trigger] pattern_hits(t, p, ms)[b]).0.start_byte
              && pattern_hits(t, p, ms)[a].0.end_byte == pattern_hits(t, p, ms)[b].0.end_byte),
    decreases ms.len(),
{
    if ms.len() > 0 {
        let pre = ms.drop_last();
        lemma_pattern_hits(t, p, pre);
        let prev = pattern_hits(t, p, pre);
        let r = pattern_hits(t, p, ms);
        let last = ms[ms.len() - 1];
        let cs = last.captures@;
        let sp = t.nodes@[report_node(cs) as int].span;
        assert forall|k: int| 0 <= k < pre.len() implies #[trigger] pre[k] == ms[k] by {}
        if cs.len() == 0 || !(forall|i: int| 0 <= i < p.filters@.len() ==> filter_passes(t, #[trigger] p.filters@[i], cs)) {
            assert(r == prev);
            assert(!reportable_match(t, p, last));
        } else if seen(prev, sp) {
            assert(r == prev);
        } else {
            let x = (sp, render_spec(p.rule.message@, t, strings_view(p.capture_names@), cs));
            assert(r == prev.push(x));
            assert(r[r.len() - 1] == x);
            assert(seen(r, sp));
        }
        assert forall|k: int| 0 <= k < ms.len() && reportable_match(t, p, #[trigger] ms[k]) implies
            seen(r, t.nodes@[report_node(ms[k].captures@) as int].span) by {
            if k < pre.len() {
                assert(reportable_match(t, p, pre[k]));
                let sk = t.nodes@[report_node(ms[k].captures@) as int].span;
                assert(seen(prev, sk));
                let i = choose|i: int| 0 <= i < prev.len() && (#[trigger] prev[i]).0.start_byte == sk.start_byte && prev[i].0.end_byte == sk.end_byte;
                assert(r[i] == prev[i]);
            }
        }
        assert forall|h: int| 0 <= h < r.len() implies hit_from(t, p, ms, #[trigger] r[h]) by {
            if h < prev.len() {
                assert(r[h] == prev[h]);
                assert(hit_from(t, p, pre, prev[h]));
                let k = choose|k: int| 0 <= k < pre.len() && reportable_match(t, p, #[trigger] pre[k]) && prev[h] == hit_of(t, p, pre[k]);
                assert(pre[k] == ms[k]);
                assert(reportable_match(t, p, ms[k]));
            } else {
                let k = ms.len() - 1;
                assert(ms[k] == last);
                assert(reportable_match(t, p, ms[k]));
                assert(r[h] == hit_of(t, p, ms[k]));
            }
        }
        assert forall|a: int, b: int| 0 <= a < b < r.len() implies
            !((#[trigger] r[a]).0.start_byte == (#[trigger] r[b]).0.start_byte && r[a].0.end_byte == r[b].0.end_byte) by {
            if b < prev.len() {
                assert(r[a] == prev[a] && r[b] == prev[b]);
            } else {
                assert(r[a] == prev[a]);
                if r[a].0.start_byte == r[b].0.start_byte && r[a].0.end_byte == r[b].0.end_byte {
                    assert(seen(prev, sp));
                }
            }
        }
    }
}

/// The hits of the first `k` patterns, each tagged with its pattern.
pub open spec fn patterns_hits(t: SyntaxTree, ps: Seq<CompiledPattern>, mss: Seq<Vec<QueryMatch>>, k: int) -> Seq<(int, Span, Seq<char>)>
    decreases k,
{
    if k <= 0 {
        Seq::empty()
    } else {
        patterns_hits(t, ps, mss, k - 1)
            + pattern_hits(t, ps[k - 1], mss[k - 1]@).map_values(|h: (Span, Seq<char>)| (k - 1, h.0, h.1))
    }
}

fn seen_in(out: &Vec<Finding>, base: usize, sp: &Span, Ghost(h): Ghost<Seq<(Span, Seq<char>)>>) -> (r: bool)
    requires
        base <= out@.len(),
        out@.len() == base + h.len(),
        forall|i: int| base <= i < out@.len() ==> (#[trigger] out@[i]).span == h[i - base].0,
    ensures
        r == seen(h, *sp),
{
    let n = out.len();
    let mut i = base;
    while i < n
        invariant
            base <= i <= n,
            n == out@.len(),
            n == base + h.len(),
            forall|i: int| base <= i < out@.len() ==> (#[trigger] out@[i]).span == h[i - base].0,
            forall|j: int| 0 <= j < i - base ==> !((#[trigger] h[j]).0.start_byte == sp.start_byte && h[j].0.end_byte == sp.end_byte),
        decreases n - i,
    {
        assert(out@[i as int].span == h[i - base].0);
        if out[i].span.start_byte == sp.start_byte && out[i].span.end_byte == sp.end_byte {
            return true;
        }
        i += 1;
    }
    false
}

/// All captures of the matches name nodes of the tree.
pub open spec fn runs_fit(t: SyntaxTree, mss: Seq<Vec<QueryMatch>>) -> bool {
    forall|k: int| 0 <= k < mss.len() ==> crate::structure::matches_fit((#[trigger] mss[k])@, t.nodes@.len() as int)
}

/// Run the pattern rules over one file's matches (`matches[k]` are the
/// matches of pattern `k`'s query) and append their findings.
pub fn run_patterns(rel_path: &str, source: &str, t: &SyntaxTree, lang_id: &str, patterns: &Vec<CompiledPattern>,
    matches: &Vec<Vec<QueryMatch>>, out: &mut Vec<Finding>)
    requires
        patterns@.len() == matches@.len(),
        runs_fit(*t, matches@),
    ensures
        ({
            let h = patterns_hits(*t, patterns@, matches@, patterns@.len() as int);
            &&& final(out)@.len() == old(out)@.len() + h.len()
            &&& final(out)@.take(old(out)@.len() as int) == old(out)@
            &&& forall|i: int| old(out)@.len() <= i < final(out)@.len() ==> {
                let e = h[i - old(out)@.len()];
                &&& is_base_finding(#[trigger] final(out)@[i], *patterns@[e.0].rule, lang_id@, rel_path@, source@, e.1, e.2)
                &&& final(out)@[i].trace@.len() == 0
            }
        }),
{
    let cs = chars_of(source);
    let base0 = out.len();
    let ghost mut all: Seq<(int, Span, Seq<char>)> = Seq::empty();
    let np = patterns.len();
    for k in 0..np
        invariant
            np == patterns@.len(),
            np == matches@.len(),
            runs_fit(*t, matches@),
            cs@ == source@,
            base0 == old(out)@.len(),
            out@.take(base0 as int) == old(out)@,
            out@.len() == base0 + all.len(),
            all == patterns_hits(*t, patterns@, matches@, k as int),
            forall|i: int| base0 <= i < out@.len() ==> {
                let e = all[i - base0];
                &&& 0 <= e.0 < k
                &&& is_base_finding(#[trigger] out@[i], *patterns@[e.0].rule, lang_id@, rel_path@, source@, e.1, e.2)
                &&& out@[i].trace@.len() == 0
            },
    {
        let pat = &patterns[k];
        let ms = &matches[k];
        let base = out.len();
        let ghost mut h: Seq<(Span, Seq<char>)> = Seq::empty();
        let ghost prior = all;
        assert(crate::structure::matches_fit(matches@[k as int]@, t.nodes@.len() as int));
        let nm = ms.len();
        for j in 0..nm
            invariant
                np == patterns@.len(),
                np == matches@.len(),
                k < np,
                *pat == patterns@[k as int],
                *ms == matches@[k as int],
                nm == ms@.len(),
                crate::structure::matches_fit(ms@, t.nodes@.len() as int),
                cs@ == source@,
                base0 == old(out)@.len(),
                base0 <= base,
                base == base0 + prior.len(),
                out@.take(base0 as int) == old(out)@,
                out@.len() == base + h.len(),
                h == pattern_hits(*t, *pat, ms@.take(j as int)),
                prior == patterns_hits(*t, patterns@, matches@, k as int),
                forall|i: int| base0 <= i < base ==> {
                    let e = prior[i - base0];
                    &&& 0 <= e.0 < k
                    &&& is_base_finding(#[trigger] out@[i], *patterns@[e.0].rule, lang_id@, rel_path@, source@, e.1, e.2)
                    &&& out@[i].trace@.len() == 0
                },
                forall|i: int| base <= i < out@.len() ==> {
                    let e = h[i - base];
                    &&& is_base_finding(#[trigger] out@[i], *pat.rule, lang_id@, rel_path@, source@, e.0, e.1)
                    &&& out@[i].trace@.len() == 0
                },
        {
            let m = &ms[j];
            assert(ms@.take(j + 1).drop_last() =~= ms@.take(j as int));
            assert(ms@.take(j + 1).last() == *m);
            proof { crate::binder::lemma_match_fits_pub(ms@, j as int, t.nodes@.len() as int); }
            if m.captures.len() > 0 && apply_filters(t, &pat.filters, m) {
                let node = match capture_named(m, "finding") {
                    Some(nd) => {
                        proof {
                            let q = choose|q: int| 0 <= q < m.captures@.len() && (#[trigger] m.captures@[q]).node == nd;
                        }
                        nd
                    },
                    None => m.captures[0].node,
                };
                assert(m.captures@[0].node < t.nodes@.len());
                let sp = t.nodes[node].span;
                assert forall|i: int| base <= i < out@.len() implies (#[trigger] out@[i]).span == h[i - base].0 by {
                    assert(is_base_finding(out@[i], *pat.rule, lang_id@, rel_path@, source@, h[i - base].0, h[i - base].1));
                }
                if !seen_in(out, base, &sp, Ghost(h)) {
                    let message = render_message(pat.rule.message.as_str(), t, &pat.capture_names, m);
                    let f = base_finding(&pat.rule, lang_id, rel_path, &cs, sp, message);
                    let ghost ob = out@;
                    let ghost fv = f;
                    out.push(f);
                    proof {
                        h = h.push((sp, message@));
                        assert forall|i: int| base <= i < out@.len() implies {
                            let e = h[i - base];
                            &&& is_base_finding(#[trigger] out@[i], *pat.rule, lang_id@, rel_path@, source@, e.0, e.1)
                            &&& out@[i].trace@.len() == 0
                        } by {
                            if i < out@.len() - 1 { assert(out@[i] == ob[i]); } else { assert(out@[i] == fv); }
                        }
                        assert forall|i: int| base0 <= i < base implies {
                            let e = prior[i - base0];
                            &&& 0 <= e.0 < k
                            &&& is_base_finding(#[trigger] out@[i], *patterns@[e.0].rule, lang_id@, rel_path@, source@, e.1, e.2)
                            &&& out@[i].trace@.len() == 0
                        } by {
                            assert(out@[i] == ob[i]);
                        }
                        assert(out@.take(base0 as int) =~= ob.take(base0 as int));
                    }
                }
            }
        }
        assert(ms@.take(nm as int) =~= ms@);
        proof {
            let tagged = h.map_values(|x: (Span, Seq<char>)| (k as int, x.0, x.1));
            all = prior + tagged;
            assert(all == patterns_hits(*t, patterns@, matches@, k + 1));
            assert forall|i: int| base0 <= i < out@.len() implies {
                let e = all[i - base0];
                &&& 0 <= e.0 < k + 1
                &&& is_base_finding(#[trigger] out@[i], *patterns@[e.0].rule, lang_id@, rel_path@, source@, e.1, e.2)
                &&& out@[i].trace@.len() == 0
            } by {
                if i < base {
                    assert(all[i - base0] == prior[i - base0]);
                } else {
                    assert(all[i - base0] == tagged[i - base]);
                }
            }
        }
    }
}

} // verus!
