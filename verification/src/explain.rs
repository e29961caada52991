//! Structured explanation of one file's taint analysis: the scopes and
//! resolved calls found, and per rule the sources matched and the verdict on
//! each sink. Built by a read-only pass that rebuilds the facts a scan would
//! and queries them.

use vstd::prelude::*;
use crate::binder::{FileBindings, BindingMatches, ResolvedCallV, CalleeIdV};
use crate::engine::{snippet_of, snippet_in};
use crate::findings::Span;
use crate::linker::{FileLinked, fl_view};
use crate::solve::{RuleRun, SourceMatch, TaintCtx, name_pos};
use crate::sinks::sinks_view;
use crate::sorting::views;
use crate::state::{TaintState, Origin, WitnessView};
use crate::structure::{Structure, ScopeV, ProfileMatches, built_from};
use crate::summary::{LinkedForRule, PortableFunctionSummary};
use crate::syntax::SyntaxTree;
use crate::taint::{TaintRule, TaintMatches, spans_spec, matches_ok, rule_spans, sources_view, rule_linked};
use crate::text::chars_of;

verus! {

/// A named scope (function) in the file.
#[derive(Debug)]
pub struct ScopeInfo {
    pub name: String,
    pub start_line: u32,
    pub end_line: u32,
}

/// A resolved call and how its callee was resolved.
#[derive(Debug)]
pub struct CallInfo {
    pub line: u32,
    pub callee: String,
    pub resolution: String,
}

/// A source or sink location.
#[derive(Debug)]
pub struct Loc {
    pub line: u32,
    pub column: u32,
    pub label: String,
    pub snippet: String,
}

/// Whether a sink is reported, and why (or why not).
#[derive(Debug)]
pub struct SinkVerdict {
    pub line: u32,
    pub column: u32,
    pub snippet: String,
    pub reported: bool,
    pub reason: String,
}

/// Per-rule explanation: what it matched and how each sink was decided.
#[derive(Debug)]
pub struct RuleExplain {
    pub rule_id: String,
    pub sources: Vec<Loc>,
    pub sinks: Vec<SinkVerdict>,
    /// Cross-file callee summaries consulted while evaluating this rule.
    pub linked: Vec<String>,
}

/// The full explanation for one file.
#[derive(Debug)]
pub struct Explanation {
    pub file: String,
    pub language: String,
    pub scopes: Vec<ScopeInfo>,
    pub calls: Vec<CallInfo>,
    pub rules: Vec<RuleExplain>,
}

pub struct ScopeInfoV {
    pub name: Seq<char>,
    pub start_line: u32,
    pub end_line: u32,
}

impl View for ScopeInfo {
    type V = ScopeInfoV;

    open spec fn view(&self) -> ScopeInfoV {
        ScopeInfoV { name: self.name@, start_line: self.start_line, end_line: self.end_line }
    }
}

pub struct CallInfoV {
    pub line: u32,
    pub callee: Seq<char>,
    pub resolution: Seq<char>,
}

impl View for CallInfo {
    type V = CallInfoV;

    open spec fn view(&self) -> CallInfoV {
        CallInfoV { line: self.line, callee: self.callee@, resolution: self.resolution@ }
    }
}

pub struct LocV {
    pub line: u32,
    pub column: u32,
    pub label: Seq<char>,
    pub snippet: Seq<char>,
}

impl View for Loc {
    type V = LocV;

    open spec fn view(&self) -> LocV {
        LocV { line: self.line, column: self.column, label: self.label@, snippet: self.snippet@ }
    }
}

pub struct SinkVerdictV {
    pub line: u32,
    pub column: u32,
    pub snippet: Seq<char>,
    pub reported: bool,
    pub reason: Seq<char>,
}

impl View for SinkVerdict {
    type V = SinkVerdictV;

    open spec fn view(&self) -> SinkVerdictV {
        SinkVerdictV { line: self.line, column: self.column, snippet: self.snippet@, reported: self.reported, reason: self.reason@ }
    }
}

pub struct RuleExplainV {
    pub rule_id: Seq<char>,
    pub sources: Seq<LocV>,
    pub sinks: Seq<SinkVerdictV>,
    pub linked: Seq<Seq<char>>,
}

impl View for RuleExplain {
    type V = RuleExplainV;

    open spec fn view(&self) -> RuleExplainV {
        RuleExplainV { rule_id: self.rule_id@, sources: views(self.sources@), sinks: views(self.sinks@), linked: crate::paths::strings_view(self.linked@) }
    }
}

/// The named scopes, in scope order.
pub open spec fn scope_infos(s: Seq<ScopeV>) -> Seq<ScopeInfoV>
    decreases s.len(),
{
    if s.len() == 0 {
        Seq::empty()
    } else {
        let prev = scope_infos(s.drop_last());
        match s.last().name {
            Some(n) => prev.push(ScopeInfoV { name: n, start_line: s.last().span.start.line, end_line: s.last().span.end.line }),
            None => prev,
        }
    }
}

/// Each resolved call with its terminal name and resolution.
pub open spec fn call_info(c: ResolvedCallV) -> CallInfoV {
    CallInfoV { line: c.call_span.start.line, callee: c.callee.terminal_spec(), resolution: c.callee.describe_spec() }
}

/// A source location.
pub open spec fn loc_of(src: Seq<char>, s: (Span, Seq<char>)) -> LocV {
    LocV { line: s.0.start.line, column: s.0.start.column, label: s.1, snippet: snippet_of(src, s.0) }
}

/// Collapse adjacent locations at the same position with the same label.
pub open spec fn dedup_locs(s: Seq<LocV>) -> Seq<LocV>
    decreases s.len(),
{
    if s.len() == 0 {
        s
    } else {
        let d = dedup_locs(s.drop_last());
        if d.len() > 0 && d.last().line == s.last().line && d.last().column == s.last().column && d.last().label == s.last().label {
            d
        } else {
            d.push(s.last())
        }
    }
}

/// The verdict on each sink of a solved run.
pub open spec fn verdicts(ctx: TaintCtx, cells: Seq<crate::state::Cell>, cts: Seq<(Span, Map<Origin, WitnessView>)>,
    sinks: Seq<(Span, Seq<char>)>, src: Seq<char>) -> Seq<SinkVerdictV> {
    sinks.map_values(|k: (Span, Seq<char>)| SinkVerdictV {
        line: k.0.start.line,
        column: k.0.start.column,
        snippet: snippet_of(src, k.0),
        reported: ctx.verdict(cells, cts, k.0).0,
        reason: ctx.verdict(cells, cts, k.0).1,
    })
}

/// The keys of a linked table, in order.
pub open spec fn linked_names(l: Seq<(String, PortableFunctionSummary)>) -> Seq<Seq<char>> {
    l.map_values(|e: (String, PortableFunctionSummary)| e.0@)
}

/// What explaining one rule yields: nothing when filtered out or when it
/// has nothing to taint; else its deduplicated source locations, the
/// verdict on each sink of a solved run, and its linked callees.
pub open spec fn rule_explanation(structure: Structure, t: SyntaxTree, b: FileBindings, r: TaintRule, tm: TaintMatches,
    filter: Option<Seq<char>>, fl: FileLinked, src: Seq<char>, e: Option<RuleExplainV>) -> bool {
    let lr = rule_linked(fl, r.rule.id@);
    if filter matches Some(w) && r.rule.id@ != w {
        e is None
    } else {
        exists|sources: Seq<SourceMatch>, sinks: Seq<(Span, String)>, sans: Seq<Span>| {
            &&& #[trigger] sources_view(sources) == spans_spec(t, b, r, tm).0
            &&& #[trigger] sinks_view(sinks) == spans_spec(t, b, r, tm).1
            &&& #[trigger] sans.len() == spans_spec(t, b, r, tm).2.len()
            &&& sans == spans_spec(t, b, r, tm).2
            &&& if sources.len() == 0 && structure.params@.len() == 0 && lr.len() == 0 {
                e is None
            } else {
                let ctx = TaintCtx { structure, sources, sanitizers: sans };
                exists|s0: TaintState, s1: TaintState, cts1: Seq<(Span, Map<Origin, WitnessView>)>, c1: int| {
                    &&& #[trigger] ctx.solved(lr, s0, Seq::empty(), 0, s1, cts1, c1)
                    &&& s0.cells@.len() == 0
                    &&& e == Some(RuleExplainV {
                        rule_id: r.rule.id@,
                        sources: dedup_locs(sources_view(sources).map_values(|s: (Span, Seq<char>)| loc_of(src, s))),
                        sinks: verdicts(ctx, s1.cells@, cts1, sinks_view(sinks), src),
                        linked: linked_names(lr),
                    })
                }
            }
        }
    }
}

pub open spec fn explain_view(e: Option<RuleExplain>) -> Option<RuleExplainV> {
    match e {
        Some(x) => Some(x@),
        None => None,
    }
}

fn source_locs(sources: &Vec<SourceMatch>, cs: &Vec<char>) -> (r: Vec<Loc>)
    ensures
        views(r@) == dedup_locs(sources_view(sources@).map_values(|s: (Span, Seq<char>)| loc_of(cs@, s))),
{
    let ghost all = sources_view(sources@).map_values(|s: (Span, Seq<char>)| loc_of(cs@, s));
    let mut r: Vec<Loc> = Vec::new();
    let n = sources.len();
    for i in 0..n
        invariant
            n == sources@.len(),
            all == sources_view(sources@).map_values(|s: (Span, Seq<char>)| loc_of(cs@, s)),
            views(r@) == dedup_locs(all.take(i as int)),
    {
        let s = &sources[i];
        let loc = Loc { line: s.span.start.line, column: s.span.start.column, label: s.label.clone(), snippet: snippet_in(cs, &s.span) };
        assert(all[i as int] == loc@);
        assert(all.take(i + 1).drop_last() =~= all.take(i as int));
        assert(all.take(i + 1).last() == loc@);
        let keep = if r.len() == 0 {
            true
        } else {
            let last = &r[r.len() - 1];
            !(last.line == loc.line && last.column == loc.column && last.label == loc.label)
        };
        if keep {
            let ghost before = views(r@);
            let ghost lv = loc@;
            r.push(loc);
            assert(views(r@) =~= before.push(lv));
        }
    }
    assert(all.take(n as int) =~= all);
    r
}

/// Explain one rule on one file.
fn explain_rule(structure: &Structure, t: &SyntaxTree, bindings: &FileBindings, r: &TaintRule, tm: &TaintMatches,
    filter: Option<&str>, linked: &FileLinked, cs: &Vec<char>) -> (e: Option<RuleExplain>)
    requires
        structure.wf(),
        3 * structure.calls@.len() <= usize::MAX,
        matches_ok(*t, *r, *tm),
    ensures
        rule_explanation(*structure, *t, *bindings, *r, *tm, match filter { Some(w) => Some(w@), None => None }, *linked, cs@, explain_view(e)),
{
    match filter {
        Some(want) => {
            if !crate::text::str_is(r.rule.id.as_str(), want) {
                return None;
            }
        },
        None => {},
    }
    let empty = LinkedForRule::new();
    let rule_linked_ref: &LinkedForRule = match linked.position(r.rule.id.as_str()) {
        Some(i) => &linked.rules[i].1,
        None => &empty,
    };
    assert(rule_linked_ref.entries@ == rule_linked(*linked, r.rule.id@)) by {
        if name_pos(fl_view(*linked), r.rule.id@) is None {
            assert(rule_linked_ref.entries@ =~= Seq::<(String, PortableFunctionSummary)>::empty());
        }
    }
    let (sources, sinks, sanitizers) = rule_spans(t, bindings, r, tm);
    let ghost srcs = sources@;
    let ghost snks = sinks@;
    let ghost sans = sanitizers@;
    if sources.len() == 0 && structure.params.len() == 0 && rule_linked_ref.entries.len() == 0 {
        return None;
    }
    let locs = source_locs(&sources, cs);
    let mut names: Vec<String> = Vec::new();
    let nl = rule_linked_ref.entries.len();
    for i in 0..nl
        invariant
            nl == rule_linked_ref.entries@.len(),
            crate::paths::strings_view(names@) == linked_names(rule_linked_ref.entries@.take(i as int)),
    {
        let ghost before = crate::paths::strings_view(names@);
        names.push(rule_linked_ref.entries[i].0.clone());
        assert(crate::paths::strings_view(names@) =~= before.push(rule_linked_ref.entries@[i as int].0@));
        assert(linked_names(rule_linked_ref.entries@.take(i + 1)) =~= linked_names(rule_linked_ref.entries@.take(i as int)).push(rule_linked_ref.entries@[i as int].0@));
    }
    assert(rule_linked_ref.entries@.take(nl as int) =~= rule_linked_ref.entries@);
    let mut run = RuleRun::new(structure, sources, sinks, sanitizers, rule_linked_ref);
    let ghost s0 = run.state;
    assert(run.cts() =~= Seq::<(Span, Map<Origin, WitnessView>)>::empty());
    run.solve();
    let ghost ctx = run.ctx();
    let ghost sv = sinks_view(run.sinks@);
    let ghost vs = verdicts(ctx, run.state.cells@, run.cts(), sv, cs@);
    let mut out: Vec<SinkVerdict> = Vec::new();
    let ns = run.sinks.len();
    for k in 0..ns
        invariant
            run.wf(),
            ctx == run.ctx(),
            ns == run.sinks@.len(),
            sv == sinks_view(run.sinks@),
            vs == verdicts(ctx, run.state.cells@, run.cts(), sv, cs@),
            views(out@) == vs.take(k as int),
    {
        let sp = run.sinks[k].0;
        let (reported, reason) = run.explain_sink(&sp);
        let v = SinkVerdict { line: sp.start.line, column: sp.start.column, snippet: snippet_in(cs, &sp), reported, reason };
        assert(sv[k as int].0 == sp);
        assert(v@ == vs[k as int]);
        let ghost before = views(out@);
        let ghost vv = v@;
        out.push(v);
        assert(views(out@) =~= before.push(vv));
        assert(vs.take(k + 1) =~= vs.take(k as int).push(vs[k as int]));
    }
    assert(vs.take(ns as int) =~= vs);
    let e = RuleExplain { rule_id: r.rule.id.clone(), sources: locs, sinks: out, linked: names };
    proof {
        let ctx2 = TaintCtx { structure: *structure, sources: srcs, sanitizers: sans };
        assert(ctx2 == ctx);
        assert(ctx2.solved(rule_linked(*linked, r.rule.id@), s0, Seq::empty(), 0, run.state, run.cts(), run.external_counter as int));
    }
    Some(e)
}

pub open spec fn infos_view(v: Seq<ScopeInfo>) -> Seq<ScopeInfoV> {
    views(v)
}

/// The named scopes of a structure.
pub fn scope_list(structure: &Structure) -> (r: Vec<ScopeInfo>)
    ensures
        views(r@) == scope_infos(views(structure.scopes@)),
{
    let ghost sv = views(structure.scopes@);
    let mut r: Vec<ScopeInfo> = Vec::new();
    let n = structure.scopes.len();
    for i in 0..n
        invariant
            n == structure.scopes@.len(),
            sv == views(structure.scopes@),
            views(r@) == scope_infos(sv.take(i as int)),
    {
        let sc = &structure.scopes[i];
        assert(sv.take(i + 1).drop_last() =~= sv.take(i as int));
        assert(sv.take(i + 1).last() == sc@);
        match &sc.name {
            Some(name) => {
                let info = ScopeInfo { name: name.clone(), start_line: sc.span.start.line, end_line: sc.span.end.line };
                let ghost before = views(r@);
                let ghost iv = info@;
                r.push(info);
                assert(views(r@) =~= before.push(iv));
            },
            None => {},
        }
    }
    assert(sv.take(n as int) =~= sv);
    r
}

/// Each resolved call with how its callee resolved.
pub fn call_list(bindings: &FileBindings) -> (r: Vec<CallInfo>)
    ensures
        views(r@) == views(bindings.calls@).map_values(|c: ResolvedCallV| call_info(c)),
{
    let ghost cv = views(bindings.calls@);
    let mut r: Vec<CallInfo> = Vec::new();
    let n = bindings.calls.len();
    for i in 0..n
        invariant
            n == bindings.calls@.len(),
            cv == views(bindings.calls@),
            views(r@) == cv.take(i as int).map_values(|c: ResolvedCallV| call_info(c)),
    {
        let c = &bindings.calls[i];
        let info = CallInfo { line: c.call_span.start.line, callee: c.callee.terminal(), resolution: c.callee.describe() };
        let ghost before = views(r@);
        let ghost iv = info@;
        r.push(info);
        assert(cv[i as int] == c@);
        assert(views(r@) =~= before.push(iv));
        assert(cv.take(i + 1).map_values(|c: ResolvedCallV| call_info(c)) =~= cv.take(i as int).map_values(|c: ResolvedCallV| call_info(c)).push(call_info(cv[i as int])));
    }
    assert(cv.take(n as int) =~= cv);
    r
}

/// Build a structured explanation of one file's taint analysis: its
/// named scopes, its resolved calls, and for each rule kept by `rule_filter`
/// what [`explain_rule`] yields.
pub fn explain(source: &str, t: &SyntaxTree, identifiers: &Vec<String>, profile_matches: &ProfileMatches,
    binding_matches: &BindingMatches, rules: &Vec<TaintRule>, rule_matches: &Vec<TaintMatches>,
    rule_filter: Option<&str>, linked: &FileLinked) -> (r: (Vec<ScopeInfo>, Vec<CallInfo>, Vec<RuleExplain>))
    requires
        t.wf(),
        profile_matches.fits(*t),
        binding_matches.fits(*t),
        3 * profile_matches.calls@.len() <= usize::MAX,
        rules@.len() == rule_matches@.len(),
        forall|k: int| 0 <= k < rules@.len() ==> matches_ok(*t, #[trigger] rules@[k], rule_matches@[k]),
    ensures
        exists|s: Structure, b: FileBindings, per: Seq<Option<RuleExplainV>>| {
            &&& #[trigger] built_from(s, *t, identifiers@, *profile_matches)
            &&& #[trigger] crate::binder::bound_from(b, *t, *binding_matches)
            &&& views(r.0@) == scope_infos(views(s.scopes@))
            &&& views(r.1@) == views(b.calls@).map_values(|c: ResolvedCallV| call_info(c))
            &&& #[trigger] per.len() == rules@.len()
            &&& forall|k: int| 0 <= k < per.len() ==>
                rule_explanation(s, *t, b, rules@[k], rule_matches@[k], match rule_filter { Some(w) => Some(w@), None => None },
                    *linked, source@, #[trigger] per[k])
            &&& views(r.2@) == somes(per)
        },
{
    let cs = chars_of(source);
    let structure = Structure::build(t, identifiers, profile_matches);
    proof { crate::structure::lemma_calls_bounded(structure, *t, identifiers@, *profile_matches); }
    let bindings = FileBindings::build(t, binding_matches);
    let scopes = scope_list(&structure);
    let calls = call_list(&bindings);
    let ghost mut per: Seq<Option<RuleExplainV>> = Seq::empty();
    let mut out: Vec<RuleExplain> = Vec::new();
    let n = rules.len();
    for k in 0..n
        invariant
            n == rules@.len(),
            n == rule_matches@.len(),
            cs@ == source@,
            structure.wf(),
            3 * structure.calls@.len() <= usize::MAX,
            forall|k: int| 0 <= k < rules@.len() ==> matches_ok(*t, #[trigger] rules@[k], rule_matches@[k]),
            per.len() == k,
            views(out@) == somes(per),
            forall|j: int| 0 <= j < k ==>
                rule_explanation(structure, *t, bindings, rules@[j], rule_matches@[j], match rule_filter { Some(w) => Some(w@), None => None },
                    *linked, source@, #[trigger] per[j]),
    {
        let e = explain_rule(&structure, t, &bindings, &rules[k], &rule_matches[k], rule_filter, linked, &cs);
        let ghost ev = explain_view(e);
        proof {
            let p2 = per.push(ev);
            assert forall|j: int| 0 <= j < k + 1 implies
                rule_explanation(structure, *t, bindings, rules@[j], rule_matches@[j], match rule_filter { Some(w) => Some(w@), None => None },
                    *linked, source@, #[trigger] p2[j]) by {
                if j < k { assert(p2[j] == per[j]); }
            }
            assert(p2.drop_last() =~= per);
            per = p2;
        }
        match e {
            Some(x) => {
                let ghost before = views(out@);
                let ghost xv = x@;
                out.push(x);
                assert(views(out@) =~= before.push(xv));
            },
            None => {},
        }
    }
    assert(per.len() == rules@.len());
    assert(built_from(structure, *t, identifiers@, *profile_matches));
    assert(crate::binder::bound_from(bindings, *t, *binding_matches));
    (scopes, calls, out)
}

/// The present values, in order.
pub open spec fn somes(s: Seq<Option<RuleExplainV>>) -> Seq<RuleExplainV>
    decreases s.len(),
{
    if s.len() == 0 {
        Seq::empty()
    } else {
        match s.last() {
            Some(x) => somes(s.drop_last()).push(x),
            None => somes(s.drop_last()),
        }
    }
}

} // verus!
