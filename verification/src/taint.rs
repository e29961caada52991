//! Intra-file taint analysis over one file, rule by rule.
//!
//! Everything grammar-specific comes from the language's taint profile
//! (scopes, assignments, parameters, calls, returns, identifier kinds) and
//! from each rule's source/sink/sanitizer queries or identity matchers.
//! Each access path carries a set of origins; a same-scope use is tainted
//! only by earlier writes; taint is tracked per access path with prefix and
//! extension overlap; function summaries connect flows across functions.

use vstd::prelude::*;
use crate::binder::{FileBindings, BindingMatches};
use crate::findings::{Finding, Span};
use crate::linker::{FileLinked, fl_view, lfr_view};
use crate::solve::{name_pos, lemma_name_pos_bounds, cts_view};
use crate::model::RuleSpec;
use crate::resolved::{CompiledResolvedMatcher, MatcherV, sinks_spec, sanitizers_spec, sources_spec, label_or};
use crate::sinks::{sinks_view, reported_as, Hit};
use crate::solve::{RuleRun, SourceMatch, TaintCtx};
use crate::sorting::{Located, views, ssort, dedup_loc, stable_sort, dedup_located};
use crate::state::{opt_view, TaintState, Origin, WitnessView};
use crate::structure::{Structure, ProfileMatches, matches_fit, built_from};
use crate::summary::{LinkedForRule, PortableFunctionSummary};
use crate::syntax::{SyntaxTree, QueryMatch, Capture};

verus! {

/// One source/sink/sanitizer query of a rule: the capture that marks the
/// relevant node, and the label for trace steps.
#[derive(Debug)]
pub struct TaintQuery {
    pub marker: String,
    pub label: Option<String>,
}

/// A taint rule ready to run: its queries (whose matches come per file)
/// and its identity matchers.
#[derive(Debug)]
pub struct TaintRule {
    pub rule: std::sync::Arc<RuleSpec>,
    pub sources: Vec<TaintQuery>,
    pub sinks: Vec<TaintQuery>,
    pub sanitizers: Vec<TaintQuery>,
    pub resolved_sources: Vec<CompiledResolvedMatcher>,
    pub resolved_sinks: Vec<CompiledResolvedMatcher>,
    pub resolved_sanitizers: Vec<CompiledResolvedMatcher>,
}

/// The matches of a rule's queries on one file, one list per query.
#[derive(Debug)]
pub struct TaintMatches {
    pub sources: Vec<Vec<QueryMatch>>,
    pub sinks: Vec<Vec<QueryMatch>>,
    pub sanitizers: Vec<Vec<QueryMatch>>,
}

/// A marked span with its label.
pub struct Marked {
    pub span: Span,
    pub label: String,
}

pub struct MarkedV {
    pub span: Span,
    pub label: Seq<char>,
}

impl View for Marked {
    type V = MarkedV;

    open spec fn view(&self) -> MarkedV {
        MarkedV { span: self.span, label: self.label@ }
    }
}

impl Located for Marked {
    open spec fn loc_of(v: MarkedV) -> Span {
        v.span
    }

    /// Start, then end, ascending.
    open spec fn key_of(v: MarkedV) -> u64 {
        (v.span.start_byte as int * 4294967296 + v.span.end_byte) as u64
    }

    fn loc(&self) -> (r: Span) {
        self.span
    }

    fn key(&self) -> (r: u64) {
        (self.span.start_byte as u64) * 4294967296u64 + (self.span.end_byte as u64)
    }
}

/// The marked captures of one match, in capture order.
pub open spec fn marked_in(t: SyntaxTree, cs: Seq<Capture>, marker: Seq<char>, label: Seq<char>) -> Seq<MarkedV>
    decreases cs.len(),
{
    if cs.len() == 0 {
        Seq::empty()
    } else {
        let prev = marked_in(t, cs.drop_last(), marker, label);
        if cs.last().name@ == marker {
            prev.push(MarkedV { span: t.nodes@[cs.last().node as int].span, label })
        } else {
            prev
        }
    }
}

/// The marked captures of a query's matches, in match order.
pub open spec fn query_marked(t: SyntaxTree, ms: Seq<QueryMatch>, marker: Seq<char>, label: Seq<char>) -> Seq<MarkedV>
    decreases ms.len(),
{
    if ms.len() == 0 {
        Seq::empty()
    } else {
        query_marked(t, ms.drop_last(), marker, label) + marked_in(t, ms.last().captures@, marker, label)
    }
}

/// The marked captures of the first `k` queries of a set.
pub open spec fn set_marked(t: SyntaxTree, qs: Seq<TaintQuery>, mss: Seq<Vec<QueryMatch>>, default_label: Seq<char>, k: int) -> Seq<MarkedV>
    decreases k,
{
    if k <= 0 {
        Seq::empty()
    } else {
        set_marked(t, qs, mss, default_label, k - 1)
            + query_marked(t, mss[k - 1]@, qs[k - 1].marker@, label_or(opt_view(qs[k - 1].label), default_label))
    }
}

/// The marked spans of a query set: ordered by span, one per span.
pub open spec fn collect_spec(t: SyntaxTree, qs: Seq<TaintQuery>, mss: Seq<Vec<QueryMatch>>, default_label: Seq<char>) -> Seq<(Span, Seq<char>)> {
    dedup_loc::<Marked>(ssort::<Marked>(set_marked(t, qs, mss, default_label, qs.len() as int)))
        .map_values(|m: MarkedV| (m.span, m.label))
}

/// All captures of the matches name nodes of the tree.
pub open spec fn all_fit(t: SyntaxTree, mss: Seq<Vec<QueryMatch>>) -> bool {
    forall|k: int| 0 <= k < mss.len() ==> matches_fit((#[trigger] mss[k])@, t.nodes@.len() as int)
}

/// Collect the marker-captured spans of a set of queries, with their
/// labels (the query's, else `default_label`).
pub fn collect_taint_query(t: &SyntaxTree, qs: &Vec<TaintQuery>, mss: &Vec<Vec<QueryMatch>>, default_label: &str) -> (r: Vec<(Span, String)>)
    requires
        qs@.len() == mss@.len(),
        all_fit(*t, mss@),
    ensures
        sinks_view(r@) == collect_spec(*t, qs@, mss@, default_label@),
{
    let mut raw: Vec<Marked> = Vec::new();
    let nq = qs.len();
    for k in 0..nq
        invariant
            nq == qs@.len(),
            nq == mss@.len(),
            all_fit(*t, mss@),
            views(raw@) == set_marked(*t, qs@, mss@, default_label@, k as int),
    {
        let q = &qs[k];
        let ms = &mss[k];
        let label = match &q.label {
            Some(l) => l.clone(),
            None => default_label.to_owned(),
        };
        let ghost lv = label@;
        let ghost before = views(raw@);
        assert(matches_fit(mss@[k as int]@, t.nodes@.len() as int));
        let nm = ms.len();
        for j in 0..nm
            invariant
                k < nq,
                nq == mss@.len(),
                *ms == mss@[k as int],
                nm == ms@.len(),
                lv == label@,
                matches_fit(ms@, t.nodes@.len() as int),
                views(raw@) == before + query_marked(*t, ms@.take(j as int), q.marker@, lv),
        {
            let m = &ms[j];
            assert(ms@.take(j + 1).drop_last() =~= ms@.take(j as int));
            assert(ms@.take(j + 1).last() == *m);
            let ghost mid = views(raw@);
            let nc = m.captures.len();
            for c in 0..nc
                invariant
                    nc == m.captures@.len(),
                    *m == ms@[j as int],
                    j < nm,
                    nm == ms@.len(),
                    lv == label@,
                    matches_fit(ms@, t.nodes@.len() as int),
                    views(raw@) == mid + marked_in(*t, m.captures@.take(c as int), q.marker@, lv),
            {
                let cap = &m.captures[c];
                assert(m.captures@.take(c + 1).drop_last() =~= m.captures@.take(c as int));
                assert(m.captures@.take(c + 1).last() == *cap);
                if cap.name == q.marker {
                    assert(ms@[j as int].captures@[c as int] == *cap);
                    let mk = Marked { span: t.nodes[cap.node].span, label: label.clone() };
                    let ghost rb = views(raw@);
                    let ghost mv = mk@;
                    raw.push(mk);
                    assert(views(raw@) =~= rb.push(mv));
                }
            }
            assert(m.captures@.take(nc as int) =~= m.captures@);
        }
        assert(ms@.take(nm as int) =~= ms@);
    }
    let sorted = stable_sort(raw);
    let deduped = dedup_located(sorted);
    let ghost dv = views(deduped@);
    let ghost f = |m: MarkedV| (m.span, m.label);
    let mut deduped = deduped;
    let mut out: Vec<(Span, String)> = Vec::new();
    let n = deduped.len();
    let mut i: usize = 0;
    while deduped.len() > 0
        invariant
            i + deduped@.len() == n,
            dv.len() == n,
            views(deduped@) == dv.skip(i as int),
            f == (|m: MarkedV| (m.span, m.label)),
            sinks_view(out@) == dv.take(i as int).map_values(f),
        decreases deduped@.len(),
    {
        let ghost rest = views(deduped@);
        let ghost vv = deduped@;
        let x = deduped.remove(0);
        assert(views(deduped@) =~= rest.drop_first());
        assert(rest[0] == vv[0]@);
        assert(x@ == dv[i as int]);
        let ghost ob = sinks_view(out@);
        let ghost xv = x@;
        out.push((x.span, x.label));
        assert(sinks_view(out@) =~= ob.push(f(xv)));
        assert(dv.take(i + 1).map_values(f) =~= dv.take(i as int).map_values(f).push(f(dv[i as int])));
        assert(dv.skip(i + 1) =~= dv.skip(i as int).drop_first());
        i += 1;
    }
    assert(dv.take(n as int) =~= dv);
    out
}

/// Sources as (span, label) pairs.
pub open spec fn sources_view(v: Seq<SourceMatch>) -> Seq<(Span, Seq<char>)> {
    v.map_values(|s: SourceMatch| (s.span, s.label@))
}

/// A rule's sources (query captures, then identity matches), sinks
/// (likewise) and sanitizers (likewise) on one file.
pub open spec fn spans_spec(t: SyntaxTree, b: FileBindings, r: TaintRule, tm: TaintMatches)
    -> (Seq<(Span, Seq<char>)>, Seq<(Span, Seq<char>)>, Seq<Span>) {
    (
        collect_spec(t, r.sources@, tm.sources@, "tainted data"@) + sources_spec(views(r.resolved_sources@), views(b.reads@)),
        collect_spec(t, r.sinks@, tm.sinks@, "dangerous sink"@) + sinks_spec(views(r.resolved_sinks@), views(b.calls@)),
        collect_spec(t, r.sanitizers@, tm.sanitizers@, Seq::empty()).map_values(|e: (Span, Seq<char>)| e.0)
            + sanitizers_spec(views(r.resolved_sanitizers@), views(b.calls@)),
    )
}

/// The queries and their match lists line up, and every capture names a
/// node.
pub open spec fn matches_ok(t: SyntaxTree, r: TaintRule, tm: TaintMatches) -> bool {
    &&& r.sources@.len() == tm.sources@.len()
    &&& r.sinks@.len() == tm.sinks@.len()
    &&& r.sanitizers@.len() == tm.sanitizers@.len()
    &&& all_fit(t, tm.sources@)
    &&& all_fit(t, tm.sinks@)
    &&& all_fit(t, tm.sanitizers@)
}

/// Collect a rule's source, sink and sanitizer spans.
pub fn rule_spans(t: &SyntaxTree, bindings: &FileBindings, r: &TaintRule, tm: &TaintMatches)
    -> (out: (Vec<SourceMatch>, Vec<(Span, String)>, Vec<Span>))
    requires
        matches_ok(*t, *r, *tm),
    ensures
        sources_view(out.0@) == spans_spec(*t, *bindings, *r, *tm).0,
        sinks_view(out.1@) == spans_spec(*t, *bindings, *r, *tm).1,
        out.2@ == spans_spec(*t, *bindings, *r, *tm).2,
{
    proof { reveal_strlit(""); }
    let mut src = collect_taint_query(t, &r.sources, &tm.sources, "tainted data");
    let more = crate::resolved::source_spans(&r.resolved_sources, bindings);
    let ghost sv0 = sinks_view(src@);
    let ghost mv = sinks_view(more@);
    let mut more = more;
    let mut k: usize = 0;
    let nm = more.len();
    let mut sources: Vec<SourceMatch> = Vec::new();
    let ns = src.len();
    let mut src_it = src;
    let mut i: usize = 0;
    while src_it.len() > 0
        invariant
            i + src_it@.len() == ns,
            sv0.len() == ns,
            sinks_view(src_it@) == sv0.skip(i as int),
            sources_view(sources@) == sv0.take(i as int),
        decreases src_it@.len(),
    {
        let ghost rest = sinks_view(src_it@);
        let ghost vv = src_it@;
        let (sp, label) = src_it.remove(0);
        assert(sinks_view(src_it@) =~= rest.drop_first());
        assert(rest[0] == (vv[0].0, vv[0].1@));
        let ghost ob = sources_view(sources@);
        let sm = SourceMatch { span: sp, label };
        let ghost smv = (sm.span, sm.label@);
        sources.push(sm);
        assert(sources_view(sources@) =~= ob.push(smv));
        assert(sv0.take(i + 1) =~= sv0.take(i as int).push(sv0[i as int]));
        assert(sv0.skip(i + 1) =~= sv0.skip(i as int).drop_first());
        i += 1;
    }
    assert(sv0.take(ns as int) =~= sv0);
    while more.len() > 0
        invariant
            k + more@.len() == nm,
            mv.len() == nm,
            sinks_view(more@) == mv.skip(k as int),
            sources_view(sources@) == sv0 + mv.take(k as int),
        decreases more@.len(),
    {
        let ghost rest = sinks_view(more@);
        let ghost vv = more@;
        let (sp, label) = more.remove(0);
        assert(sinks_view(more@) =~= rest.drop_first());
        assert(rest[0] == (vv[0].0, vv[0].1@));
        let ghost ob = sources_view(sources@);
        let sm = SourceMatch { span: sp, label };
        let ghost smv = (sm.span, sm.label@);
        sources.push(sm);
        assert(sources_view(sources@) =~= ob.push(smv));
        assert(mv.take(k + 1) =~= mv.take(k as int).push(mv[k as int]));
        assert(mv.skip(k + 1) =~= mv.skip(k as int).drop_first());
        k += 1;
    }
    assert(mv.take(nm as int) =~= mv);

    let mut sinks = collect_taint_query(t, &r.sinks, &tm.sinks, "dangerous sink");
    let more_sinks = crate::resolved::sink_spans(&r.resolved_sinks, bindings);
    let ghost s0 = sinks_view(sinks@);
    let ghost ms2 = sinks_view(more_sinks@);
    let mut more_sinks = more_sinks;
    let mut q: usize = 0;
    let nq = more_sinks.len();
    while more_sinks.len() > 0
        invariant
            q + more_sinks@.len() == nq,
            ms2.len() == nq,
            sinks_view(more_sinks@) == ms2.skip(q as int),
            sinks_view(sinks@) == s0 + ms2.take(q as int),
        decreases more_sinks@.len(),
    {
        let ghost rest = sinks_view(more_sinks@);
        let ghost vv = more_sinks@;
        let x = more_sinks.remove(0);
        assert(sinks_view(more_sinks@) =~= rest.drop_first());
        assert(rest[0] == (vv[0].0, vv[0].1@));
        let ghost ob = sinks_view(sinks@);
        let ghost xv = (x.0, x.1@);
        sinks.push(x);
        assert(sinks_view(sinks@) =~= ob.push(xv));
        assert(ms2.take(q + 1) =~= ms2.take(q as int).push(ms2[q as int]));
        assert(ms2.skip(q + 1) =~= ms2.skip(q as int).drop_first());
        q += 1;
    }
    assert(ms2.take(nq as int) =~= ms2);

    proof { reveal_strlit(""); }
    assert(""@ =~= Seq::<char>::empty());
    let san_marked = collect_taint_query(t, &r.sanitizers, &tm.sanitizers, "");
    let ghost smv0 = sinks_view(san_marked@);
    let mut sanitizers: Vec<Span> = Vec::new();
    let nsm = san_marked.len();
    for j in 0..nsm
        invariant
            nsm == san_marked@.len(),
            smv0 == sinks_view(san_marked@),
            sanitizers@ == smv0.take(j as int).map_values(|e: (Span, Seq<char>)| e.0),
    {
        sanitizers.push(san_marked[j].0);
        assert(smv0.take(j + 1).map_values(|e: (Span, Seq<char>)| e.0) =~= smv0.take(j as int).map_values(|e: (Span, Seq<char>)| e.0).push(smv0[j as int].0));
    }
    assert(smv0.take(nsm as int) =~= smv0);
    let more_san = crate::resolved::sanitizer_spans(&r.resolved_sanitizers, bindings);
    let ghost before = sanitizers@;
    for j in 0..more_san.len()
        invariant
            sanitizers@ == before + more_san@.take(j as int),
    {
        sanitizers.push(more_san[j]);
        assert(more_san@.take(j + 1) =~= more_san@.take(j as int).push(more_san@[j as int]));
    }
    assert(more_san@.take(more_san@.len() as int) =~= more_san@);
    assert(collect_spec(*t, r.sanitizers@, tm.sanitizers@, ""@) == collect_spec(*t, r.sanitizers@, tm.sanitizers@, Seq::<char>::empty()));
    (sources, sinks, sanitizers)
}

/// Whether any rule uses identity matchers (and so needs the binder).
pub open spec fn needs_binder_spec(rules: Seq<TaintRule>) -> bool {
    exists|i: int| 0 <= i < rules.len() && ((#[trigger] rules[i]).resolved_sources@.len() > 0
        || rules[i].resolved_sinks@.len() > 0 || rules[i].resolved_sanitizers@.len() > 0)
}

pub fn needs_binder(rules: &Vec<TaintRule>) -> (r: bool)
    ensures
        r == needs_binder_spec(rules@),
{
    let n = rules.len();
    for i in 0..n
        invariant
            n == rules@.len(),
            forall|j: int| 0 <= j < i ==> !((#[trigger] rules@[j]).resolved_sources@.len() > 0
                || rules@[j].resolved_sinks@.len() > 0 || rules@[j].resolved_sanitizers@.len() > 0),
    {
        let r = &rules[i];
        if r.resolved_sources.len() > 0 || r.resolved_sinks.len() > 0 || r.resolved_sanitizers.len() > 0 {
            return true;
        }
    }
    false
}

/// Bindings with nothing bound.
pub fn empty_bindings() -> (b: FileBindings)
    ensures
        b.module_decl is None,
        b.imports@.len() == 0,
        b.exports@.len() == 0,
        b.locals@.len() == 0,
        b.calls@.len() == 0,
        b.reads@.len() == 0,
{
    FileBindings { module_decl: None, imports: Vec::new(), exports: Vec::new(), locals: Vec::new(), calls: Vec::new(), reads: Vec::new() }
}

/// The summaries linked for rule `id`, if any.
pub open spec fn rule_linked(fl: FileLinked, id: Seq<char>) -> Seq<(String, PortableFunctionSummary)> {
    match name_pos(fl_view(fl), id) {
        Some(i) => fl.rules@[i].1.entries@,
        None => Seq::empty(),
    }
}

/// A rule has something to taint (a source, a parameter, or a linked
/// callee) and somewhere for it to go (a sink, or a linked callee whose
/// parameter reaches a sink).
pub open spec fn worth_running(structure: Structure, nsources: int, nsinks: int, linked: Seq<(String, PortableFunctionSummary)>) -> bool {
    &&& (nsources > 0 || structure.params@.len() > 0 || linked.len() > 0)
    &&& (nsinks > 0 || exists|i: int| 0 <= i < linked.len() && (#[trigger] linked[i]).1.param_to_sink@.len() > 0)
}

/// `fs` are the findings of a rule run solved from an empty state: the
/// hits of its sinks (and linked callees) in the solved state.
pub open spec fn solved_findings(structure: Structure, sources: Seq<SourceMatch>, sinks: Seq<(Span, String)>, sans: Seq<Span>,
    linked: Seq<(String, PortableFunctionSummary)>, rule: RuleSpec, lang: Seq<char>, path: Seq<char>, src: Seq<char>, fs: Seq<Finding>) -> bool {
    let ctx = TaintCtx { structure, sources, sanitizers: sans };
    exists|s0: TaintState, s1: TaintState, cts1: Seq<(Span, Map<Origin, WitnessView>)>, c1: int| {
        &&& #[trigger] ctx.solved(linked, s0, Seq::empty(), 0, s1, cts1, c1)
        &&& s0.cells@.len() == 0
        &&& {
            let h = ctx.calls_hits(s1.cells@, cts1, src, ctx.local_hits(s1.cells@, cts1, src, sinks_view(sinks)),
                linked, structure.calls@.len() as int);
            &&& fs.len() == h.len()
            &&& forall|i: int| 0 <= i < fs.len() ==> reported_as(#[trigger] fs[i], rule, lang, path, src, h[i])
        }
    }
}

/// What one rule contributes on one file: with its spans as collected,
/// nothing when it is not worth running, else its solved findings.
pub open spec fn rule_outcome(structure: Structure, t: SyntaxTree, b: FileBindings, r: TaintRule, tm: TaintMatches,
    fl: FileLinked, lang: Seq<char>, path: Seq<char>, src: Seq<char>, fs: Seq<Finding>) -> bool {
    exists|sources: Seq<SourceMatch>, sinks: Seq<(Span, String)>, sans: Seq<Span>| {
        &&& #[trigger] sources_view(sources) == spans_spec(t, b, r, tm).0
        &&& #[trigger] sinks_view(sinks) == spans_spec(t, b, r, tm).1
        &&& #[trigger] sans.len() == spans_spec(t, b, r, tm).2.len()
        &&& sans == spans_spec(t, b, r, tm).2
        &&& if worth_running(structure, sources.len() as int, sinks.len() as int, rule_linked(fl, r.rule.id@)) {
            solved_findings(structure, sources, sinks, sans, rule_linked(fl, r.rule.id@), *r.rule, lang, path, src, fs)
        } else {
            fs.len() == 0
        }
    }
}

fn any_param_sink(l: &LinkedForRule) -> (r: bool)
    ensures
        r == exists|i: int| 0 <= i < l.entries@.len() && (#[trigger] l.entries@[i]).1.param_to_sink@.len() > 0,
{
    let n = l.entries.len();
    for i in 0..n
        invariant
            n == l.entries@.len(),
            forall|j: int| 0 <= j < i ==> (#[trigger] l.entries@[j]).1.param_to_sink@.len() == 0,
    {
        if l.entries[i].1.param_to_sink.len() > 0 {
            return true;
        }
    }
    false
}

/// Solve one taint rule on one file and append its findings.
pub fn run_rule(structure: &Structure, t: &SyntaxTree, bindings: &FileBindings, r: &TaintRule, tm: &TaintMatches,
    linked: &FileLinked, rel_path: &str, source: &str, lang_id: &str, out: &mut Vec<Finding>)
    requires
        structure.wf(),
        3 * structure.calls@.len() <= usize::MAX,
        matches_ok(*t, *r, *tm),
    ensures
        final(out)@.take(old(out)@.len() as int) == old(out)@,
        final(out)@.len() >= old(out)@.len(),
        rule_outcome(*structure, *t, *bindings, *r, *tm, *linked, lang_id@, rel_path@, source@, final(out)@.skip(old(out)@.len() as int)),
{
    let empty = LinkedForRule::new();
    let rule_linked_ref: &LinkedForRule = match linked.position(r.rule.id.as_str()) {
        Some(i) => &linked.rules[i].1,
        None => &empty,
    };
    assert(rule_linked_ref.entries@ == rule_linked(*linked, r.rule.id@)) by {
        if name_pos(fl_view(*linked), r.rule.id@) is None {
            assert(rule_linked_ref.entries@ =~= Seq::<(String, PortableFunctionSummary)>::empty());
        }
    }
    let (sources, sinks, sanitizers) = rule_spans(t, bindings, r, tm);
    let ghost srcs = sources@;
    let ghost snks = sinks@;
    let ghost sans = sanitizers@;
    let has_taint = sources.len() > 0 || structure.params.len() > 0 || rule_linked_ref.entries.len() > 0;
    let has_sink = sinks.len() > 0 || any_param_sink(rule_linked_ref);
    if !has_taint || !has_sink {
        assert(out@.skip(old(out)@.len() as int) =~= Seq::<Finding>::empty());
        assert(out@.take(old(out)@.len() as int) =~= old(out)@);
        assert(!worth_running(*structure, srcs.len() as int, snks.len() as int, rule_linked(*linked, r.rule.id@)));
        assert(rule_outcome(*structure, *t, *bindings, *r, *tm, *linked, lang_id@, rel_path@, source@, out@.skip(old(out)@.len() as int)));
        return;
    }
    let mut run = RuleRun::new(structure, sources, sinks, sanitizers, rule_linked_ref);
    let ghost s0 = run.state;
    assert(run.cts() =~= Seq::<(Span, Map<Origin, WitnessView>)>::empty());
    run.solve();
    let ghost base = out@;
    run.report(rel_path, source, &r.rule, lang_id, out);
    proof {
        let ctx = TaintCtx { structure: *structure, sources: srcs, sanitizers: sans };
        assert(ctx == run.ctx());
        let fs = out@.skip(base.len() as int);
        let h = ctx.calls_hits(run.state.cells@, run.cts(), source@,
            ctx.local_hits(run.state.cells@, run.cts(), source@, sinks_view(snks)), rule_linked(*linked, r.rule.id@), structure.calls@.len() as int);
        assert forall|i: int| 0 <= i < fs.len() implies reported_as(#[trigger] fs[i], *r.rule, lang_id@, rel_path@, source@, h[i]) by {
            assert(fs[i] == out@[base.len() + i]);
        }
        assert(ctx.solved(rule_linked(*linked, r.rule.id@), s0, Seq::empty(), 0, run.state, run.cts(), run.external_counter as int));
        assert(solved_findings(*structure, srcs, snks, sans, rule_linked(*linked, r.rule.id@), *r.rule, lang_id@, rel_path@, source@, fs));
        assert(worth_running(*structure, srcs.len() as int, snks.len() as int, rule_linked(*linked, r.rule.id@)));
        assert(rule_outcome(*structure, *t, *bindings, *r, *tm, *linked, lang_id@, rel_path@, source@, fs));
    }
}

/// The bindings a taint run uses: built when some rule needs them, else
/// empty.
pub open spec fn bindings_for(b: FileBindings, needs: bool, t: SyntaxTree, m: BindingMatches) -> bool {
    if needs {
        crate::binder::bound_from(b, t, m)
    } else {
        &&& b.module_decl is None
        &&& b.imports@.len() == 0
        &&& b.exports@.len() == 0
        &&& b.locals@.len() == 0
        &&& b.calls@.len() == 0
        &&& b.reads@.len() == 0
    }
}

/// Run all taint rules over one file (`rule_matches[k]` holding the
/// matches of rule `k`'s queries), applying the cross-file summaries
/// `linked` reachable from it, and append their findings: for each rule in
/// order, what [`run_rule`] contributes.
pub fn run_taint(rel_path: &str, source: &str, t: &SyntaxTree, lang_id: &str, identifiers: &Vec<String>,
    profile_matches: &ProfileMatches, binding_matches: &BindingMatches, rules: &Vec<TaintRule>,
    rule_matches: &Vec<TaintMatches>, linked: &FileLinked, out: &mut Vec<Finding>)
    requires
        t.wf(),
        profile_matches.fits(*t),
        binding_matches.fits(*t),
        3 * profile_matches.calls@.len() <= usize::MAX,
        rules@.len() == rule_matches@.len(),
        forall|k: int| 0 <= k < rules@.len() ==> matches_ok(*t, #[trigger] rules@[k], rule_matches@[k]),
    ensures
        rules@.len() == 0 ==> final(out)@ == old(out)@,
        rules@.len() > 0 ==> exists|s: Structure, b: FileBindings, chunks: Seq<Seq<Finding>>| {
            &&& #[trigger] built_from(s, *t, identifiers@, *profile_matches)
            &&& #[trigger] bindings_for(b, needs_binder_spec(rules@), *t, *binding_matches)
            &&& #[trigger] chunks.len() == rules@.len()
            &&& final(out)@ == old(out)@ + chunks.flatten_alt()
            &&& forall|k: int| 0 <= k < chunks.len() ==>
                rule_outcome(s, *t, b, rules@[k], rule_matches@[k], *linked, lang_id@, rel_path@, source@, #[trigger] chunks[k])
        },
{
    if rules.len() == 0 {
        return;
    }
    let structure = Structure::build(t, identifiers, profile_matches);
    proof { crate::structure::lemma_calls_bounded(structure, *t, identifiers@, *profile_matches); }
    let needs = needs_binder(rules);
    let bindings = if needs {
        FileBindings::build(t, binding_matches)
    } else {
        empty_bindings()
    };
    assert(bindings_for(bindings, needs_binder_spec(rules@), *t, *binding_matches));
    let ghost mut chunks: Seq<Seq<Finding>> = Seq::empty();
    let n = rules.len();
    for k in 0..n
        invariant
            n == rules@.len(),
            n == rule_matches@.len(),
            structure.wf(),
            3 * structure.calls@.len() <= usize::MAX,
            forall|k: int| 0 <= k < rules@.len() ==> matches_ok(*t, #[trigger] rules@[k], rule_matches@[k]),
            chunks.len() == k,
            bindings_for(bindings, needs_binder_spec(rules@), *t, *binding_matches),
            built_from(structure, *t, identifiers@, *profile_matches),
            out@ == old(out)@ + chunks.flatten_alt(),
            forall|j: int| 0 <= j < k ==>
                rule_outcome(structure, *t, bindings, rules@[j], rule_matches@[j], *linked, lang_id@, rel_path@, source@, #[trigger] chunks[j]),
    {
        let ghost before = out@;
        run_rule(&structure, t, &bindings, &rules[k], &rule_matches[k], linked, rel_path, source, lang_id, out);
        proof {
            let fs = out@.skip(before.len() as int);
            let c2 = chunks.push(fs);
            assert(c2.drop_last() =~= chunks);
            assert(out@ =~= before + fs);
            assert(c2.flatten_alt() =~= chunks.flatten_alt() + fs);
            assert forall|j: int| 0 <= j < k + 1 implies
                rule_outcome(structure, *t, bindings, rules@[j], rule_matches@[j], *linked, lang_id@, rel_path@, source@, #[trigger] c2[j]) by {
                if j < k { assert(c2[j] == chunks[j]); }
            }
            chunks = c2;
        }
    }
    assert(built_from(structure, *t, identifiers@, *profile_matches));
    assert(chunks.len() == rules@.len());
}

} // verus!
