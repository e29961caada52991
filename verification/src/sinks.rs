//! Sink evaluation: for each sink, resolve the strongest available taint
//! (a reportable origin, else a `Param` origin stitched back to a source
//! through the owning function's call sites), then assemble a
//! forward-ordered trace.

use vstd::prelude::*;
use crate::engine::{snippet_of, snippet_in, base_finding, is_base_finding};
use crate::findings::{Finding, Span, TraceStep, TraceStepView, trace_view};
use crate::model::RuleSpec;
use crate::solve::{RuleRun, TaintCtx, first_reportable, first_source_pos, foreign_views, portable_to_step};
use crate::state::{Origin, Origins, Step, StepView, WitnessView, Cell, ordered, lemma_ordered, sorted_views, vmap, lemma_vmap_at, steps_view, copy_steps, extend_steps, view_entries, copy_opt_string};
use crate::structure::CallSite;
use crate::summary::{PortableFunctionSummary, PortableStepView, ParamSinkView, linked_pos};
use crate::text::{cat, cat3, chars_of};

verus! {

/// Depth of call-site stitching for param-origin taint (f→g→h).
pub const MAX_STITCH_DEPTH: usize = 3;

/// The step recording an argument passed to `fname`.
pub open spec fn passed_step(fname: Seq<char>, sp: Span) -> StepView {
    StepView { label: "passed to `"@ + fname + "`"@, span: sp, file: None, snippet: None }
}

impl TaintCtx {
    /// Connect taint of parameter `index` of function scope `scope` back to
    /// a source through the function's call sites (at most
    /// `MAX_STITCH_DEPTH` levels), returning the full provenance ending
    /// with `tail`.
    pub open spec fn stitch_spec(&self, cells: Seq<Cell>, cts: Seq<(Span, Map<Origin, WitnessView>)>,
        scope: usize, index: usize, tail: Seq<StepView>, depth: nat) -> Option<Seq<StepView>>
        decreases MAX_STITCH_DEPTH - depth, 2 * self.structure.calls@.len() + 2, 0nat,
    {
        if depth >= MAX_STITCH_DEPTH {
            None
        } else if scope >= self.structure.scopes@.len() || self.structure.scopes@[scope as int].name is None {
            None
        } else {
            self.stitch_calls(cells, cts, scope, index, tail, depth, 0)
        }
    }

    /// `stitch_spec` over the call sites from `j` on.
    pub open spec fn stitch_calls(&self, cells: Seq<Cell>, cts: Seq<(Span, Map<Origin, WitnessView>)>,
        scope: usize, index: usize, tail: Seq<StepView>, depth: nat, j: nat) -> Option<Seq<StepView>>
        decreases MAX_STITCH_DEPTH - depth, 2 * (self.structure.calls@.len() - j) + 1, 0nat,
    {
        if depth >= MAX_STITCH_DEPTH || j >= self.structure.calls@.len()
            || scope >= self.structure.scopes@.len() || self.structure.scopes@[scope as int].name is None {
            None
        } else {
            let fname = self.structure.scopes@[scope as int].name->0@;
            let call = self.structure.calls@[j as int];
            if call.callee matches Some(c) && c@ == fname && index < call.args@.len() {
                let es = ordered(self.taint_in(cells, cts, call.args@[index as int]));
                let passed = passed_step(fname, call.span);
                match first_reportable(es) {
                    Some(w) => Some(w.1.steps.push(passed) + tail),
                    None => self.stitch_params(cells, cts, scope, index, tail, depth, j, es),
                }
            } else {
                self.stitch_calls(cells, cts, scope, index, tail, depth, j + 1)
            }
        }
    }

    /// Follow the `Param` origins of `rest` (in order) one level up, then
    /// move on to the next call site.
    pub open spec fn stitch_params(&self, cells: Seq<Cell>, cts: Seq<(Span, Map<Origin, WitnessView>)>,
        scope: usize, index: usize, tail: Seq<StepView>, depth: nat, j: nat, rest: Seq<(Origin, WitnessView)>) -> Option<Seq<StepView>>
        decreases MAX_STITCH_DEPTH - depth, 2 * (self.structure.calls@.len() - j), rest.len(),
    {
        if depth >= MAX_STITCH_DEPTH || j >= self.structure.calls@.len()
            || scope >= self.structure.scopes@.len() || self.structure.scopes@[scope as int].name is None {
            None
        } else if rest.len() == 0 {
            self.stitch_calls(cells, cts, scope, index, tail, depth, j + 1)
        } else {
            let fname = self.structure.scopes@[scope as int].name->0@;
            let call = self.structure.calls@[j as int];
            match rest[0].0 {
                Origin::Param { scope: s2, index: i2 } =>
                    match self.stitch_spec(cells, cts, s2, i2, seq![passed_step(fname, call.span)] + tail, depth + 1) {
                        Some(x) => Some(x),
                        None => self.stitch_params(cells, cts, scope, index, tail, depth, j, rest.drop_first()),
                    },
                _ => self.stitch_params(cells, cts, scope, index, tail, depth, j, rest.drop_first()),
            }
        }
    }
}

impl<'a> RuleRun<'a> {
    /// Try to connect a param-origin taint at a sink back to a real source
    /// through call sites of the owning function.
    pub fn stitch(&self, scope: usize, index: usize, tail: &Vec<Step>, depth: usize) -> (r: Option<Vec<Step>>)
        requires
            self.wf(),
        ensures
            match r {
                Some(v) => self.ctx().stitch_spec(self.state.cells@, self.cts(), scope, index, steps_view(tail@), depth as nat) == Some(steps_view(v@)),
                None => self.ctx().stitch_spec(self.state.cells@, self.cts(), scope, index, steps_view(tail@), depth as nat) is None,
            },
        decreases MAX_STITCH_DEPTH - depth,
    {
        let ghost ctx = self.ctx();
        let ghost cells = self.state.cells@;
        let ghost cts = self.cts();
        let ghost tv = steps_view(tail@);
        if depth >= MAX_STITCH_DEPTH {
            return None;
        }
        let structure = self.structure;
        if scope >= structure.scopes.len() {
            return None;
        }
        let fname = match &structure.scopes[scope].name {
            Some(f) => f,
            None => return None,
        };
        let n = structure.calls.len();
        for j in 0..n
            invariant
                self.wf(),
                ctx == self.ctx(),
                cells == self.state.cells@,
                cts == self.cts(),
                structure == self.structure,
                n == structure.calls@.len(),
                depth < MAX_STITCH_DEPTH,
                scope < structure.scopes@.len(),
                structure.scopes@[scope as int].name == Some(*fname),
                tv == steps_view(tail@),
                ctx.stitch_spec(cells, cts, scope, index, tv, depth as nat) == ctx.stitch_calls(cells, cts, scope, index, tv, depth as nat, j as nat),
        {
            let call = &structure.calls[j];
            let matches = match &call.callee {
                Some(c) => *c == *fname,
                None => false,
            };
            if matches && index < call.args.len() {
                let arg = &call.args[index];
                let ao = self.expr_taint(arg, arg.start_byte);
                proof { lemma_ordered(ao.entries@); }
                let ghost es = ordered(ao@);
                let passed = Step::local(cat3("passed to `", fname.as_str(), "`"), call.span);
                assert(passed@ == passed_step(fname@, call.span));
                match first_source_pos(&ao) {
                    Some(p) => {
                        let mut steps = copy_steps(&ao.entries[p].1.steps);
                        steps.push(passed);
                        let ghost s1 = steps_view(steps@);
                        extend_steps(&mut steps, tail);
                        proof {
                            assert(steps_view(steps@) =~= s1 + tv);
                            assert(s1 =~= ao.entries@[p as int].1@.steps.push(passed@));
                        }
                        return Some(steps);
                    },
                    None => {},
                }
                // Else follow a param-tainted argument one level up.
                let m = ao.entries.len();
                assert(es.skip(0) =~= es);
                for e in 0..m
                    invariant
                        self.wf(),
                        ctx == self.ctx(),
                        cells == self.state.cells@,
                        cts == self.cts(),
                        structure == self.structure,
                        n == structure.calls@.len(),
                        j < n,
                        depth < MAX_STITCH_DEPTH,
                        scope < structure.scopes@.len(),
                        structure.scopes@[scope as int].name == Some(*fname),
                        tv == steps_view(tail@),
                        m == ao.entries@.len(),
                        ao.wf(),
                        es == view_entries(ao.entries@),
                        passed@ == passed_step(fname@, call.span),
                        *call == structure.calls@[j as int],
                        ctx.stitch_spec(cells, cts, scope, index, tv, depth as nat) == ctx.stitch_params(cells, cts, scope, index, tv, depth as nat, j as nat, es.skip(e as int)),
                {
                    assert(es.skip(e as int)[0] == es[e as int]);
                    assert(es.skip(e as int).drop_first() =~= es.skip(e + 1));
                    match ao.entries[e].0 {
                        Origin::Param { scope: s2, index: i2 } => {
                            let mut deeper: Vec<Step> = Vec::new();
                            deeper.push(passed.clone());
                            extend_steps(&mut deeper, tail);
                            assert(steps_view(deeper@) =~= seq![passed_step(fname@, call.span)] + tv);
                            match self.stitch(s2, i2, &deeper, depth + 1) {
                                Some(steps) => return Some(steps),
                                None => {},
                            }
                        },
                        _ => {},
                    }
                }
                assert(es.skip(m as int).len() == 0);
            }
        }
        None
    }
}

/// A provenance step as it appears in a trace: foreign steps carry a baked
/// snippet, local steps read the live source.
pub open spec fn trace_step_of(src: Seq<char>, s: StepView) -> TraceStepView {
    TraceStepView {
        label: s.label,
        span: s.span,
        snippet: match s.snippet {
            Some(x) => x,
            None => snippet_of(src, s.span),
        },
        file: s.file,
    }
}

/// The closing step of every trace.
pub open spec fn sink_trace_step(src: Seq<char>, sink_span: Span, sink_label: Seq<char>) -> TraceStepView {
    TraceStepView { label: "sink: "@ + sink_label, span: sink_span, snippet: snippet_of(src, sink_span), file: None }
}

/// The trace for provenance `steps`, closed by the sink step.
pub open spec fn build_trace_spec(src: Seq<char>, steps: Seq<StepView>, sink_span: Span, sink_label: Seq<char>) -> Seq<TraceStepView> {
    steps.map_values(|s: StepView| trace_step_of(src, s)).push(sink_trace_step(src, sink_span, sink_label))
}

/// Two trace steps on the same line with the same label.
pub open spec fn same_line_label(a: TraceStepView, b: TraceStepView) -> bool {
    a.span.start.line == b.span.start.line && a.label == b.label
}

/// Drop each step that repeats the line and label of the step kept before it.
pub open spec fn dedup_trace(t: Seq<TraceStepView>) -> Seq<TraceStepView>
    decreases t.len(),
{
    if t.len() == 0 {
        t
    } else {
        let d = dedup_trace(t.drop_last());
        if d.len() > 0 && same_line_label(d.last(), t.last()) {
            d
        } else {
            d.push(t.last())
        }
    }
}

/// The sink step of a cross-file trace lives in the dependency: its file and
/// snippet come from the summary.
pub open spec fn retag_last(t: Seq<TraceStepView>, ss: PortableStepView) -> Seq<TraceStepView> {
    t.update(t.len() - 1, TraceStepView { label: t.last().label, span: t.last().span, snippet: ss.snippet, file: Some(ss.file) })
}

/// A reported sink: where the finding is located, and its trace.
pub type Hit = (Span, Seq<TraceStepView>);

/// A finding was already reported at the bytes of `sp`.
pub open spec fn already(h: Seq<Hit>, sp: Span) -> bool {
    exists|i: int| 0 <= i < h.len() && (#[trigger] h[i]).0.start_byte == sp.start_byte && h[i].0.end_byte == sp.end_byte
}

/// Record a hit unless its location was reported before.
pub open spec fn add_hit(h: Seq<Hit>, sp: Span, t: Seq<TraceStepView>) -> Seq<Hit> {
    if already(h, sp) { h } else { h.push((sp, t)) }
}

/// Sinks as (span, label) pairs.
pub open spec fn sinks_view(v: Seq<(Span, String)>) -> Seq<(Span, Seq<char>)> {
    v.map_values(|e: (Span, String)| (e.0, e.1@))
}

/// The trace of a cross-file flow: caller-side provenance, the call, the
/// callee-side steps, the sink inside the dependency.
pub open spec fn cross_trace(src: Seq<char>, w: Seq<StepView>, callee: Seq<char>, call_span: Span, ps: ParamSinkView) -> Seq<TraceStepView> {
    dedup_trace(retag_last(
        build_trace_spec(src, w.push(passed_step(callee, call_span)) + foreign_views(ps.steps), ps.sink_step.span, ps.sink_label),
        ps.sink_step,
    ))
}

/// `f` is the finding of `rule` for hit `h`.
pub open spec fn reported_as(f: Finding, rule: RuleSpec, lang: Seq<char>, path: Seq<char>, src: Seq<char>, h: Hit) -> bool {
    &&& is_base_finding(f, rule, lang, path, src, h.0, rule.message@)
    &&& trace_view(f.trace@) == h.1
}

impl TaintCtx {
    /// Whether the sink at `sp` is reported, and why: a source reaches it;
    /// else a parameter stitched back to a source does; else only an
    /// unstitched parameter reaches it; else it is sanitized; else nothing
    /// tainted reaches it.
    pub open spec fn verdict(&self, cells: Seq<Cell>, cts: Seq<(Span, Map<Origin, WitnessView>)>, sp: Span) -> (bool, Seq<char>) {
        let es = ordered(self.taint_in(cells, cts, sp));
        if first_reportable(es) is Some {
            (true, "a source reaches this sink"@)
        } else if self.first_stitch(cells, cts, es) is Some {
            (true, "a parameter stitched back to a source reaches this sink"@)
        } else if exists|i: int| 0 <= i < es.len() && (#[trigger] es[i]).0 is Param {
            (false, "reached only by an unstitched parameter (no source-tainted call site)"@)
        } else if crate::solve::sanitized_by(self.sanitizers, sp) {
            (false, "the sink is sanitized"@)
        } else {
            (false, "no tainted data reaches this sink"@)
        }
    }

    /// The first `Param` origin of `es`, in order, that stitches back to a
    /// source, with its full provenance.
    pub open spec fn first_stitch(&self, cells: Seq<Cell>, cts: Seq<(Span, Map<Origin, WitnessView>)>,
        es: Seq<(Origin, WitnessView)>) -> Option<Seq<StepView>>
        decreases es.len(),
    {
        if es.len() == 0 {
            None
        } else {
            match es[0].0 {
                Origin::Param { scope, index } => match self.stitch_spec(cells, cts, scope, index, es[0].1.steps, 0) {
                    Some(x) => Some(x),
                    None => self.first_stitch(cells, cts, es.drop_first()),
                },
                _ => self.first_stitch(cells, cts, es.drop_first()),
            }
        }
    }

    /// Provenance reaching a sink: the first reportable origin's steps, else
    /// the first parameter origin stitched back to a source.
    pub open spec fn sink_steps(&self, cells: Seq<Cell>, cts: Seq<(Span, Map<Origin, WitnessView>)>, sp: Span) -> Option<Seq<StepView>> {
        let es = ordered(self.taint_in(cells, cts, sp));
        match first_reportable(es) {
            Some(w) => Some(w.1.steps),
            None => self.first_stitch(cells, cts, es),
        }
    }

    /// The hits of the sinks, in order, each location reported once.
    pub open spec fn local_hits(&self, cells: Seq<Cell>, cts: Seq<(Span, Map<Origin, WitnessView>)>, src: Seq<char>,
        sinks: Seq<(Span, Seq<char>)>) -> Seq<Hit>
        decreases sinks.len(),
    {
        if sinks.len() == 0 {
            Seq::empty()
        } else {
            let h = self.local_hits(cells, cts, src, sinks.drop_last());
            let sp = sinks.last().0;
            match self.sink_steps(cells, cts, sp) {
                Some(st) => add_hit(h, sp, dedup_trace(build_trace_spec(src, st, sp, sinks.last().1))),
                None => h,
            }
        }
    }

    /// Hits of the parameter-to-sink flows `pss` of the callee of call `c`:
    /// a reportable argument passed at such a parameter.
    pub open spec fn ps_hits(&self, cells: Seq<Cell>, cts: Seq<(Span, Map<Origin, WitnessView>)>, src: Seq<char>,
        h0: Seq<Hit>, c: CallSite, callee: Seq<char>, pss: Seq<ParamSinkView>) -> Seq<Hit>
        decreases pss.len(),
    {
        if pss.len() == 0 {
            h0
        } else {
            let h = self.ps_hits(cells, cts, src, h0, c, callee, pss.drop_last());
            let ps = pss.last();
            if ps.index < c.args@.len() {
                let arg = c.args@[ps.index as int];
                match first_reportable(ordered(self.taint_in(cells, cts, arg))) {
                    Some(w) => add_hit(h, arg, cross_trace(src, w.1.steps, callee, c.span, ps)),
                    None => h,
                }
            } else {
                h
            }
        }
    }

    /// Cross-file hits over the first `k` call sites whose callee is linked.
    pub open spec fn calls_hits(&self, cells: Seq<Cell>, cts: Seq<(Span, Map<Origin, WitnessView>)>, src: Seq<char>,
        h0: Seq<Hit>, linked: Seq<(String, PortableFunctionSummary)>, k: int) -> Seq<Hit>
        decreases k,
    {
        if k <= 0 {
            h0
        } else {
            let h = self.calls_hits(cells, cts, src, h0, linked, k - 1);
            let c = self.structure.calls@[k - 1];
            match c.callee {
                Some(name) => match linked_pos(linked, name@) {
                    Some(i) => self.ps_hits(cells, cts, src, h, c, name@, linked[i].1@.param_to_sink),
                    None => h,
                },
                None => h,
            }
        }
    }
}

/// The trace for provenance `steps` ending at a sink; `cs` holds the
/// characters of the source.
pub fn build_trace(cs: &Vec<char>, steps: &Vec<Step>, sink_span: &Span, sink_label: &str) -> (r: Vec<TraceStep>)
    ensures
        trace_view(r@) == build_trace_spec(cs@, steps_view(steps@), *sink_span, sink_label@),
{
    let ghost f = |s: StepView| trace_step_of(cs@, s);
    let mut r: Vec<TraceStep> = Vec::new();
    let n = steps.len();
    for i in 0..n
        invariant
            n == steps@.len(),
            f == (|s: StepView| trace_step_of(cs@, s)),
            trace_view(r@) == steps_view(steps@.take(i as int)).map_values(f),
    {
        let s = &steps[i];
        let snippet = match &s.snippet {
            Some(x) => x.clone(),
            None => snippet_in(cs, &s.span),
        };
        let t = TraceStep { label: s.label.clone(), span: s.span, snippet, file: copy_opt_string(&s.file) };
        assert(t@ == trace_step_of(cs@, s@));
        r.push(t);
        assert(steps_view(steps@.take(i + 1)).map_values(f) =~= steps_view(steps@.take(i as int)).map_values(f).push(f(steps@[i as int]@)));
        assert(trace_view(r@) =~= steps_view(steps@.take(i as int)).map_values(f).push(t@));
    }
    assert(steps@.take(n as int) =~= steps@);
    let t = TraceStep { label: cat("sink: ", sink_label), span: *sink_span, snippet: snippet_in(cs, sink_span), file: None };
    let ghost before = trace_view(r@);
    r.push(t);
    assert(trace_view(r@) =~= before.push(t@));
    r
}

/// Collapse consecutive steps on the same line with the same label, keeping
/// traces tight without disturbing dataflow order.
pub fn normalize_trace(trace: &mut Vec<TraceStep>)
    ensures
        trace_view(final(trace)@) == dedup_trace(trace_view(old(trace)@)),
{
    let mut out: Vec<TraceStep> = Vec::new();
    let n = trace.len();
    for i in 0..n
        invariant
            n == trace@.len(),
            trace@ == old(trace)@,
            trace_view(out@) == dedup_trace(trace_view(trace@.take(i as int))),
    {
        let t = &trace[i];
        let keep = if out.len() == 0 {
            true
        } else {
            let last = &out[out.len() - 1];
            !(last.span.start.line == t.span.start.line && last.label == t.label)
        };
        assert(trace_view(trace@.take(i + 1)).drop_last() =~= trace_view(trace@.take(i as int)));
        assert(trace_view(trace@.take(i + 1)).last() == t@);
        if keep {
            let ghost before = trace_view(out@);
            out.push(t.duplicate());
            assert(trace_view(out@) =~= before.push(t@));
        }
    }
    assert(trace@.take(n as int) =~= trace@);
    *trace = out;
}

/// Whether a finding after `base` is already located at the bytes of `sp`.
fn already_in(out: &Vec<Finding>, base: usize, sp: &Span, Ghost(h): Ghost<Seq<Hit>>) -> (r: bool)
    requires
        base <= out@.len(),
        out@.len() == base + h.len(),
        forall|i: int| base <= i < out@.len() ==> (#[trigger] out@[i]).span == h[i - base].0,
    ensures
        r == already(h, *sp),
{
    let n = out.len();
    let mut i = base;
    while i < n
        invariant
            base <= i <= n,
            n == out@.len(),
            n == base + h.len(),
            forall|i: int| base <= i < out@.len() ==> (#[trigger] out@[i]).span == h[i - base].0,
            forall|j: int| 0 <= j < i - base ==> !((#[trigger] h[j]).0.start_byte == sp.start_byte && h[j].0.end_byte == sp.end_byte),
        decreases n - i,
    {
        if out[i].span.start_byte == sp.start_byte && out[i].span.end_byte == sp.end_byte {
            assert(out@[i as int].span == h[i - base].0);
            assert(h[i - base].0.start_byte == sp.start_byte);
            return true;
        }
        assert(out@[i as int].span == h[i - base].0);
        i += 1;
    }
    false
}

impl<'a> RuleRun<'a> {
    /// The first `Param` origin of `origins`, in order, that stitches back
    /// to a source.
    fn first_stitched(&self, origins: &Origins) -> (r: Option<Vec<Step>>)
        requires
            self.wf(),
            origins.wf(),
        ensures
            match r {
                Some(v) => self.ctx().first_stitch(self.state.cells@, self.cts(), ordered(origins@)) == Some(steps_view(v@)),
                None => self.ctx().first_stitch(self.state.cells@, self.cts(), ordered(origins@)) is None,
            },
    {
        proof { lemma_ordered(origins.entries@); }
        let ghost es = ordered(origins@);
        let m = origins.entries.len();
        assert(es.skip(0) =~= es);
        for e in 0..m
            invariant
                self.wf(),
                m == origins.entries@.len(),
                origins.wf(),
                es == view_entries(origins.entries@),
                es == ordered(origins@),
                self.ctx().first_stitch(self.state.cells@, self.cts(), es) == self.ctx().first_stitch(self.state.cells@, self.cts(), es.skip(e as int)),
        {
            assert(es.skip(e as int)[0] == es[e as int]);
            assert(es[e as int] == (origins.entries@[e as int].0, origins.entries@[e as int].1@));
            assert(es.skip(e as int).drop_first() =~= es.skip(e + 1));
            match origins.entries[e].0 {
                Origin::Param { scope, index } => {
                    match self.stitch(scope, index, &origins.entries[e].1.steps, 0) {
                        Some(v) => return Some(v),
                        None => {},
                    }
                },
                _ => {},
            }
        }
        assert(es.skip(m as int).len() == 0);
        None
    }

    /// Provenance reaching the sink at `sp`, if any.
    fn resolve_sink(&self, sp: &Span) -> (r: Option<Vec<Step>>)
        requires
            self.wf(),
        ensures
            match r {
                Some(v) => self.ctx().sink_steps(self.state.cells@, self.cts(), *sp) == Some(steps_view(v@)),
                None => self.ctx().sink_steps(self.state.cells@, self.cts(), *sp) is None,
            },
    {
        let origins = self.expr_taint(sp, sp.start_byte);
        match first_source_pos(&origins) {
            Some(p) => Some(copy_steps(&origins.entries[p].1.steps)),
            None => self.first_stitched(&origins),
        }
    }

    /// Evaluate all sinks and append their findings to `out`: each sink
    /// reached by a source (directly, or through a parameter stitched back
    /// to a source), then each source-tainted argument passed to a linked
    /// callee that reaches a sink inside it; one finding per location.
    pub fn report(&self, rel_path: &str, source: &str, rule: &RuleSpec, lang_id: &str, out: &mut Vec<Finding>)
        requires
            self.wf(),
        ensures
            ({
                let ctx = self.ctx();
                let h = ctx.calls_hits(self.state.cells@, self.cts(), source@,
                    ctx.local_hits(self.state.cells@, self.cts(), source@, sinks_view(self.sinks@)),
                    self.linked.entries@, self.structure.calls@.len() as int);
                &&& final(out)@.len() == old(out)@.len() + h.len()
                &&& final(out)@.take(old(out)@.len() as int) == old(out)@
                &&& forall|i: int| old(out)@.len() <= i < final(out)@.len() ==>
                    reported_as(#[trigger] final(out)@[i], *rule, lang_id@, rel_path@, source@, h[i - old(out)@.len()])
            }),
    {
        let cs = chars_of(source);
        let base = out.len();
        let ghost ctx = self.ctx();
        let ghost cells = self.state.cells@;
        let ghost cts = self.cts();
        let ghost sv = sinks_view(self.sinks@);
        let ghost mut h: Seq<Hit> = Seq::empty();
        let n = self.sinks.len();
        for k in 0..n
            invariant
                self.wf(),
                ctx == self.ctx(),
                cells == self.state.cells@,
                cts == self.cts(),
                sv == sinks_view(self.sinks@),
                n == self.sinks@.len(),
                cs@ == source@,
                base == old(out)@.len(),
                out@.len() == base + h.len(),
                out@.take(base as int) == old(out)@,
                h == ctx.local_hits(cells, cts, source@, sv.take(k as int)),
                forall|i: int| base <= i < out@.len() ==> reported_as(#[trigger] out@[i], *rule, lang_id@, rel_path@, source@, h[i - base]),
        {
            let sp = self.sinks[k].0;
            assert(sv.take(k + 1).drop_last() =~= sv.take(k as int));
            assert(sv.take(k + 1).last() == sv[k as int]);
            match self.resolve_sink(&sp) {
                Some(steps) => {
                    assert forall|i: int| base <= i < out@.len() implies (#[trigger] out@[i]).span == h[i - base].0 by {
                        assert(reported_as(out@[i], *rule, lang_id@, rel_path@, source@, h[i - base]));
                    }
                    if !already_in(out, base, &sp, Ghost(h)) {
                        let mut trace = build_trace(&cs, &steps, &sp, self.sinks[k].1.as_str());
                        normalize_trace(&mut trace);
                        let mut f = base_finding(rule, lang_id, rel_path, &cs, sp, rule.message.clone());
                        f.trace = trace;
                        let ghost hit: Hit = (sp, trace_view(f.trace@));
                        let ghost old_out = out@;
                        out.push(f);
                        proof {
                            h = h.push(hit);
                            assert forall|i: int| base <= i < out@.len() implies reported_as(#[trigger] out@[i], *rule, lang_id@, rel_path@, source@, h[i - base]) by {
                                if i < out@.len() - 1 {
                                    assert(out@[i] == old_out[i]);
                                }
                            }
                            assert(out@.take(base as int) =~= old_out.take(base as int));
                        }
                    }
                },
                None => {},
            }
        }
        assert(sv.take(n as int) =~= sv);
        self.report_cross_file(&cs, rel_path, source, rule, lang_id, out, base, Ghost(h));
    }

    /// Findings where a source-tainted argument in this file is passed to a
    /// linked callee that reaches a sink inside it; located at the argument,
    /// with a trace that continues into the dependency.
    fn report_cross_file(&self, cs: &Vec<char>, rel_path: &str, source: &str, rule: &RuleSpec, lang_id: &str,
        out: &mut Vec<Finding>, base: usize, Ghost(h0): Ghost<Seq<Hit>>)
        requires
            self.wf(),
            cs@ == source@,
            base <= old(out)@.len(),
            old(out)@.len() == base + h0.len(),
            forall|i: int| base <= i < old(out)@.len() ==> reported_as(#[trigger] old(out)@[i], *rule, lang_id@, rel_path@, source@, h0[i - base]),
        ensures
            ({
                let h = self.ctx().calls_hits(self.state.cells@, self.cts(), source@, h0, self.linked.entries@, self.structure.calls@.len() as int);
                &&& final(out)@.len() == base + h.len()
                &&& final(out)@.take(base as int) == old(out)@.take(base as int)
                &&& forall|i: int| base <= i < final(out)@.len() ==>
                    reported_as(#[trigger] final(out)@[i], *rule, lang_id@, rel_path@, source@, h[i - base])
            }),
    {
        let ghost ctx = self.ctx();
        let ghost cells = self.state.cells@;
        let ghost cts = self.cts();
        let ghost linked = self.linked.entries@;
        let ghost mut h = h0;
        let structure = self.structure;
        let nc = structure.calls.len();
        for j in 0..nc
            invariant
                self.wf(),
                ctx == self.ctx(),
                cells == self.state.cells@,
                cts == self.cts(),
                linked == self.linked.entries@,
                structure == self.structure,
                nc == structure.calls@.len(),
                cs@ == source@,
                base <= out@.len(),
                out@.len() == base + h.len(),
                out@.take(base as int) == old(out)@.take(base as int),
                h == ctx.calls_hits(cells, cts, source@, h0, linked, j as int),
                forall|i: int| base <= i < out@.len() ==> reported_as(#[trigger] out@[i], *rule, lang_id@, rel_path@, source@, h[i - base]),
        {
            let c = &structure.calls[j];
            match &c.callee {
                Some(name) => {
                    match self.linked.position(name.as_str()) {
                        Some(li) => {
                            let sum = &self.linked.entries[li].1;
                            let ghost pss = sum@.param_to_sink;
                            let ghost hj = h;
                            let np = sum.param_to_sink.len();
                            for q in 0..np
                                invariant
                                    self.wf(),
                                    ctx == self.ctx(),
                                    cells == self.state.cells@,
                                    cts == self.cts(),
                                    structure == self.structure,
                                    cs@ == source@,
                                    np == sum.param_to_sink@.len(),
                                    pss == sum@.param_to_sink,
                                    base <= out@.len(),
                                    out@.len() == base + h.len(),
                                    out@.take(base as int) == old(out)@.take(base as int),
                                    h == ctx.ps_hits(cells, cts, source@, hj, *c, name@, pss.take(q as int)),
                                    forall|i: int| base <= i < out@.len() ==> reported_as(#[trigger] out@[i], *rule, lang_id@, rel_path@, source@, h[i - base]),
                            {
                                let ps = &sum.param_to_sink[q];
                                assert(pss.take(q + 1).drop_last() =~= pss.take(q as int));
                                assert(pss.take(q + 1).last() == ps@);
                                if ps.index < c.args.len() {
                                    let arg = c.args[ps.index];
                                    let origins = self.expr_taint(&arg, arg.start_byte);
                                    match first_source_pos(&origins) {
                                        Some(p) => {
                                            assert forall|i: int| base <= i < out@.len() implies (#[trigger] out@[i]).span == h[i - base].0 by {
                                                assert(reported_as(out@[i], *rule, lang_id@, rel_path@, source@, h[i - base]));
                                            }
                                            if !already_in(out, base, &arg, Ghost(h)) {
                                                let mut steps = copy_steps(&origins.entries[p].1.steps);
                                                let passed = Step::local(cat3("passed to `", name.as_str(), "`"), c.span);
                                                assert(passed@ == passed_step(name@, c.span));
                                                steps.push(passed);
                                                let ghost s1 = steps_view(steps@);
                                                assert(s1 =~= origins.entries@[p as int].1@.steps.push(passed_step(name@, c.span)));
                                                let nps = ps.steps.len();
                                                for t in 0..nps
                                                    invariant
                                                        nps == ps.steps@.len(),
                                                        steps_view(steps@) == s1 + foreign_views(ps@.steps.take(t as int)),
                                                {
                                                    let st = portable_to_step(&ps.steps[t]);
                                                    let ghost before = steps_view(steps@);
                                                    steps.push(st);
                                                    assert(steps_view(steps@) =~= before.push(st@));
                                                    assert(foreign_views(ps@.steps.take(t + 1)) =~= foreign_views(ps@.steps.take(t as int)).push(st@));
                                                }
                                                assert(ps@.steps.take(nps as int) =~= ps@.steps);
                                                let mut trace = build_trace(cs, &steps, &ps.sink_step.span, ps.sink_label.as_str());
                                                assert(trace_view(trace@).len() == trace@.len());
                                                let last = trace.len() - 1;
                                                let retagged = TraceStep {
                                                    label: trace[last].label.clone(),
                                                    span: trace[last].span,
                                                    snippet: ps.sink_step.snippet.clone(),
                                                    file: Some(ps.sink_step.file.clone()),
                                                };
                                                let ghost tv = trace_view(trace@);
                                                trace.set(last, retagged);
                                                assert(trace_view(trace@) =~= retag_last(tv, ps@.sink_step));
                                                normalize_trace(&mut trace);
                                                let mut f = base_finding(rule, lang_id, rel_path, cs, arg, rule.message.clone());
                                                f.trace = trace;
                                                let ghost hit: Hit = (arg, trace_view(f.trace@));
                                                let ghost old_out = out@;
                                                out.push(f);
                                                proof {
                                                    h = h.push(hit);
                                                    assert forall|i: int| base <= i < out@.len() implies reported_as(#[trigger] out@[i], *rule, lang_id@, rel_path@, source@, h[i - base]) by {
                                                        if i < out@.len() - 1 {
                                                            assert(out@[i] == old_out[i]);
                                                        }
                                                    }
                                                    assert(out@.take(base as int) =~= old_out.take(base as int));
                                                }
                                            }
                                        },
                                        None => {},
                                    }
                                }
                            }
                            assert(pss.take(np as int) =~= pss);
                        },
                        None => {},
                    }
                },
                None => {},
            }
        }
    }

    /// Read-only verdict for one sink span: whether it is reported, and why.
    pub fn explain_sink(&self, sink_span: &Span) -> (r: (bool, String))
        requires
            self.wf(),
        ensures
            (r.0, r.1@) == self.ctx().verdict(self.state.cells@, self.cts(), *sink_span),
    {
        let origins = self.expr_taint(sink_span, sink_span.start_byte);
        proof { lemma_ordered(origins.entries@); }
        if first_source_pos(&origins).is_some() {
            return (true, "a source reaches this sink".to_owned());
        }
        if self.first_stitched(&origins).is_some() {
            return (true, "a parameter stitched back to a source reaches this sink".to_owned());
        }
        let ghost es = ordered(origins@);
        let m = origins.entries.len();
        for e in 0..m
            invariant
                m == origins.entries@.len(),
                es == view_entries(origins.entries@),
                es == ordered(self.taint_of(*sink_span)),
                first_reportable(es) is None,
                self.ctx().first_stitch(self.state.cells@, self.cts(), es) is None,
                forall|i: int| 0 <= i < e ==> !((#[trigger] es[i]).0 is Param),
        {
            if let Origin::Param { .. } = origins.entries[e].0 {
                assert(es[e as int].0 is Param);
                return (false, "reached only by an unstitched parameter (no source-tainted call site)".to_owned());
            }
        }
        if self.sanitized(sink_span) {
            return (false, "the sink is sanitized".to_owned());
        }
        (false, "no tainted data reaches this sink".to_owned())
    }
}

/// A trace built for a sink keeps its sink step last after normalization:
/// every emitted trace ends at the sink.
pub proof fn lemma_trace_ends_at_sink(src: Seq<char>, steps: Seq<StepView>, sink_span: Span, sink_label: Seq<char>)
    ensures
        dedup_trace(build_trace_spec(src, steps, sink_span, sink_label)).len() > 0,
        dedup_trace(build_trace_spec(src, steps, sink_span, sink_label)).last().label == "sink: "@ + sink_label,
        dedup_trace(build_trace_spec(src, steps, sink_span, sink_label)).last().span.start.line == sink_span.start.line,
{
    lemma_dedup_last(build_trace_spec(src, steps, sink_span, sink_label));
}

/// Normalization keeps the line and label of the final step.
pub proof fn lemma_dedup_last(t: Seq<TraceStepView>)
    requires
        t.len() > 0,
    ensures
        dedup_trace(t).len() > 0,
        dedup_trace(t).last().label == t.last().label,
        dedup_trace(t).last().span.start.line == t.last().span.start.line,
{
    let d = dedup_trace(t.drop_last());
}


proof fn lemma_add_hit_keeps(h: Seq<Hit>, sp: Span, t: Seq<TraceStepView>, x: Span)
    ensures
        already(h, x) ==> already(add_hit(h, sp, t), x),
        already(add_hit(h, sp, t), sp),
        already(add_hit(h, sp, t), x) ==> already(h, x) || (x.start_byte == sp.start_byte && x.end_byte == sp.end_byte),
{
    if !already(h, sp) {
        let h2 = h.push((sp, t));
        if already(h, x) {
            let i = choose|i: int| 0 <= i < h.len() && (#[trigger] h[i]).0.start_byte == x.start_byte && h[i].0.end_byte == x.end_byte;
            assert(h2[i] == h[i]);
        }
        assert(h2[h.len() as int].0 == sp);
        if already(h2, x) {
            let i = choose|i: int| 0 <= i < h2.len() && (#[trigger] h2[i]).0.start_byte == x.start_byte && h2[i].0.end_byte == x.end_byte;
            if i < h.len() {
                assert(h[i] == h2[i]);
            }
        }
    }
}

impl TaintCtx {
    proof fn lemma_ps_hits_keep(&self, cells: Seq<Cell>, cts: Seq<(Span, Map<Origin, WitnessView>)>, src: Seq<char>,
        h0: Seq<Hit>, c: CallSite, callee: Seq<char>, pss: Seq<ParamSinkView>, x: Span)
        requires
            already(h0, x),
        ensures
            already(self.ps_hits(cells, cts, src, h0, c, callee, pss), x),
        decreases pss.len(),
    {
        if pss.len() > 0 {
            self.lemma_ps_hits_keep(cells, cts, src, h0, c, callee, pss.drop_last(), x);
            let h = self.ps_hits(cells, cts, src, h0, c, callee, pss.drop_last());
            let ps = pss.last();
            if ps.index < c.args@.len() {
                let arg = c.args@[ps.index as int];
                match first_reportable(ordered(self.taint_in(cells, cts, arg))) {
                    Some(w) => { lemma_add_hit_keeps(h, arg, cross_trace(src, w.1.steps, callee, c.span, ps), x); },
                    None => {},
                }
            }
        }
    }

    proof fn lemma_calls_hits_keep(&self, cells: Seq<Cell>, cts: Seq<(Span, Map<Origin, WitnessView>)>, src: Seq<char>,
        h0: Seq<Hit>, linked: Seq<(String, PortableFunctionSummary)>, k: int, x: Span)
        requires
            already(h0, x),
        ensures
            already(self.calls_hits(cells, cts, src, h0, linked, k), x),
        decreases k,
    {
        if k > 0 {
            self.lemma_calls_hits_keep(cells, cts, src, h0, linked, k - 1, x);
            let h = self.calls_hits(cells, cts, src, h0, linked, k - 1);
            let c = self.structure.calls@[k - 1];
            match c.callee {
                Some(name) => match linked_pos(linked, name@) {
                    Some(i) => { self.lemma_ps_hits_keep(cells, cts, src, h, c, name@, linked[i].1@.param_to_sink, x); },
                    None => {},
                },
                None => {},
            }
        }
    }

    proof fn lemma_local_hits(&self, cells: Seq<Cell>, cts: Seq<(Span, Map<Origin, WitnessView>)>, src: Seq<char>,
        sinks: Seq<(Span, Seq<char>)>, x: Span)
        ensures
            forall|k: int| 0 <= k < sinks.len() && self.verdict(cells, cts, (#[trigger] sinks[k]).0).0
                ==> already(self.local_hits(cells, cts, src, sinks), sinks[k].0),
            already(self.local_hits(cells, cts, src, sinks), x) ==> exists|j: int| 0 <= j < sinks.len()
                && (#[trigger] sinks[j]).0.start_byte == x.start_byte && sinks[j].0.end_byte == x.end_byte
                && self.verdict(cells, cts, sinks[j].0).0,
        decreases sinks.len(),
    {
        if sinks.len() > 0 {
            let pre = sinks.drop_last();
            let h = self.local_hits(cells, cts, src, pre);
            let sp = sinks.last().0;
            self.lemma_local_hits(cells, cts, src, pre, x);
            assert forall|k: int| 0 <= k < sinks.len() && self.verdict(cells, cts, (#[trigger] sinks[k]).0).0
                implies already(self.local_hits(cells, cts, src, sinks), sinks[k].0) by {
                self.lemma_local_hits(cells, cts, src, pre, sinks[k].0);
                match self.sink_steps(cells, cts, sp) {
                    Some(st) => {
                        lemma_add_hit_keeps(h, sp, dedup_trace(build_trace_spec(src, st, sp, sinks.last().1)), sinks[k].0);
                        if k < pre.len() { assert(pre[k] == sinks[k]); }
                    },
                    None => {
                        if k < pre.len() { assert(pre[k] == sinks[k]); }
                    },
                }
            }
            match self.sink_steps(cells, cts, sp) {
                Some(st) => {
                    lemma_add_hit_keeps(h, sp, dedup_trace(build_trace_spec(src, st, sp, sinks.last().1)), x);
                    if already(self.local_hits(cells, cts, src, sinks), x) {
                        if already(h, x) {
                            let j = choose|j: int| 0 <= j < pre.len()
                                && (#[trigger] pre[j]).0.start_byte == x.start_byte && pre[j].0.end_byte == x.end_byte
                                && self.verdict(cells, cts, pre[j].0).0;
                            assert(sinks[j] == pre[j]);
                        } else {
                            assert(sinks[sinks.len() - 1].0 == sp);
                        }
                    }
                },
                None => {
                    if already(h, x) {
                        let j = choose|j: int| 0 <= j < pre.len()
                            && (#[trigger] pre[j]).0.start_byte == x.start_byte && pre[j].0.end_byte == x.end_byte
                            && self.verdict(cells, cts, pre[j].0).0;
                        assert(sinks[j] == pre[j]);
                    }
                },
            }
        }
    }
}

/// `explain_sink`'s verdict agrees with `report`: a sink declared reported
/// gets a hit at its bytes among the report's hits, and each hit the
/// report takes from the file's own sinks lies at the bytes of a sink
/// declared reported (the rest come from flows into linked callees).
pub proof fn lemma_verdict_is_reported(ctx: TaintCtx, cells: Seq<Cell>, cts: Seq<(Span, Map<Origin, WitnessView>)>, src: Seq<char>,
    sinks: Seq<(Span, Seq<char>)>, linked: Seq<(String, PortableFunctionSummary)>, k: int, x: Span)
    requires
        0 <= k < sinks.len(),
    ensures
        ctx.verdict(cells, cts, sinks[k].0).0 ==> already(ctx.calls_hits(cells, cts, src,
            ctx.local_hits(cells, cts, src, sinks), linked, ctx.structure.calls@.len() as int), sinks[k].0),
        already(ctx.local_hits(cells, cts, src, sinks), x) ==> exists|j: int| 0 <= j < sinks.len()
            && (#[trigger] sinks[j]).0.start_byte == x.start_byte && sinks[j].0.end_byte == x.end_byte
            && ctx.verdict(cells, cts, sinks[j].0).0,
{
    ctx.lemma_local_hits(cells, cts, src, sinks, x);
    if ctx.verdict(cells, cts, sinks[k].0).0 {
        assert(already(ctx.local_hits(cells, cts, src, sinks), sinks[k].0));
        ctx.lemma_calls_hits_keep(cells, cts, src, ctx.local_hits(cells, cts, src, sinks), linked, ctx.structure.calls@.len() as int, sinks[k].0);
    }
}


/// Origin `o`, with witness `w`, is a parameter whose taint stitches back
/// to a source.
pub open spec fn stitches(ctx: TaintCtx, cells: Seq<Cell>, cts: Seq<(Span, Map<Origin, WitnessView>)>, o: Origin, w: WitnessView) -> bool {
    match o {
        Origin::Param { scope, index } => ctx.stitch_spec(cells, cts, scope, index, w.steps, 0) is Some,
        _ => false,
    }
}

proof fn lemma_first_reportable_some(es: Seq<(Origin, WitnessView)>)
    ensures
        first_reportable(es) is Some <==> exists|i: int| 0 <= i < es.len() && (#[trigger] es[i]).0.reportable(),
    decreases es.len(),
{
    if es.len() > 0 {
        lemma_first_reportable_some(es.drop_first());
        if exists|i: int| 0 <= i < es.len() && (#[trigger] es[i]).0.reportable() {
            let i = choose|i: int| 0 <= i < es.len() && (#[trigger] es[i]).0.reportable();
            if i > 0 { assert(es.drop_first()[i - 1] == es[i]); }
        }
        if exists|i: int| 0 <= i < es.drop_first().len() && (#[trigger] es.drop_first()[i]).0.reportable() {
            let i = choose|i: int| 0 <= i < es.drop_first().len() && (#[trigger] es.drop_first()[i]).0.reportable();
            assert(es[i + 1] == es.drop_first()[i]);
        }
    }
}

proof fn lemma_first_stitch_some(ctx: TaintCtx, cells: Seq<Cell>, cts: Seq<(Span, Map<Origin, WitnessView>)>, es: Seq<(Origin, WitnessView)>)
    ensures
        ctx.first_stitch(cells, cts, es) is Some <==> exists|i: int| 0 <= i < es.len() && stitches(ctx, cells, cts, (#[trigger] es[i]).0, es[i].1),
    decreases es.len(),
{
    if es.len() > 0 {
        lemma_first_stitch_some(ctx, cells, cts, es.drop_first());
        if exists|i: int| 0 <= i < es.len() && stitches(ctx, cells, cts, (#[trigger] es[i]).0, es[i].1) {
            let i = choose|i: int| 0 <= i < es.len() && stitches(ctx, cells, cts, (#[trigger] es[i]).0, es[i].1);
            if i > 0 { assert(es.drop_first()[i - 1] == es[i]); }
        }
        if exists|i: int| 0 <= i < es.drop_first().len() && stitches(ctx, cells, cts, (#[trigger] es.drop_first()[i]).0, es.drop_first()[i].1) {
            let i = choose|i: int| 0 <= i < es.drop_first().len() && stitches(ctx, cells, cts, (#[trigger] es.drop_first()[i]).0, es.drop_first()[i].1);
            assert(es[i + 1] == es.drop_first()[i]);
        }
    }
}

/// `explain_sink`'s verdict in terms of the taint `m` reaching the sink: it
/// is reported exactly when a source (or linked) origin reaches it or a
/// parameter origin stitches back to a source; the reason names the first
/// of these that holds, then an unstitched parameter, then a sanitizer
/// over the sink, then the absence of taint.
pub proof fn lemma_verdict_cases(ctx: TaintCtx, cells: Seq<Cell>, cts: Seq<(Span, Map<Origin, WitnessView>)>, sp: Span)
    requires
        exists|s: Seq<(Origin, WitnessView)>| sorted_views(s) && vmap(s) == ctx.taint_in(cells, cts, sp),
    ensures
        ({
            let m = ctx.taint_in(cells, cts, sp);
            let by_source = exists|o: Origin| #[trigger] m.contains_key(o) && o.reportable();
            let by_stitch = exists|o: Origin| #[trigger] m.contains_key(o) && stitches(ctx, cells, cts, o, m[o]);
            let by_param = exists|o: Origin| #[trigger] m.contains_key(o) && o is Param;
            &&& ctx.verdict(cells, cts, sp).0 == (by_source || by_stitch)
            &&& ctx.verdict(cells, cts, sp).1 == if by_source {
                "a source reaches this sink"@
            } else if by_stitch {
                "a parameter stitched back to a source reaches this sink"@
            } else if by_param {
                "reached only by an unstitched parameter (no source-tainted call site)"@
            } else if crate::solve::sanitized_by(ctx.sanitizers, sp) {
                "the sink is sanitized"@
            } else {
                "no tainted data reaches this sink"@
            }
        }),
{
    let m = ctx.taint_in(cells, cts, sp);
    let es = ordered(m);
    assert(sorted_views(es) && vmap(es) == m);
    lemma_first_reportable_some(es);
    lemma_first_stitch_some(ctx, cells, cts, es);
    assert forall|i: int| 0 <= i < es.len() implies m.contains_key((#[trigger] es[i]).0) && m[es[i].0] == es[i].1 by {
        lemma_vmap_at(es, i);
    }
    assert((exists|o: Origin| #[trigger] m.contains_key(o) && o.reportable())
        <==> exists|i: int| 0 <= i < es.len() && (#[trigger] es[i]).0.reportable()) by {
        if exists|o: Origin| #[trigger] m.contains_key(o) && o.reportable() {
            let o = choose|o: Origin| #[trigger] m.contains_key(o) && o.reportable();
            let i = choose|i: int| 0 <= i < es.len() && #[trigger] es[i].0 == o;
            assert(es[i].0.reportable());
        }
    }
    assert((exists|o: Origin| #[trigger] m.contains_key(o) && stitches(ctx, cells, cts, o, m[o]))
        <==> exists|i: int| 0 <= i < es.len() && stitches(ctx, cells, cts, (#[trigger] es[i]).0, es[i].1)) by {
        if exists|o: Origin| #[trigger] m.contains_key(o) && stitches(ctx, cells, cts, o, m[o]) {
            let o = choose|o: Origin| #[trigger] m.contains_key(o) && stitches(ctx, cells, cts, o, m[o]);
            let i = choose|i: int| 0 <= i < es.len() && #[trigger] es[i].0 == o;
            assert(stitches(ctx, cells, cts, es[i].0, es[i].1));
        }
    }
    assert((exists|o: Origin| #[trigger] m.contains_key(o) && o is Param)
        <==> exists|i: int| 0 <= i < es.len() && (#[trigger] es[i]).0 is Param) by {
        if exists|o: Origin| #[trigger] m.contains_key(o) && o is Param {
            let o = choose|o: Origin| #[trigger] m.contains_key(o) && o is Param;
            let i = choose|i: int| 0 <= i < es.len() && #[trigger] es[i].0 == o;
            assert(es[i].0 is Param);
        }
    }
}

} // verus!
