//! Per-file function summaries for cross-file linking: for each taint rule,
//! how each named function moves taint (return value from a source or from
//! parameters, parameters reaching a sink), with provenance made portable.

use vstd::prelude::*;
use crate::engine::{snippet_of, snippet_in};
use crate::findings::Span;
use crate::solve::{RuleRun, Summaries, Summary, SummaryV, ParamSinkRaw, ParamSinkRawV, raw_view, summaries_view,
    TaintCtx, name_pos, put_named, lemma_name_pos_push, lemma_name_pos_prefix, lemma_name_pos_bounds};
use crate::sorting::{text_lt, text_less, views, ssort_by, stable_sort_by};
use crate::state::{Step, StepView, steps_view, Origin, Origins, WitnessView, TaintState, ordered, lemma_ordered, Cell};
use crate::summary::{PortableStep, PortableStepView, psteps_view, ParamSink, ParamSinkView, PortableFunctionSummary, SummaryView, LinkedForRule};
use crate::text::chars_of;
use crate::binder::{FileBindings, BindingMatches};
use crate::structure::{Structure, ProfileMatches, built_from};
use crate::syntax::SyntaxTree;
use crate::summary::RuleSummaries;
use crate::taint::{TaintRule, TaintMatches, spans_spec, matches_ok, rule_spans, sources_view, bindings_for,
    needs_binder_spec, needs_binder, empty_bindings};
use crate::sinks::sinks_view;
use crate::solve::SourceMatch;

verus! {

/// A trace step made portable: its file (empty for this file) and its
/// snippet (read from this file's source unless baked).
pub open spec fn portable_view(src: Seq<char>, s: StepView) -> PortableStepView {
    PortableStepView {
        label: s.label,
        span: s.span,
        file: match s.file { Some(f) => f, None => Seq::empty() },
        snippet: match s.snippet { Some(x) => x, None => snippet_of(src, s.span) },
    }
}

pub open spec fn portables(src: Seq<char>, steps: Seq<StepView>) -> Seq<PortableStepView> {
    steps.map_values(|s: StepView| portable_view(src, s))
}

/// Convert a step to a portable one, baking the local snippet.
pub fn portable(s: &Step, cs: &Vec<char>) -> (r: PortableStep)
    ensures
        r@ == portable_view(cs@, s@),
{
    PortableStep {
        label: s.label.clone(),
        span: s.span,
        file: match &s.file { Some(f) => f.clone(), None => String::new() },
        snippet: match &s.snippet { Some(x) => x.clone(), None => snippet_in(cs, &s.span) },
    }
}

fn portable_steps(steps: &Vec<Step>, cs: &Vec<char>) -> (r: Vec<PortableStep>)
    ensures
        psteps_view(r@) == portables(cs@, steps_view(steps@)),
{
    let mut r: Vec<PortableStep> = Vec::new();
    let n = steps.len();
    for i in 0..n
        invariant
            n == steps@.len(),
            psteps_view(r@) == portables(cs@, steps_view(steps@.take(i as int))),
    {
        let p = portable(&steps[i], cs);
        let ghost before = psteps_view(r@);
        let ghost pv = p@;
        r.push(p);
        assert(psteps_view(r@) =~= before.push(pv));
        assert(steps_view(steps@.take(i + 1)) =~= steps_view(steps@.take(i as int)).push(steps@[i as int]@));
        assert(portables(cs@, steps_view(steps@.take(i + 1))) =~= portables(cs@, steps_view(steps@.take(i as int))).push(pv));
    }
    assert(steps@.take(n as int) =~= steps@);
    r
}

pub open spec fn empty_view(name: Seq<char>) -> SummaryView {
    SummaryView { name, returns_source: Seq::empty(), returns_params: Seq::empty(), param_to_sink: Seq::empty() }
}

/// The entry for `name` in a table of summaries (empty if absent).
pub open spec fn entry_of(fs: Seq<(Seq<char>, SummaryView)>, name: Seq<char>) -> SummaryView {
    match name_pos(fs, name) {
        Some(i) => fs[i].1,
        None => empty_view(name),
    }
}

/// Merge a function's return facts into its entry: its first source
/// origin's provenance (if any) and its parameter flows.
pub open spec fn absorb_summary(fs: Seq<(Seq<char>, SummaryView)>, name: Seq<char>, sv: SummaryV, src: Seq<char>) -> Seq<(Seq<char>, SummaryView)> {
    let base = entry_of(fs, name);
    let es = ordered(sv.returns_source);
    put_named(fs, name, SummaryView {
        name,
        returns_source: if es.len() > 0 { portables(src, es[0].1.steps) } else { base.returns_source },
        returns_params: sv.returns_params.map_values(|e: (usize, Seq<StepView>)| (e.0, portables(src, e.1))),
        param_to_sink: base.param_to_sink,
    })
}

/// Add a parameter-to-sink flow to its function's entry.
pub open spec fn absorb_param_sink(fs: Seq<(Seq<char>, SummaryView)>, ps: ParamSinkRawV, src: Seq<char>) -> Seq<(Seq<char>, SummaryView)> {
    let base = entry_of(fs, ps.func);
    put_named(fs, ps.func, SummaryView {
        name: ps.func,
        returns_source: base.returns_source,
        returns_params: base.returns_params,
        param_to_sink: base.param_to_sink.push(ParamSinkView {
            index: ps.index,
            sink_label: ps.sink_label,
            sink_step: PortableStepView { label: "sink"@, span: ps.sink_span, file: Seq::empty(), snippet: snippet_of(src, ps.sink_span) },
            steps: portables(src, ps.steps),
        }),
    })
}

pub open spec fn absorb_summaries(fs: Seq<(Seq<char>, SummaryView)>, ss: Seq<(Seq<char>, SummaryV)>, src: Seq<char>) -> Seq<(Seq<char>, SummaryView)>
    decreases ss.len(),
{
    if ss.len() == 0 {
        fs
    } else {
        let prev = absorb_summaries(fs, ss.drop_last(), src);
        absorb_summary(prev, ss.last().0, ss.last().1, src)
    }
}

pub open spec fn absorb_param_sinks(fs: Seq<(Seq<char>, SummaryView)>, ps: Seq<ParamSinkRawV>, src: Seq<char>) -> Seq<(Seq<char>, SummaryView)>
    decreases ps.len(),
{
    if ps.len() == 0 {
        fs
    } else {
        absorb_param_sink(absorb_param_sinks(fs, ps.drop_last(), src), ps.last(), src)
    }
}

/// Summaries ordered by function name.
pub open spec fn name_lt(a: SummaryView, b: SummaryView) -> bool {
    text_lt(a.name, b.name)
}

pub open spec fn table_summaries(v: Seq<(String, PortableFunctionSummary)>) -> Seq<(Seq<char>, SummaryView)> {
    v.map_values(|e: (String, PortableFunctionSummary)| (e.0@, e.1@))
}

fn table_pos(v: &Vec<(String, PortableFunctionSummary)>, name: &str) -> (r: Option<usize>)
    ensures
        match r {
            Some(i) => name_pos(table_summaries(v@), name@) == Some(i as int) && i < v@.len(),
            None => name_pos(table_summaries(v@), name@) is None,
        },
{
    let ghost sv = table_summaries(v@);
    let n = v.len();
    for i in 0..n
        invariant
            n == v@.len(),
            sv == table_summaries(v@),
            name_pos(sv.take(i as int), name@) is None,
    {
        assert(sv.take(i + 1) =~= sv.take(i as int).push(sv[i as int]));
        proof { lemma_name_pos_push(sv.take(i as int), sv[i as int], name@); }
        if crate::text::str_is(v[i].0.as_str(), name) {
            proof { lemma_name_pos_prefix(sv, i as int + 1, name@); }
            return Some(i);
        }
    }
    assert(sv.take(n as int) =~= sv);
    None
}

/// Take the entry for `name` out of the table (an empty summary named
/// `name` if absent), leaving the position to put it back.
fn take_entry(v: &mut Vec<(String, PortableFunctionSummary)>, name: &str) -> (r: (Option<usize>, PortableFunctionSummary))
    ensures
        r.1@ == entry_of(table_summaries(old(v)@), name@) || (r.0 is None && r.1@ == empty_view(name@)),
        r.1@ == entry_of(table_summaries(old(v)@), name@),
        match r.0 {
            Some(i) => name_pos(table_summaries(old(v)@), name@) == Some(i as int) && i < old(v)@.len()
                && final(v)@.len() == old(v)@.len()
                && forall|j: int| 0 <= j < final(v)@.len() && j != i ==> final(v)@[j] == old(v)@[j],
            None => name_pos(table_summaries(old(v)@), name@) is None && final(v)@ == old(v)@,
        },
{
    match table_pos(v, name) {
        Some(i) => {
            let mut e = PortableFunctionSummary::named(String::new());
            std::mem::swap(&mut e, &mut v[i].1);
            proof { lemma_name_pos_bounds(table_summaries(old(v)@), name@); }
            assert(e@ == table_summaries(old(v)@)[i as int].1);
            (Some(i), e)
        },
        None => {
            let e = PortableFunctionSummary::named(name.to_owned());
            assert(e@.returns_source =~= Seq::<PortableStepView>::empty());
            assert(e@.returns_params =~= Seq::<(usize, Seq<PortableStepView>)>::empty());
            assert(e@.param_to_sink =~= Seq::<ParamSinkView>::empty());
            assert(e@ == empty_view(name@));
            (None, e)
        },
    }
}

/// Put an entry back at its position, or append it.
fn put_entry(v: &mut Vec<(String, PortableFunctionSummary)>, pos: Option<usize>, name: String, e: PortableFunctionSummary,
    Ghost(orig): Ghost<Seq<(String, PortableFunctionSummary)>>)
    requires
        match pos {
            Some(i) => name_pos(table_summaries(orig), name@) == Some(i as int) && i < orig.len()
                && old(v)@.len() == orig.len()
                && forall|j: int| 0 <= j < old(v)@.len() && j != i ==> old(v)@[j] == orig[j],
            None => name_pos(table_summaries(orig), name@) is None && old(v)@ == orig,
        },
    ensures
        table_summaries(final(v)@) == put_named(table_summaries(orig), name@, e@),
{
    let ghost ev = (name@, e@);
    match pos {
        Some(i) => {
            v.set(i, (name, e));
            proof { lemma_name_pos_bounds(table_summaries(orig), ev.0); }
            assert(table_summaries(v@) =~= table_summaries(orig).update(i as int, ev));
        },
        None => {
            v.push((name, e));
            assert(table_summaries(v@) =~= table_summaries(orig).push(ev));
        },
    }
}

fn absorb_summary_into(v: &mut Vec<(String, PortableFunctionSummary)>, name: &String, sum: &Summary, cs: &Vec<char>)
    requires
        sum.returns_source.wf(),
    ensures
        table_summaries(final(v)@) == absorb_summary(table_summaries(old(v)@), name@, sum@, cs@),
{
    let ghost orig = v@;
    let (pos, mut e) = take_entry(v, name.as_str());
    proof { lemma_ordered(sum.returns_source.entries@); }
    if sum.returns_source.entries.len() > 0 {
        assert(ordered(sum@.returns_source)[0] == (sum.returns_source.entries@[0].0, sum.returns_source.entries@[0].1@));
        e.returns_source = portable_steps(&sum.returns_source.entries[0].1.steps, cs);
    }
    let ghost rpv = sum@.returns_params;
    let mut rp: Vec<(usize, Vec<PortableStep>)> = Vec::new();
    let n = sum.returns_params.len();
    for i in 0..n
        invariant
            n == sum.returns_params@.len(),
            rpv == sum@.returns_params,
            rp@.map_values(|e: (usize, Vec<PortableStep>)| (e.0, psteps_view(e.1@)))
                == rpv.take(i as int).map_values(|e: (usize, Seq<StepView>)| (e.0, portables(cs@, e.1))),
    {
        let entry = &sum.returns_params[i];
        let ps = portable_steps(&entry.1, cs);
        let ghost before = rp@;
        let ghost x = (entry.0, psteps_view(ps@));
        rp.push((entry.0, ps));
        assert(rp@.map_values(|e: (usize, Vec<PortableStep>)| (e.0, psteps_view(e.1@)))
            =~= before.map_values(|e: (usize, Vec<PortableStep>)| (e.0, psteps_view(e.1@))).push(x));
        assert(rpv[i as int] == (entry.0, steps_view(entry.1@)));
        assert(rpv.take(i + 1).map_values(|e: (usize, Seq<StepView>)| (e.0, portables(cs@, e.1)))
            =~= rpv.take(i as int).map_values(|e: (usize, Seq<StepView>)| (e.0, portables(cs@, e.1))).push(x));
    }
    assert(rpv.take(n as int) =~= rpv);
    e.returns_params = rp;
    e.name = name.clone();
    put_entry(v, pos, name.clone(), e, Ghost(orig));
}

fn absorb_param_sink_into(v: &mut Vec<(String, PortableFunctionSummary)>, ps: &ParamSinkRaw, cs: &Vec<char>)
    ensures
        table_summaries(final(v)@) == absorb_param_sink(table_summaries(old(v)@), ps@, cs@),
{
    proof { reveal_strlit("sink"); }
    let ghost orig = v@;
    let (pos, mut e) = take_entry(v, ps.func.as_str());
    let sink_step = PortableStep { label: "sink".to_owned(), span: ps.sink_span, file: String::new(), snippet: snippet_in(cs, &ps.sink_span) };
    let entry = ParamSink { index: ps.index, sink_label: ps.sink_label.clone(), sink_step, steps: portable_steps(&ps.steps, cs) };
    let ghost before = e@.param_to_sink;
    let ghost ev = entry@;
    e.param_to_sink.push(entry);
    assert(e@.param_to_sink =~= before.push(ev));
    e.name = ps.func.clone();
    put_entry(v, pos, ps.func.clone(), e, Ghost(orig));
}

/// The summaries of a solved run, in name order.
pub open spec fn run_summaries(ctx: TaintCtx, cells: Seq<Cell>, cts: Seq<(Span, Map<Origin, WitnessView>)>, sinks: Seq<(Span, String)>, src: Seq<char>) -> Seq<SummaryView> {
    let fs = absorb_param_sinks(
        absorb_summaries(Seq::empty(), ctx.summaries_upto(cells, cts, ctx.structure.returns@.len() as int), src),
        ctx.param_sinks_upto(cells, cts, sinks, sinks.len() as int), src);
    ssort_by(fs.map_values(|e: (Seq<char>, SummaryView)| e.1), |a: SummaryView, b: SummaryView| name_lt(a, b))
}

fn name_less(a: &PortableFunctionSummary, b: &PortableFunctionSummary) -> (r: bool)
    ensures
        r == name_lt(a@, b@),
{
    text_less(a.name.as_str(), b.name.as_str())
}

/// Gather the summaries of a solved run, ordered by function name.
fn gather_summaries(run: &RuleRun, cs: &Vec<char>) -> (r: Vec<PortableFunctionSummary>)
    requires
        run.wf(),
    ensures
        views(r@) == run_summaries(run.ctx(), run.state.cells@, run.cts(), run.sinks@, cs@),
{
    let sums = run.summaries();
    let mut funcs: Vec<(String, PortableFunctionSummary)> = Vec::new();
    assert(table_summaries(funcs@) =~= Seq::<(Seq<char>, SummaryView)>::empty());
    let ghost sv = summaries_view(sums.entries@);
    let n = sums.entries.len();
    for i in 0..n
        invariant
            n == sums.entries@.len(),
            sv == summaries_view(sums.entries@),
            forall|i: int| 0 <= i < sums.entries@.len() ==> (#[trigger] sums.entries@[i]).1.returns_source.wf(),
            table_summaries(funcs@) == absorb_summaries(Seq::empty(), sv.take(i as int), cs@),
    {
        let entry = &sums.entries[i];
        assert(sv.take(i + 1).drop_last() =~= sv.take(i as int));
        assert(sv.take(i + 1).last() == (entry.0@, entry.1@));
        absorb_summary_into(&mut funcs, &entry.0, &entry.1, cs);
    }
    assert(sv.take(n as int) =~= sv);
    let pss = run.param_sinks();
    let ghost pv = raw_view(pss@);
    let ghost mid = table_summaries(funcs@);
    let m = pss.len();
    for i in 0..m
        invariant
            m == pss@.len(),
            pv == raw_view(pss@),
            table_summaries(funcs@) == absorb_param_sinks(mid, pv.take(i as int), cs@),
    {
        assert(pv.take(i + 1).drop_last() =~= pv.take(i as int));
        assert(pv.take(i + 1).last() == pss@[i as int]@);
        absorb_param_sink_into(&mut funcs, &pss[i], cs);
    }
    assert(pv.take(m as int) =~= pv);
    let ghost tv = table_summaries(funcs@);
    let mut vals: Vec<PortableFunctionSummary> = Vec::new();
    let mut funcs = funcs;
    let total = funcs.len();
    let mut k: usize = 0;
    while funcs.len() > 0
        invariant
            k + funcs@.len() == total,
            tv.len() == total,
            table_summaries(funcs@) == tv.skip(k as int),
            views(vals@) == tv.take(k as int).map_values(|e: (Seq<char>, SummaryView)| e.1),
        decreases funcs@.len(),
    {
        let ghost rest = table_summaries(funcs@);
        let ghost vv = funcs@;
        let (_, f) = funcs.remove(0);
        assert(table_summaries(funcs@) =~= rest.drop_first());
        assert(rest[0] == (vv[0].0@, vv[0].1@));
        let ghost before = views(vals@);
        let ghost fv = f@;
        vals.push(f);
        assert(views(vals@) =~= before.push(fv));
        assert(tv.take(k + 1).map_values(|e: (Seq<char>, SummaryView)| e.1) =~= tv.take(k as int).map_values(|e: (Seq<char>, SummaryView)| e.1).push(tv[k as int].1));
        assert(tv.skip(k + 1) =~= tv.skip(k as int).drop_first());
        k += 1;
    }
    assert(tv.take(total as int) =~= tv);
    let less = |a: &PortableFunctionSummary, b: &PortableFunctionSummary| -> (r: bool)
        ensures
            r == name_lt(a@, b@),
    {
        name_less(a, b)
    };
    stable_sort_by(vals, less, Ghost(|a: SummaryView, b: SummaryView| name_lt(a, b)))
}

/// The summaries one rule yields on one file: with its spans as
/// collected, none when it has neither sources nor sinks, else those of a
/// run solved from an empty state with nothing linked.
pub open spec fn rule_summaries(structure: Structure, t: SyntaxTree, b: FileBindings, r: TaintRule, tm: TaintMatches,
    src: Seq<char>, fs: Seq<SummaryView>) -> bool {
    exists|sources: Seq<SourceMatch>, sinks: Seq<(Span, String)>, sans: Seq<Span>| {
        &&& #[trigger] sources_view(sources) == spans_spec(t, b, r, tm).0
        &&& #[trigger] sinks_view(sinks) == spans_spec(t, b, r, tm).1
        &&& #[trigger] sans.len() == spans_spec(t, b, r, tm).2.len()
        &&& sans == spans_spec(t, b, r, tm).2
        &&& if sources.len() == 0 && sinks.len() == 0 {
            fs.len() == 0
        } else {
            let ctx = TaintCtx { structure, sources, sanitizers: sans };
            exists|s0: TaintState, s1: TaintState, cts1: Seq<(Span, Map<Origin, WitnessView>)>, c1: int| {
                &&& #[trigger] ctx.solved(Seq::empty(), s0, Seq::empty(), 0, s1, cts1, c1)
                &&& s0.cells@.len() == 0
                &&& fs == run_summaries(ctx, s1.cells@, cts1, sinks, src)
            }
        }
    }
}

/// Summarise one rule on one file.
fn extract_rule(structure: &Structure, t: &SyntaxTree, bindings: &FileBindings, r: &TaintRule, tm: &TaintMatches, cs: &Vec<char>)
    -> (out: Vec<PortableFunctionSummary>)
    requires
        structure.wf(),
        3 * structure.calls@.len() <= usize::MAX,
        matches_ok(*t, *r, *tm),
    ensures
        rule_summaries(*structure, *t, *bindings, *r, *tm, cs@, views(out@)),
{
    let (sources, sinks, sanitizers) = rule_spans(t, bindings, r, tm);
    let ghost srcs = sources@;
    let ghost snks = sinks@;
    let ghost sans = sanitizers@;
    if sinks.len() == 0 && sources.len() == 0 {
        let out: Vec<PortableFunctionSummary> = Vec::new();
        assert(views(out@).len() == 0);
        return out;
    }
    let empty = LinkedForRule::new();
    let mut run = RuleRun::new(structure, sources, sinks, sanitizers, &empty);
    let ghost s0 = run.state;
    assert(run.cts() =~= Seq::<(Span, Map<Origin, WitnessView>)>::empty());
    assert(run.linked.entries@ =~= Seq::<(String, PortableFunctionSummary)>::empty());
    run.solve();
    let out = gather_summaries(&run, cs);
    proof {
        let ctx = TaintCtx { structure: *structure, sources: srcs, sanitizers: sans };
        assert(ctx == run.ctx());
        assert(ctx.solved(Seq::empty(), s0, Seq::empty(), 0, run.state, run.cts(), run.external_counter as int));
    }
    out
}

/// The number of leading keys of `m` that come before `k`.
pub open spec fn lower(m: Seq<(Seq<char>, Seq<SummaryView>)>, k: Seq<char>) -> int
    decreases m.len(),
{
    if m.len() == 0 {
        0
    } else if text_lt(m[0].0, k) {
        1 + lower(m.drop_first(), k)
    } else {
        0
    }
}

/// Insert into a key-ordered map: replace the value under `k`, or insert
/// it in key order.
pub open spec fn ordered_put(m: Seq<(Seq<char>, Seq<SummaryView>)>, k: Seq<char>, v: Seq<SummaryView>) -> Seq<(Seq<char>, Seq<SummaryView>)> {
    match name_pos(m, k) {
        Some(i) => m.update(i, (k, v)),
        None => m.insert(lower(m, k), (k, v)),
    }
}

/// Each rule's non-empty summaries under its id, the first `k` rules.
pub open spec fn rules_put(per: Seq<Seq<SummaryView>>, rules: Seq<TaintRule>, k: int) -> Seq<(Seq<char>, Seq<SummaryView>)>
    decreases k,
{
    if k <= 0 {
        Seq::empty()
    } else {
        let m = rules_put(per, rules, k - 1);
        if per[k - 1].len() > 0 { ordered_put(m, rules[k - 1].rule.id@, per[k - 1]) } else { m }
    }
}

pub open spec fn rule_summaries_view(v: Seq<RuleSummaries>) -> Seq<(Seq<char>, Seq<SummaryView>)> {
    v.map_values(|r: RuleSummaries| (r.rule@, views(r.functions@)))
}

pub open spec fn keys_sorted(m: Seq<(Seq<char>, Seq<SummaryView>)>) -> bool {
    forall|i: int, j: int| 0 <= i < j < m.len() ==> text_lt(#[trigger] m[i].0, #[trigger] m[j].0)
}

proof fn lemma_lower_sorted(m: Seq<(Seq<char>, Seq<SummaryView>)>, k: Seq<char>, p: int)
    requires
        keys_sorted(m),
        0 <= p <= m.len(),
        forall|j: int| 0 <= j < p ==> text_lt(#[trigger] m[j].0, k),
        p < m.len() ==> !text_lt(m[p].0, k),
    ensures
        lower(m, k) == p,
    decreases m.len(),
{
    if m.len() > 0 && p > 0 {
        let t = m.drop_first();
        assert(keys_sorted(t)) by {
            assert forall|i: int, j: int| 0 <= i < j < t.len() implies text_lt(#[trigger] t[i].0, #[trigger] t[j].0) by {
                assert(t[i] == m[i + 1]);
                assert(t[j] == m[j + 1]);
            }
        }
        assert forall|j: int| 0 <= j < p - 1 implies text_lt(#[trigger] t[j].0, k) by {
            assert(t[j] == m[j + 1]);
        }
        if p - 1 < t.len() {
            assert(t[p - 1] == m[p]);
        }
        lemma_lower_sorted(t, k, p - 1);
    }
}

/// Record `v` under key `k` in a key-ordered list of rule summaries.
fn put_rule(m: &mut Vec<RuleSummaries>, k: String, v: Vec<PortableFunctionSummary>)
    requires
        keys_sorted(rule_summaries_view(old(m)@)),
    ensures
        keys_sorted(rule_summaries_view(final(m)@)),
        rule_summaries_view(final(m)@) == ordered_put(rule_summaries_view(old(m)@), k@, views(v@)),
{
    let ghost mv = rule_summaries_view(m@);
    let n = m.len();
    let mut i: usize = 0;
    while i < n && text_less(m[i].rule.as_str(), k.as_str())
        invariant
            i <= n,
            n == m@.len(),
            mv == rule_summaries_view(m@),
            keys_sorted(mv),
            forall|j: int| 0 <= j < i ==> text_lt(#[trigger] mv[j].0, k@),
        decreases n - i,
    {
        assert(mv[i as int].0 == m@[i as int].rule@);
        i += 1;
    }
    proof {
        if i < n {
            assert(mv[i as int].0 == m@[i as int].rule@);
        }
        lemma_lower_sorted(mv, k@, i as int);
        // keys before i differ from k; keys after i are greater than the key at i
        assert forall|j: int| 0 <= j < i implies mv[j].0 != k@ by {
            crate::sorting::lemma_text_lt(mv[j].0, k@, mv[j].0);
        }
    }
    let ghost e = (k@, views(v@));
    if i < n && m[i].rule == k {
        proof {
            assert(mv[i as int].0 == k@);
            assert(name_pos(mv.take(i as int), k@) is None) by {
                lemma_name_pos_bounds(mv.take(i as int), k@);
                if name_pos(mv.take(i as int), k@) is Some {
                    let q = name_pos(mv.take(i as int), k@)->0;
                    assert(mv.take(i as int)[q] == mv[q]);
                }
            }
            lemma_name_pos_push(mv.take(i as int), mv[i as int], k@);
            assert(mv.take(i + 1) =~= mv.take(i as int).push(mv[i as int]));
            lemma_name_pos_prefix(mv, i as int + 1, k@);
        }
        m.set(i, RuleSummaries { rule: k, functions: v });
        assert(rule_summaries_view(m@) =~= mv.update(i as int, e));
    } else {
        proof {
            assert forall|j: int| i <= j < n implies mv[j].0 != k@ by {
                assert(mv[i as int].0 == m@[i as int].rule@);
                crate::sorting::lemma_text_lt(k@, mv[i as int].0, k@);
                if j > i {
                    crate::sorting::lemma_text_lt(k@, mv[i as int].0, mv[j].0);
                    crate::sorting::lemma_text_lt(mv[i as int].0, mv[j].0, k@);
                }
            }
            lemma_name_pos_bounds(mv, k@);
        }
        m.insert(i, RuleSummaries { rule: k, functions: v });
        assert(rule_summaries_view(m@) =~= mv.insert(i as int, e));
        proof {
            let nv = rule_summaries_view(m@);
            mv.insert_ensures(i as int, e);
            assert forall|a: int, b: int| 0 <= a < b < nv.len() implies text_lt(#[trigger] nv[a].0, #[trigger] nv[b].0) by {
                if b < i {
                } else if b == i {
                    assert(nv[a] == mv[a]);
                } else if a < i {
                    assert(nv[b] == mv[b - 1]);
                    assert(nv[a] == mv[a]);
                    if i < n {
                        assert(mv[i as int].0 == m@[i as int].rule@ || true);
                        crate::sorting::lemma_text_lt(k@, mv[i as int].0, k@);
                        crate::sorting::lemma_text_lt(mv[a].0, k@, mv[i as int].0);
                        if b - 1 > i {
                            crate::sorting::lemma_text_lt(mv[a].0, mv[i as int].0, mv[b - 1].0);
                        }
                    }
                } else if a == i {
                    assert(nv[b] == mv[b - 1]);
                    crate::sorting::lemma_text_lt(k@, mv[i as int].0, k@);
                    if b - 1 > i {
                        crate::sorting::lemma_text_lt(k@, mv[i as int].0, mv[b - 1].0);
                    }
                } else {
                    assert(nv[a] == mv[a - 1]);
                    assert(nv[b] == mv[b - 1]);
                }
            }
        }
    }
}

/// Extract a file's per-rule function summaries (intra-file facts) for
/// cross-file linking: for each rule in order, the summaries it yields,
/// kept under the rule id (ordered by id) when there are any.
pub fn extract_summaries(source: &str, t: &SyntaxTree, identifiers: &Vec<String>, profile_matches: &ProfileMatches,
    binding_matches: &BindingMatches, rules: &Vec<TaintRule>, rule_matches: &Vec<TaintMatches>) -> (out: Vec<RuleSummaries>)
    requires
        t.wf(),
        profile_matches.fits(*t),
        binding_matches.fits(*t),
        3 * profile_matches.calls@.len() <= usize::MAX,
        rules@.len() == rule_matches@.len(),
        forall|k: int| 0 <= k < rules@.len() ==> matches_ok(*t, #[trigger] rules@[k], rule_matches@[k]),
    ensures
        rules@.len() == 0 ==> out@.len() == 0,
        rules@.len() > 0 ==> exists|s: Structure, b: FileBindings, per: Seq<Seq<SummaryView>>| {
            &&& #[trigger] built_from(s, *t, identifiers@, *profile_matches)
            &&& #[trigger] bindings_for(b, needs_binder_spec(rules@), *t, *binding_matches)
            &&& #[trigger] per.len() == rules@.len()
            &&& forall|k: int| 0 <= k < per.len() ==>
                rule_summaries(s, *t, b, rules@[k], rule_matches@[k], source@, #[trigger] per[k])
            &&& rule_summaries_view(out@) == rules_put(per, rules@, rules@.len() as int)
        },
{
    let mut out: Vec<RuleSummaries> = Vec::new();
    if rules.len() == 0 {
        return out;
    }
    let cs = chars_of(source);
    let structure = Structure::build(t, identifiers, profile_matches);
    proof { crate::structure::lemma_calls_bounded(structure, *t, identifiers@, *profile_matches); }
    let needs = needs_binder(rules);
    let bindings = if needs {
        FileBindings::build(t, binding_matches)
    } else {
        empty_bindings()
    };
    assert(bindings_for(bindings, needs_binder_spec(rules@), *t, *binding_matches));
    let ghost mut per: Seq<Seq<SummaryView>> = Seq::empty();
    assert(rule_summaries_view(out@) =~= Seq::<(Seq<char>, Seq<SummaryView>)>::empty());
    let n = rules.len();
    for k in 0..n
        invariant
            n == rules@.len(),
            n == rule_matches@.len(),
            cs@ == source@,
            structure.wf(),
            3 * structure.calls@.len() <= usize::MAX,
            forall|k: int| 0 <= k < rules@.len() ==> matches_ok(*t, #[trigger] rules@[k], rule_matches@[k]),
            per.len() == k,
            keys_sorted(rule_summaries_view(out@)),
            rule_summaries_view(out@) == rules_put(per, rules@, k as int),
            forall|j: int| 0 <= j < k ==> rule_summaries(structure, *t, bindings, rules@[j], rule_matches@[j], source@, #[trigger] per[j]),
    {
        let fs = extract_rule(&structure, t, &bindings, &rules[k], &rule_matches[k], &cs);
        let ghost fv = views(fs@);
        proof {
            let p2 = per.push(fv);
            assert forall|j: int| 0 <= j < k + 1 implies rule_summaries(structure, *t, bindings, rules@[j], rule_matches@[j], source@, #[trigger] p2[j]) by {
                if j < k { assert(p2[j] == per[j]); }
            }
            assert(p2.take(k as int) =~= per);
            assert(rules_put(p2, rules@, k as int) == rules_put(per, rules@, k as int)) by {
                lemma_rules_put_prefix(per, p2, rules@, k as int);
            }
            per = p2;
        }
        if fs.len() > 0 {
            put_rule(&mut out, rules[k].rule.id.clone(), fs);
        }
    }
    out
}

proof fn lemma_rules_put_prefix(a: Seq<Seq<SummaryView>>, b: Seq<Seq<SummaryView>>, rules: Seq<TaintRule>, k: int)
    requires
        0 <= k <= a.len(),
        k <= b.len(),
        forall|j: int| 0 <= j < k ==> a[j] == b[j],
    ensures
        rules_put(a, rules, k) == rules_put(b, rules, k),
    decreases k,
{
    if k > 0 {
        lemma_rules_put_prefix(a, b, rules, k - 1);
    }
}

} // verus!
