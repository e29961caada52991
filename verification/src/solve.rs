//! Per-rule taint propagation: seed parameters, propagate through
//! assignments to a fixpoint over origin sets, compute function summaries,
//! and apply them at call sites, iterating so call chains f→g→h connect.
//!
//! A tainted binding in scope S written at byte W is visible to a use at
//! byte U iff S is the use's scope and W < U, or S is an enclosing scope
//! (position-insensitive, so closures still see later-assigned outer
//! variables). Use-before-write is therefore not reported; loop-carried
//! same-scope flows are not tracked.

use vstd::prelude::*;
use crate::findings::Span;
use crate::paths::{AccessPath, PathView};
use crate::state::{
    Origin, Origins, Step, StepView, Witness, WitnessView, TaintState, merge_origins, merge_map,
    visible_map, lemma_entries_map_at, Cell, bind_post, grows, lemma_grows_refl, lemma_grows_trans, lemma_bind_grows, lemma_visible_grows, reaches, lemma_visible_iff, key_index, cell_is, ordered, lemma_ordered, sorted_entries, entries_map, has_key, steps_view,
};
use crate::structure::{Structure, PathUse, Param, Assign, Scope, CallSite, scope_chain};
use crate::summary::LinkedForRule;
use crate::text::{cat, cat3};

verus! {

/// Fixpoint iterations for assignment propagation within one round.
pub const MAX_ASSIGN_ITERS: usize = 16;
/// Rounds of summary application (handles call chains f→g→h).
pub const MAX_SUMMARY_ROUNDS: usize = 3;

/// A matched taint source.
#[derive(Debug)]
pub struct SourceMatch {
    pub span: Span,
    pub label: String,
}

pub struct RuleRun<'a> {
    pub structure: &'a Structure,
    pub sources: Vec<SourceMatch>,
    pub sinks: Vec<(Span, String)>,
    pub sanitizers: Vec<Span>,
    pub state: TaintState,
    /// Call-site spans that carry taint via summaries.
    pub call_taints: Vec<(Span, Origins)>,
    /// Cross-file summaries for callees invoked in this file (empty for the
    /// intra-file path).
    pub linked: &'a LinkedForRule,
    /// Counter minting unique cross-file source origins.
    pub external_counter: usize,
}

/// Call taints as (span, origin map) pairs.
pub open spec fn cts_view(v: Seq<(Span, Origins)>) -> Seq<(Span, Map<Origin, WitnessView>)> {
    v.map_values(|e: (Span, Origins)| (e.0, e.1@))
}

/// Some flag is set.
pub open spec fn any_true(s: Seq<bool>) -> bool
    decreases s.len(),
{
    s.len() > 0 && (s.last() || any_true(s.drop_last()))
}

/// Some sanitizer span covers `sp`.
pub open spec fn sanitized_by(sans: Seq<Span>, sp: Span) -> bool {
    exists|i: int| 0 <= i < sans.len() && (#[trigger] sans[i]).covers(sp)
}

/// `base`, then `.field` for each field.
pub open spec fn dotted(base: Seq<char>, fields: Seq<Seq<char>>) -> Seq<char>
    decreases fields.len(),
{
    if fields.len() == 0 {
        base
    } else {
        dotted(base, fields.drop_last()) + "."@ + fields.last()
    }
}

/// How an access path is written: `base.f1.f2`.
pub open spec fn render_path(p: PathView) -> Seq<char> {
    dotted(p.base, p.fields)
}

/// The step naming a matched source.
pub open spec fn source_step(src: SourceMatch) -> StepView {
    StepView { label: "source: "@ + src.label@, span: src.span, file: None, snippet: None }
}

/// The step naming a use of a tainted path.
pub open spec fn use_step(u: PathUse) -> StepView {
    StepView { label: "`"@ + render_path(u.path@) + "` used here"@, span: u.span, file: None, snippet: None }
}

/// Every witness of `m` extended by one step.
pub open spec fn add_step(m: Map<Origin, WitnessView>, st: StepView) -> Map<Origin, WitnessView> {
    Map::new(|o: Origin| m.contains_key(o), |o: Origin| WitnessView { write_byte: m[o].write_byte, steps: m[o].steps.push(st) })
}

/// Every witness of `m` rebound at `wb` and extended by one step.
pub open spec fn rebind(m: Map<Origin, WitnessView>, wb: u32, st: StepView) -> Map<Origin, WitnessView> {
    Map::new(|o: Origin| m.contains_key(o), |o: Origin| WitnessView { write_byte: wb, steps: m[o].steps.push(st) })
}

/// The (unique) index range of path uses within `span`.
pub open spec fn uses_bounds_ok(uses: Seq<PathUse>, span: Span, r: (int, int)) -> bool {
    &&& 0 <= r.0 <= r.1 <= uses.len()
    &&& forall|i: int| 0 <= i < r.0 ==> (#[trigger] uses[i]).span.start_byte < span.start_byte
    &&& r.0 < uses.len() ==> uses[r.0].span.start_byte >= span.start_byte
    &&& forall|i: int| r.0 <= i < r.1 ==> (#[trigger] uses[i]).span.end_byte <= span.end_byte
    &&& r.1 < uses.len() ==> uses[r.1].span.end_byte > span.end_byte
}

pub open spec fn uses_bounds(uses: Seq<PathUse>, span: Span) -> (int, int) {
    choose|r: (int, int)| uses_bounds_ok(uses, span, r)
}

pub proof fn lemma_uses_bounds_unique(uses: Seq<PathUse>, span: Span, r: (int, int))
    requires
        uses_bounds_ok(uses, span, r),
    ensures
        uses_bounds(uses, span) == r,
{
    let q = uses_bounds(uses, span);
    assert(uses_bounds_ok(uses, span, q));
    if q.0 < r.0 {
        assert(uses[q.0].span.start_byte < span.start_byte);
    } else if r.0 < q.0 {
        assert(uses[r.0].span.start_byte < span.start_byte);
    }
    assert(q.0 == r.0);
    if q.1 < r.1 {
        assert(uses[q.1].span.end_byte <= span.end_byte);
    } else if r.1 < q.1 {
        assert(uses[r.1].span.end_byte <= span.end_byte);
    }
}

/// What taint evaluation reads besides the state and the call taints.
pub struct TaintCtx {
    pub structure: Structure,
    pub sources: Seq<SourceMatch>,
    pub sanitizers: Seq<Span>,
}

impl TaintCtx {
    /// Source origins of the first `n` sources inside `span`.
    pub open spec fn source_taint(&self, span: Span, n: int) -> Map<Origin, WitnessView>
        decreases n,
    {
        if n <= 0 || n > self.sources.len() {
            Map::empty()
        } else {
            let m = self.source_taint(span, n - 1);
            let src = self.sources[n - 1];
            if span.covers(src.span) && !sanitized_by(self.sanitizers, src.span) {
                m.insert(Origin::Source((n - 1) as usize), WitnessView { write_byte: src.span.start_byte, steps: seq![source_step(src)] })
            } else {
                m
            }
        }
    }

    /// `m` merged with the taint visible at each unsanitized path use
    /// `lo..k`, each witness extended by the use.
    pub open spec fn use_taint(&self, cells: Seq<Cell>, m: Map<Origin, WitnessView>, lo: int, k: int) -> Map<Origin, WitnessView>
        decreases k - lo,
    {
        if k <= lo || k > self.structure.path_uses@.len() {
            m
        } else {
            let prev = self.use_taint(cells, m, lo, k - 1);
            let u = self.structure.path_uses@[k - 1];
            if sanitized_by(self.sanitizers, u.span) {
                prev
            } else {
                let vis = visible_map(cells, scope_chain(self.structure.scopes@, u.scope as int), u.scope, u.path@, u.span.start_byte);
                merge_map(prev, add_step(vis, use_step(u)))
            }
        }
    }

    /// `m` merged with the first `n` unsanitized call taints inside `span`.
    pub open spec fn call_taint(&self, cts: Seq<(Span, Map<Origin, WitnessView>)>, m: Map<Origin, WitnessView>, span: Span, n: int) -> Map<Origin, WitnessView>
        decreases n,
    {
        if n <= 0 || n > cts.len() {
            m
        } else {
            let prev = self.call_taint(cts, m, span, n - 1);
            let ct = cts[n - 1];
            if span.covers(ct.0) && !sanitized_by(self.sanitizers, ct.0) {
                merge_map(prev, ct.1)
            } else {
                prev
            }
        }
    }

    /// The origins reaching an expression occupying `span`: contained
    /// unsanitized sources, taint visible at the unsanitized path uses
    /// within it, and the taint of unsanitized summarised calls within it.
    #[verifier::opaque]
    pub open spec fn taint_in(&self, cells: Seq<Cell>, cts: Seq<(Span, Map<Origin, WitnessView>)>, span: Span) -> Map<Origin, WitnessView> {
        let b = uses_bounds(self.structure.path_uses@, span);
        self.call_taint(
            cts,
            self.use_taint(cells, self.source_taint(span, self.sources.len() as int), b.0, b.1),
            span,
            cts.len() as int,
        )
    }

}

/// The first position at or after `i` whose use starts at or after `x`.
spec fn first_starting(uses: Seq<PathUse>, x: u32, i: int) -> int
    decreases uses.len() - i,
{
    if i >= uses.len() || i < 0 { uses.len() as int } else if uses[i].span.start_byte >= x { i } else { first_starting(uses, x, i + 1) }
}

/// The first position at or after `i` whose use ends after `x`.
spec fn first_ending_after(uses: Seq<PathUse>, x: u32, i: int) -> int
    decreases uses.len() - i,
{
    if i >= uses.len() || i < 0 { uses.len() as int } else if uses[i].span.end_byte > x { i } else { first_ending_after(uses, x, i + 1) }
}

proof fn lemma_first_starting(uses: Seq<PathUse>, x: u32, i: int)
    requires
        0 <= i <= uses.len(),
        forall|k: int| 0 <= k < i ==> (#[trigger] uses[k]).span.start_byte < x,
    ensures
        i <= first_starting(uses, x, i) <= uses.len(),
        forall|k: int| 0 <= k < first_starting(uses, x, i) ==> (#[trigger] uses[k]).span.start_byte < x,
        first_starting(uses, x, i) < uses.len() ==> uses[first_starting(uses, x, i)].span.start_byte >= x,
    decreases uses.len() - i,
{
    if i < uses.len() && uses[i].span.start_byte < x {
        lemma_first_starting(uses, x, i + 1);
    }
}

proof fn lemma_first_ending_after(uses: Seq<PathUse>, x: u32, lo: int, i: int)
    requires
        0 <= lo <= i <= uses.len(),
        forall|k: int| lo <= k < i ==> (#[trigger] uses[k]).span.end_byte <= x,
    ensures
        i <= first_ending_after(uses, x, i) <= uses.len(),
        forall|k: int| lo <= k < first_ending_after(uses, x, i) ==> (#[trigger] uses[k]).span.end_byte <= x,
        first_ending_after(uses, x, i) < uses.len() ==> uses[first_ending_after(uses, x, i)].span.end_byte > x,
    decreases uses.len() - i,
{
    if i < uses.len() && uses[i].span.end_byte <= x {
        lemma_first_ending_after(uses, x, lo, i + 1);
    }
}

/// Every span has a range of path uses within it.
proof fn lemma_uses_bounds_exist(uses: Seq<PathUse>, span: Span)
    ensures
        uses_bounds_ok(uses, span, uses_bounds(uses, span)),
{
    lemma_first_starting(uses, span.start_byte, 0);
    let r0 = first_starting(uses, span.start_byte, 0);
    lemma_first_ending_after(uses, span.end_byte, r0, r0);
    let r1 = first_ending_after(uses, span.end_byte, r0);
    assert(uses_bounds_ok(uses, span, (r0, r1)));
}

impl TaintCtx {
    proof fn lemma_sanitized_sources(&self, span: Span, n: int)
        requires
            sanitized_by(self.sanitizers, span),
        ensures
            self.source_taint(span, n) == Map::<Origin, WitnessView>::empty(),
        decreases n,
    {
        if 0 < n <= self.sources.len() {
            self.lemma_sanitized_sources(span, n - 1);
            let src = self.sources[n - 1];
            if span.covers(src.span) {
                let i = choose|i: int| 0 <= i < self.sanitizers.len() && (#[trigger] self.sanitizers[i]).covers(span);
                assert(self.sanitizers[i].covers(src.span));
            }
        }
    }

    proof fn lemma_sanitized_uses(&self, cells: Seq<Cell>, m: Map<Origin, WitnessView>, span: Span, lo: int, k: int)
        requires
            sanitized_by(self.sanitizers, span),
            forall|j: int| lo <= j < k && j < self.structure.path_uses@.len() ==> span.covers((#[trigger] self.structure.path_uses@[j]).span),
        ensures
            self.use_taint(cells, m, lo, k) == m,
        decreases k - lo,
    {
        if lo < k && k <= self.structure.path_uses@.len() {
            self.lemma_sanitized_uses(cells, m, span, lo, k - 1);
            let u = self.structure.path_uses@[k - 1];
            let i = choose|i: int| 0 <= i < self.sanitizers.len() && (#[trigger] self.sanitizers[i]).covers(span);
            assert(span.covers(u.span));
            assert(self.sanitizers[i].covers(u.span));
        }
    }

    proof fn lemma_sanitized_calls(&self, cts: Seq<(Span, Map<Origin, WitnessView>)>, m: Map<Origin, WitnessView>, span: Span, n: int)
        requires
            sanitized_by(self.sanitizers, span),
        ensures
            self.call_taint(cts, m, span, n) == m,
        decreases n,
    {
        if 0 < n <= cts.len() {
            self.lemma_sanitized_calls(cts, m, span, n - 1);
            if span.covers(cts[n - 1].0) {
                let i = choose|i: int| 0 <= i < self.sanitizers.len() && (#[trigger] self.sanitizers[i]).covers(span);
                assert(self.sanitizers[i].covers(cts[n - 1].0));
            }
        }
    }
}

/// Data passing through a sanitizer carries no taint: an expression whose
/// span lies inside a sanitizer's span evaluates to no origins, whatever
/// the state and the call taints.
pub proof fn lemma_sanitized_span_untainted(ctx: TaintCtx, cells: Seq<Cell>, cts: Seq<(Span, Map<Origin, WitnessView>)>, span: Span)
    requires
        ctx.structure.wf(),
        sanitized_by(ctx.sanitizers, span),
    ensures
        ctx.taint_in(cells, cts, span) == Map::<Origin, WitnessView>::empty(),
{
    reveal(TaintCtx::taint_in);
    let uses = ctx.structure.path_uses@;
    lemma_uses_bounds_exist(uses, span);
    let b = uses_bounds(uses, span);
    assert forall|j: int| b.0 <= j < b.1 && j < uses.len() implies span.covers((#[trigger] uses[j]).span) by {
        if b.0 < uses.len() {
            assert(uses[b.0].span.start_byte <= uses[j].span.start_byte);
        }
    }
    ctx.lemma_sanitized_sources(span, ctx.sources.len() as int);
    ctx.lemma_sanitized_uses(cells, Map::empty(), span, b.0, b.1);
    ctx.lemma_sanitized_calls(cts, Map::empty(), span, cts.len() as int);
}

impl TaintCtx {
    /// Source `i` lies within `span` and no sanitizer covers it.
    pub open spec fn source_in(&self, span: Span, i: int) -> bool {
        0 <= i < self.sources.len() && span.covers(self.sources[i].span) && !sanitized_by(self.sanitizers, self.sources[i].span)
    }

    /// Path use `j` is one of the uses within `span` and no sanitizer
    /// covers it.
    pub open spec fn use_in(&self, span: Span, j: int) -> bool {
        let b = uses_bounds(self.structure.path_uses@, span);
        b.0 <= j < b.1 && j < self.structure.path_uses@.len() && !sanitized_by(self.sanitizers, self.structure.path_uses@[j].span)
    }

    /// The taint visible at path use `j`.
    pub open spec fn use_visible(&self, cells: Seq<Cell>, j: int) -> Map<Origin, WitnessView> {
        let u = self.structure.path_uses@[j];
        visible_map(cells, scope_chain(self.structure.scopes@, u.scope as int), u.scope, u.path@, u.span.start_byte)
    }

    /// Call taint `n` lies within `span` and no sanitizer covers its call.
    pub open spec fn call_in(&self, cts: Seq<(Span, Map<Origin, WitnessView>)>, span: Span, n: int) -> bool {
        0 <= n < cts.len() && span.covers(cts[n].0) && !sanitized_by(self.sanitizers, cts[n].0)
    }

    proof fn lemma_source_keys(&self, span: Span, n: int, o: Origin)
        requires
            0 <= n <= self.sources.len(),
        ensures
            self.source_taint(span, n).contains_key(o) <==>
                exists|i: int| 0 <= i < n && #[trigger] self.source_in(span, i) && o == Origin::Source(i as usize),
        decreases n,
    {
        if n > 0 {
            self.lemma_source_keys(span, n - 1, o);
            if self.source_in(span, n - 1) && o == Origin::Source((n - 1) as usize) {
                assert(self.source_taint(span, n).contains_key(o));
            }
            if exists|i: int| 0 <= i < n && #[trigger] self.source_in(span, i) && o == Origin::Source(i as usize) {
                let i = choose|i: int| 0 <= i < n && #[trigger] self.source_in(span, i) && o == Origin::Source(i as usize);
                if i < n - 1 {
                    assert(self.source_taint(span, n - 1).contains_key(o));
                }
            }
        }
    }

    proof fn lemma_use_keys(&self, cells: Seq<Cell>, m: Map<Origin, WitnessView>, span: Span, lo: int, k: int, o: Origin)
        requires
            0 <= lo,
            k <= self.structure.path_uses@.len(),
            uses_bounds(self.structure.path_uses@, span).0 == lo,
            k <= uses_bounds(self.structure.path_uses@, span).1,
        ensures
            self.use_taint(cells, m, lo, k).contains_key(o) <==>
                m.contains_key(o) || exists|j: int| lo <= j < k && #[trigger] self.use_in(span, j) && self.use_visible(cells, j).contains_key(o),
        decreases k - lo,
    {
        if lo < k {
            self.lemma_use_keys(cells, m, span, lo, k - 1, o);
            let j = k - 1;
            if self.use_in(span, j) && self.use_visible(cells, j).contains_key(o) {
                assert(!sanitized_by(self.sanitizers, self.structure.path_uses@[j].span));
            }
            if exists|q: int| lo <= q < k && #[trigger] self.use_in(span, q) && self.use_visible(cells, q).contains_key(o) {
                let q = choose|q: int| lo <= q < k && #[trigger] self.use_in(span, q) && self.use_visible(cells, q).contains_key(o);
                if q < k - 1 {
                    assert(self.use_taint(cells, m, lo, k - 1).contains_key(o));
                }
            }
        }
    }

    proof fn lemma_call_keys(&self, cts: Seq<(Span, Map<Origin, WitnessView>)>, m: Map<Origin, WitnessView>, span: Span, n: int, o: Origin)
        requires
            0 <= n <= cts.len(),
        ensures
            self.call_taint(cts, m, span, n).contains_key(o) <==>
                m.contains_key(o) || exists|q: int| 0 <= q < n && #[trigger] self.call_in(cts, span, q) && cts[q].1.contains_key(o),
        decreases n,
    {
        if n > 0 {
            self.lemma_call_keys(cts, m, span, n - 1, o);
            if self.call_in(cts, span, n - 1) && cts[n - 1].1.contains_key(o) {
                assert(self.call_in(cts, span, n - 1));
            }
            if exists|q: int| 0 <= q < n && #[trigger] self.call_in(cts, span, q) && cts[q].1.contains_key(o) {
                let q = choose|q: int| 0 <= q < n && #[trigger] self.call_in(cts, span, q) && cts[q].1.contains_key(o);
                if q < n - 1 {
                    assert(self.call_taint(cts, m, span, n - 1).contains_key(o));
                }
            }
        }
    }
}

/// What reaches an expression: an origin taints the expression occupying
/// `span` exactly when it is an unsanitized source within the span, is
/// visible at an unsanitized path use within it, or taints an unsanitized
/// summarised call within it.
pub proof fn lemma_taint_in_keys(ctx: TaintCtx, cells: Seq<Cell>, cts: Seq<(Span, Map<Origin, WitnessView>)>, span: Span, o: Origin)
    ensures
        ctx.taint_in(cells, cts, span).contains_key(o) <==> {
            ||| exists|i: int| #[trigger] ctx.source_in(span, i) && o == Origin::Source(i as usize)
            ||| exists|j: int| #[trigger] ctx.use_in(span, j) && ctx.use_visible(cells, j).contains_key(o)
            ||| exists|q: int| #[trigger] ctx.call_in(cts, span, q) && cts[q].1.contains_key(o)
        },
{
    reveal(TaintCtx::taint_in);
    let uses = ctx.structure.path_uses@;
    lemma_uses_bounds_exist(uses, span);
    let b = uses_bounds(uses, span);
    ctx.lemma_source_keys(span, ctx.sources.len() as int, o);
    let st = ctx.source_taint(span, ctx.sources.len() as int);
    ctx.lemma_use_keys(cells, st, span, b.0, b.1, o);
    let ut = ctx.use_taint(cells, st, b.0, b.1);
    ctx.lemma_call_keys(cts, ut, span, cts.len() as int, o);
}

impl<'a> RuleRun<'a> {
    pub open spec fn wf(&self) -> bool {
        &&& self.structure.wf()
        &&& self.state.wf()
        &&& forall|i: int| 0 <= i < self.call_taints@.len() ==> (#[trigger] self.call_taints@[i]).1.wf()
    }

    /// The call taints as (span, origin map) pairs.
    pub open spec fn cts(&self) -> Seq<(Span, Map<Origin, WitnessView>)> {
        cts_view(self.call_taints@)
    }

    /// `taint_in` for the current state and call taints.
    pub open spec fn taint_of(&self, span: Span) -> Map<Origin, WitnessView> {
        self.ctx().taint_in(self.state.cells@, self.cts(), span)
    }

    /// The parts of the run that taint evaluation reads besides the state.
    pub open spec fn ctx(&self) -> TaintCtx {
        TaintCtx { structure: *self.structure, sources: self.sources@, sanitizers: self.sanitizers@ }
    }

    /// A fresh run: no taint bound yet, no call taints, counter at zero.
    pub fn new(
        structure: &'a Structure,
        sources: Vec<SourceMatch>,
        sinks: Vec<(Span, String)>,
        sanitizers: Vec<Span>,
        linked: &'a LinkedForRule,
    ) -> (r: RuleRun<'a>)
        ensures
            r.structure == structure,
            r.sources@ == sources@,
            r.sinks@ == sinks@,
            r.sanitizers@ == sanitizers@,
            r.linked == linked,
            r.state.cells@.len() == 0,
            r.call_taints@.len() == 0,
            r.external_counter == 0,
            structure.wf() ==> r.wf(),
    {
        RuleRun {
            structure,
            sources,
            sinks,
            sanitizers,
            state: TaintState::new(),
            call_taints: Vec::new(),
            linked,
            external_counter: 0,
        }
    }

    pub fn sanitized(&self, span: &Span) -> (r: bool)
        ensures
            r == sanitized_by(self.sanitizers@, *span),
    {
        let n = self.sanitizers.len();
        for i in 0..n
            invariant
                n == self.sanitizers@.len(),
                forall|j: int| 0 <= j < i ==> !(#[trigger] self.sanitizers@[j]).covers(*span),
        {
            if self.sanitizers[i].contains(span) {
                return true;
            }
        }
        false
    }

    /// Origins visible to an expression occupying `span`, evaluated as if
    /// used at `use_byte`.
    pub fn expr_taint(&self, span: &Span, use_byte: u32) -> (out: Origins)
        requires
            self.wf(),
        ensures
            out.wf(),
            out@ == self.taint_of(*span),
    {
        proof { reveal(TaintCtx::taint_in); }
        let mut out = Origins::new();
        // Direct source containment.
        let ns = self.sources.len();
        for i in 0..ns
            invariant
                ns == self.sources@.len(),
                out.wf(),
                out@ == self.ctx().source_taint(*span, i as int),
        {
            let src = &self.sources[i];
            if span.contains(&src.span) && !self.sanitized(&src.span) {
                let mut steps: Vec<Step> = Vec::new();
                steps.push(Step::local(cat("source: ", src.label.as_str()), src.span));
                let w = Witness { write_byte: src.span.start_byte, steps };
                assert(w@.steps =~= seq![source_step(*src)]);
                out.insert(Origin::Source(i), w);
            }
        }
        // Tainted path uses, visible through the scope chain and statement
        // order.
        let (lo, hi) = self.structure.uses_within(span);
        proof { lemma_uses_bounds_unique(self.structure.path_uses@, *span, (lo as int, hi as int)); }
        let ghost m0 = out@;
        for k in lo..hi
            invariant
                self.wf(),
                hi <= self.structure.path_uses@.len(),
                out.wf(),
                out@ == self.ctx().use_taint(self.state.cells@, m0, lo as int, k as int),
        {
            let u = &self.structure.path_uses[k];
            if !self.sanitized(&u.span) {
                let chain = self.structure.chain(u.scope);
                let visible = self.state.visible(u.scope, chain.as_slice(), &u.path, u.span.start_byte);
                let label = cat3("`", render_access(&u.path).as_str(), "` used here");
                let st = Step::local(label, u.span);
                let stepped = with_step(&visible, &st);
                merge_origins(&mut out, &stepped);
            }
        }
        // Taint flowing out of a summarised call.
        let ghost m1 = out@;
        let nc = self.call_taints.len();
        for i in 0..nc
            invariant
                self.wf(),
                nc == self.call_taints@.len(),
                out.wf(),
                out@ == self.ctx().call_taint(self.cts(), m1, *span, i as int),
        {
            let ct = &self.call_taints[i];
            if span.contains(&ct.0) && !self.sanitized(&ct.0) {
                merge_origins(&mut out, &ct.1);
            }
        }
        out
    }
}

/// `base.f1.f2` for an access path.
pub fn render_access(p: &AccessPath) -> (r: String)
    ensures
        r@ == render_path(p@),
{
    let mut s = crate::paths::copy_string(&p.base);
    let n = p.fields.len();
    assert(p@.fields.take(0) =~= Seq::<Seq<char>>::empty());
    for i in 0..n
        invariant
            n == p.fields@.len(),
            p@.fields.len() == n,
            s@ == dotted(p.base@, p@.fields.take(i as int)),
    {
        s.append(".");
        s.append(p.fields[i].as_str());
        assert(p@.fields.take(i + 1).drop_last() =~= p@.fields.take(i as int));
    }
    assert(p@.fields.take(n as int) =~= p@.fields);
    s
}

/// `o` with every witness extended by a copy of `st`.
pub fn with_step(o: &Origins, st: &Step) -> (r: Origins)
    requires
        o.wf(),
    ensures
        r.wf(),
        r@ == add_step(o@, st@),
{
    let mut v: Vec<(Origin, Witness)> = Vec::new();
    let n = o.entries.len();
    for i in 0..n
        invariant
            n == o.entries@.len(),
            v@.len() == i,
            forall|j: int| 0 <= j < i ==> (#[trigger] v@[j]).0 == o.entries@[j].0
                && v@[j].1@ == (WitnessView { write_byte: o.entries@[j].1@.write_byte, steps: o.entries@[j].1@.steps.push(st@) }),
    {
        let e = &o.entries[i];
        let mut steps = crate::state::copy_steps(&e.1.steps);
        steps.push(st.clone());
        let w = Witness { write_byte: e.1.write_byte, steps };
        assert(w@.steps =~= e.1@.steps.push(st@));
        v.push((e.0, w));
    }
    let r = Origins { entries: v };
    proof { lemma_same_keys(o.entries@, r.entries@); }
    assert forall|q: Origin| #[trigger] r@.contains_key(q) implies r@[q] == add_step(o@, st@)[q] by {
        let j = choose|j: int| 0 <= j < r.entries@.len() && #[trigger] r.entries@[j].0 == q;
        lemma_entries_map_at(r.entries@, j);
        lemma_entries_map_at(o.entries@, j);
    }
    assert(r@ =~= add_step(o@, st@));
    r
}

/// `o` with every witness rebound at `wb` and extended by a copy of `st`.
pub fn rebound(o: &Origins, wb: u32, st: &Step) -> (r: Origins)
    requires
        o.wf(),
    ensures
        r.wf(),
        r@ == rebind(o@, wb, st@),
{
    let mut v: Vec<(Origin, Witness)> = Vec::new();
    let n = o.entries.len();
    for i in 0..n
        invariant
            n == o.entries@.len(),
            v@.len() == i,
            forall|j: int| 0 <= j < i ==> (#[trigger] v@[j]).0 == o.entries@[j].0
                && v@[j].1@ == (WitnessView { write_byte: wb, steps: o.entries@[j].1@.steps.push(st@) }),
    {
        let e = &o.entries[i];
        let mut steps = crate::state::copy_steps(&e.1.steps);
        steps.push(st.clone());
        let w = Witness { write_byte: wb, steps };
        assert(w@.steps =~= e.1@.steps.push(st@));
        v.push((e.0, w));
    }
    let r = Origins { entries: v };
    proof { lemma_same_keys(o.entries@, r.entries@); }
    assert forall|q: Origin| #[trigger] r@.contains_key(q) implies r@[q] == rebind(o@, wb, st@)[q] by {
        let j = choose|j: int| 0 <= j < r.entries@.len() && #[trigger] r.entries@[j].0 == q;
        lemma_entries_map_at(r.entries@, j);
        lemma_entries_map_at(o.entries@, j);
    }
    assert(r@ =~= rebind(o@, wb, st@));
    r
}

/// Two entry sequences with the same origins position by position have the
/// same sortedness and the same key set.
pub proof fn lemma_same_keys(a: Seq<(Origin, Witness)>, b: Seq<(Origin, Witness)>)
    requires
        sorted_entries(a),
        a.len() == b.len(),
        forall|j: int| 0 <= j < a.len() ==> (#[trigger] b[j]).0 == a[j].0,
    ensures
        sorted_entries(b),
        forall|q: Origin| #![auto] entries_map(b).contains_key(q) == entries_map(a).contains_key(q),
{
    assert forall|x: int, y: int| 0 <= x < y < b.len() implies crate::state::origin_lt(#[trigger] b[x].0, #[trigger] b[y].0) by {
        assert(b[x].0 == a[x].0 && b[y].0 == a[y].0);
    }
    assert forall|q: Origin| #![auto] entries_map(b).contains_key(q) == entries_map(a).contains_key(q) by {
        if has_key(a, q) {
            let j = choose|j: int| 0 <= j < a.len() && #[trigger] a[j].0 == q;
            assert(b[j].0 == q);
        }
        if has_key(b, q) {
            let j = choose|j: int| 0 <= j < b.len() && #[trigger] b[j].0 == q;
            assert(a[j].0 == q);
        }
    }
}


/// The synthetic taint of a parameter: its own `Param` origin.
pub open spec fn param_origins(p: Param) -> Map<Origin, WitnessView> {
    Map::empty().insert(
        Origin::Param { scope: p.scope, index: p.index },
        WitnessView {
            write_byte: p.span.start_byte,
            steps: seq![StepView { label: "parameter `"@ + p.name@ + "`"@, span: p.span, file: None, snippet: None }],
        },
    )
}

/// The path naming a parameter.
pub open spec fn base_path(name: Seq<char>) -> PathView {
    PathView { base: name, fields: Seq::empty(), truncated: false }
}

/// The step recording an assignment.
pub open spec fn assigned_step(a: Assign) -> StepView {
    StepView { label: "assigned to `"@ + render_path(a.path@) + "`"@, span: a.lhs_span, file: None, snippet: None }
}

/// `post` is `pre` with every parameter bound to its own synthetic origin,
/// in parameter order.
pub open spec fn seeded(params: Seq<Param>, pre: TaintState, post: TaintState) -> bool {
    exists|sts: Seq<TaintState>, chs: Seq<bool>| {
        &&& sts.len() == params.len() + 1
        &&& chs.len() == params.len()
        &&& sts[0] == pre
        &&& sts.last() == post
        &&& forall|k: int| 0 <= k < params.len() ==>
            bind_post(#[trigger] sts[k], params[k].scope, base_path(params[k].name@), param_origins(params[k]), sts[k + 1], chs[k])
    }
}

impl TaintCtx {
    /// One assignment step: the taint of the right-hand side, rebound at the
    /// assignment (nothing happens when it is untainted).
    #[verifier::opaque]
    pub open spec fn assign_step(&self, cts: Seq<(Span, Map<Origin, WitnessView>)>, pre: TaintState, a: Assign, post: TaintState, changed: bool) -> bool {
        let o = self.taint_in(pre.cells@, cts, a.rhs_span);
        if o == Map::<Origin, WitnessView>::empty() {
            post == pre && !changed
        } else {
            bind_post(pre, a.scope, a.path@, rebind(o, a.write_byte, assigned_step(a)), post, changed)
        }
    }

    /// One propagation pass over all assignments, in order; `changed` when
    /// any step changed the state.
    #[verifier::opaque]
    pub open spec fn pass(&self, cts: Seq<(Span, Map<Origin, WitnessView>)>, pre: TaintState, post: TaintState, changed: bool) -> bool {
        let assigns = self.structure.assigns@;
        exists|sts: Seq<TaintState>, chs: Seq<bool>| {
            &&& sts.len() == assigns.len() + 1
            &&& chs.len() == assigns.len()
            &&& sts[0] == pre
            &&& sts.last() == post
            &&& changed == any_true(chs)
            &&& forall|k: int| 0 <= k < assigns.len() ==> self.assign_step(cts, #[trigger] sts[k], assigns[k], sts[k + 1], chs[k])
        }
    }

    /// Passes repeated while they change the state, at most
    /// `MAX_ASSIGN_ITERS` times.
    #[verifier::opaque]
    pub open spec fn propagated(&self, cts: Seq<(Span, Map<Origin, WitnessView>)>, pre: TaintState, post: TaintState) -> bool {
        exists|ps: Seq<TaintState>, cs: Seq<bool>| {
            &&& ps.len() == cs.len() + 1
            &&& 1 <= cs.len() <= MAX_ASSIGN_ITERS
            &&& ps[0] == pre
            &&& ps.last() == post
            &&& forall|i: int| 0 <= i < cs.len() ==> self.pass(cts, #[trigger] ps[i], ps[i + 1], cs[i])
            &&& forall|i: int| 0 <= i < cs.len() - 1 ==> #[trigger] cs[i]
            &&& (!cs.last() || cs.len() == MAX_ASSIGN_ITERS)
        }
    }

}

impl TaintCtx {
    proof fn lemma_step_grows(&self, cts: Seq<(Span, Map<Origin, WitnessView>)>, pre: TaintState, a: Assign, post: TaintState, changed: bool)
        requires
            self.assign_step(cts, pre, a, post, changed),
        ensures
            grows(pre, post),
    {
        reveal(TaintCtx::assign_step);
        let o = self.taint_in(pre.cells@, cts, a.rhs_span);
        if o == Map::<Origin, WitnessView>::empty() {
            lemma_grows_refl(pre);
        } else {
            lemma_bind_grows(pre, a.scope, a.path@, rebind(o, a.write_byte, assigned_step(a)), post, changed);
        }
    }

    proof fn lemma_steps_grow(&self, cts: Seq<(Span, Map<Origin, WitnessView>)>, sts: Seq<TaintState>, chs: Seq<bool>, j: int)
        requires
            sts.len() == self.structure.assigns@.len() + 1,
            chs.len() == self.structure.assigns@.len(),
            forall|k: int| 0 <= k < self.structure.assigns@.len() ==>
                self.assign_step(cts, #[trigger] sts[k], self.structure.assigns@[k], sts[k + 1], chs[k]),
            0 <= j < sts.len(),
        ensures
            grows(sts[0], sts[j]),
        decreases j,
    {
        if j == 0 {
            lemma_grows_refl(sts[0]);
        } else {
            self.lemma_steps_grow(cts, sts, chs, j - 1);
            self.lemma_step_grows(cts, sts[j - 1], self.structure.assigns@[j - 1], sts[j], chs[j - 1]);
            lemma_grows_trans(sts[0], sts[j - 1], sts[j]);
        }
    }

    proof fn lemma_pass_grows(&self, cts: Seq<(Span, Map<Origin, WitnessView>)>, pre: TaintState, post: TaintState, changed: bool)
        requires
            self.pass(cts, pre, post, changed),
        ensures
            grows(pre, post),
    {
        reveal(TaintCtx::pass);
        let (sts, chs) = choose|sts: Seq<TaintState>, chs: Seq<bool>| {
            &&& sts.len() == self.structure.assigns@.len() + 1
            &&& chs.len() == self.structure.assigns@.len()
            &&& sts[0] == pre
            &&& sts.last() == post
            &&& changed == any_true(chs)
            &&& forall|k: int| 0 <= k < self.structure.assigns@.len() ==> self.assign_step(cts, #[trigger] sts[k], self.structure.assigns@[k], sts[k + 1], chs[k])
        };
        self.lemma_steps_grow(cts, sts, chs, sts.len() - 1);
    }

    proof fn lemma_passes_grow(&self, cts: Seq<(Span, Map<Origin, WitnessView>)>, ps: Seq<TaintState>, cs: Seq<bool>, j: int)
        requires
            ps.len() == cs.len() + 1,
            forall|i: int| 0 <= i < cs.len() ==> self.pass(cts, #[trigger] ps[i], ps[i + 1], cs[i]),
            0 <= j < ps.len(),
        ensures
            grows(ps[0], ps[j]),
        decreases j,
    {
        if j == 0 {
            lemma_grows_refl(ps[0]);
        } else {
            self.lemma_passes_grow(cts, ps, cs, j - 1);
            self.lemma_pass_grows(cts, ps[j - 1], ps[j], cs[j - 1]);
            lemma_grows_trans(ps[0], ps[j - 1], ps[j]);
        }
    }
}

/// Propagation only adds taint: every origin visible to a use before
/// propagating through the assignments is still visible to it after.
pub proof fn lemma_propagate_monotone(ctx: TaintCtx, cts: Seq<(Span, Map<Origin, WitnessView>)>, pre: TaintState, post: TaintState,
    chain: Seq<usize>, use_scope: usize, path: PathView, use_byte: u32, o: Origin)
    requires
        pre.wf(),
        ctx.propagated(cts, pre, post),
        visible_map(pre.cells@, chain, use_scope, path, use_byte).contains_key(o),
    ensures
        visible_map(post.cells@, chain, use_scope, path, use_byte).contains_key(o),
{
    reveal(TaintCtx::propagated);
    let (ps, cs) = choose|ps: Seq<TaintState>, cs: Seq<bool>| {
        &&& ps.len() == cs.len() + 1
        &&& 1 <= cs.len() <= MAX_ASSIGN_ITERS
        &&& ps[0] == pre
        &&& ps.last() == post
        &&& forall|i: int| 0 <= i < cs.len() ==> ctx.pass(cts, #[trigger] ps[i], ps[i + 1], cs[i])
        &&& forall|i: int| 0 <= i < cs.len() - 1 ==> #[trigger] cs[i]
        &&& (!cs.last() || cs.len() == MAX_ASSIGN_ITERS)
    };
    ctx.lemma_passes_grow(cts, ps, cs, ps.len() - 1);
    lemma_visible_grows(pre, post, chain, use_scope, path, use_byte, o);
}

proof fn lemma_seeds_grow(params: Seq<Param>, sts: Seq<TaintState>, chs: Seq<bool>, i: int, j: int)
    requires
        sts.len() == params.len() + 1,
        chs.len() == params.len(),
        forall|k: int| 0 <= k < params.len() ==>
            bind_post(#[trigger] sts[k], params[k].scope, base_path(params[k].name@), param_origins(params[k]), sts[k + 1], chs[k]),
        0 <= i <= j < sts.len(),
    ensures
        grows(sts[i], sts[j]),
    decreases j - i,
{
    if j == i {
        lemma_grows_refl(sts[i]);
    } else {
        lemma_seeds_grow(params, sts, chs, i, j - 1);
        lemma_bind_grows(sts[j - 1], params[j - 1].scope, base_path(params[j - 1].name@), param_origins(params[j - 1]), sts[j], chs[j - 1]);
        lemma_grows_trans(sts[i], sts[j - 1], sts[j]);
    }
}

/// After binding, the bound cell holds every bound origin, with a witness
/// written no later than the bound one.
proof fn lemma_bind_holds(pre: TaintState, scope: usize, path: PathView, origins: Map<Origin, WitnessView>, post: TaintState, changed: bool, o: Origin)
    requires
        bind_post(pre, scope, path, origins, post, changed),
        origins.contains_key(o),
    ensures
        exists|c: int| 0 <= c < post.cells@.len() && cell_is(#[trigger] post.cells@[c], scope, path)
            && post.cells@[c].origins@.contains_key(o) && post.cells@[c].origins@[o].write_byte <= origins[o].write_byte,
{
    match pre.find_cell(scope, path) {
        Some(k) => {
            assert(cell_is(post.cells@[k], scope, path));
        },
        None => {
            let c = post.cells@.len() - 1;
            assert(cell_is(post.cells@[c], scope, path));
        },
    }
}

/// Every parameter carries its own origin from its declaration on: after
/// seeding, a use of the parameter's name in its scope, past the start of
/// the parameter, sees the parameter's origin.
pub proof fn lemma_seeded_params_visible(params: Seq<Param>, pre: TaintState, post: TaintState, j: int, use_byte: u32)
    requires
        seeded(params, pre, post),
        0 <= j < params.len(),
        use_byte > params[j].span.start_byte,
    ensures
        visible_map(post.cells@, seq![params[j].scope], params[j].scope, base_path(params[j].name@), use_byte)
            .contains_key(Origin::Param { scope: params[j].scope, index: params[j].index }),
{
    let (sts, chs) = choose|sts: Seq<TaintState>, chs: Seq<bool>| {
        &&& sts.len() == params.len() + 1
        &&& chs.len() == params.len()
        &&& sts[0] == pre
        &&& sts.last() == post
        &&& forall|k: int| 0 <= k < params.len() ==>
            bind_post(#[trigger] sts[k], params[k].scope, base_path(params[k].name@), param_origins(params[k]), sts[k + 1], chs[k])
    };
    let p = params[j];
    let o = Origin::Param { scope: p.scope, index: p.index };
    let path = base_path(p.name@);
    let chain = seq![p.scope];
    assert(bind_post(sts[j], p.scope, path, param_origins(p), sts[j + 1], chs[j]));
    assert(param_origins(p).contains_key(o));
    lemma_bind_holds(sts[j], p.scope, path, param_origins(p), sts[j + 1], chs[j], o);
    let mid = sts[j + 1];
    let c = choose|c: int| 0 <= c < mid.cells@.len() && cell_is(#[trigger] mid.cells@[c], p.scope, path)
        && mid.cells@[c].origins@.contains_key(o) && mid.cells@[c].origins@[o].write_byte <= param_origins(p)[o].write_byte;
    lemma_seeds_grow(params, sts, chs, j + 1, sts.len() - 1);
    assert(grows(mid, post));
    let cell = post.cells@[c];
    assert(cell.origins@.contains_key(o)) by { assert(mid.cells@[c].origins@.contains_key(o)); }
    assert(has_key(cell.origins.entries@, o));
    let e = key_index(cell.origins.entries@, o);
    assert(cell.origins@[o] == cell.origins.entries@[e].1@);
    assert(cell.path@.fields.take(0) =~= path.fields);
    assert(reaches(post.cells@, chain, 0, c, e, p.scope, path, use_byte, o));
    lemma_visible_iff(post.cells@, chain, p.scope, path, use_byte, o);
}

proof fn lemma_seeded_grows(params: Seq<Param>, pre: TaintState, post: TaintState)
    requires
        seeded(params, pre, post),
    ensures
        grows(pre, post),
{
    let (sts, chs) = choose|sts: Seq<TaintState>, chs: Seq<bool>| {
        &&& sts.len() == params.len() + 1
        &&& chs.len() == params.len()
        &&& sts[0] == pre
        &&& sts.last() == post
        &&& forall|k: int| 0 <= k < params.len() ==>
            bind_post(#[trigger] sts[k], params[k].scope, base_path(params[k].name@), param_origins(params[k]), sts[k + 1], chs[k])
    };
    lemma_seeds_grow(params, sts, chs, 0, sts.len() - 1);
}

/// Seeding parameters only adds taint: every origin visible to a use
/// before seeding is still visible to it after.
pub proof fn lemma_seed_monotone(params: Seq<Param>, pre: TaintState, post: TaintState,
    chain: Seq<usize>, use_scope: usize, path: PathView, use_byte: u32, o: Origin)
    requires
        pre.wf(),
        seeded(params, pre, post),
        visible_map(pre.cells@, chain, use_scope, path, use_byte).contains_key(o),
    ensures
        visible_map(post.cells@, chain, use_scope, path, use_byte).contains_key(o),
{
    let (sts, chs) = choose|sts: Seq<TaintState>, chs: Seq<bool>| {
        &&& sts.len() == params.len() + 1
        &&& chs.len() == params.len()
        &&& sts[0] == pre
        &&& sts.last() == post
        &&& forall|k: int| 0 <= k < params.len() ==>
            bind_post(#[trigger] sts[k], params[k].scope, base_path(params[k].name@), param_origins(params[k]), sts[k + 1], chs[k])
    };
    lemma_seeds_grow(params, sts, chs, 0, sts.len() - 1);
    lemma_visible_grows(pre, post, chain, use_scope, path, use_byte, o);
}

impl<'a> RuleRun<'a> {
    /// Seed parameters with synthetic taint so summaries can be computed and
    /// caller taint can reach sinks inside callees.
    pub fn seed_params(&mut self)
        requires
            old(self).wf(),
        ensures
            final(self).wf(),
            seeded(old(self).structure.params@, old(self).state, final(self).state),
            final(self).structure == old(self).structure,
            final(self).sources == old(self).sources,
            final(self).sinks == old(self).sinks,
            final(self).sanitizers == old(self).sanitizers,
            final(self).call_taints == old(self).call_taints,
            final(self).linked == old(self).linked,
            final(self).external_counter == old(self).external_counter,
    {
        let structure = self.structure;
        let n = structure.params.len();
        let ghost mut sts: Seq<TaintState> = seq![self.state];
        let ghost mut chs: Seq<bool> = Seq::empty();
        for i in 0..n
            invariant
                structure == self.structure,
                structure == old(self).structure,
                n == structure.params@.len(),
                self.wf(),
                self.sources == old(self).sources,
                self.sinks == old(self).sinks,
                self.sanitizers == old(self).sanitizers,
                self.call_taints == old(self).call_taints,
                self.linked == old(self).linked,
                self.external_counter == old(self).external_counter,
                sts.len() == i + 1,
                chs.len() == i,
                sts[0] == old(self).state,
                sts.last() == self.state,
                forall|k: int| 0 <= k < i ==>
                    bind_post(#[trigger] sts[k], structure.params@[k].scope, base_path(structure.params@[k].name@), param_origins(structure.params@[k]), sts[k + 1], chs[k]),
        {
            let p = &structure.params[i];
            let mut origins = Origins::new();
            let mut steps: Vec<Step> = Vec::new();
            steps.push(Step::local(cat3("parameter `", p.name.as_str(), "`"), p.span));
            let w = Witness { write_byte: p.span.start_byte, steps };
            assert(w@.steps =~= seq![StepView { label: "parameter `"@ + p.name@ + "`"@, span: p.span, file: None, snippet: None }]);
            origins.insert(Origin::Param { scope: p.scope, index: p.index }, w);
            assert(origins@ =~= param_origins(*p));
            let path = AccessPath::base_only(crate::paths::copy_string(&p.name));
            assert(path@ =~= base_path(p.name@));
            let ghost pre = self.state;
            let ch = self.state.bind(p.scope, &path, &origins);
            proof {
                sts = sts.push(self.state);
                chs = chs.push(ch);
            }
        }
        assert(seeded(structure.params@, old(self).state, self.state));
    }

    /// Propagate through assignments until fixpoint (or the iteration cap).
    pub fn propagate(&mut self)
        requires
            old(self).wf(),
        ensures
            final(self).wf(),
            old(self).ctx().propagated(old(self).cts(), old(self).state, final(self).state),
            final(self).structure == old(self).structure,
            final(self).sources == old(self).sources,
            final(self).sinks == old(self).sinks,
            final(self).sanitizers == old(self).sanitizers,
            final(self).call_taints == old(self).call_taints,
            final(self).linked == old(self).linked,
            final(self).external_counter == old(self).external_counter,
    {
        let ghost mut ps: Seq<TaintState> = seq![self.state];
        let ghost mut cs: Seq<bool> = Seq::empty();
        let mut iter: usize = 0;
        loop
            invariant
                self.wf(),
                self.structure == old(self).structure,
                self.sources == old(self).sources,
                self.sinks == old(self).sinks,
                self.sanitizers == old(self).sanitizers,
                self.call_taints == old(self).call_taints,
                self.linked == old(self).linked,
                self.external_counter == old(self).external_counter,
                iter < MAX_ASSIGN_ITERS,
                ps.len() == cs.len() + 1,
                cs.len() == iter,
                ps[0] == old(self).state,
                ps.last() == self.state,
                forall|i: int| 0 <= i < cs.len() ==> old(self).ctx().pass(old(self).cts(), #[trigger] ps[i], ps[i + 1], cs[i]),
                forall|i: int| 0 <= i < cs.len() ==> #[trigger] cs[i],
            decreases MAX_ASSIGN_ITERS - iter,
        {
            let ghost pre = self.state;
            let changed = self.pass_once();
            proof {
                ps = ps.push(self.state);
                cs = cs.push(changed);
                assert forall|i: int| 0 <= i < cs.len() - 1 implies old(self).ctx().pass(old(self).cts(), #[trigger] ps[i], ps[i + 1], cs[i]) by {
                    assert(ps[i] == ps.drop_last()[i]);
                    assert(ps[i + 1] == ps.drop_last()[i + 1]);
                    assert(cs[i] == cs.drop_last()[i]);
                }
            }
            iter = iter + 1;
            if !changed || iter >= MAX_ASSIGN_ITERS {
                proof {
                    reveal(TaintCtx::propagated);
                    assert forall|i: int| 0 <= i < cs.len() - 1 implies #[trigger] cs[i] by {
                        assert(cs[i] == cs.drop_last()[i]);
                    }
                    assert(ps.len() == cs.len() + 1 && 1 <= cs.len() <= MAX_ASSIGN_ITERS && ps[0] == old(self).state
                        && ps.last() == self.state && (!cs.last() || cs.len() == MAX_ASSIGN_ITERS));
                }
                return;
            }
        }
    }

    /// One propagation pass over all assignments.
    #[verifier::rlimit(60)]
    fn pass_once(&mut self) -> (changed: bool)
        requires
            old(self).wf(),
        ensures
            final(self).wf(),
            old(self).ctx().pass(old(self).cts(), old(self).state, final(self).state, changed),
            final(self).structure == old(self).structure,
            final(self).sources == old(self).sources,
            final(self).sinks == old(self).sinks,
            final(self).sanitizers == old(self).sanitizers,
            final(self).call_taints == old(self).call_taints,
            final(self).linked == old(self).linked,
            final(self).external_counter == old(self).external_counter,
    {
        let structure = self.structure;
        let n = structure.assigns.len();
        let mut changed = false;
        let ghost mut sts: Seq<TaintState> = seq![self.state];
        let ghost mut chs: Seq<bool> = Seq::empty();
        for i in 0..n
            invariant
                structure == self.structure,
                structure == old(self).structure,
                n == structure.assigns@.len(),
                self.wf(),
                self.sources == old(self).sources,
                self.sinks == old(self).sinks,
                self.sanitizers == old(self).sanitizers,
                self.call_taints == old(self).call_taints,
                self.linked == old(self).linked,
                self.external_counter == old(self).external_counter,
                sts.len() == i + 1,
                chs.len() == i,
                sts[0] == old(self).state,
                sts.last() == self.state,
                changed == any_true(chs),
                forall|k: int| 0 <= k < i ==> old(self).ctx().assign_step(old(self).cts(), #[trigger] sts[k], structure.assigns@[k], sts[k + 1], chs[k]),
        {
            let a = &structure.assigns[i];
            let origins = self.expr_taint(&a.rhs_span, a.rhs_span.start_byte);
            assert(self.taint_of(a.rhs_span) == old(self).ctx().taint_in(sts.last().cells@, old(self).cts(), a.rhs_span));
            if origins.is_empty() {
                proof {
                    let ghost prev = chs;
                    sts = sts.push(self.state);
                    chs = chs.push(false);
                    assert(chs.drop_last() =~= prev);
                    reveal(TaintCtx::assign_step);
                    reveal(TaintCtx::taint_in);
                    assert(old(self).ctx().assign_step(old(self).cts(), sts[i as int], structure.assigns@[i as int], sts[i + 1], chs[i as int]));
                    assert(chs.drop_last() =~= chs.drop_last());
                }
            } else {
                let label = cat3("assigned to `", render_access(&a.path).as_str(), "`");
                let st = Step::local(label, a.lhs_span);
                let bound = rebound(&origins, a.write_byte, &st);
                let ch = self.state.bind(a.scope, &a.path, &bound);
                proof {
                    let ghost prev = chs;
                    sts = sts.push(self.state);
                    chs = chs.push(ch);
                    assert(chs.drop_last() =~= prev);
                    reveal(TaintCtx::assign_step);
                    reveal(TaintCtx::taint_in);
                    assert(old(self).ctx().assign_step(old(self).cts(), sts[i as int], structure.assigns@[i as int], sts[i + 1], chs[i as int]));
                }
                if ch {
                    changed = true;
                }

            }
        }
        proof {
            reveal(TaintCtx::pass);
            assert(sts.len() == n + 1 && chs.len() == n && sts[0] == old(self).state && sts.last() == self.state);
        }
        changed
    }
}

/// How taint moves through a named function (per rule).
#[derive(Debug)]
pub struct Summary {
    /// Return value carries these source origins (with provenance).
    pub returns_source: Origins,
    /// Return value carries taint from these parameter indices.
    pub returns_params: Vec<(usize, Vec<Step>)>,
}

pub struct SummaryV {
    pub returns_source: Map<Origin, WitnessView>,
    pub returns_params: Seq<(usize, Seq<StepView>)>,
}

impl View for Summary {
    type V = SummaryV;

    open spec fn view(&self) -> SummaryV {
        SummaryV {
            returns_source: self.returns_source@,
            returns_params: self.returns_params@.map_values(|e: (usize, Vec<Step>)| (e.0, steps_view(e.1@))),
        }
    }
}

pub open spec fn empty_summary() -> SummaryV {
    SummaryV { returns_source: Map::empty(), returns_params: Seq::empty() }
}

/// Per-function summaries keyed by function name, in order of first
/// appearance (each name once).
#[derive(Debug)]
pub struct Summaries {
    pub entries: Vec<(String, Summary)>,
}

pub open spec fn summaries_view(v: Seq<(String, Summary)>) -> Seq<(Seq<char>, SummaryV)> {
    v.map_values(|e: (String, Summary)| (e.0@, e.1@))
}

/// The first position holding `name`.
pub open spec fn name_pos<V>(s: Seq<(Seq<char>, V)>, name: Seq<char>) -> Option<int>
    decreases s.len(),
{
    if s.len() == 0 {
        None
    } else {
        match name_pos(s.drop_last(), name) {
            Some(i) => Some(i),
            None => if s.last().0 == name { Some(s.len() - 1) } else { None },
        }
    }
}

pub proof fn lemma_name_pos_push<V>(s: Seq<(Seq<char>, V)>, e: (Seq<char>, V), name: Seq<char>)
    ensures
        name_pos(s.push(e), name) == (match name_pos(s, name) {
            Some(i) => Some(i),
            None => if e.0 == name { Some(s.len() as int) } else { None },
        }),
{
    assert(s.push(e).drop_last() =~= s);
}

pub proof fn lemma_name_pos_bounds<V>(s: Seq<(Seq<char>, V)>, name: Seq<char>)
    ensures
        name_pos(s, name) matches Some(i) ==> 0 <= i < s.len() && s[i].0 == name,
        name_pos(s, name) is None ==> forall|j: int| 0 <= j < s.len() ==> s[j].0 != name,
    decreases s.len(),
{
    if s.len() > 0 {
        lemma_name_pos_bounds(s.drop_last(), name);
        if name_pos(s.drop_last(), name) is None {
            assert forall|j: int| 0 <= j < s.len() - 1 implies s[j].0 != name by {
                assert(s[j] == s.drop_last()[j]);
            }
        } else {
            let i = name_pos(s.drop_last(), name)->0;
            assert(s[i] == s.drop_last()[i]);
        }
    }
}

pub proof fn lemma_name_pos_update<V>(s: Seq<(Seq<char>, V)>, k: int, v: V, name: Seq<char>)
    requires
        0 <= k < s.len(),
    ensures
        name_pos(s.update(k, (s[k].0, v)), name) == name_pos(s, name),
    decreases s.len(),
{
    let t = s.update(k, (s[k].0, v));
    if k < s.len() - 1 {
        assert(t.drop_last() =~= s.drop_last().update(k, (s[k].0, v)));
        lemma_name_pos_update(s.drop_last(), k, v, name);
    } else {
        assert(t.drop_last() =~= s.drop_last());
    }
}

/// The first named scope of a chain.
pub open spec fn first_named(scopes: Seq<Scope>, chain: Seq<usize>) -> Option<usize>
    decreases chain.len(),
{
    if chain.len() == 0 {
        None
    } else if 0 <= chain[0] < scopes.len() && scopes[chain[0] as int].name is Some {
        Some(chain[0])
    } else {
        first_named(scopes, chain.drop_first())
    }
}

/// Record one origin reaching a return of function scope `fs`: sources are
/// kept with their first witness; the function's own parameters are listed
/// once each, with the steps that reached the return.
pub open spec fn absorb_origin(sv: SummaryV, e: (Origin, WitnessView), fs: usize) -> SummaryV {
    match e.0 {
        Origin::Param { scope, index } =>
            if scope == fs && !(exists|j: int| 0 <= j < sv.returns_params.len() && (#[trigger] sv.returns_params[j]).0 == index) {
                SummaryV { returns_source: sv.returns_source, returns_params: sv.returns_params.push((index, e.1.steps)) }
            } else {
                sv
            },
        _ =>
            if sv.returns_source.contains_key(e.0) {
                sv
            } else {
                SummaryV { returns_source: sv.returns_source.insert(e.0, e.1), returns_params: sv.returns_params }
            },
    }
}

pub open spec fn absorb_all(sv: SummaryV, es: Seq<(Origin, WitnessView)>, fs: usize) -> SummaryV
    decreases es.len(),
{
    if es.len() == 0 {
        sv
    } else {
        absorb_origin(absorb_all(sv, es.drop_last(), fs), es.last(), fs)
    }
}

/// The summary for `name`, or an empty one.
pub open spec fn summary_or_empty(m: Seq<(Seq<char>, SummaryV)>, name: Seq<char>) -> SummaryV {
    match name_pos(m, name) {
        Some(i) => m[i].1,
        None => empty_summary(),
    }
}

/// `m` with `name` set to `v` (in place, or appended when new).
pub open spec fn put_named<V>(m: Seq<(Seq<char>, V)>, name: Seq<char>, v: V) -> Seq<(Seq<char>, V)> {
    match name_pos(m, name) {
        Some(i) => m.update(i, (name, v)),
        None => m.push((name, v)),
    }
}

impl TaintCtx {
    /// Summaries after the first `k` return statements.
    pub open spec fn summaries_upto(&self, cells: Seq<Cell>, cts: Seq<(Span, Map<Origin, WitnessView>)>, k: int) -> Seq<(Seq<char>, SummaryV)>
        decreases k,
    {
        if k <= 0 || k > self.structure.returns@.len() {
            Seq::empty()
        } else {
            let m = self.summaries_upto(cells, cts, k - 1);
            let r = self.structure.returns@[k - 1];
            match first_named(self.structure.scopes@, scope_chain(self.structure.scopes@, r.scope as int)) {
                None => m,
                Some(fs) => {
                    let name = self.structure.scopes@[fs as int].name->0@;
                    let o = self.taint_in(cells, cts, r.value_span);
                    if o == Map::<Origin, WitnessView>::empty() {
                        m
                    } else {
                        put_named(m, name, absorb_all(summary_or_empty(m, name), ordered(o), fs))
                    }
                },
            }
        }
    }
}

impl TaintCtx {
    /// Return statement `j` lies in the function named `n` (its nearest
    /// named enclosing scope) and returns tainted data.
    pub open spec fn return_summarized(&self, cells: Seq<Cell>, cts: Seq<(Span, Map<Origin, WitnessView>)>, j: int, n: Seq<char>) -> bool {
        let r = self.structure.returns@[j];
        &&& 0 <= j < self.structure.returns@.len()
        &&& first_named(self.structure.scopes@, scope_chain(self.structure.scopes@, r.scope as int)) matches Some(fs)
        &&& self.structure.scopes@[fs as int].name->0@ == n
        &&& self.taint_in(cells, cts, r.value_span) != Map::<Origin, WitnessView>::empty()
    }
}

/// A function gets a summary exactly when one of its return statements
/// returns tainted data.
pub proof fn lemma_summary_names(ctx: TaintCtx, cells: Seq<Cell>, cts: Seq<(Span, Map<Origin, WitnessView>)>, k: int, n: Seq<char>)
    requires
        0 <= k <= ctx.structure.returns@.len(),
    ensures
        name_pos(ctx.summaries_upto(cells, cts, k), n) is Some <==>
            exists|j: int| 0 <= j < k && #[trigger] ctx.return_summarized(cells, cts, j, n),
    decreases k,
{
    if k > 0 {
        lemma_summary_names(ctx, cells, cts, k - 1, n);
        let m = ctx.summaries_upto(cells, cts, k - 1);
        let r = ctx.structure.returns@[k - 1];
        match first_named(ctx.structure.scopes@, scope_chain(ctx.structure.scopes@, r.scope as int)) {
            None => {
                assert(!ctx.return_summarized(cells, cts, k - 1, n));
            },
            Some(fs) => {
                let name = ctx.structure.scopes@[fs as int].name->0@;
                let o = ctx.taint_in(cells, cts, r.value_span);
                if o != Map::<Origin, WitnessView>::empty() {
                    let v = absorb_all(summary_or_empty(m, name), ordered(o), fs);
                    match name_pos(m, name) {
                        Some(i) => {
                            lemma_name_pos_bounds(m, name);
                            assert(m.update(i, (name, v)) == m.update(i, (m[i].0, v)));
                            lemma_name_pos_update(m, i, v, n);
                        },
                        None => {
                            lemma_name_pos_push(m, (name, v), n);
                        },
                    }
                    if name == n {
                        assert(ctx.return_summarized(cells, cts, k - 1, n));
                    }
                }
            },
        }
        if exists|j: int| 0 <= j < k && #[trigger] ctx.return_summarized(cells, cts, j, n) {
            let j = choose|j: int| 0 <= j < k && #[trigger] ctx.return_summarized(cells, cts, j, n);
            if j < k - 1 {
                assert(exists|q: int| 0 <= q < k - 1 && #[trigger] ctx.return_summarized(cells, cts, q, n));
            }
        }
    }
}

impl Summaries {
    pub fn position(&self, name: &str) -> (r: Option<usize>)
        ensures
            r matches Some(i) ==> i < self.entries@.len(),
            match r {
                Some(i) => name_pos(summaries_view(self.entries@), name@) == Some(i as int),
                None => name_pos(summaries_view(self.entries@), name@) is None,
            },
    {
        let n = self.entries.len();
        let ghost sv = summaries_view(self.entries@);
        for i in 0..n
            invariant
                n == self.entries@.len(),
                sv == summaries_view(self.entries@),
                name_pos(sv.take(i as int), name@) is None,
        {
            assert(sv.take(i + 1) =~= sv.take(i as int).push(sv[i as int]));
            proof { lemma_name_pos_push(sv.take(i as int), sv[i as int], name@); }
            if crate::text::str_is(self.entries[i].0.as_str(), name) {
                proof { lemma_name_pos_prefix(sv, i as int + 1, name@); }
                return Some(i);
            }
        }
        assert(sv.take(n as int) =~= sv);
        None
    }
}

/// Once found in a prefix, a name's position is settled.
pub proof fn lemma_name_pos_prefix<V>(s: Seq<(Seq<char>, V)>, k: int, name: Seq<char>)
    requires
        0 <= k <= s.len(),
        name_pos(s.take(k), name) is Some,
    ensures
        name_pos(s, name) == name_pos(s.take(k), name),
    decreases s.len() - k,
{
    if k < s.len() {
        assert(s.take(k + 1) =~= s.take(k).push(s[k]));
        lemma_name_pos_push(s.take(k), s[k], name);
        lemma_name_pos_prefix(s, k + 1, name);
    } else {
        assert(s.take(k) =~= s);
    }
}

/// Whether parameter `index` is already listed.
fn has_param(v: &Vec<(usize, Vec<Step>)>, index: usize) -> (r: bool)
    ensures
        r == (exists|j: int| 0 <= j < v@.len() && (#[trigger] v@[j]).0 == index),
{
    let n = v.len();
    for i in 0..n
        invariant
            n == v@.len(),
            forall|j: int| 0 <= j < i ==> (#[trigger] v@[j]).0 != index,
    {
        if v[i].0 == index {
            return true;
        }
    }
    false
}

impl<'a> RuleRun<'a> {
    /// Compute per-function summaries from return statements.
    pub fn summaries(&self) -> (out: Summaries)
        requires
            self.wf(),
        ensures
            summaries_view(out.entries@) == self.ctx().summaries_upto(self.state.cells@, self.cts(), self.structure.returns@.len() as int),
            forall|i: int| 0 <= i < out.entries@.len() ==> (#[trigger] out.entries@[i]).1.returns_source.wf(),
    {
        let structure = self.structure;
        let mut out = Summaries { entries: Vec::new() };
        let n = structure.returns.len();
        let ghost ctx = self.ctx();
        assert(summaries_view(out.entries@) =~= Seq::<(Seq<char>, SummaryV)>::empty());
        for k in 0..n
            invariant
                structure == self.structure,
                ctx == self.ctx(),
                self.wf(),
                n == structure.returns@.len(),
                summaries_view(out.entries@) == ctx.summaries_upto(self.state.cells@, self.cts(), k as int),
                forall|i: int| 0 <= i < out.entries@.len() ==> (#[trigger] out.entries@[i]).1.returns_source.wf(),
        {
            let r = &structure.returns[k];
            let chain = structure.chain(r.scope);
            // The innermost named scope on the chain owns the return.
            proof { lemma_chain_in_range(structure.scopes@, r.scope as int); }
            let fs_opt = first_named_in(&structure.scopes, &chain);
            let ghost prev = summaries_view(out.entries@);
            assert(ctx.summaries_upto(self.state.cells@, self.cts(), k + 1) == {
                match first_named(structure.scopes@, scope_chain(structure.scopes@, r.scope as int)) {
                    None => prev,
                    Some(fs) => {
                        let name = structure.scopes@[fs as int].name->0@;
                        let o = ctx.taint_in(self.state.cells@, self.cts(), r.value_span);
                        if o == Map::<Origin, WitnessView>::empty() { prev } else {
                            put_named(prev, name, absorb_all(summary_or_empty(prev, name), ordered(o), fs))
                        }
                    },
                }
            });
            match fs_opt {
                None => {},
                Some(fs) => {
                    let name = match &structure.scopes[fs].name {
                        Some(nm) => nm.clone(),
                        None => String::new(),
                    };
                    let origins = self.expr_taint(&r.value_span, r.value_span.start_byte);
                    if !origins.is_empty() {
                        let idx = match out.position(name.as_str()) {
                            Some(i) => i,
                            None => {
                                let fresh = Summary { returns_source: Origins::new(), returns_params: Vec::new() };
                                assert(fresh@.returns_params =~= Seq::<(usize, Seq<StepView>)>::empty());
                                assert(fresh@.returns_source =~= Map::<Origin, WitnessView>::empty());
                                assert(fresh@ == empty_summary());
                                out.entries.push((crate::paths::copy_string(&name), fresh));
                                proof {
                                    lemma_name_pos_push(prev, (name@, empty_summary()), name@);
                                    assert(summaries_view(out.entries@) =~= prev.push((name@, empty_summary())));
                                }
                                out.entries.len() - 1
                            },
                        };
                        let ghost mid = summaries_view(out.entries@);
                        proof { lemma_name_pos_bounds(prev, name@); }
                        assert(mid[idx as int].1 == summary_or_empty(prev, name@));
                        assert(mid[idx as int].0 == name@);
                        assert(name_pos(prev, name@) is None ==> mid =~= prev.push((name@, empty_summary())) && idx == prev.len());
                        assert(name_pos(prev, name@) is Some ==> mid == prev && name_pos(prev, name@) == Some(idx as int));
                        let mut entry = (String::new(), Summary { returns_source: Origins::new(), returns_params: Vec::new() });
                        let ghost pre_exec = out.entries@;
                        out.entries.set_and_swap(idx, &mut entry);
                        assert(entry.0@ == name@);
                        let ghost es = ordered(origins@);
                        proof { lemma_ordered(origins.entries@); }
                        let m = origins.entries.len();
                        for e in 0..m
                            invariant
                                m == origins.entries@.len(),
                                origins.wf(),
                                es == crate::state::view_entries(origins.entries@),
                                entry.1.returns_source.wf(),
                                entry.0@ == name@,
                                entry.1@ == absorb_all(summary_or_empty(prev, name@), es.take(e as int), fs),
                        {
                            assert(es.take(e + 1).drop_last() =~= es.take(e as int));
                            let o = origins.entries[e].0;
                            let w = &origins.entries[e].1;
                            assert(es[e as int] == (o, w@));
                            assert(es.take(e + 1).last() == es[e as int]);
                            match o {
                                Origin::Param { scope, index } => {
                                    let ghost before = entry.1@;
                                    let hp = has_param(&entry.1.returns_params, index);
                                    assert(hp == (exists|q: int| 0 <= q < before.returns_params.len() && (#[trigger] before.returns_params[q]).0 == index)) by {
                                        if hp {
                                            let q = choose|q: int| 0 <= q < entry.1.returns_params@.len() && (#[trigger] entry.1.returns_params@[q]).0 == index;
                                            assert(before.returns_params[q].0 == index);
                                        }
                                        if exists|q: int| 0 <= q < before.returns_params.len() && (#[trigger] before.returns_params[q]).0 == index {
                                            let q = choose|q: int| 0 <= q < before.returns_params.len() && (#[trigger] before.returns_params[q]).0 == index;
                                            assert(entry.1.returns_params@[q].0 == index);
                                        }
                                    }
                                    if scope == fs && !hp {
                                        entry.1.returns_params.push((index, crate::state::copy_steps(&w.steps)));
                                        assert(entry.1@.returns_params =~= before.returns_params.push((index, w@.steps)));
                                        assert(entry.1@ == SummaryV { returns_source: before.returns_source, returns_params: before.returns_params.push((index, w@.steps)) });
                                    }
                                },
                                _ => {
                                    let ghost before = entry.1@;
                                    entry.1.returns_source.insert_if_absent(o, w.duplicate());
                                    assert(entry.1@.returns_params == before.returns_params);
                                },
                            }
                        }
                        assert(es.take(m as int) =~= es);
                        let ghost fin = entry.1@;
                        let ghost ename = entry.0@;
                        out.entries.set(idx, entry);
                        proof {
                            assert(summaries_view(out.entries@) =~= mid.update(idx as int, (ename, fin)));
                            lemma_name_pos_update(mid, idx as int, entry.1@, name@);
                            assert(fin == absorb_all(summary_or_empty(prev, name@), es, fs));
                            assert(ename == name@);
                            if name_pos(prev, name@) is None {
                                assert(mid.update(idx as int, (ename, fin)) =~= prev.push((name@, fin)));
                            }
                            assert(summaries_view(out.entries@) =~= put_named(prev, name@, absorb_all(summary_or_empty(prev, name@), es, fs)));
                        }
                    }
                },
            }
        }
        out
    }
}

/// Every scope of a chain exists.
pub proof fn lemma_chain_in_range(scopes: Seq<Scope>, s: int)
    ensures
        forall|q: int| 0 <= q < scope_chain(scopes, s).len() ==> 0 <= #[trigger] scope_chain(scopes, s)[q] < scopes.len(),
    decreases s,
{
    if 0 <= s < scopes.len() {
        match scopes[s].parent {
            Some(p) => if p < s {
                lemma_chain_in_range(scopes, p as int);
                let c = scope_chain(scopes, s);
                assert(c == seq![s as usize] + scope_chain(scopes, p as int));
                assert forall|q: int| 0 <= q < c.len() implies 0 <= #[trigger] c[q] < scopes.len() by {
                    if q > 0 { assert(c[q] == scope_chain(scopes, p as int)[q - 1]); }
                }
            },
            None => {},
        }
    }
}

/// The first named scope of `chain`.
pub fn first_named_in(scopes: &Vec<Scope>, chain: &Vec<usize>) -> (r: Option<usize>)
    requires
        forall|q: int| 0 <= q < chain@.len() ==> 0 <= #[trigger] chain@[q] < scopes@.len(),
    ensures
        r == first_named(scopes@, chain@),
        r matches Some(fs) ==> fs < scopes@.len() && scopes@[fs as int].name is Some,
{
    let n = chain.len();
    let mut j: usize = 0;
    assert(chain@.skip(0) =~= chain@);
    while j < n
        invariant
            n == chain@.len(),
            j <= n,
            forall|q: int| 0 <= q < chain@.len() ==> 0 <= #[trigger] chain@[q] < scopes@.len(),
            first_named(scopes@, chain@) == first_named(scopes@, chain@.skip(j as int)),
        decreases n - j,
    {
        let s = chain[j];
        assert(chain@.skip(j as int)[0] == s);
        if scopes[s].name.is_some() {
            return Some(s);
        }
        assert(chain@.skip(j as int).drop_first() =~= chain@.skip(j + 1));
        j = j + 1;
    }
    assert(chain@.skip(j as int).len() == 0);
    None
}

/// The step recording that a call returned taint.
pub open spec fn returned_step(callee: Seq<char>, sp: Span) -> StepView {
    StepView { label: "returned by `"@ + callee + "`"@, span: sp, file: None, snippet: None }
}

/// Insert each reportable origin of `es` not yet in `m`, its steps extended
/// by `extra` and then `st`.
pub open spec fn or_insert_sources(m: Map<Origin, WitnessView>, es: Seq<(Origin, WitnessView)>, extra: Seq<StepView>, st: StepView) -> Map<Origin, WitnessView>
    decreases es.len(),
{
    if es.len() == 0 {
        m
    } else {
        let prev = or_insert_sources(m, es.drop_last(), extra, st);
        let e = es.last();
        if e.0.reportable() && !prev.contains_key(e.0) {
            prev.insert(e.0, WitnessView { write_byte: e.1.write_byte, steps: e.1.steps + extra.push(st) })
        } else {
            prev
        }
    }
}

/// Some call taint is recorded at `sp`.
pub open spec fn has_ct(cts: Seq<(Span, Map<Origin, WitnessView>)>, sp: Span) -> bool {
    exists|j: int| 0 <= j < cts.len() && (#[trigger] cts[j]).0 == sp
}

/// The first reportable entry.
pub open spec fn first_reportable(es: Seq<(Origin, WitnessView)>) -> Option<(Origin, WitnessView)>
    decreases es.len(),
{
    if es.len() == 0 {
        None
    } else if es[0].0.reportable() {
        Some(es[0])
    } else {
        first_reportable(es.drop_first())
    }
}

/// A portable step as a (foreign) trace step.
pub open spec fn foreign_view(p: crate::summary::PortableStepView) -> StepView {
    StepView { label: p.label, span: p.span, file: Some(p.file), snippet: Some(p.snippet) }
}

pub open spec fn foreign_views(v: Seq<crate::summary::PortableStepView>) -> Seq<StepView> {
    v.map_values(|p: crate::summary::PortableStepView| foreign_view(p))
}

impl TaintCtx {
    /// Parameter-to-return flows of a summary applied at a call, for the
    /// first `k` returned parameters.
    pub open spec fn params_part(&self, cells: Seq<Cell>, cts: Seq<(Span, Map<Origin, WitnessView>)>, args: Seq<Span>,
        rp: Seq<(usize, Seq<StepView>)>, st: StepView, m: Map<Origin, WitnessView>, k: int) -> Map<Origin, WitnessView>
        decreases k,
    {
        if k <= 0 || k > rp.len() {
            m
        } else {
            let prev = self.params_part(cells, cts, args, rp, st, m, k - 1);
            let e = rp[k - 1];
            if e.0 < args.len() {
                or_insert_sources(prev, ordered(self.taint_in(cells, cts, args[e.0 as int])), e.1, st)
            } else {
                prev
            }
        }
    }

    /// The taint a summarised call site gains, if any.
    pub open spec fn call_gain(&self, cells: Seq<Cell>, cts: Seq<(Span, Map<Origin, WitnessView>)>, c: CallSite,
        sums: Seq<(Seq<char>, SummaryV)>) -> Option<Map<Origin, WitnessView>> {
        match c.callee {
            None => None,
            Some(cal) => match name_pos(sums, cal@) {
                None => None,
                Some(i) => if has_ct(cts, c.span) {
                    None
                } else {
                    let sum = sums[i].1;
                    let st = returned_step(cal@, c.span);
                    let m = self.params_part(cells, cts, c.args@, sum.returns_params, st, add_step(sum.returns_source, st), sum.returns_params.len() as int);
                    if m == Map::<Origin, WitnessView>::empty() { None } else { Some(m) }
                },
            },
        }
    }

    /// Call taints appended by applying `sums` at the first `k` call sites,
    /// each evaluated with the taints appended before it.
    pub open spec fn applied(&self, cells: Seq<Cell>, cts0: Seq<(Span, Map<Origin, WitnessView>)>,
        sums: Seq<(Seq<char>, SummaryV)>, k: int) -> Seq<(Span, Map<Origin, WitnessView>)>
        decreases k,
    {
        if k <= 0 || k > self.structure.calls@.len() {
            Seq::empty()
        } else {
            let prev = self.applied(cells, cts0, sums, k - 1);
            let c = self.structure.calls@[k - 1];
            match self.call_gain(cells, cts0 + prev, c, sums) {
                Some(m) => prev.push((c.span, m)),
                None => prev,
            }
        }
    }

    /// The provenance a linked (cross-file) callee contributes at a call.
    pub open spec fn linked_gain(&self, cells: Seq<Cell>, cts: Seq<(Span, Map<Origin, WitnessView>)>, c: CallSite,
        linked: Seq<(String, crate::summary::PortableFunctionSummary)>) -> Option<Seq<StepView>> {
        match c.callee {
            None => None,
            Some(cal) => match crate::summary::linked_pos(linked, cal@) {
                None => None,
                Some(i) => if has_ct(cts, c.span) {
                    None
                } else {
                    let sum = linked[i].1@;
                    let st = returned_step(cal@, c.span);
                    if sum.returns_source.len() > 0 {
                        Some(foreign_views(sum.returns_source).push(st))
                    } else {
                        self.linked_param_steps(cells, cts, c.args@, sum.returns_params, st, 0)
                    }
                },
            },
        }
    }

    /// The first returned parameter (from position `q`) whose argument is
    /// source-tainted, as provenance through the callee.
    pub open spec fn linked_param_steps(&self, cells: Seq<Cell>, cts: Seq<(Span, Map<Origin, WitnessView>)>, args: Seq<Span>,
        rp: Seq<(usize, Seq<crate::summary::PortableStepView>)>, st: StepView, q: int) -> Option<Seq<StepView>>
        decreases rp.len() - q,
    {
        if q < 0 || q >= rp.len() {
            None
        } else {
            let e = rp[q];
            let found = if e.0 < args.len() { first_reportable(ordered(self.taint_in(cells, cts, args[e.0 as int]))) } else { None };
            match found {
                Some(w) => Some(w.1.steps + foreign_views(e.1).push(st)),
                None => self.linked_param_steps(cells, cts, args, rp, st, q + 1),
            }
        }
    }

    /// Call taints appended by applying linked summaries at the first `k`
    /// call sites; each gets a fresh `External` origin numbered from `id0`.
    pub open spec fn applied_linked(&self, cells: Seq<Cell>, cts0: Seq<(Span, Map<Origin, WitnessView>)>,
        linked: Seq<(String, crate::summary::PortableFunctionSummary)>, id0: int, k: int) -> Seq<(Span, Map<Origin, WitnessView>)>
        decreases k,
    {
        if k <= 0 || k > self.structure.calls@.len() {
            Seq::empty()
        } else {
            let prev = self.applied_linked(cells, cts0, linked, id0, k - 1);
            let c = self.structure.calls@[k - 1];
            match self.linked_gain(cells, cts0 + prev, c, linked) {
                Some(steps) => prev.push((c.span, Map::empty().insert(
                    Origin::External((id0 + prev.len()) as usize),
                    WitnessView { write_byte: c.span.start_byte, steps },
                ))),
                None => prev,
            }
        }
    }
}

pub proof fn lemma_applied_len(ctx: TaintCtx, cells: Seq<Cell>, cts0: Seq<(Span, Map<Origin, WitnessView>)>,
    linked: Seq<(String, crate::summary::PortableFunctionSummary)>, id0: int, k: int)
    ensures
        ctx.applied_linked(cells, cts0, linked, id0, k).len() <= if k < 0 { 0 } else { k },
    decreases k,
{
    if k > 0 && k <= ctx.structure.calls@.len() {
        lemma_applied_len(ctx, cells, cts0, linked, id0, k - 1);
    }
}

impl<'a> RuleRun<'a> {
    /// Whether a call taint is recorded at `sp`.
    pub fn has_call_taint(&self, sp: &Span) -> (r: bool)
        ensures
            r == has_ct(self.cts(), *sp),
    {
        let n = self.call_taints.len();
        for i in 0..n
            invariant
                n == self.call_taints@.len(),
                forall|j: int| 0 <= j < i ==> (#[trigger] self.call_taints@[j]).0 != *sp,
        {
            if self.call_taints[i].0.same(sp) {
                assert(self.cts()[i as int].0 == *sp);
                return true;
            }
        }
        assert forall|j: int| 0 <= j < self.cts().len() implies (#[trigger] self.cts()[j]).0 != *sp by {
            assert(self.cts()[j].0 == self.call_taints@[j].0);
        }
        false
    }

    /// Apply summaries at call sites, producing call-site taints. Returns
    /// true if any new call taint was added.
    pub fn apply_summaries(&mut self, sums: &Summaries) -> (changed: bool)
        requires
            old(self).wf(),
            forall|i: int| 0 <= i < sums.entries@.len() ==> (#[trigger] sums.entries@[i]).1.returns_source.wf(),
        ensures
            final(self).wf(),
            final(self).cts() == old(self).cts() + old(self).ctx().applied(old(self).state.cells@, old(self).cts(),
                summaries_view(sums.entries@), old(self).structure.calls@.len() as int),
            changed == (final(self).cts().len() > old(self).cts().len()),
            final(self).structure == old(self).structure,
            final(self).sources == old(self).sources,
            final(self).sinks == old(self).sinks,
            final(self).sanitizers == old(self).sanitizers,
            final(self).state == old(self).state,
            final(self).linked == old(self).linked,
            final(self).external_counter == old(self).external_counter,
    {
        let structure = self.structure;
        let ghost ctx = self.ctx();
        let ghost cells = self.state.cells@;
        let ghost cts0 = self.cts();
        let ghost sv = summaries_view(sums.entries@);
        let n = structure.calls.len();
        let mut changed = false;
        for k in 0..n
            invariant
                structure == self.structure,
                structure == old(self).structure,
                ctx == self.ctx(),
                ctx == old(self).ctx(),
                cells == self.state.cells@,
                cts0 == old(self).cts(),
                sv == summaries_view(sums.entries@),
                forall|i: int| 0 <= i < sums.entries@.len() ==> (#[trigger] sums.entries@[i]).1.returns_source.wf(),
                n == structure.calls@.len(),
                self.wf(),
                self.cts() == cts0 + ctx.applied(cells, cts0, sv, k as int),
                changed == (ctx.applied(cells, cts0, sv, k as int).len() > 0),
                self.sources == old(self).sources,
                self.sinks == old(self).sinks,
                self.sanitizers == old(self).sanitizers,
                self.state == old(self).state,
                self.linked == old(self).linked,
                self.external_counter == old(self).external_counter,
        {
            let c = &structure.calls[k];
            let ghost prev = ctx.applied(cells, cts0, sv, k as int);
            let gain = self.call_gain_exec(c, sums);
            match gain {
                Some(new) => {
                    let ghost ov = self.call_taints@;
                    self.call_taints.push((c.span, new));
                    changed = true;
                    proof {
                        assert(cts_view(self.call_taints@) =~= cts_view(ov).push((c.span, new@)));
                        assert(self.cts() =~= cts0 + prev.push((c.span, new@)));
                    }
                },
                None => {},
            }
        }
        changed
    }

    /// The taint call site `c` gains from `sums`, if any.
    fn call_gain_exec(&self, c: &CallSite, sums: &Summaries) -> (r: Option<Origins>)
        requires
            self.wf(),
            forall|i: int| 0 <= i < sums.entries@.len() ==> (#[trigger] sums.entries@[i]).1.returns_source.wf(),
        ensures
            match r {
                Some(o) => o.wf() && self.ctx().call_gain(self.state.cells@, self.cts(), *c, summaries_view(sums.entries@)) == Some(o@),
                None => self.ctx().call_gain(self.state.cells@, self.cts(), *c, summaries_view(sums.entries@)) is None,
            },
    {
        let cal = match &c.callee {
            None => return None,
            Some(cal) => cal,
        };
        let i = match sums.position(cal.as_str()) {
            None => return None,
            Some(i) => i,
        };
        if self.has_call_taint(&c.span) {
            return None;
        }
        let sum = &sums.entries[i].1;
        let ghost sv = sum@;
        assert(summaries_view(sums.entries@)[i as int].1 == sv);
        let st = Step::local(cat3("returned by `", cal.as_str(), "`"), c.span);
        assert(st@ == returned_step(cal@, c.span));
        let mut new = with_step(&sum.returns_source, &st);
        let ghost ctx = self.ctx();
        let nq = sum.returns_params.len();
        for q in 0..nq
            invariant
                self.wf(),
                ctx == self.ctx(),
                nq == sum.returns_params@.len(),
                sv == sum@,
                st@ == returned_step(cal@, c.span),
                new.wf(),
                new@ == ctx.params_part(self.state.cells@, self.cts(), c.args@, sv.returns_params, st@,
                    add_step(sv.returns_source, st@), q as int),
        {
            let index = sum.returns_params[q].0;
            let inner = &sum.returns_params[q].1;
            assert(sv.returns_params[q as int] == (index, steps_view(inner@)));
            if index < c.args.len() {
                let ao = self.expr_taint(&c.args[index], c.args[index].start_byte);
                let ghost es = ordered(ao@);
                proof { lemma_ordered(ao.entries@); }
                let ghost base = new@;
                let m = ao.entries.len();
                for e in 0..m
                    invariant
                        m == ao.entries@.len(),
                        ao.wf(),
                        es == crate::state::view_entries(ao.entries@),
                        st@ == returned_step(cal@, c.span),
                        new.wf(),
                        new@ == or_insert_sources(base, es.take(e as int), steps_view(inner@), st@),
                {
                    assert(es.take(e + 1).drop_last() =~= es.take(e as int));
                    let o = ao.entries[e].0;
                    let w = &ao.entries[e].1;
                    assert(es[e as int] == (o, w@));
                    if o.is_source() && !new.contains(&o) {
                        let mut steps = crate::state::copy_steps(&w.steps);
                        crate::state::extend_steps(&mut steps, inner);
                        steps.push(st.clone());
                        let nw = Witness { write_byte: w.write_byte, steps };
                        assert(nw@.steps =~= w@.steps + steps_view(inner@).push(st@));
                        new.insert(o, nw);
                    }
                }
                assert(es.take(m as int) =~= es);
            }
        }
        if new.is_empty() {
            None
        } else {
            Some(new)
        }
    }
}

/// Convert a portable (cross-file) step back into a trace step.
pub fn portable_to_step(p: &crate::summary::PortableStep) -> (r: Step)
    ensures
        r@ == foreign_view(p@),
{
    Step::foreign(p.label.clone(), p.span, p.file.clone(), p.snippet.clone())
}

/// The position of the first reportable entry of `o`.
pub fn first_source_pos(o: &Origins) -> (r: Option<usize>)
    requires
        o.wf(),
    ensures
        match r {
            Some(i) => i < o.entries@.len() && first_reportable(ordered(o@)) == Some((o.entries@[i as int].0, o.entries@[i as int].1@)),
            None => first_reportable(ordered(o@)) is None,
        },
{
    proof { lemma_ordered(o.entries@); }
    let ghost es = crate::state::view_entries(o.entries@);
    let n = o.entries.len();
    assert(es.skip(0) =~= es);
    for j in 0..n
        invariant
            n == o.entries@.len(),
            es == crate::state::view_entries(o.entries@),
            es == ordered(o@),
            first_reportable(es) == first_reportable(es.skip(j as int)),
    {
        assert(es.skip(j as int)[0] == (o.entries@[j as int].0, o.entries@[j as int].1@));
        if o.entries[j].0.is_source() {
            assert(first_reportable(es.skip(j as int)) == Some(es.skip(j as int)[0]));
            return Some(j);
        }
        assert(es.skip(j as int).drop_first() =~= es.skip(j + 1));
    }
    assert(es.skip(n as int).len() == 0);
    None
}

/// With no linked summaries, applying them adds no call taint (so the
/// run reports no change and its call taints stay as they were).
pub proof fn lemma_applied_linked_empty(ctx: TaintCtx, cells: Seq<Cell>, cts0: Seq<(Span, Map<Origin, WitnessView>)>,
    linked: Seq<(String, crate::summary::PortableFunctionSummary)>, id0: int, k: int)
    requires
        linked.len() == 0,
    ensures
        ctx.applied_linked(cells, cts0, linked, id0, k).len() == 0,
    decreases k,
{
    if k > 0 && k <= ctx.structure.calls@.len() {
        lemma_applied_linked_empty(ctx, cells, cts0, linked, id0, k - 1);
    }
}

/// No call carries two call taints.
pub open spec fn spans_distinct(cts: Seq<(Span, Map<Origin, WitnessView>)>) -> bool {
    forall|i: int, j: int| 0 <= i < j < cts.len() ==> (#[trigger] cts[i]).0 != (#[trigger] cts[j]).0
}

proof fn lemma_push_distinct(cts: Seq<(Span, Map<Origin, WitnessView>)>, x: (Span, Map<Origin, WitnessView>))
    requires
        spans_distinct(cts),
        !has_ct(cts, x.0),
    ensures
        spans_distinct(cts.push(x)),
{
    assert forall|i: int, j: int| 0 <= i < j < cts.push(x).len() implies (#[trigger] cts.push(x)[i]).0 != (#[trigger] cts.push(x)[j]).0 by {
        assert(cts.push(x)[i] == cts[i]);
        if j < cts.len() {
            assert(cts.push(x)[j] == cts[j]);
        }
    }
}

/// Applying function summaries never gives a call a second call taint:
/// when the call taints before have distinct calls, so do they after.
pub proof fn lemma_applied_distinct(ctx: TaintCtx, cells: Seq<Cell>, cts0: Seq<(Span, Map<Origin, WitnessView>)>,
    sums: Seq<(Seq<char>, SummaryV)>, k: int)
    requires
        spans_distinct(cts0),
    ensures
        spans_distinct(cts0 + ctx.applied(cells, cts0, sums, k)),
    decreases k,
{
    if k <= 0 || k > ctx.structure.calls@.len() {
        assert(cts0 + ctx.applied(cells, cts0, sums, k) =~= cts0);
    } else {
        lemma_applied_distinct(ctx, cells, cts0, sums, k - 1);
        let prev = ctx.applied(cells, cts0, sums, k - 1);
        let c = ctx.structure.calls@[k - 1];
        if let Some(m) = ctx.call_gain(cells, cts0 + prev, c, sums) {
            assert(cts0 + prev.push((c.span, m)) =~= (cts0 + prev).push((c.span, m)));
            lemma_push_distinct(cts0 + prev, (c.span, m));
        }
    }
}

/// Every origin of `m` is reportable (a source, or an external origin).
pub open spec fn all_reportable(m: Map<Origin, WitnessView>) -> bool {
    forall|o: Origin| #[trigger] m.contains_key(o) ==> o.reportable()
}

proof fn lemma_or_insert_reportable(m: Map<Origin, WitnessView>, es: Seq<(Origin, WitnessView)>, extra: Seq<StepView>, st: StepView)
    requires
        all_reportable(m),
    ensures
        all_reportable(or_insert_sources(m, es, extra, st)),
    decreases es.len(),
{
    if es.len() > 0 {
        lemma_or_insert_reportable(m, es.drop_last(), extra, st);
    }
}

impl TaintCtx {
    proof fn lemma_params_part_reportable(&self, cells: Seq<Cell>, cts: Seq<(Span, Map<Origin, WitnessView>)>, args: Seq<Span>,
        rp: Seq<(usize, Seq<StepView>)>, st: StepView, m: Map<Origin, WitnessView>, k: int)
        requires
            all_reportable(m),
        ensures
            all_reportable(self.params_part(cells, cts, args, rp, st, m, k)),
        decreases k,
    {
        if 0 < k <= rp.len() {
            self.lemma_params_part_reportable(cells, cts, args, rp, st, m, k - 1);
            let prev = self.params_part(cells, cts, args, rp, st, m, k - 1);
            let e = rp[k - 1];
            if e.0 < args.len() {
                lemma_or_insert_reportable(prev, ordered(self.taint_in(cells, cts, args[e.0 as int])), e.1, st);
            }
        }
    }
}

/// Summaries carry only reportable taint into their callers: when what
/// every summary returns is reportable, each call taint that applying the
/// summaries adds is non-empty and reportable.
pub proof fn lemma_applied_reportable(ctx: TaintCtx, cells: Seq<Cell>, cts0: Seq<(Span, Map<Origin, WitnessView>)>,
    sums: Seq<(Seq<char>, SummaryV)>, k: int)
    requires
        forall|i: int| 0 <= i < sums.len() ==> all_reportable(#[trigger] sums[i].1.returns_source),
    ensures
        forall|i: int| 0 <= i < ctx.applied(cells, cts0, sums, k).len() ==> {
            let m = (#[trigger] ctx.applied(cells, cts0, sums, k)[i]).1;
            &&& all_reportable(m)
            &&& m != Map::<Origin, WitnessView>::empty()
        },
    decreases k,
{
    if 0 < k <= ctx.structure.calls@.len() {
        lemma_applied_reportable(ctx, cells, cts0, sums, k - 1);
        let prev = ctx.applied(cells, cts0, sums, k - 1);
        let a = ctx.applied(cells, cts0, sums, k);
        let c = ctx.structure.calls@[k - 1];
        if let Some(m) = ctx.call_gain(cells, cts0 + prev, c, sums) {
            let cal = c.callee->0;
            let i = name_pos(sums, cal@)->0;
            lemma_name_pos_bounds(sums, cal@);
            let sum = sums[i].1;
            let st = returned_step(cal@, c.span);
            assert(all_reportable(add_step(sum.returns_source, st))) by {
                assert(all_reportable(sums[i].1.returns_source));
            }
            ctx.lemma_params_part_reportable(cells, cts0 + prev, c.args@, sum.returns_params, st, add_step(sum.returns_source, st), sum.returns_params.len() as int);
            assert forall|j: int| 0 <= j < a.len() implies {
                let mm = (#[trigger] a[j]).1;
                &&& all_reportable(mm)
                &&& mm != Map::<Origin, WitnessView>::empty()
            } by {
                if j < prev.len() { assert(a[j] == prev[j]); }
            }
        }
    }
}

impl TaintCtx {
    /// Call `j` names a callee with a summary in `sums`, and carried no call
    /// taint in `cts0`, at `sp`.
    pub open spec fn summarised_call_at(&self, cts0: Seq<(Span, Map<Origin, WitnessView>)>, sums: Seq<(Seq<char>, SummaryV)>, j: int, sp: Span) -> bool {
        &&& 0 <= j < self.structure.calls@.len()
        &&& self.structure.calls@[j].span == sp
        &&& self.structure.calls@[j].callee matches Some(n) && name_pos(sums, n@) is Some
        &&& !has_ct(cts0, sp)
    }
}

/// Every call taint of `a` sits at a summarised call without a call taint
/// in `cts0`.
pub open spec fn at_summarised_calls(ctx: TaintCtx, cts0: Seq<(Span, Map<Origin, WitnessView>)>, sums: Seq<(Seq<char>, SummaryV)>,
    a: Seq<(Span, Map<Origin, WitnessView>)>) -> bool {
    forall|i: int| 0 <= i < a.len() ==> summarised_call(ctx, cts0, sums, #[trigger] a[i].0)
}

/// Some call sits at `sp`, names a callee with a summary, and carried no
/// call taint in `cts0`.
pub open spec fn summarised_call(ctx: TaintCtx, cts0: Seq<(Span, Map<Origin, WitnessView>)>, sums: Seq<(Seq<char>, SummaryV)>, sp: Span) -> bool {
    exists|j: int| #[trigger] ctx.summarised_call_at(cts0, sums, j, sp)
}

proof fn lemma_applied_calls(ctx: TaintCtx, cells: Seq<Cell>, cts0: Seq<(Span, Map<Origin, WitnessView>)>,
    sums: Seq<(Seq<char>, SummaryV)>, k: int)
    ensures
        at_summarised_calls(ctx, cts0, sums, ctx.applied(cells, cts0, sums, k)),
    decreases k,
{
    if 0 < k <= ctx.structure.calls@.len() {
        lemma_applied_calls(ctx, cells, cts0, sums, k - 1);
        let prev = ctx.applied(cells, cts0, sums, k - 1);
        let a = ctx.applied(cells, cts0, sums, k);
        let c = ctx.structure.calls@[k - 1];
        let g = ctx.call_gain(cells, cts0 + prev, c, sums);
        if g is Some {
            let cal = c.callee->0;
            assert(name_pos(sums, cal@) is Some);
            assert(!has_ct(cts0 + prev, c.span));
            assert(!has_ct(cts0, c.span)) by {
                if has_ct(cts0, c.span) {
                    let q = choose|q: int| 0 <= q < cts0.len() && (#[trigger] cts0[q]).0 == c.span;
                    assert((cts0 + prev)[q] == cts0[q]);
                }
            }
            assert(ctx.summarised_call_at(cts0, sums, k - 1, c.span));
            assert(a == prev.push((c.span, g->0)));
            assert forall|i: int| 0 <= i < a.len() implies summarised_call(ctx, cts0, sums, #[trigger] a[i].0) by {
                if i < prev.len() {
                    assert(a[i] == prev[i]);
                    assert(summarised_call(ctx, cts0, sums, prev[i].0));
                } else {
                    assert(a[i].0 == c.span);
                    assert(ctx.summarised_call_at(cts0, sums, k - 1, a[i].0));
                }
            }
            assert(at_summarised_calls(ctx, cts0, sums, a));
        } else {
            assert(a == prev);
            assert forall|i: int| 0 <= i < a.len() implies summarised_call(ctx, cts0, sums, #[trigger] a[i].0) by {
                assert(a[i] == prev[i]);
                assert(summarised_call(ctx, cts0, sums, prev[i].0));
            }
            assert(at_summarised_calls(ctx, cts0, sums, a));
        }
    } else {
        assert(ctx.applied(cells, cts0, sums, k).len() == 0);
    }
    assert(at_summarised_calls(ctx, cts0, sums, ctx.applied(cells, cts0, sums, k)));
}

/// Applying function summaries: the call taints before stay first; each
/// added one sits at a call whose callee has a summary and that carried no
/// call taint before, no call ends up with two, and (when what every
/// summary returns is reportable) each added taint is non-empty and
/// reportable.
pub proof fn lemma_applied_law(ctx: TaintCtx, cells: Seq<Cell>, cts0: Seq<(Span, Map<Origin, WitnessView>)>,
    sums: Seq<(Seq<char>, SummaryV)>)
    requires
        spans_distinct(cts0),
        forall|i: int| 0 <= i < sums.len() ==> all_reportable(#[trigger] sums[i].1.returns_source),
    ensures
        ({
            let a = ctx.applied(cells, cts0, sums, ctx.structure.calls@.len() as int);
            &&& (cts0 + a).take(cts0.len() as int) == cts0
            &&& spans_distinct(cts0 + a)
            &&& at_summarised_calls(ctx, cts0, sums, a)
            &&& forall|i: int| #![trigger a[i]] 0 <= i < a.len() ==> {
                &&& all_reportable(a[i].1)
                &&& a[i].1 != Map::<Origin, WitnessView>::empty()
            }
        }),
{
    let k = ctx.structure.calls@.len() as int;
    let a = ctx.applied(cells, cts0, sums, k);
    assert((cts0 + a).take(cts0.len() as int) =~= cts0);
    lemma_applied_distinct(ctx, cells, cts0, sums, k);
    lemma_applied_calls(ctx, cells, cts0, sums, k);
    lemma_applied_reportable(ctx, cells, cts0, sums, k);
}

impl TaintCtx {
    /// Call `j` sits at `sp`, names a callee with a linked summary, and
    /// carried no call taint in `cts0`.
    pub open spec fn linked_call_at(&self, cts0: Seq<(Span, Map<Origin, WitnessView>)>,
        linked: Seq<(String, crate::summary::PortableFunctionSummary)>, j: int, sp: Span) -> bool {
        &&& 0 <= j < self.structure.calls@.len()
        &&& self.structure.calls@[j].span == sp
        &&& self.structure.calls@[j].callee matches Some(n) && crate::summary::linked_pos(linked, n@) is Some
        &&& !has_ct(cts0, sp)
    }
}

/// Some call sits at `sp`, names a callee with a linked summary, and
/// carried no call taint in `cts0`.
pub open spec fn linked_call(ctx: TaintCtx, cts0: Seq<(Span, Map<Origin, WitnessView>)>,
    linked: Seq<(String, crate::summary::PortableFunctionSummary)>, sp: Span) -> bool {
    exists|j: int| #[trigger] ctx.linked_call_at(cts0, linked, j, sp)
}

proof fn lemma_applied_linked_calls(ctx: TaintCtx, cells: Seq<Cell>, cts0: Seq<(Span, Map<Origin, WitnessView>)>,
    linked: Seq<(String, crate::summary::PortableFunctionSummary)>, id0: int, k: int)
    ensures
        forall|i: int| 0 <= i < ctx.applied_linked(cells, cts0, linked, id0, k).len() ==> {
            let e = #[trigger] ctx.applied_linked(cells, cts0, linked, id0, k)[i];
            &&& linked_call(ctx, cts0, linked, e.0)
            &&& e.1.contains_key(Origin::External((id0 + i) as usize))
            &&& e.1[Origin::External((id0 + i) as usize)].write_byte == e.0.start_byte
        },
    decreases k,
{
    if 0 < k <= ctx.structure.calls@.len() {
        lemma_applied_linked_calls(ctx, cells, cts0, linked, id0, k - 1);
        let prev = ctx.applied_linked(cells, cts0, linked, id0, k - 1);
        let a = ctx.applied_linked(cells, cts0, linked, id0, k);
        let c = ctx.structure.calls@[k - 1];
        let g = ctx.linked_gain(cells, cts0 + prev, c, linked);
        if g is Some {
            assert(!has_ct(cts0, c.span)) by {
                if has_ct(cts0, c.span) {
                    let q = choose|q: int| 0 <= q < cts0.len() && (#[trigger] cts0[q]).0 == c.span;
                    assert((cts0 + prev)[q] == cts0[q]);
                }
            }
            assert(ctx.linked_call_at(cts0, linked, k - 1, c.span));
            assert forall|i: int| 0 <= i < a.len() implies {
                let e = #[trigger] a[i];
                &&& linked_call(ctx, cts0, linked, e.0)
                &&& e.1.contains_key(Origin::External((id0 + i) as usize))
                &&& e.1[Origin::External((id0 + i) as usize)].write_byte == e.0.start_byte
            } by {
                if i < prev.len() {
                    assert(a[i] == prev[i]);
                } else {
                    assert(a[i].0 == c.span);
                    assert(ctx.linked_call_at(cts0, linked, k - 1, a[i].0));
                }
            }
        } else {
            assert forall|i: int| 0 <= i < a.len() implies {
                let e = #[trigger] a[i];
                &&& linked_call(ctx, cts0, linked, e.0)
                &&& e.1.contains_key(Origin::External((id0 + i) as usize))
                &&& e.1[Origin::External((id0 + i) as usize)].write_byte == e.0.start_byte
            } by {
                assert(a[i] == prev[i]);
            }
        }
    }
}

/// Applying linked summaries never gives a call a second call taint, and
/// the `i`-th taint it adds carries exactly the fresh origin numbered
/// `id0 + i`.
pub proof fn lemma_applied_linked_fresh(ctx: TaintCtx, cells: Seq<Cell>, cts0: Seq<(Span, Map<Origin, WitnessView>)>,
    linked: Seq<(String, crate::summary::PortableFunctionSummary)>, id0: int, k: int)
    requires
        spans_distinct(cts0),
        0 <= id0,
        id0 + ctx.structure.calls@.len() <= usize::MAX,
    ensures
        spans_distinct(cts0 + ctx.applied_linked(cells, cts0, linked, id0, k)),
        forall|i: int| 0 <= i < ctx.applied_linked(cells, cts0, linked, id0, k).len() ==>
            (#[trigger] ctx.applied_linked(cells, cts0, linked, id0, k)[i]).1.dom() == set![Origin::External((id0 + i) as usize)],
        ctx.applied_linked(cells, cts0, linked, id0, k).len() <= if k < 0 { 0 } else { k },
    decreases k,
{
    let a = ctx.applied_linked(cells, cts0, linked, id0, k);
    if k <= 0 || k > ctx.structure.calls@.len() {
        assert(cts0 + a =~= cts0);
    } else {
        lemma_applied_linked_fresh(ctx, cells, cts0, linked, id0, k - 1);
        let prev = ctx.applied_linked(cells, cts0, linked, id0, k - 1);
        let c = ctx.structure.calls@[k - 1];
        if let Some(steps) = ctx.linked_gain(cells, cts0 + prev, c, linked) {
            let x = (c.span, Map::empty().insert(
                Origin::External((id0 + prev.len()) as usize),
                WitnessView { write_byte: c.span.start_byte, steps },
            ));
            assert(cts0 + prev.push(x) =~= (cts0 + prev).push(x));
            lemma_push_distinct(cts0 + prev, x);
            assert forall|i: int| 0 <= i < a.len() implies (#[trigger] a[i]).1.dom() == set![Origin::External((id0 + i) as usize)] by {
                if i < prev.len() {
                    assert(a[i] == prev[i]);
                } else {
                    assert(a[i] == x);
                    assert(x.1.dom() =~= set![Origin::External((id0 + i) as usize)]);
                }
            }
        }
    }
}

/// The provenance of a call's linked taint ends with the step naming the
/// callee that returned it.
pub open spec fn returned_from_call(ctx: TaintCtx, sp: Span, steps: Seq<StepView>) -> bool {
    exists|j: int| 0 <= j < ctx.structure.calls@.len() && #[trigger] ctx.structure.calls@[j].span == sp
        && (ctx.structure.calls@[j].callee matches Some(n) && steps.len() > 0 && steps.last() == returned_step(n@, sp))
}

proof fn lemma_linked_param_steps_end(ctx: TaintCtx, cells: Seq<Cell>, cts: Seq<(Span, Map<Origin, WitnessView>)>, args: Seq<Span>,
    rp: Seq<(usize, Seq<crate::summary::PortableStepView>)>, st: StepView, q: int)
    ensures
        ctx.linked_param_steps(cells, cts, args, rp, st, q) matches Some(s) ==> s.len() > 0 && s.last() == st,
    decreases rp.len() - q,
{
    if 0 <= q < rp.len() {
        lemma_linked_param_steps_end(ctx, cells, cts, args, rp, st, q + 1);
    }
}

proof fn lemma_applied_linked_steps(ctx: TaintCtx, cells: Seq<Cell>, cts0: Seq<(Span, Map<Origin, WitnessView>)>,
    linked: Seq<(String, crate::summary::PortableFunctionSummary)>, id0: int, k: int)
    ensures
        forall|i: int| 0 <= i < ctx.applied_linked(cells, cts0, linked, id0, k).len() ==> {
            let e = #[trigger] ctx.applied_linked(cells, cts0, linked, id0, k)[i];
            returned_from_call(ctx, e.0, e.1[Origin::External((id0 + i) as usize)].steps)
        },
    decreases k,
{
    if 0 < k <= ctx.structure.calls@.len() {
        lemma_applied_linked_steps(ctx, cells, cts0, linked, id0, k - 1);
        let prev = ctx.applied_linked(cells, cts0, linked, id0, k - 1);
        let a = ctx.applied_linked(cells, cts0, linked, id0, k);
        let c = ctx.structure.calls@[k - 1];
        let g = ctx.linked_gain(cells, cts0 + prev, c, linked);
        if g is Some {
            let steps = g->0;
            let n = c.callee->0;
            let sum = linked[crate::summary::linked_pos(linked, n@)->0].1@;
            lemma_linked_param_steps_end(ctx, cells, cts0 + prev, c.args@, sum.returns_params, returned_step(n@, c.span), 0);
            assert(steps.len() > 0 && steps.last() == returned_step(n@, c.span));
            assert forall|i: int| 0 <= i < a.len() implies {
                let e = #[trigger] a[i];
                returned_from_call(ctx, e.0, e.1[Origin::External((id0 + i) as usize)].steps)
            } by {
                if i < prev.len() {
                    assert(a[i] == prev[i]);
                } else {
                    assert(a[i].0 == c.span);
                    assert(a[i].1[Origin::External((id0 + i) as usize)].steps == steps);
                    assert(ctx.structure.calls@[k - 1].span == c.span);
                }
            }
        } else {
            assert forall|i: int| 0 <= i < a.len() implies {
                let e = #[trigger] a[i];
                returned_from_call(ctx, e.0, e.1[Origin::External((id0 + i) as usize)].steps)
            } by {
                assert(a[i] == prev[i]);
            }
        }
    }
}

/// Applying linked summaries: the call taints before stay first; each
/// added one sits at a call whose callee has a linked summary and that
/// carried no call taint before, no call ends up with two, and the `i`-th
/// added taint carries exactly the fresh origin numbered `id0 + i`, with a
/// witness written at the call whose provenance ends with the step naming
/// the callee that returned it.
pub proof fn lemma_applied_linked_law(ctx: TaintCtx, cells: Seq<Cell>, cts0: Seq<(Span, Map<Origin, WitnessView>)>,
    linked: Seq<(String, crate::summary::PortableFunctionSummary)>, id0: int)
    requires
        spans_distinct(cts0),
        0 <= id0,
        id0 + ctx.structure.calls@.len() <= usize::MAX,
    ensures
        ({
            let a = ctx.applied_linked(cells, cts0, linked, id0, ctx.structure.calls@.len() as int);
            &&& (cts0 + a).take(cts0.len() as int) == cts0
            &&& spans_distinct(cts0 + a)
            &&& forall|i: int| 0 <= i < a.len() ==> {
                let e = #[trigger] a[i];
                &&& linked_call(ctx, cts0, linked, e.0)
                &&& e.1.dom() == set![Origin::External((id0 + i) as usize)]
                &&& e.1[Origin::External((id0 + i) as usize)].write_byte == e.0.start_byte
                &&& returned_from_call(ctx, e.0, e.1[Origin::External((id0 + i) as usize)].steps)
            }
        }),
{
    let k = ctx.structure.calls@.len() as int;
    let a = ctx.applied_linked(cells, cts0, linked, id0, k);
    assert((cts0 + a).take(cts0.len() as int) =~= cts0);
    lemma_applied_linked_fresh(ctx, cells, cts0, linked, id0, k);
    lemma_applied_linked_calls(ctx, cells, cts0, linked, id0, k);
    lemma_applied_linked_steps(ctx, cells, cts0, linked, id0, k);
}

impl<'a> RuleRun<'a> {
    fn next_external(&mut self) -> (id: usize)
        requires
            old(self).external_counter < usize::MAX,
        ensures
            id == old(self).external_counter,
            final(self).external_counter == old(self).external_counter + 1,
            final(self).structure == old(self).structure,
            final(self).sources == old(self).sources,
            final(self).sinks == old(self).sinks,
            final(self).sanitizers == old(self).sanitizers,
            final(self).state == old(self).state,
            final(self).call_taints == old(self).call_taints,
            final(self).linked == old(self).linked,
    {
        let id = self.external_counter;
        self.external_counter = self.external_counter + 1;
        id
    }

    /// The provenance a linked callee contributes at call site `c`, if any.
    fn linked_gain_exec(&self, c: &CallSite) -> (r: Option<Vec<Step>>)
        requires
            self.wf(),
        ensures
            match r {
                Some(v) => self.ctx().linked_gain(self.state.cells@, self.cts(), *c, self.linked.entries@) == Some(steps_view(v@)),
                None => self.ctx().linked_gain(self.state.cells@, self.cts(), *c, self.linked.entries@) is None,
            },
    {
        let cal = match &c.callee {
            None => return None,
            Some(cal) => cal,
        };
        let i = match self.linked.position(cal.as_str()) {
            None => return None,
            Some(i) => i,
        };
        if self.has_call_taint(&c.span) {
            return None;
        }
        let sum = &self.linked.entries[i].1;
        let ghost sv = sum@;
        let st = Step::local(cat3("returned by `", cal.as_str(), "`"), c.span);
        assert(st@ == returned_step(cal@, c.span));
        if sum.returns_source.len() > 0 {
            let mut steps: Vec<Step> = Vec::new();
            let n = sum.returns_source.len();
            for j in 0..n
                invariant
                    n == sum.returns_source@.len(),
                    sv == sum@,
                    steps_view(steps@) == foreign_views(sv.returns_source.take(j as int)),
            {
                steps.push(portable_to_step(&sum.returns_source[j]));
                assert(foreign_views(sv.returns_source.take(j + 1)) =~= foreign_views(sv.returns_source.take(j as int)).push(foreign_view(sv.returns_source[j as int])));
                assert(steps_view(steps@) =~= foreign_views(sv.returns_source.take(j as int)).push(foreign_view(sv.returns_source[j as int])));
            }
            assert(sv.returns_source.take(n as int) =~= sv.returns_source);
            let ghost before = steps_view(steps@);
            steps.push(st);
            assert(steps_view(steps@) =~= before.push(st@));
            return Some(steps);
        }
        let ghost ctx = self.ctx();
        assert(sv.returns_source.len() == 0);
        assert(ctx.linked_gain(self.state.cells@, self.cts(), *c, self.linked.entries@)
            == ctx.linked_param_steps(self.state.cells@, self.cts(), c.args@, sv.returns_params, st@, 0));
        let nq = sum.returns_params.len();
        for q in 0..nq
            invariant
                self.wf(),
                ctx == self.ctx(),
                nq == sum.returns_params@.len(),
                sv == sum@,
                st@ == returned_step(cal@, c.span),
                ctx.linked_param_steps(self.state.cells@, self.cts(), c.args@, sv.returns_params, st@, 0)
                    == ctx.linked_param_steps(self.state.cells@, self.cts(), c.args@, sv.returns_params, st@, q as int),
                ctx.linked_gain(self.state.cells@, self.cts(), *c, self.linked.entries@)
                    == ctx.linked_param_steps(self.state.cells@, self.cts(), c.args@, sv.returns_params, st@, 0),
        {
            let index = sum.returns_params[q].0;
            let inner = &sum.returns_params[q].1;
            assert(sv.returns_params[q as int] == (index, crate::summary::psteps_view(inner@)));
            if index < c.args.len() {
                let ao = self.expr_taint(&c.args[index], c.args[index].start_byte);
                match first_source_pos(&ao) {
                    Some(p) => {
                        let w = &ao.entries[p].1;
                        let mut steps = crate::state::copy_steps(&w.steps);
                        let ghost s0 = steps_view(steps@);
                        let ni = inner.len();
                        for j in 0..ni
                            invariant
                                ni == inner@.len(),
                                steps_view(steps@) == s0 + foreign_views(crate::summary::psteps_view(inner@).take(j as int)),
                        {
                            let ghost sb = steps_view(steps@);
                            let ps = portable_to_step(&inner[j]);
                            steps.push(ps);
                            let ghost pt = crate::summary::psteps_view(inner@);
                            assert(pt.take(j + 1) =~= pt.take(j as int).push(inner@[j as int]@));
                            assert(foreign_views(pt.take(j + 1)) =~= foreign_views(pt.take(j as int)).push(foreign_view(inner@[j as int]@)));
                            assert(steps_view(steps@) =~= sb.push(ps@));
                            assert(steps_view(steps@) =~= s0 + foreign_views(pt.take(j + 1)));
                        }
                        assert(crate::summary::psteps_view(inner@).take(ni as int) =~= crate::summary::psteps_view(inner@));
                        let ghost s1 = steps_view(steps@);
                        steps.push(st);
                        assert(steps_view(steps@) =~= s1.push(st@));
                        assert(steps_view(steps@) =~= w@.steps + foreign_views(crate::summary::psteps_view(inner@)).push(st@));
                        proof {
                            lemma_ordered(ao.entries@);
                            assert(ao@ == ctx.taint_in(self.state.cells@, self.cts(), c.args@[index as int]));
                            assert(ctx.linked_param_steps(self.state.cells@, self.cts(), c.args@, sv.returns_params, st@, q as int)
                                == Some(steps_view(steps@)));
                            assert(ctx.linked_param_steps(self.state.cells@, self.cts(), c.args@, sv.returns_params, st@, 0)
                                == Some(steps_view(steps@)));
                            assert(ctx.linked_gain(self.state.cells@, self.cts(), *c, self.linked.entries@) == Some(steps_view(steps@)));
                        }
                        return Some(steps);
                    },
                    None => {},
                }
            }
        }
        None
    }

    /// Apply cross-file summaries at call sites: a callee that returns a
    /// source (or forwards a source-tainted argument to its return) taints
    /// its call site with a fresh `External` origin carrying the
    /// dependency's provenance.
    pub fn apply_linked(&mut self) -> (changed: bool)
        requires
            old(self).wf(),
            old(self).external_counter + old(self).structure.calls@.len() <= usize::MAX,
        ensures
            final(self).wf(),
            final(self).cts() == old(self).cts() + old(self).ctx().applied_linked(old(self).state.cells@, old(self).cts(),
                old(self).linked.entries@, old(self).external_counter as int, old(self).structure.calls@.len() as int),
            final(self).external_counter == old(self).external_counter + (final(self).cts().len() - old(self).cts().len()),
            changed == (final(self).cts().len() > old(self).cts().len()),
            final(self).structure == old(self).structure,
            final(self).sources == old(self).sources,
            final(self).sinks == old(self).sinks,
            final(self).sanitizers == old(self).sanitizers,
            final(self).state == old(self).state,
            final(self).linked == old(self).linked,
    {
        let structure = self.structure;
        let ghost ctx = self.ctx();
        let ghost cells = self.state.cells@;
        let ghost cts0 = self.cts();
        let ghost id0 = self.external_counter as int;
        let n = structure.calls.len();
        if self.linked.is_empty() {
            proof { lemma_applied_linked_empty(ctx, cells, cts0, self.linked.entries@, id0, n as int); }
            assert(self.cts() =~= cts0 + ctx.applied_linked(cells, cts0, self.linked.entries@, id0, n as int));
            return false;
        }
        let mut changed = false;
        for k in 0..n
            invariant
                structure == self.structure,
                structure == old(self).structure,
                ctx == self.ctx(),
                ctx == old(self).ctx(),
                cells == self.state.cells@,
                cts0 == old(self).cts(),
                id0 == old(self).external_counter,
                n == structure.calls@.len(),
                id0 + n <= usize::MAX,
                self.wf(),
                self.cts() == cts0 + ctx.applied_linked(cells, cts0, self.linked.entries@, id0, k as int),
                self.external_counter == id0 + ctx.applied_linked(cells, cts0, self.linked.entries@, id0, k as int).len(),
                changed == (ctx.applied_linked(cells, cts0, self.linked.entries@, id0, k as int).len() > 0),
                self.sources == old(self).sources,
                self.sinks == old(self).sinks,
                self.sanitizers == old(self).sanitizers,
                self.state == old(self).state,
                self.linked == old(self).linked,
        {
            let c = &structure.calls[k];
            let ghost prev = ctx.applied_linked(cells, cts0, self.linked.entries@, id0, k as int);
            proof { lemma_applied_len(ctx, cells, cts0, self.linked.entries@, id0, k as int); }
            match self.linked_gain_exec(c) {
                Some(steps) => {
                    let id = self.next_external();
                    let mut origins = Origins::new();
                    let w = Witness { write_byte: c.span.start_byte, steps };
                    origins.insert(Origin::External(id), w);
                    let ghost ov = self.call_taints@;
                    self.call_taints.push((c.span, origins));
                    changed = true;
                    proof {
                        assert(cts_view(self.call_taints@) =~= cts_view(ov).push((c.span, origins@)));
                        assert(origins@ =~= Map::<Origin, WitnessView>::empty().insert(
                            Origin::External((id0 + prev.len()) as usize),
                            WitnessView { write_byte: c.span.start_byte, steps: w@.steps }));
                        assert(self.cts() =~= cts0 + ctx.applied_linked(cells, cts0, self.linked.entries@, id0, k + 1));
                    }
                },
                None => {},
            }
        }
        changed
    }
}

/// A parameter-to-sink flow within one function, extracted for summaries.
#[derive(Debug)]
pub struct ParamSinkRaw {
    pub func: String,
    pub index: usize,
    pub sink_span: Span,
    pub sink_label: String,
    pub steps: Vec<Step>,
}

pub struct ParamSinkRawV {
    pub func: Seq<char>,
    pub index: usize,
    pub sink_span: Span,
    pub sink_label: Seq<char>,
    pub steps: Seq<StepView>,
}

impl View for ParamSinkRaw {
    type V = ParamSinkRawV;

    open spec fn view(&self) -> ParamSinkRawV {
        ParamSinkRawV { func: self.func@, index: self.index, sink_span: self.sink_span, sink_label: self.sink_label@, steps: steps_view(self.steps@) }
    }
}

/// The parameter flows one sink's taint records, in origin order: each
/// `Param` origin of a named (existing) function scope.
pub open spec fn sink_param_hits(scopes: Seq<Scope>, es: Seq<(Origin, WitnessView)>, sink_span: Span, sink_label: Seq<char>) -> Seq<ParamSinkRawV>
    decreases es.len(),
{
    if es.len() == 0 {
        Seq::empty()
    } else {
        let prev = sink_param_hits(scopes, es.drop_last(), sink_span, sink_label);
        let e = es.last();
        match e.0 {
            Origin::Param { scope, index } =>
                if scope < scopes.len() && scopes[scope as int].name is Some {
                    prev.push(ParamSinkRawV { func: scopes[scope as int].name->0@, index, sink_span, sink_label, steps: e.1.steps })
                } else {
                    prev
                },
            _ => prev,
        }
    }
}

impl TaintCtx {
    /// Parameter-to-sink flows of the first `k` sinks.
    pub open spec fn param_sinks_upto(&self, cells: Seq<Cell>, cts: Seq<(Span, Map<Origin, WitnessView>)>, sinks: Seq<(Span, String)>, k: int) -> Seq<ParamSinkRawV>
        decreases k,
    {
        if k <= 0 || k > sinks.len() {
            Seq::empty()
        } else {
            self.param_sinks_upto(cells, cts, sinks, k - 1)
                + sink_param_hits(self.structure.scopes@, ordered(self.taint_in(cells, cts, sinks[k - 1].0)), sinks[k - 1].0, sinks[k - 1].1@)
        }
    }
}

pub open spec fn raw_view(v: Seq<ParamSinkRaw>) -> Seq<ParamSinkRawV> {
    v.map_values(|r: ParamSinkRaw| r@)
}

/// One round of `solve`: propagate, summarise, apply local and then linked
/// summaries.
pub struct SolveRound {
    pub state_in: TaintState,
    pub state_mid: TaintState,
    pub cts_in: Seq<(Span, Map<Origin, WitnessView>)>,
    pub cts_mid: Seq<(Span, Map<Origin, WitnessView>)>,
    pub cts_out: Seq<(Span, Map<Origin, WitnessView>)>,
    pub counter_in: int,
    pub counter_out: int,
}

impl TaintCtx {
    pub open spec fn round_ok(&self, linked: Seq<(String, crate::summary::PortableFunctionSummary)>, r: SolveRound) -> bool {
        let nret = self.structure.returns@.len() as int;
        let ncalls = self.structure.calls@.len() as int;
        &&& self.propagated(r.cts_in, r.state_in, r.state_mid)
        &&& r.cts_mid == r.cts_in + self.applied(r.state_mid.cells@, r.cts_in, self.summaries_upto(r.state_mid.cells@, r.cts_in, nret), ncalls)
        &&& r.cts_out == r.cts_mid + self.applied_linked(r.state_mid.cells@, r.cts_mid, linked, r.counter_in, ncalls)
        &&& r.counter_out == r.counter_in + (r.cts_out.len() - r.cts_mid.len())
    }

    /// Seeding followed by rounds, each starting where the previous ended,
    /// repeated while a round adds call taints (at most `MAX_SUMMARY_ROUNDS`).
    pub open spec fn solved(&self, linked: Seq<(String, crate::summary::PortableFunctionSummary)>,
        state0: TaintState, cts0: Seq<(Span, Map<Origin, WitnessView>)>, counter0: int,
        state1: TaintState, cts1: Seq<(Span, Map<Origin, WitnessView>)>, counter1: int) -> bool {
        exists|seeded_state: TaintState, rounds: Seq<SolveRound>| {
            &&& seeded(self.structure.params@, state0, seeded_state)
            &&& seeded_state.wf()
            &&& 1 <= rounds.len() <= MAX_SUMMARY_ROUNDS
            &&& rounds[0].state_in == seeded_state
            &&& rounds[0].cts_in == cts0
            &&& rounds[0].counter_in == counter0
            &&& forall|i: int| 0 <= i < rounds.len() ==> self.round_ok(linked, #[trigger] rounds[i])
            &&& forall|i: int| 0 <= i < rounds.len() - 1 ==> {
                &&& (#[trigger] rounds[i + 1]).state_in == rounds[i].state_mid
                &&& rounds[i + 1].cts_in == rounds[i].cts_out
                &&& rounds[i + 1].counter_in == rounds[i].counter_out
                &&& rounds[i].cts_out.len() > rounds[i].cts_in.len()
            }
            &&& (rounds.last().cts_out.len() == rounds.last().cts_in.len() || rounds.len() == MAX_SUMMARY_ROUNDS)
            &&& state1 == rounds.last().state_mid
            &&& cts1 == rounds.last().cts_out
            &&& counter1 == rounds.last().counter_out
        }
    }
}

impl TaintCtx {
    proof fn lemma_propagated_grows(&self, cts: Seq<(Span, Map<Origin, WitnessView>)>, pre: TaintState, post: TaintState)
        requires
            self.propagated(cts, pre, post),
        ensures
            grows(pre, post),
    {
        reveal(TaintCtx::propagated);
        let (ps, cs) = choose|ps: Seq<TaintState>, cs: Seq<bool>| {
            &&& ps.len() == cs.len() + 1
            &&& 1 <= cs.len() <= MAX_ASSIGN_ITERS
            &&& ps[0] == pre
            &&& ps.last() == post
            &&& forall|i: int| 0 <= i < cs.len() ==> self.pass(cts, #[trigger] ps[i], ps[i + 1], cs[i])
            &&& forall|i: int| 0 <= i < cs.len() - 1 ==> #[trigger] cs[i]
            &&& (!cs.last() || cs.len() == MAX_ASSIGN_ITERS)
        };
        self.lemma_passes_grow(cts, ps, cs, ps.len() - 1);
    }

    proof fn lemma_rounds_grow(&self, linked: Seq<(String, crate::summary::PortableFunctionSummary)>, rounds: Seq<SolveRound>, i: int)
        requires
            0 <= i < rounds.len(),
            forall|q: int| 0 <= q < rounds.len() ==> self.round_ok(linked, #[trigger] rounds[q]),
            forall|q: int| 0 <= q < rounds.len() - 1 ==> {
                &&& (#[trigger] rounds[q + 1]).state_in == rounds[q].state_mid
                &&& rounds[q + 1].cts_in == rounds[q].cts_out
                &&& rounds[q + 1].counter_in == rounds[q].counter_out
            },
        ensures
            grows(rounds[0].state_in, rounds[i].state_mid),
            rounds[0].cts_in.len() <= rounds[i].cts_out.len(),
            rounds[i].cts_out.take(rounds[0].cts_in.len() as int) == rounds[0].cts_in,
            rounds[0].counter_in <= rounds[i].counter_out,
        decreases i,
    {
        let r = rounds[i];
        assert(self.round_ok(linked, r));
        self.lemma_propagated_grows(r.cts_in, r.state_in, r.state_mid);
        if i == 0 {
            assert(r.cts_out.take(r.cts_in.len() as int) =~= r.cts_in);
        } else {
            self.lemma_rounds_grow(linked, rounds, i - 1);
            let p = rounds[i - 1];
            assert(rounds[(i - 1) + 1].state_in == p.state_mid);
            assert(rounds[(i - 1) + 1].cts_in == p.cts_out);
            assert(rounds[(i - 1) + 1].counter_in == p.counter_out);
            lemma_grows_trans(rounds[0].state_in, p.state_mid, r.state_mid);
            let c0 = rounds[0].cts_in;
            assert(r.cts_out.take(p.cts_out.len() as int) =~= p.cts_out);
            assert(r.cts_out.take(c0.len() as int) =~= p.cts_out.take(c0.len() as int));
        }
    }
}

/// Solving only adds: every cell, origin and (no later) witness of the
/// state before stays, so every origin visible to a use before stays
/// visible; the call taints before stay first; the counter of external
/// origins only grows.
pub proof fn lemma_solve_grows(ctx: TaintCtx, linked: Seq<(String, crate::summary::PortableFunctionSummary)>,
    state0: TaintState, cts0: Seq<(Span, Map<Origin, WitnessView>)>, counter0: int,
    state1: TaintState, cts1: Seq<(Span, Map<Origin, WitnessView>)>, counter1: int)
    requires
        ctx.solved(linked, state0, cts0, counter0, state1, cts1, counter1),
    ensures
        grows(state0, state1),
        cts0.len() <= cts1.len(),
        cts1.take(cts0.len() as int) == cts0,
        counter0 <= counter1,
{
    let (seeded_state, rounds) = choose|seeded_state: TaintState, rounds: Seq<SolveRound>| {
        &&& seeded(ctx.structure.params@, state0, seeded_state)
        &&& 1 <= rounds.len() <= MAX_SUMMARY_ROUNDS
        &&& rounds[0].state_in == seeded_state
        &&& rounds[0].cts_in == cts0
        &&& rounds[0].counter_in == counter0
        &&& forall|i: int| 0 <= i < rounds.len() ==> ctx.round_ok(linked, #[trigger] rounds[i])
        &&& forall|i: int| 0 <= i < rounds.len() - 1 ==> {
            &&& (#[trigger] rounds[i + 1]).state_in == rounds[i].state_mid
            &&& rounds[i + 1].cts_in == rounds[i].cts_out
            &&& rounds[i + 1].counter_in == rounds[i].counter_out
            &&& rounds[i].cts_out.len() > rounds[i].cts_in.len()
        }
        &&& (rounds.last().cts_out.len() == rounds.last().cts_in.len() || rounds.len() == MAX_SUMMARY_ROUNDS)
        &&& state1 == rounds.last().state_mid
        &&& cts1 == rounds.last().cts_out
        &&& counter1 == rounds.last().counter_out
    };
    lemma_seeded_grows(ctx.structure.params@, state0, seeded_state);
    ctx.lemma_rounds_grow(linked, rounds, rounds.len() - 1);
    lemma_grows_trans(state0, seeded_state, state1);
}

/// Solving keeps what seeding the parameters established: a use of a
/// parameter's name in its own function, after the parameter, sees the
/// parameter's origin.
pub proof fn lemma_solved_params_visible(ctx: TaintCtx, linked: Seq<(String, crate::summary::PortableFunctionSummary)>,
    state0: TaintState, cts0: Seq<(Span, Map<Origin, WitnessView>)>, counter0: int,
    state1: TaintState, cts1: Seq<(Span, Map<Origin, WitnessView>)>, counter1: int, j: int, use_byte: u32)
    requires
        ctx.solved(linked, state0, cts0, counter0, state1, cts1, counter1),
        0 <= j < ctx.structure.params@.len(),
        use_byte > ctx.structure.params@[j].span.start_byte,
    ensures
        visible_map(state1.cells@, seq![ctx.structure.params@[j].scope], ctx.structure.params@[j].scope,
            base_path(ctx.structure.params@[j].name@), use_byte)
            .contains_key(Origin::Param { scope: ctx.structure.params@[j].scope, index: ctx.structure.params@[j].index }),
{
    let (seeded_state, rounds) = choose|seeded_state: TaintState, rounds: Seq<SolveRound>| {
        &&& seeded(ctx.structure.params@, state0, seeded_state)
        &&& seeded_state.wf()
        &&& 1 <= rounds.len() <= MAX_SUMMARY_ROUNDS
        &&& rounds[0].state_in == seeded_state
        &&& rounds[0].cts_in == cts0
        &&& rounds[0].counter_in == counter0
        &&& forall|i: int| 0 <= i < rounds.len() ==> ctx.round_ok(linked, #[trigger] rounds[i])
        &&& forall|i: int| 0 <= i < rounds.len() - 1 ==> {
            &&& (#[trigger] rounds[i + 1]).state_in == rounds[i].state_mid
            &&& rounds[i + 1].cts_in == rounds[i].cts_out
            &&& rounds[i + 1].counter_in == rounds[i].counter_out
            &&& rounds[i].cts_out.len() > rounds[i].cts_in.len()
        }
        &&& (rounds.last().cts_out.len() == rounds.last().cts_in.len() || rounds.len() == MAX_SUMMARY_ROUNDS)
        &&& state1 == rounds.last().state_mid
        &&& cts1 == rounds.last().cts_out
        &&& counter1 == rounds.last().counter_out
    };
    let p = ctx.structure.params@[j];
    lemma_seeded_params_visible(ctx.structure.params@, state0, seeded_state, j, use_byte);
    ctx.lemma_rounds_grow(linked, rounds, rounds.len() - 1);
    lemma_visible_grows(seeded_state, state1, seq![p.scope], p.scope, base_path(p.name@), use_byte,
        Origin::Param { scope: p.scope, index: p.index });
}

impl<'a> RuleRun<'a> {
    /// For summary extraction: which parameters reach a sink inside their
    /// owning function, with the provenance from parameter to sink.
    pub fn param_sinks(&self) -> (out: Vec<ParamSinkRaw>)
        requires
            self.wf(),
        ensures
            raw_view(out@) == self.ctx().param_sinks_upto(self.state.cells@, self.cts(), self.sinks@, self.sinks@.len() as int),
    {
        let mut out: Vec<ParamSinkRaw> = Vec::new();
        let ghost ctx = self.ctx();
        let scopes = &self.structure.scopes;
        let n = self.sinks.len();
        assert(raw_view(out@) =~= Seq::<ParamSinkRawV>::empty());
        for k in 0..n
            invariant
                self.wf(),
                ctx == self.ctx(),
                scopes == &self.structure.scopes,
                n == self.sinks@.len(),
                raw_view(out@) == ctx.param_sinks_upto(self.state.cells@, self.cts(), self.sinks@, k as int),
        {
            let sink = &self.sinks[k];
            let origins = self.expr_taint(&sink.0, sink.0.start_byte);
            proof { lemma_ordered(origins.entries@); }
            let ghost es = ordered(origins@);
            let ghost base = raw_view(out@);
            let m = origins.entries.len();
            assert(es.take(0) =~= Seq::<(Origin, WitnessView)>::empty());
            assert(base + sink_param_hits(scopes@, es.take(0), sink.0, sink.1@) =~= base);
            for e in 0..m
                invariant
                    m == origins.entries@.len(),
                    origins.wf(),
                    es == crate::state::view_entries(origins.entries@),
                    scopes == &self.structure.scopes,
                    raw_view(out@) == base + sink_param_hits(scopes@, es.take(e as int), sink.0, sink.1@),
            {
                assert(es.take(e + 1).drop_last() =~= es.take(e as int));
                let o = origins.entries[e].0;
                let w = &origins.entries[e].1;
                assert(es[e as int] == (o, w@));
                match o {
                    Origin::Param { scope, index } => {
                        if scope < scopes.len() {
                            match &scopes[scope].name {
                                Some(func) => {
                                    let r = ParamSinkRaw {
                                        func: func.clone(),
                                        index,
                                        sink_span: sink.0,
                                        sink_label: sink.1.clone(),
                                        steps: crate::state::copy_steps(&w.steps),
                                    };
                                    let ghost ob = raw_view(out@);
                                    out.push(r);
                                    assert(raw_view(out@) =~= ob.push(r@));
                                },
                                None => {},
                            }
                        }
                    },
                    _ => {},
                }
            }
            assert(es.take(m as int) =~= es);
        }
        out
    }

    /// Run seeding, propagation and summary application (intra- and
    /// cross-file) to fixpoint.
    pub fn solve(&mut self)
        requires
            old(self).wf(),
            old(self).external_counter + 3 * old(self).structure.calls@.len() <= usize::MAX,
        ensures
            final(self).wf(),
            old(self).ctx().solved(old(self).linked.entries@, old(self).state, old(self).cts(), old(self).external_counter as int,
                final(self).state, final(self).cts(), final(self).external_counter as int),
            final(self).structure == old(self).structure,
            final(self).sources == old(self).sources,
            final(self).sinks == old(self).sinks,
            final(self).sanitizers == old(self).sanitizers,
            final(self).linked == old(self).linked,
    {
        let ghost ctx = self.ctx();
        let ghost n = self.structure.calls@.len();
        self.seed_params();
        let ghost seeded_state = self.state;
        let ghost mut rounds: Seq<SolveRound> = Seq::empty();
        let mut round: usize = 0;
        loop
            invariant
                self.wf(),
                ctx == self.ctx(),
                ctx == old(self).ctx(),
                n == self.structure.calls@.len(),
                self.linked == old(self).linked,
                seeded(self.structure.params@, old(self).state, seeded_state),
                seeded_state.wf(),
                round < MAX_SUMMARY_ROUNDS,
                rounds.len() == round,
                self.external_counter <= old(self).external_counter + round * n,
                old(self).external_counter + 3 * n <= usize::MAX,
                round == 0 ==> self.state == seeded_state && self.cts() == old(self).cts() && self.external_counter == old(self).external_counter,
                round > 0 ==> self.state == rounds.last().state_mid && self.cts() == rounds.last().cts_out && self.external_counter == rounds.last().counter_out,
                round > 0 ==> rounds[0].state_in == seeded_state && rounds[0].cts_in == old(self).cts() && rounds[0].counter_in == old(self).external_counter,
                forall|i: int| 0 <= i < rounds.len() ==> ctx.round_ok(self.linked.entries@, #[trigger] rounds[i]),
                forall|i: int| 0 <= i < rounds.len() - 1 ==> {
                    &&& (#[trigger] rounds[i + 1]).state_in == rounds[i].state_mid
                    &&& rounds[i + 1].cts_in == rounds[i].cts_out
                    &&& rounds[i + 1].counter_in == rounds[i].counter_out
                },
                forall|i: int| 0 <= i < rounds.len() ==> (#[trigger] rounds[i]).cts_out.len() > rounds[i].cts_in.len(),
                self.structure == old(self).structure,
                self.sources == old(self).sources,
                self.sinks == old(self).sinks,
                self.sanitizers == old(self).sanitizers,
            decreases MAX_SUMMARY_ROUNDS - round,
        {
            let ghost state_in = self.state;
            let ghost cts_in = self.cts();
            let ghost counter_in = self.external_counter as int;
            self.propagate();
            let ghost state_mid = self.state;
            let sums = self.summaries();
            let local_changed = self.apply_summaries(&sums);
            let ghost cts_mid = self.cts();
            proof {
                let r0 = round as int;
                let nn = n as int;
                assert((r0 + 1) * nn == r0 * nn + nn) by (nonlinear_arith);
                assert(r0 <= 2);
                assert((r0 + 1) * nn <= 3 * nn) by (nonlinear_arith)
                    requires r0 <= 2, nn >= 0;
            }
            let linked_changed = self.apply_linked();
            let ghost r = SolveRound {
                state_in, state_mid, cts_in, cts_mid, cts_out: self.cts(), counter_in, counter_out: self.external_counter as int,
            };
            proof {
                lemma_applied_len(ctx, state_mid.cells@, cts_mid, self.linked.entries@, counter_in, n as int);
                assert(ctx.round_ok(self.linked.entries@, r));
                let ghost prev_rounds = rounds;
                rounds = rounds.push(r);
                assert forall|i: int| 0 <= i < rounds.len() implies ctx.round_ok(self.linked.entries@, #[trigger] rounds[i]) by {
                    if i < prev_rounds.len() { assert(rounds[i] == prev_rounds[i]); }
                }
                assert forall|i: int| 0 <= i < rounds.len() - 1 implies {
                    &&& (#[trigger] rounds[i + 1]).state_in == rounds[i].state_mid
                    &&& rounds[i + 1].cts_in == rounds[i].cts_out
                    &&& rounds[i + 1].counter_in == rounds[i].counter_out
                } by {
                    assert(rounds[i] == prev_rounds[i]);
                    if i + 1 < prev_rounds.len() { assert(rounds[i + 1] == prev_rounds[i + 1]); }
                }
            }
            round = round + 1;
            if (!local_changed && !linked_changed) || round >= MAX_SUMMARY_ROUNDS {
                proof {
                    assert forall|i: int| 0 <= i < rounds.len() - 1 implies {
                        &&& (#[trigger] rounds[i + 1]).state_in == rounds[i].state_mid
                        &&& rounds[i + 1].cts_in == rounds[i].cts_out
                        &&& rounds[i + 1].counter_in == rounds[i].counter_out
                        &&& rounds[i].cts_out.len() > rounds[i].cts_in.len()
                    } by {
                        assert(rounds[i] == rounds.drop_last()[i]);
                    }
                    assert(rounds[0].state_in == seeded_state);
                    assert(rounds[0].cts_in == old(self).cts());
                    assert(rounds[0].counter_in == old(self).external_counter);
                    assert(rounds.last() == r);
                    assert(rounds.last().cts_out.len() == rounds.last().cts_in.len() || rounds.len() == MAX_SUMMARY_ROUNDS);
                    assert(self.state == rounds.last().state_mid);
                    assert(self.cts() == rounds.last().cts_out);
                    assert(self.external_counter == rounds.last().counter_out);
                    assert(ctx.solved(self.linked.entries@, old(self).state, old(self).cts(), old(self).external_counter as int,
                        self.state, self.cts(), self.external_counter as int));
                }
                return;
            }
            proof {
                assert forall|i: int| 0 <= i < rounds.len() implies (#[trigger] rounds[i]).cts_out.len() > rounds[i].cts_in.len() by {
                    if i < rounds.len() - 1 { assert(rounds[i] == rounds.drop_last()[i]); }
                }
            }
        }
    }
}
} // verus!
