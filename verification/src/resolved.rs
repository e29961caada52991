//! Identity (`resolved:`) matchers evaluated against the binder's resolved
//! calls and member reads, producing the same span lists the query-based
//! collectors produce, so the solver downstream is unchanged.

use vstd::prelude::*;
use crate::binder::{CalleeId, CalleeIdV, FileBindings, ResolvedCallV, ResolvedReadV};
use crate::findings::Span;
use crate::paths::{strings_view, strings_prefix, is_prefix};
use crate::sinks::sinks_view;
use crate::sorting::views;
use crate::state::opt_view;
use crate::text::str_is;

verus! {

/// One compiled identity matcher (the `resolved:` form).
#[derive(Debug)]
pub struct CompiledResolvedMatcher {
    pub module: Option<String>,
    pub member_of: Option<String>,
    pub name: Option<String>,
    pub path: Vec<String>,
    pub arg_index: Option<usize>,
    pub match_unresolved: bool,
    pub label: Option<String>,
}

pub struct MatcherV {
    pub module: Option<Seq<char>>,
    pub member_of: Option<Seq<char>>,
    pub name: Option<Seq<char>>,
    pub path: Seq<Seq<char>>,
    pub arg_index: Option<usize>,
    pub match_unresolved: bool,
    pub label: Option<Seq<char>>,
}

impl View for CompiledResolvedMatcher {
    type V = MatcherV;

    open spec fn view(&self) -> MatcherV {
        MatcherV {
            module: opt_view(self.module),
            member_of: opt_view(self.member_of),
            name: opt_view(self.name),
            path: strings_view(self.path@),
            arg_index: self.arg_index,
            match_unresolved: self.match_unresolved,
            label: opt_view(self.label),
        }
    }
}

/// A call identity satisfies a matcher: its terminal name is the matcher's
/// name, and its module constraint holds (without one, any resolved form
/// matches and raw text only when opted in).
pub open spec fn call_matches_spec(m: MatcherV, callee: CalleeIdV) -> bool {
    match m.name {
        Some(name) => callee.terminal_spec() == name && match m.module {
            None => match callee {
                CalleeIdV::Unresolved(_) => m.match_unresolved,
                _ => true,
            },
            Some(want) => match callee {
                CalleeIdV::External { module, .. } => module == want,
                CalleeIdV::Member { base, .. } => base == want,
                _ => false,
            },
        },
        None => false,
    }
}

/// Which calls a call matcher takes, by the kind of identity: an imported
/// function when its imported name is the matcher's name and, under a
/// module constraint, it was imported from that module; a method when its
/// name is the matcher's name and, under a module constraint, its receiver
/// is that module; a local function or raw text only without a module
/// constraint (raw text only when opted in, by its last dotted segment).
/// A matcher without a name takes no call.
pub proof fn lemma_call_matches(m: MatcherV, callee: CalleeIdV)
    ensures
        m.name is None ==> !call_matches_spec(m, callee),
        callee matches CalleeIdV::External { module, name } ==> (call_matches_spec(m, callee) <==>
            (m.name == Some(name) && (m.module matches Some(want) ==> want == module))),
        callee matches CalleeIdV::Member { base, method } ==> (call_matches_spec(m, callee) <==>
            (m.name == Some(method) && (m.module matches Some(want) ==> want == base))),
        callee matches CalleeIdV::LocalFn(f) ==> (call_matches_spec(m, callee) <==>
            (m.name == Some(f) && m.module is None)),
        callee matches CalleeIdV::Unresolved(t) ==> (call_matches_spec(m, callee) <==>
            (m.name == Some(crate::binder::after_last(t, '.')) && m.module is None && m.match_unresolved)),
        m.name is Some && m.module is Some ==>
            call_matches_spec(m, CalleeIdV::External { module: m.module->0, name: m.name->0 })
            && call_matches_spec(m, CalleeIdV::Member { base: m.module->0, method: m.name->0 }),
{
    if m.name is Some && m.module is Some {
        assert(CalleeIdV::External { module: m.module->0, name: m.name->0 }.terminal_spec() == m.name->0);
        assert(CalleeIdV::Member { base: m.module->0, method: m.name->0 }.terminal_spec() == m.name->0);
    }
}

/// Does a call identity satisfy a matcher's name and module constraints?
pub fn call_matches(m: &CompiledResolvedMatcher, callee: &CalleeId) -> (r: bool)
    ensures
        r == call_matches_spec(m@, callee@),
{
    match &m.name {
        Some(name) => {
            let t = callee.terminal();
            if t != *name {
                return false;
            }
        },
        None => return false,
    }
    match &m.module {
        None => match callee {
            CalleeId::Unresolved(_) => m.match_unresolved,
            _ => true,
        },
        Some(want) => match callee {
            CalleeId::External { module, .. } => *module == *want,
            CalleeId::Member { base, .. } => *base == *want,
            _ => false,
        },
    }
}

/// A label, else the default.
pub open spec fn label_or(l: Option<Seq<char>>, d: Seq<char>) -> Seq<char> {
    match l {
        Some(x) => x,
        None => d,
    }
}

/// The sinks one matcher finds at one call: the argument at `arg_index`,
/// or every argument.
pub open spec fn call_sinks(m: MatcherV, c: ResolvedCallV) -> Seq<(Span, Seq<char>)> {
    let label = label_or(m.label, "dangerous sink"@);
    if !call_matches_spec(m, c.callee) {
        Seq::empty()
    } else {
        match m.arg_index {
            Some(i) => if i < c.arg_spans.len() { seq![(c.arg_spans[i as int], label)] } else { Seq::empty() },
            None => c.arg_spans.map_values(|s: Span| (s, label)),
        }
    }
}

pub open spec fn matcher_sinks(m: MatcherV, calls: Seq<ResolvedCallV>) -> Seq<(Span, Seq<char>)>
    decreases calls.len(),
{
    if calls.len() == 0 {
        Seq::empty()
    } else {
        matcher_sinks(m, calls.drop_last()) + call_sinks(m, calls.last())
    }
}

pub open spec fn sinks_spec(ms: Seq<MatcherV>, calls: Seq<ResolvedCallV>) -> Seq<(Span, Seq<char>)>
    decreases ms.len(),
{
    if ms.len() == 0 {
        Seq::empty()
    } else {
        sinks_spec(ms.drop_last(), calls) + matcher_sinks(ms.last(), calls)
    }
}

pub open spec fn matcher_sanitizers(m: MatcherV, calls: Seq<ResolvedCallV>) -> Seq<Span>
    decreases calls.len(),
{
    if calls.len() == 0 {
        Seq::empty()
    } else {
        let prev = matcher_sanitizers(m, calls.drop_last());
        if call_matches_spec(m, calls.last().callee) { prev.push(calls.last().call_span) } else { prev }
    }
}

pub open spec fn sanitizers_spec(ms: Seq<MatcherV>, calls: Seq<ResolvedCallV>) -> Seq<Span>
    decreases ms.len(),
{
    if ms.len() == 0 {
        Seq::empty()
    } else {
        sanitizers_spec(ms.drop_last(), calls) + matcher_sanitizers(ms.last(), calls)
    }
}

/// A read satisfies a source matcher: its base resolves to the matcher's
/// module (or is the literal receiver `member_of`), and the matcher's path
/// is a prefix of its fields.
pub open spec fn read_matches(m: MatcherV, r: ResolvedReadV) -> bool {
    &&& match m.module {
        Some(module) => r.base_module == Some(module),
        None => match m.member_of {
            Some(base) => r.path.base == base,
            None => true,
        },
    }
    &&& is_prefix(m.path, r.path.fields)
}

/// The sinks a matcher finds at a call: none unless the call matches;
/// with an argument index, that argument alone (none when the call has
/// fewer arguments); without one, every argument in order. Each carries
/// the matcher's label, or "dangerous sink".
pub proof fn lemma_call_sinks(m: MatcherV, c: ResolvedCallV)
    ensures
        !call_matches_spec(m, c.callee) ==> call_sinks(m, c).len() == 0,
        call_matches_spec(m, c.callee) && m.arg_index is Some && m.arg_index->0 < c.arg_spans.len() ==>
            call_sinks(m, c).len() == 1 && call_sinks(m, c)[0].0 == c.arg_spans[m.arg_index->0 as int],
        call_matches_spec(m, c.callee) && m.arg_index is Some && m.arg_index->0 >= c.arg_spans.len() ==> call_sinks(m, c).len() == 0,
        call_matches_spec(m, c.callee) && m.arg_index is None ==> call_sinks(m, c).len() == c.arg_spans.len()
            && forall|j: int| 0 <= j < c.arg_spans.len() ==> (#[trigger] call_sinks(m, c)[j]).0 == c.arg_spans[j],
        forall|j: int| 0 <= j < call_sinks(m, c).len() ==>
            (#[trigger] call_sinks(m, c)[j]).1 == (if m.label is Some { m.label->0 } else { "dangerous sink"@ }),
{
}

/// A read is a source for a matcher exactly when the matcher's field path
/// is a prefix of the read's fields and: with a module, the read's base
/// resolves to that module; else, with a receiver name, the read's base is
/// that name.
pub proof fn lemma_read_matches(m: MatcherV, r: ResolvedReadV)
    ensures
        read_matches(m, r) <==> ({
            &&& m.path.len() <= r.path.fields.len()
            &&& forall|j: int| 0 <= j < m.path.len() ==> #[trigger] r.path.fields[j] == m.path[j]
            &&& (m.module is Some ==> r.base_module == m.module)
            &&& (m.module is None && m.member_of is Some ==> r.path.base == m.member_of->0)
        }),
{
    if m.path.len() <= r.path.fields.len() {
        if forall|j: int| 0 <= j < m.path.len() ==> #[trigger] r.path.fields[j] == m.path[j] {
            assert(r.path.fields.take(m.path.len() as int) =~= m.path);
        }
        if r.path.fields.take(m.path.len() as int) == m.path {
            assert forall|j: int| 0 <= j < m.path.len() implies #[trigger] r.path.fields[j] == m.path[j] by {
                assert(r.path.fields.take(m.path.len() as int)[j] == r.path.fields[j]);
            }
        }
    }
}

pub open spec fn matcher_sources(m: MatcherV, reads: Seq<ResolvedReadV>) -> Seq<(Span, Seq<char>)>
    decreases reads.len(),
{
    if reads.len() == 0 {
        Seq::empty()
    } else {
        let prev = matcher_sources(m, reads.drop_last());
        if read_matches(m, reads.last()) {
            prev.push((reads.last().span, label_or(m.label, "tainted data"@)))
        } else {
            prev
        }
    }
}

pub open spec fn sources_spec(ms: Seq<MatcherV>, reads: Seq<ResolvedReadV>) -> Seq<(Span, Seq<char>)>
    decreases ms.len(),
{
    if ms.len() == 0 {
        Seq::empty()
    } else {
        sources_spec(ms.drop_last(), reads) + matcher_sources(ms.last(), reads)
    }
}

fn label_string(l: &Option<String>, d: &str) -> (r: String)
    ensures
        r@ == label_or(opt_view(*l), d@),
{
    match l {
        Some(x) => x.clone(),
        None => d.to_owned(),
    }
}

/// Sink spans: each matched call's argument at `arg_index` (or every
/// argument), matchers in order, calls in order.
pub fn sink_spans(matchers: &Vec<CompiledResolvedMatcher>, bindings: &FileBindings) -> (out: Vec<(Span, String)>)
    ensures
        sinks_view(out@) == sinks_spec(views(matchers@), views(bindings.calls@)),
{
    let ghost cv = views(bindings.calls@);
    let mut out: Vec<(Span, String)> = Vec::new();
    let n = matchers.len();
    for k in 0..n
        invariant
            n == matchers@.len(),
            cv == views(bindings.calls@),
            sinks_view(out@) == sinks_spec(views(matchers@).take(k as int), cv),
    {
        let m = &matchers[k];
        let ghost before = sinks_view(out@);
        assert(views(matchers@).take(k + 1).drop_last() =~= views(matchers@).take(k as int));
        assert(views(matchers@).take(k + 1).last() == m@);
        let nc = bindings.calls.len();
        for j in 0..nc
            invariant
                nc == bindings.calls@.len(),
                cv == views(bindings.calls@),
                sinks_view(out@) == before + matcher_sinks(m@, cv.take(j as int)),
        {
            let call = &bindings.calls[j];
            assert(cv.take(j + 1).drop_last() =~= cv.take(j as int));
            assert(cv.take(j + 1).last() == call@);
            let ghost mid = sinks_view(out@);
            if call_matches(m, &call.callee) {
                let label = label_string(&m.label, "dangerous sink");
                match m.arg_index {
                    Some(i) => {
                        if i < call.arg_spans.len() {
                            out.push((call.arg_spans[i], label));
                            assert(sinks_view(out@) =~= mid + call_sinks(m@, call@));
                        } else {
                            assert(call_sinks(m@, call@) =~= Seq::<(Span, Seq<char>)>::empty());
                            assert(sinks_view(out@) =~= mid + call_sinks(m@, call@));
                        }
                    },
                    None => {
                        let na = call.arg_spans.len();
                        for a in 0..na
                            invariant
                                na == call.arg_spans@.len(),
                                label@ == label_or(m@.label, "dangerous sink"@),
                                sinks_view(out@) == mid + call.arg_spans@.take(a as int).map_values(|s: Span| (s, label@)),
                        {
                            let ghost b2 = sinks_view(out@);
                            out.push((call.arg_spans[a], label.clone()));
                            assert(sinks_view(out@) =~= b2.push((call.arg_spans@[a as int], label@)));
                            assert(call.arg_spans@.take(a + 1).map_values(|s: Span| (s, label@))
                                =~= call.arg_spans@.take(a as int).map_values(|s: Span| (s, label@)).push((call.arg_spans@[a as int], label@)));
                        }
                        assert(call.arg_spans@.take(na as int) =~= call.arg_spans@);
                        assert(sinks_view(out@) =~= mid + call_sinks(m@, call@));
                    },
                }
            } else {
                assert(call_sinks(m@, call@) =~= Seq::<(Span, Seq<char>)>::empty());
                assert(sinks_view(out@) =~= mid + call_sinks(m@, call@));
            }
        }
        assert(cv.take(nc as int) =~= cv);
    }
    assert(views(matchers@).take(n as int) =~= views(matchers@));
    out
}

/// Sanitizer spans: each whole matched call.
pub fn sanitizer_spans(matchers: &Vec<CompiledResolvedMatcher>, bindings: &FileBindings) -> (out: Vec<Span>)
    ensures
        out@ == sanitizers_spec(views(matchers@), views(bindings.calls@)),
{
    let ghost cv = views(bindings.calls@);
    let mut out: Vec<Span> = Vec::new();
    let n = matchers.len();
    for k in 0..n
        invariant
            n == matchers@.len(),
            cv == views(bindings.calls@),
            out@ == sanitizers_spec(views(matchers@).take(k as int), cv),
    {
        let m = &matchers[k];
        let ghost before = out@;
        assert(views(matchers@).take(k + 1).drop_last() =~= views(matchers@).take(k as int));
        assert(views(matchers@).take(k + 1).last() == m@);
        let nc = bindings.calls.len();
        for j in 0..nc
            invariant
                nc == bindings.calls@.len(),
                cv == views(bindings.calls@),
                out@ == before + matcher_sanitizers(m@, cv.take(j as int)),
        {
            let call = &bindings.calls[j];
            assert(cv.take(j + 1).drop_last() =~= cv.take(j as int));
            assert(cv.take(j + 1).last() == call@);
            if call_matches(m, &call.callee) {
                out.push(call.call_span);
            }
        }
        assert(cv.take(nc as int) =~= cv);
    }
    assert(views(matchers@).take(n as int) =~= views(matchers@));
    out
}

/// Source spans: member reads whose base and field chain satisfy a
/// matcher.
pub fn source_spans(matchers: &Vec<CompiledResolvedMatcher>, bindings: &FileBindings) -> (out: Vec<(Span, String)>)
    ensures
        sinks_view(out@) == sources_spec(views(matchers@), views(bindings.reads@)),
{
    let ghost rv = views(bindings.reads@);
    let mut out: Vec<(Span, String)> = Vec::new();
    let n = matchers.len();
    for k in 0..n
        invariant
            n == matchers@.len(),
            rv == views(bindings.reads@),
            sinks_view(out@) == sources_spec(views(matchers@).take(k as int), rv),
    {
        let m = &matchers[k];
        let ghost before = sinks_view(out@);
        assert(views(matchers@).take(k + 1).drop_last() =~= views(matchers@).take(k as int));
        assert(views(matchers@).take(k + 1).last() == m@);
        let nr = bindings.reads.len();
        for j in 0..nr
            invariant
                nr == bindings.reads@.len(),
                rv == views(bindings.reads@),
                sinks_view(out@) == before + matcher_sources(m@, rv.take(j as int)),
        {
            let read = &bindings.reads[j];
            assert(rv.take(j + 1).drop_last() =~= rv.take(j as int));
            assert(rv.take(j + 1).last() == read@);
            let base_ok = match &m.module {
                Some(module) => match &read.base_module {
                    Some(bm) => *bm == *module,
                    None => false,
                },
                None => match &m.member_of {
                    Some(base) => read.path.base == *base,
                    None => true,
                },
            };
            if base_ok && strings_prefix(&m.path, &read.path.fields) {
                let label = label_string(&m.label, "tainted data");
                let ghost mid = sinks_view(out@);
                out.push((read.span, label));
                assert(sinks_view(out@) =~= mid.push((read.span, label@)));
            }
        }
        assert(rv.take(nr as int) =~= rv);
    }
    assert(views(matchers@).take(n as int) =~= views(matchers@));
    out
}

} // verus!
