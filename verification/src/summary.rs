//! Per-file function summaries: the persisted inputs to cross-file taint
//! linking. A summary captures, per taint rule, how each named function
//! moves taint: whether its return value is a source, which parameters flow
//! to its return, and which parameters reach a sink inside it.

use vstd::prelude::*;
use crate::findings::Span;
use crate::hashing::{hash_hex, utf8_bytes, push_bytes, le_bytes_of, le_bytes, blake3_hex};
use crate::paths::{copy_string, strings_view};

verus! {

/// Bump when the artifact layout changes (invalidates every stored summary).
pub const SUMMARY_SCHEMA: u32 = 1;

/// One provenance step, portable across files (file-tagged, snippet baked).
#[derive(Debug)]
pub struct PortableStep {
    pub label: String,
    pub span: Span,
    pub file: String,
    pub snippet: String,
}

pub struct PortableStepView {
    pub label: Seq<char>,
    pub span: Span,
    pub file: Seq<char>,
    pub snippet: Seq<char>,
}

impl View for PortableStep {
    type V = PortableStepView;

    open spec fn view(&self) -> PortableStepView {
        PortableStepView { label: self.label@, span: self.span, file: self.file@, snippet: self.snippet@ }
    }
}

pub open spec fn psteps_view(v: Seq<PortableStep>) -> Seq<PortableStepView> {
    v.map_values(|s: PortableStep| s@)
}

impl PortableStep {
    pub fn duplicate(&self) -> (r: PortableStep)
        ensures
            r@ == self@,
    {
        PortableStep {
            label: copy_string(&self.label),
            span: self.span,
            file: copy_string(&self.file),
            snippet: copy_string(&self.snippet),
        }
    }
}

impl Clone for PortableStep {
    fn clone(&self) -> (r: PortableStep)
        ensures
            r@ == self@,
    {
        self.duplicate()
    }
}

/// A copy of a sequence of portable steps.
pub fn copy_psteps(v: &Vec<PortableStep>) -> (r: Vec<PortableStep>)
    ensures
        psteps_view(r@) == psteps_view(v@),
{
    let mut r: Vec<PortableStep> = Vec::new();
    let n = v.len();
    for i in 0..n
        invariant
            n == v@.len(),
            psteps_view(r@) == psteps_view(v@.take(i as int)),
    {
        r.push(v[i].duplicate());
        assert(psteps_view(v@.take(i + 1)) =~= psteps_view(v@.take(i as int)).push(v@[i as int]@));
        assert(psteps_view(r@) =~= psteps_view(v@.take(i as int)).push(v@[i as int]@));
    }
    assert(v@.take(n as int) =~= v@);
    r
}

/// A parameter that reaches a sink within the function.
#[derive(Debug)]
pub struct ParamSink {
    pub index: usize,
    pub sink_label: String,
    pub sink_step: PortableStep,
    /// Steps from the parameter to the sink, inside the function.
    pub steps: Vec<PortableStep>,
}

pub struct ParamSinkView {
    pub index: usize,
    pub sink_label: Seq<char>,
    pub sink_step: PortableStepView,
    pub steps: Seq<PortableStepView>,
}

impl View for ParamSink {
    type V = ParamSinkView;

    open spec fn view(&self) -> ParamSinkView {
        ParamSinkView { index: self.index, sink_label: self.sink_label@, sink_step: self.sink_step@, steps: psteps_view(self.steps@) }
    }
}

impl ParamSink {
    pub fn duplicate(&self) -> (r: ParamSink)
        ensures
            r@ == self@,
    {
        ParamSink {
            index: self.index,
            sink_label: copy_string(&self.sink_label),
            sink_step: self.sink_step.duplicate(),
            steps: copy_psteps(&self.steps),
        }
    }
}

/// How one named function moves taint, for a single rule.
#[derive(Debug)]
pub struct PortableFunctionSummary {
    pub name: String,
    /// Non-empty when the return value carries a source (with provenance).
    pub returns_source: Vec<PortableStep>,
    /// Parameter indices whose taint flows to the return value.
    pub returns_params: Vec<(usize, Vec<PortableStep>)>,
    /// Parameters that reach a sink inside the function.
    pub param_to_sink: Vec<ParamSink>,
}

pub struct SummaryView {
    pub name: Seq<char>,
    pub returns_source: Seq<PortableStepView>,
    pub returns_params: Seq<(usize, Seq<PortableStepView>)>,
    pub param_to_sink: Seq<ParamSinkView>,
}

impl View for PortableFunctionSummary {
    type V = SummaryView;

    open spec fn view(&self) -> SummaryView {
        SummaryView {
            name: self.name@,
            returns_source: psteps_view(self.returns_source@),
            returns_params: self.returns_params@.map_values(|e: (usize, Vec<PortableStep>)| (e.0, psteps_view(e.1@))),
            param_to_sink: self.param_to_sink@.map_values(|p: ParamSink| p@),
        }
    }
}

impl PortableFunctionSummary {
    /// An empty summary for `name`.
    pub fn named(name: String) -> (r: PortableFunctionSummary)
        ensures
            r.name@ == name@,
            r.returns_source@.len() == 0,
            r.returns_params@.len() == 0,
            r.param_to_sink@.len() == 0,
    {
        PortableFunctionSummary { name, returns_source: Vec::new(), returns_params: Vec::new(), param_to_sink: Vec::new() }
    }

    pub fn duplicate(&self) -> (r: PortableFunctionSummary)
        ensures
            r@ == self@,
    {
        let mut rp: Vec<(usize, Vec<PortableStep>)> = Vec::new();
        let n = self.returns_params.len();
        for i in 0..n
            invariant
                n == self.returns_params@.len(),
                rp@.len() == i,
                forall|j: int| 0 <= j < i ==> (#[trigger] rp@[j]).0 == self.returns_params@[j].0
                    && psteps_view(rp@[j].1@) == psteps_view(self.returns_params@[j].1@),
        {
            let e = &self.returns_params[i];
            rp.push((e.0, copy_psteps(&e.1)));
        }
        let mut ps: Vec<ParamSink> = Vec::new();
        let m = self.param_to_sink.len();
        for i in 0..m
            invariant
                m == self.param_to_sink@.len(),
                ps@.len() == i,
                forall|j: int| 0 <= j < i ==> (#[trigger] ps@[j])@ == self.param_to_sink@[j]@,
        {
            ps.push(self.param_to_sink[i].duplicate());
        }
        let r = PortableFunctionSummary {
            name: copy_string(&self.name),
            returns_source: copy_psteps(&self.returns_source),
            returns_params: rp,
            param_to_sink: ps,
        };
        assert(r@.returns_params =~= self@.returns_params);
        assert(r@.param_to_sink =~= self@.param_to_sink);
        r
    }
}

impl Clone for PortableFunctionSummary {
    fn clone(&self) -> (r: PortableFunctionSummary)
        ensures
            r@ == self@,
    {
        self.duplicate()
    }
}

/// Import/export facts needed to resolve the module graph.
#[derive(Debug)]
pub struct PortableBindings {
    pub module_decl: Option<String>,
    /// (local name, module, imported name)
    pub imports: Vec<(String, String, String)>,
    pub exports: Vec<String>,
}

/// The summaries one file holds for one rule.
#[derive(Debug)]
pub struct RuleSummaries {
    pub rule: String,
    pub functions: Vec<PortableFunctionSummary>,
}

/// A file's complete summary artifact.
#[derive(Debug)]
pub struct FileSummaryArtifact {
    pub schema: u32,
    pub file: String,
    pub content_hash: String,
    pub bindings: PortableBindings,
    /// Per rule id (in id order), the function summaries.
    pub rules: Vec<RuleSummaries>,
    /// Hash over the artifact's semantic content; identifies this summary
    /// for link fingerprints.
    pub summary_hash: String,
}

/// The bytes hashed to identify a summary: a version tag, the content
/// hash, then the serialized bindings and rule summaries.
pub open spec fn summary_message(content_hash: Seq<char>, bindings_json: Seq<u8>, rules_json: Seq<u8>) -> Seq<u8> {
    vstd::utf8::encode_utf8("crit-summary-v1\0"@) + vstd::utf8::encode_utf8(content_hash) + bindings_json + rules_json
}

impl FileSummaryArtifact {
    /// Set `summary_hash` from the current content, given the serialized
    /// bindings and rule summaries.
    pub fn finalize(self, bindings_json: &[u8], rules_json: &[u8]) -> (r: FileSummaryArtifact)
        ensures
            r.summary_hash@ == blake3_hex(summary_message(self.content_hash@, bindings_json@, rules_json@)),
            r.schema == self.schema,
            r.file == self.file,
            r.content_hash == self.content_hash,
            r.bindings == self.bindings,
            r.rules == self.rules,
    {
        let mut msg = utf8_bytes("crit-summary-v1\0");
        push_bytes(&mut msg, utf8_bytes(self.content_hash.as_str()).as_slice());
        push_bytes(&mut msg, bindings_json);
        push_bytes(&mut msg, rules_json);
        let h = hash_hex(msg.as_slice());
        let mut r = self;
        r.summary_hash = h;
        r
    }
}

/// The bytes hashed to key a stored summary.
pub open spec fn key_message(content_hash: Seq<char>, rules_hash: Seq<char>) -> Seq<u8> {
    vstd::utf8::encode_utf8(content_hash) + vstd::utf8::encode_utf8("\0"@)
        + vstd::utf8::encode_utf8(rules_hash) + vstd::utf8::encode_utf8("\0"@) + le_bytes(SUMMARY_SCHEMA)
}

/// Storage key for a file's summary under the current rule set.
pub fn key(content_hash: &str, rules_hash: &str) -> (r: String)
    ensures
        r@ == blake3_hex(key_message(content_hash@, rules_hash@)),
{
    let mut msg = utf8_bytes(content_hash);
    push_bytes(&mut msg, utf8_bytes("\0").as_slice());
    push_bytes(&mut msg, utf8_bytes(rules_hash).as_slice());
    push_bytes(&mut msg, utf8_bytes("\0").as_slice());
    push_bytes(&mut msg, le_bytes_of(SUMMARY_SCHEMA).as_slice());
    hash_hex(msg.as_slice())
}

/// Cross-file summaries reachable from one file for one rule, keyed by the
/// local name each callee is invoked under (each name at most once).
#[derive(Debug)]
pub struct LinkedForRule {
    pub entries: Vec<(String, PortableFunctionSummary)>,
}

/// The position of `name` among linked entries, if any (the first one).
pub open spec fn linked_pos(entries: Seq<(String, PortableFunctionSummary)>, name: Seq<char>) -> Option<int>
    decreases entries.len(),
{
    if entries.len() == 0 {
        None
    } else {
        match linked_pos(entries.drop_last(), name) {
            Some(i) => Some(i),
            None => if entries.last().0@ == name { Some(entries.len() - 1) } else { None },
        }
    }
}

impl LinkedForRule {
    pub fn new() -> (r: LinkedForRule)
        ensures
            r.entries@.len() == 0,
    {
        LinkedForRule { entries: Vec::new() }
    }

    pub fn is_empty(&self) -> (r: bool)
        ensures
            r == (self.entries@.len() == 0),
    {
        self.entries.len() == 0
    }

    /// The position of the summary linked under `name`.
    pub fn position(&self, name: &str) -> (r: Option<usize>)
        ensures
            match r {
                Some(i) => linked_pos(self.entries@, name@) == Some(i as int) && i < self.entries@.len(),
                None => linked_pos(self.entries@, name@) is None,
            },
    {
        let n = self.entries.len();
        for i in 0..n
            invariant
                n == self.entries@.len(),
                linked_pos(self.entries@.take(i as int), name@) is None,
        {
            assert(self.entries@.take(i + 1).drop_last() =~= self.entries@.take(i as int));
            if crate::text::str_is(self.entries[i].0.as_str(), name) {
                proof { lemma_linked_pos_prefix(self.entries@, i as int + 1, name@); }
                return Some(i);
            }
            proof { lemma_linked_pos_prefix(self.entries@, i as int + 1, name@); }
        }
        assert(self.entries@.take(n as int) =~= self.entries@);
        None
    }

    /// Link `name` to `sum`, replacing an earlier summary under that name.
    pub fn insert(&mut self, name: String, sum: PortableFunctionSummary)
        ensures
            match linked_pos(old(self).entries@, name@) {
                Some(i) => final(self).entries@ == old(self).entries@.update(i, (name, sum)),
                None => final(self).entries@ == old(self).entries@.push((name, sum)),
            },
    {
        match self.position(name.as_str()) {
            Some(i) => {
                self.entries.set(i, (name, sum));
            },
            None => {
                self.entries.push((name, sum));
            },
        }
    }
}

/// `linked_pos` of a prefix decides `linked_pos` of the whole once found.
pub proof fn lemma_linked_pos_prefix(entries: Seq<(String, PortableFunctionSummary)>, k: int, name: Seq<char>)
    requires
        0 <= k <= entries.len(),
    ensures
        linked_pos(entries.take(k), name) is Some ==> linked_pos(entries, name) == linked_pos(entries.take(k), name),
        (linked_pos(entries.take(k), name) is None && k < entries.len() && entries[k].0@ == name) ==> linked_pos(entries, name) == Some(k),
    decreases entries.len() - k,
{
    if k < entries.len() {
        assert(entries.take(k + 1).drop_last() =~= entries.take(k));
        lemma_linked_pos_prefix(entries, k + 1, name);
    } else {
        assert(entries.take(k) =~= entries);
    }
}

} // verus!
