//! Compilation of loaded rules into per-language tree-sitter queries, and
//! the rule-set hash that keys every cache.
//!
//! Whether a query compiles for a grammar is tree-sitter's verdict; what
//! is decided here is which rules are tried for which language, what is
//! kept, what is reported, and what the rule-set hash covers.

use vstd::prelude::*;
use std::sync::Arc;
use crate::hashing::{blake3_hex, hash_hex, utf8_bytes, push_bytes, le_bytes, le_bytes_of};
use crate::languages::{LanguageDef, Registry, lang_ids};
use crate::matcher::{CompiledFilter, CompiledPattern};
use crate::model::{RuleKind, RuleSpec, TaintPattern};
use crate::paths::{strings_view, copy_strings};
use crate::profile::{ModuleResolution, ProfileQuery, TaintProfileSpec};
use crate::resolved::{CompiledResolvedMatcher, MatcherV};
use crate::state::opt_view;
use crate::sorting::views;
use crate::rules::{LoadedRules, keys_of};
use crate::taint::{TaintQuery, TaintRule};
use crate::sorting::{strictly_sorted, insert_sorted_unique, text_lt};
use crate::text::{str_is, chars_of};

verus! {

broadcast use vstd::string::group_string_axioms;

/// Cache/analysis schema revision, mixed into the rules hash: changing it
/// invalidates caches even when the rule content is unchanged.
pub const ANALYSIS_REVISION: u32 = 4;

#[verifier::external_type_specification]
#[verifier::external_body]
pub struct ExQuery(tree_sitter::Query);

/// Compile a tree-sitter query for a language's grammar (`Query::new`),
/// its error rendered as text (`QueryError`'s `Display`). Whether it
/// compiles is the verdict of the grammar, an opaque value: nothing is
/// claimed of the outcome.
#[verifier::external_body]
fn query_new(def: &LanguageDef, source: &str) -> (r: Result<SourcedQuery, String>)
    ensures
        r matches Ok(q) ==> q.source@ == source@,
{
    tree_sitter::Query::new(&def.language, source)
        .map(|query| SourcedQuery { query, source: source.to_owned() })
        .map_err(|e| e.to_string())
}

/// A compiled query, with the text it was compiled from.
pub struct SourcedQuery {
    pub query: tree_sitter::Query,
    pub source: String,
}

/// The texts of compiled queries, in order.
pub open spec fn sources_of(qs: Seq<SourcedQuery>) -> Seq<Seq<char>> {
    qs.map_values(|q: SourcedQuery| q.source@)
}

/// The outcome of one compilation as recorded: `None` when the query
/// compiled, else the text of the grammar's error.
pub type Verdicts = Seq<Option<Seq<char>>>;

/// The capture names of a compiled query, in index order
/// (`Query::capture_names`).
#[verifier::external_body]
pub(crate) fn query_capture_names(query: &tree_sitter::Query) -> Vec<String> {
    query.capture_names().iter().map(|n| n.to_string()).collect()
}

/// Share a reference-counted value (`Arc::clone`): the copy points to the
/// same value.
#[verifier::external_body]
fn share<T>(a: &Arc<T>) -> (r: Arc<T>)
    ensures
        r == *a,
{
    Arc::clone(a)
}

/// One compiled source/sink/sanitizer query.
pub struct CompiledTaintQuery {
    pub query: tree_sitter::Query,
    /// The text the query was compiled from.
    pub source: String,
    /// Index of the marker capture (`source`/`sink`/`sanitizer`); capture
    /// 0 when the query has none.
    pub capture_index: u32,
    pub label: Option<String>,
}

/// The compiled queries of a taint rule, by role (their matches feed the
/// rule's [`TaintRule`] per file).
pub struct TaintQuerySet {
    pub sources: Vec<CompiledTaintQuery>,
    pub sinks: Vec<CompiledTaintQuery>,
    pub sanitizers: Vec<CompiledTaintQuery>,
}

/// A taint profile compiled for one language; queries that do not fit the
/// grammar are left out (and reported).
pub struct CompiledProfile {
    pub identifiers: Vec<String>,
    pub assignments: Vec<SourcedQuery>,
    pub functions: Vec<SourcedQuery>,
    pub params: Vec<SourcedQuery>,
    pub calls: Vec<SourcedQuery>,
    pub returns: Vec<SourcedQuery>,
    pub member_access: Vec<SourcedQuery>,
    pub method_calls: Vec<SourcedQuery>,
    pub imports: Vec<SourcedQuery>,
    pub exports: Vec<SourcedQuery>,
    pub module_resolution: Option<ModuleResolution>,
}

/// Everything compiled for a single language.
pub struct LanguageRules {
    pub lang_id: String,
    /// Pattern rules, and the compiled query of each.
    pub patterns: Vec<CompiledPattern>,
    pub pattern_queries: Vec<SourcedQuery>,
    /// Taint rules, and the compiled queries of each.
    pub taints: Vec<TaintRule>,
    pub taint_queries: Vec<TaintQuerySet>,
    pub profile: Option<CompiledProfile>,
}

impl LanguageRules {
    /// Every compiled rule has its compiled queries: one per pattern rule,
    /// and for each taint rule one per source, sink and sanitizer query.
    pub open spec fn wf(&self) -> bool {
        &&& self.patterns@.len() == self.pattern_queries@.len()
        &&& self.taints@.len() == self.taint_queries@.len()
        &&& forall|k: int| 0 <= k < self.taints@.len() ==> {
            &&& (#[trigger] self.taint_queries@[k]).sources@.len() == self.taints@[k].sources@.len()
            &&& self.taint_queries@[k].sinks@.len() == self.taints@[k].sinks@.len()
            &&& self.taint_queries@[k].sanitizers@.len() == self.taints@[k].sanitizers@.len()
        }
    }

    /// Whether the compiled rules are well formed (`wf`).
    pub fn is_wf(&self) -> (r: bool)
        ensures
            r == self.wf(),
    {
        if self.patterns.len() != self.pattern_queries.len() || self.taints.len() != self.taint_queries.len() {
            return false;
        }
        let n = self.taints.len();
        for k in 0..n
            invariant
                n == self.taints@.len(),
                n == self.taint_queries@.len(),
                forall|j: int| 0 <= j < k ==> {
                    &&& (#[trigger] self.taint_queries@[j]).sources@.len() == self.taints@[j].sources@.len()
                    &&& self.taint_queries@[j].sinks@.len() == self.taints@[j].sinks@.len()
                    &&& self.taint_queries@[j].sanitizers@.len() == self.taints@[j].sanitizers@.len()
                },
        {
            let q = &self.taint_queries[k];
            let t = &self.taints[k];
            if q.sources.len() != t.sources.len() || q.sinks.len() != t.sinks.len() || q.sanitizers.len() != t.sanitizers.len() {
                assert(self.taint_queries@[k as int] == *q);
                return false;
            }
        }
        true
    }
}

/// Compiled rules that fit their language are well formed.
proof fn lemma_fits_wf(lr: LanguageRules, def: LanguageDef, rules: Seq<(String, RuleSpec)>, rec: LanguageRecord)
    requires
        language_fits(lr, def, rules, rec),
    ensures
        lr.wf(),
{
    assert forall|k: int| 0 <= k < lr.taints@.len() implies {
        &&& (#[trigger] lr.taint_queries@[k]).sources@.len() == lr.taints@[k].sources@.len()
        &&& lr.taint_queries@[k].sinks@.len() == lr.taints@[k].sinks@.len()
        &&& lr.taint_queries@[k].sanitizers@.len() == lr.taints@[k].sanitizers@.len()
    } by {
        assert(taint_fits(lr.taints@[k], lr.taint_queries@[k], *lr.taints@[k].rule));
    }
}

/// The complete compiled rule set.
pub struct CompiledRuleSet {
    /// The rules that compiled for at least one language, in id order.
    pub rules: Vec<Arc<RuleSpec>>,
    /// One entry per registered language, in registration order.
    pub by_language: Vec<LanguageRules>,
    /// Hash covering rule content, profiles, engine revision and language
    /// set; the cache validity key.
    pub rules_hash: String,
    /// Warnings from loading and compilation.
    pub warnings: Vec<String>,
}

/// The UTF-8 bytes of a text.
pub open spec fn utf8(s: Seq<char>) -> Seq<u8> {
    vstd::utf8::encode_utf8(s)
}

/// The rule part of the hash input: each rule's id then its serialized
/// form, in id order.
pub open spec fn rules_part(ids: Seq<Seq<char>>, docs: Seq<Seq<u8>>, k: int) -> Seq<u8>
    decreases k,
{
    if k <= 0 { Seq::empty() } else { rules_part(ids, docs, k - 1) + utf8(ids[k - 1]) + docs[k - 1] }
}

/// The language part: each language's id then its serialized taint
/// profile (nothing without one), in registration order.
pub open spec fn langs_part(ids: Seq<Seq<char>>, profiles: Seq<Option<Seq<u8>>>, k: int) -> Seq<u8>
    decreases k,
{
    if k <= 0 {
        Seq::empty()
    } else {
        langs_part(ids, profiles, k - 1) + utf8(ids[k - 1]) + match profiles[k - 1] { Some(p) => p, None => Seq::empty() }
    }
}

/// Everything the rules hash covers: a version tag, the analysis
/// revision (four little-endian bytes), the rules and the languages.
pub open spec fn rules_hash_input(rule_ids: Seq<Seq<char>>, rule_docs: Seq<Seq<u8>>, lang_ids: Seq<Seq<char>>, profiles: Seq<Option<Seq<u8>>>) -> Seq<u8> {
    utf8("crit-rules-v1\0"@) + le_bytes(ANALYSIS_REVISION) + rules_part(rule_ids, rule_docs, rule_ids.len() as int)
        + langs_part(lang_ids, profiles, lang_ids.len() as int)
}

pub open spec fn bytes_view(v: Seq<Vec<u8>>) -> Seq<Seq<u8>> {
    v.map_values(|b: Vec<u8>| b@)
}

pub open spec fn opt_bytes_view(v: Seq<Option<Vec<u8>>>) -> Seq<Option<Seq<u8>>> {
    v.map_values(|b: Option<Vec<u8>>| match b { Some(x) => Some(x@), None => None })
}

/// Hash a rule set: its rules (id and serialized form, in id order) and
/// its languages (id and serialized taint profile, in registration order).
pub fn rules_hash(rule_ids: &Vec<String>, rule_docs: &Vec<Vec<u8>>, lang_ids: &Vec<String>, profiles: &Vec<Option<Vec<u8>>>) -> (r: String)
    requires
        rule_ids@.len() == rule_docs@.len(),
        lang_ids@.len() == profiles@.len(),
    ensures
        r@ == blake3_hex(rules_hash_input(strings_view(rule_ids@), bytes_view(rule_docs@), strings_view(lang_ids@), opt_bytes_view(profiles@))),
{
    let ghost ri = strings_view(rule_ids@);
    let ghost rd = bytes_view(rule_docs@);
    let ghost li = strings_view(lang_ids@);
    let ghost pj = opt_bytes_view(profiles@);
    let mut msg = utf8_bytes("crit-rules-v1\0");
    let rev = le_bytes_of(ANALYSIS_REVISION);
    push_bytes(&mut msg, rev.as_slice());
    let ghost head = msg@;
    let n = rule_ids.len();
    for i in 0..n
        invariant
            n == rule_ids@.len(),
            n == rule_docs@.len(),
            ri == strings_view(rule_ids@),
            rd == bytes_view(rule_docs@),
            msg@ == head + rules_part(ri, rd, i as int),
    {
        let b = utf8_bytes(rule_ids[i].as_str());
        push_bytes(&mut msg, b.as_slice());
        push_bytes(&mut msg, rule_docs[i].as_slice());
        assert(ri[i as int] == rule_ids@[i as int]@);
        assert(rd[i as int] == rule_docs@[i as int]@);
        assert(msg@ =~= head + rules_part(ri, rd, i + 1));
    }
    let ghost mid = msg@;
    let m = lang_ids.len();
    for j in 0..m
        invariant
            m == lang_ids@.len(),
            m == profiles@.len(),
            li == strings_view(lang_ids@),
            pj == opt_bytes_view(profiles@),
            msg@ == mid + langs_part(li, pj, j as int),
    {
        let b = utf8_bytes(lang_ids[j].as_str());
        push_bytes(&mut msg, b.as_slice());
        assert(li[j as int] == lang_ids@[j as int]@);
        match &profiles[j] {
            Some(p) => {
                push_bytes(&mut msg, p.as_slice());
            }
            None => {}
        }
        assert(msg@ =~= mid + langs_part(li, pj, j + 1));
    }
    assert(msg@ =~= rules_hash_input(ri, rd, li, pj));
    hash_hex(msg.as_slice())
}

/// Does a rule list a language?
pub open spec fn applies(rule: RuleSpec, lang: Seq<char>) -> bool {
    strings_view(rule.languages@).contains(lang)
}

fn rule_applies(rule: &RuleSpec, lang: &str) -> (r: bool)
    ensures
        r == applies(*rule, lang@),
{
    let n = rule.languages.len();
    for i in 0..n
        invariant
            n == rule.languages@.len(),
            forall|j: int| 0 <= j < i ==> #[trigger] strings_view(rule.languages@)[j] != lang@,
    {
        if str_is(rule.languages[i].as_str(), lang) {
            assert(strings_view(rule.languages@)[i as int] == lang@);
            return true;
        }
    }
    false
}

/// The warning for a profile query the grammar refuses, with the
/// grammar's error text `e`.
pub open spec fn profile_query_warning(what: Seq<char>, lang: Seq<char>, e: Seq<char>) -> Seq<char> {
    "profile "@ + what + " query invalid for `"@ + lang + "`: "@ + e
}

/// The warnings for the refused queries of one profile kind, given the
/// verdicts on its queries in order.
pub open spec fn set_warnings(vs: Verdicts, what: Seq<char>, lang: Seq<char>) -> Seq<Seq<char>>
    decreases vs.len(),
{
    if vs.len() == 0 {
        Seq::empty()
    } else {
        let rest = set_warnings(vs.drop_last(), what, lang);
        match vs.last() {
            Some(e) => rest.push(profile_query_warning(what, lang, e)),
            None => rest,
        }
    }
}

/// How many of the queries with verdicts `vs` compiled.
pub open spec fn set_kept(vs: Verdicts) -> nat
    decreases vs.len(),
{
    if vs.len() == 0 {
        0
    } else {
        set_kept(vs.drop_last()) + if vs.last() is None { 1nat } else { 0nat }
    }
}

/// The texts of the queries with verdicts `vs` that compiled, in order.
pub open spec fn kept_texts(queries: Seq<ProfileQuery>, vs: Verdicts) -> Seq<Seq<char>>
    decreases vs.len(),
{
    if vs.len() == 0 {
        Seq::empty()
    } else {
        let rest = kept_texts(queries, vs.drop_last());
        if vs.last() is None { rest.push(queries[vs.len() - 1].query@) } else { rest }
    }
}

/// Verdicts for a whole profile: one list per kind of query, in the order
/// assignments, functions, params, calls, returns, member_access,
/// method_calls, imports, exports, each as long as that kind's queries.
pub open spec fn profile_record_fits(spec: TaintProfileSpec, pv: Seq<Verdicts>) -> bool {
    &&& pv.len() == 9
    &&& pv[0].len() == spec.assignments@.len()
    &&& pv[1].len() == spec.functions@.len()
    &&& pv[2].len() == spec.params@.len()
    &&& pv[3].len() == spec.calls@.len()
    &&& pv[4].len() == spec.returns@.len()
    &&& pv[5].len() == spec.member_access@.len()
    &&& pv[6].len() == spec.method_calls@.len()
    &&& pv[7].len() == spec.imports@.len()
    &&& pv[8].len() == spec.exports@.len()
}

/// A compiled profile keeps, of each kind, the queries that compiled,
/// each with the text it was compiled from.
pub open spec fn profile_kept(cp: CompiledProfile, spec: TaintProfileSpec, pv: Seq<Verdicts>) -> bool {
    &&& sources_of(cp.assignments@) == kept_texts(spec.assignments@, pv[0])
    &&& sources_of(cp.functions@) == kept_texts(spec.functions@, pv[1])
    &&& sources_of(cp.params@) == kept_texts(spec.params@, pv[2])
    &&& sources_of(cp.calls@) == kept_texts(spec.calls@, pv[3])
    &&& sources_of(cp.returns@) == kept_texts(spec.returns@, pv[4])
    &&& sources_of(cp.member_access@) == kept_texts(spec.member_access@, pv[5])
    &&& sources_of(cp.method_calls@) == kept_texts(spec.method_calls@, pv[6])
    &&& sources_of(cp.imports@) == kept_texts(spec.imports@, pv[7])
    &&& sources_of(cp.exports@) == kept_texts(spec.exports@, pv[8])
}

/// The warnings of compiling a whole profile, kind by kind.
pub open spec fn profile_warnings(pv: Seq<Verdicts>, lang: Seq<char>) -> Seq<Seq<char>> {
    set_warnings(pv[0], "assignments"@, lang)
        + set_warnings(pv[1], "functions"@, lang)
        + set_warnings(pv[2], "params"@, lang)
        + set_warnings(pv[3], "calls"@, lang)
        + set_warnings(pv[4], "returns"@, lang)
        + set_warnings(pv[5], "member_access"@, lang)
        + set_warnings(pv[6], "method_calls"@, lang)
        + set_warnings(pv[7], "imports"@, lang)
        + set_warnings(pv[8], "exports"@, lang)
}

/// Compile a profile's queries of one kind, skipping (and reporting) those
/// that do not fit the grammar: with the verdict on each query recorded in
/// order, the accepted ones are kept and one warning per refused query is
/// appended after the earlier ones.
fn compile_set(queries: &Vec<ProfileQuery>, what: &str, def: &LanguageDef, warnings: &mut Vec<String>) -> (r: (Vec<SourcedQuery>, Ghost<Verdicts>))
    ensures
        r.1@.len() == queries@.len(),
        sources_of(r.0@) == kept_texts(queries@, r.1@),
        final(warnings)@.len() >= old(warnings)@.len(),
        final(warnings)@.take(old(warnings)@.len() as int) == old(warnings)@,
        strings_view(final(warnings)@) == strings_view(old(warnings)@) + set_warnings(r.1@, what@, def.id@),
{
    let mut out: Vec<SourcedQuery> = Vec::new();
    let ghost mut vs: Verdicts = Seq::empty();
    let n = queries.len();
    for i in 0..n
        invariant
            n == queries@.len(),
            vs.len() == i,
            sources_of(out@) == kept_texts(queries@, vs),
            warnings@.len() >= old(warnings)@.len(),
            warnings@.take(old(warnings)@.len() as int) == old(warnings)@,
            strings_view(warnings@) == strings_view(old(warnings)@) + set_warnings(vs, what@, def.id@),
    {
        let ghost before_vs = vs;
        match query_new(def, queries[i].query.as_str()) {
            Ok(q) => {
                let ghost before_out = sources_of(out@);
                let ghost qs = q.source@;
                out.push(q);
                proof { vs = vs.push(None); }
                assert(vs.drop_last() =~= before_vs);
                assert(sources_of(out@) =~= before_out.push(qs));
            }
            Err(e) => {
                let mut m = "profile ".to_owned();
                m.append(what);
                m.append(" query invalid for `");
                m.append(def.id.as_str());
                m.append("`: ");
                m.append(e.as_str());
                assert(m@ =~= profile_query_warning(what@, def.id@, e@));
                let ghost before = warnings@;
                warnings.push(m);
                proof { vs = vs.push(Some(e@)); }
                assert(vs.drop_last() =~= before_vs);
                assert(warnings@.take(old(warnings)@.len() as int) =~= before.take(old(warnings)@.len() as int));
                assert(strings_view(warnings@) =~= strings_view(before).push(m@));
            }
        }
    }
    (out, Ghost(vs))
}

/// Compile a taint profile for a language, recording the verdict on each
/// of its queries.
fn compile_profile(spec: &TaintProfileSpec, def: &LanguageDef, warnings: &mut Vec<String>) -> (r: (CompiledProfile, Ghost<Seq<Verdicts>>))
    ensures
        strings_view(r.0.identifiers@) == strings_view(spec.identifiers@),
        profile_record_fits(*spec, r.1@),
        profile_kept(r.0, *spec, r.1@),
        final(warnings)@.len() >= old(warnings)@.len(),
        final(warnings)@.take(old(warnings)@.len() as int) == old(warnings)@,
        strings_view(final(warnings)@) == strings_view(old(warnings)@) + profile_warnings(r.1@, def.id@),
{
    let ghost w0 = warnings@;
    let (assignments, Ghost(v0)) = compile_set(&spec.assignments, "assignments", def, warnings);
    let (functions, Ghost(v1)) = compile_set(&spec.functions, "functions", def, warnings);
    let (params, Ghost(v2)) = compile_set(&spec.params, "params", def, warnings);
    let (calls, Ghost(v3)) = compile_set(&spec.calls, "calls", def, warnings);
    let (rets, Ghost(v4)) = compile_set(&spec.returns, "returns", def, warnings);
    let (member_access, Ghost(v5)) = compile_set(&spec.member_access, "member_access", def, warnings);
    let (method_calls, Ghost(v6)) = compile_set(&spec.method_calls, "method_calls", def, warnings);
    let (imports, Ghost(v7)) = compile_set(&spec.imports, "imports", def, warnings);
    let (exports, Ghost(v8)) = compile_set(&spec.exports, "exports", def, warnings);
    let ghost pv: Seq<Verdicts> = seq![v0, v1, v2, v3, v4, v5, v6, v7, v8];
    assert(warnings@.take(w0.len() as int) =~= w0);
    assert(strings_view(warnings@) =~= strings_view(w0) + profile_warnings(pv, def.id@));
    let cp = CompiledProfile {
        identifiers: copy_strings(&spec.identifiers),
        assignments,
        functions,
        params,
        calls,
        returns: rets,
        member_access,
        method_calls,
        imports,
        exports,
        module_resolution: match &spec.module_resolution { Some(m) => Some(m.duplicate()), None => None },
    };
    (cp, Ghost(pv))
}

/// The position of a marker among capture names, else 0.
pub open spec fn marker_index(names: Seq<Seq<char>>, marker: Seq<char>) -> int
    decreases names.len(),
{
    if names.len() == 0 {
        0
    } else if names[0] == marker {
        0
    } else {
        let rest = marker_index(names.drop_first(), marker);
        if names.drop_first().contains(marker) { rest + 1 } else { 0 }
    }
}

fn capture_index_of(names: &Vec<String>, marker: &str) -> (r: u32)
    ensures
        strings_view(names@).contains(marker@) && marker_index(strings_view(names@), marker@) <= u32::MAX
            ==> r as int == marker_index(strings_view(names@), marker@),
        !strings_view(names@).contains(marker@) ==> r == 0,
{
    let n = names.len();
    let mut i: usize = 0;
    while i < n
        invariant
            i <= n,
            n == names@.len(),
            forall|j: int| 0 <= j < i ==> #[trigger] strings_view(names@)[j] != marker@,
        decreases n - i,
    {
        if str_is(names[i].as_str(), marker) {
            proof {
                let sv = strings_view(names@);
                assert(sv[i as int] == marker@);
                lemma_marker_index(sv, marker@, i as int);
            }
            if i <= u32::MAX as usize {
                return i as u32;
            } else {
                return 0;
            }
        }
        i += 1;
    }
    0
}

proof fn lemma_marker_index(names: Seq<Seq<char>>, marker: Seq<char>, i: int)
    requires
        0 <= i < names.len(),
        names[i] == marker,
        forall|j: int| 0 <= j < i ==> #[trigger] names[j] != marker,
    ensures
        marker_index(names, marker) == i,
    decreases i,
{
    if i > 0 {
        let t = names.drop_first();
        assert forall|j: int| 0 <= j < i - 1 implies #[trigger] t[j] != marker by {
            assert(t[j] == names[j + 1]);
        }
        assert(t[i - 1] == marker);
        lemma_marker_index(t, marker, i - 1);
        assert(names[0] != marker);
    }
}

/// The marker and label of each query pattern of a role, in order
/// (identity matchers have no query).
pub open spec fn query_markers(patterns: Seq<TaintPattern>, marker: Seq<char>) -> Seq<(Seq<char>, Option<Seq<char>>)>
    decreases patterns.len(),
{
    if patterns.len() == 0 {
        Seq::empty()
    } else {
        let rest = query_markers(patterns.drop_last(), marker);
        match patterns.last().query {
            Some(_) => rest.push((marker, opt_view(patterns.last().label))),
            None => rest,
        }
    }
}

/// The query texts of a role's query patterns, in order.
pub open spec fn query_texts(patterns: Seq<TaintPattern>) -> Seq<Seq<char>>
    decreases patterns.len(),
{
    if patterns.len() == 0 {
        Seq::empty()
    } else {
        let rest = query_texts(patterns.drop_last());
        match patterns.last().query {
            Some(q) => rest.push(q@),
            None => rest,
        }
    }
}

/// The texts compiled taint queries were compiled from.
pub open spec fn taint_sources(qs: Seq<CompiledTaintQuery>) -> Seq<Seq<char>> {
    qs.map_values(|q: CompiledTaintQuery| q.source@)
}

/// Taint queries as (marker, label) pairs.
pub open spec fn marker_views(qs: Seq<TaintQuery>) -> Seq<(Seq<char>, Option<Seq<char>>)> {
    qs.map_values(|q: TaintQuery| (q.marker@, opt_view(q.label)))
}

/// The identity matchers of a role, in order, each with its pattern's
/// label.
pub open spec fn matcher_views(patterns: Seq<TaintPattern>) -> Seq<MatcherV> {
    resolved_of(patterns).map_values(|e: (crate::model::ResolvedMatcher, Option<String>)| MatcherV {
        module: opt_view(e.0.module),
        member_of: opt_view(e.0.member_of),
        name: opt_view(e.0.name),
        path: strings_view(e.0.path@),
        arg_index: e.0.arg_index,
        match_unresolved: e.0.match_unresolved,
        label: opt_view(e.1),
    })
}

/// A compiled taint rule carries the rule, a marker query per query
/// pattern of each role (with one compiled query each), and the rule's
/// identity matchers.
pub open spec fn taint_fits(t: TaintRule, q: TaintQuerySet, r: RuleSpec) -> bool {
    &&& *t.rule == r
    &&& marker_views(t.sources@) == query_markers(r.sources@, "source"@)
    &&& marker_views(t.sinks@) == query_markers(r.sinks@, "sink"@)
    &&& marker_views(t.sanitizers@) == query_markers(r.sanitizers@, "sanitizer"@)
    &&& q.sources@.len() == t.sources@.len()
    &&& q.sinks@.len() == t.sinks@.len()
    &&& q.sanitizers@.len() == t.sanitizers@.len()
    &&& taint_sources(q.sources@) == query_texts(r.sources@)
    &&& taint_sources(q.sinks@) == query_texts(r.sinks@)
    &&& taint_sources(q.sanitizers@) == query_texts(r.sanitizers@)
    &&& views(t.resolved_sources@) == matcher_views(r.sources@)
    &&& views(t.resolved_sinks@) == matcher_views(r.sinks@)
    &&& views(t.resolved_sanitizers@) == matcher_views(r.sanitizers@)
}

/// A compiled filter is the rule filter's condition.
pub open spec fn filter_of(c: CompiledFilter, f: crate::model::CaptureFilter) -> bool {
    &&& c.capture@ == f.capture@
    &&& opt_view(c.pattern) == opt_view(f.pattern)
    &&& opt_view(c.equals) == opt_view(f.equals)
    &&& match (c.any_of, f.any_of) {
        (Some(a), Some(b)) => strings_view(a@) == strings_view(b@),
        (None, None) => true,
        _ => false,
    }
    &&& c.negate == f.negate
}

/// A compiled pattern carries the rule and a filter per rule filter.
pub open spec fn pattern_fits(p: CompiledPattern, r: RuleSpec) -> bool {
    &&& *p.rule == r
    &&& p.filters@.len() == r.filters@.len()
    &&& forall|i: int| 0 <= i < p.filters@.len() ==> filter_of(#[trigger] p.filters@[i], r.filters@[i])
}

/// The failure of a role whose query the grammar refuses, with the
/// grammar's error text `e`.
pub open spec fn query_error(marker: Seq<char>, e: Seq<char>) -> Seq<char> {
    marker + " query invalid: "@ + e
}

/// Some pattern of a role is a query (rather than an identity matcher).
pub open spec fn has_query(patterns: Seq<TaintPattern>) -> bool {
    exists|i: int| 0 <= i < patterns.len() && (#[trigger] patterns[i]).query is Some
}

/// Compile the query patterns of one role: a marker query and a compiled
/// query for each; the first that does not compile fails the role, so a
/// role without queries always compiles.
fn compile_queries(patterns: &Vec<TaintPattern>, marker: &str, def: &LanguageDef) -> (r: Result<(Vec<TaintQuery>, Vec<CompiledTaintQuery>), String>)
    ensures
        r matches Ok((plain, compiled)) ==> marker_views(plain@) == query_markers(patterns@, marker@)
            && compiled@.len() == plain@.len() && taint_sources(compiled@) == query_texts(patterns@),
        !has_query(patterns@) ==> r is Ok,
        r matches Err(m) ==> has_query(patterns@) && exists|e: Seq<char>| m@ == #[trigger] query_error(marker@, e),
{
    let mut plain: Vec<TaintQuery> = Vec::new();
    let mut out: Vec<CompiledTaintQuery> = Vec::new();
    let n = patterns.len();
    for i in 0..n
        invariant
            n == patterns@.len(),
            marker_views(plain@) == query_markers(patterns@.take(i as int), marker@),
            out@.len() == plain@.len(),
            taint_sources(out@) == query_texts(patterns@.take(i as int)),
    {
        assert(patterns@.take(i + 1).drop_last() =~= patterns@.take(i as int));
        assert(patterns@.take(i + 1).last() == patterns@[i as int]);
        match &patterns[i].query {
            Some(q) => {
                match query_new(def, q.as_str()) {
                    Ok(sq) => {
                        let SourcedQuery { query, source } = sq;
                        let names = query_capture_names(&query);
                        let capture_index = capture_index_of(&names, marker);
                        let ghost before_src = taint_sources(out@);
                        let ghost qsrc = source@;
                        out.push(CompiledTaintQuery { query, source, capture_index, label: patterns[i].label.clone() });
                        assert(taint_sources(out@) =~= before_src.push(qsrc));
                        let ghost before = marker_views(plain@);
                        let label = match &patterns[i].label { Some(l) => Some(l.clone()), None => None };
                        plain.push(TaintQuery { marker: marker.to_owned(), label });
                        assert(marker_views(plain@) =~= before.push((marker@, opt_view(patterns@[i as int].label))));
                    }
                    Err(e) => {
                        let mut m = marker.to_owned();
                        m.append(" query invalid: ");
                        m.append(e.as_str());
                        assert(m@ =~= query_error(marker@, e@));
                        assert(patterns@[i as int].query is Some);
                        return Err(m);
                    }
                }
            }
            None => {}
        }
    }
    assert(patterns@.take(n as int) =~= patterns@);
    Ok((plain, out))
}

/// The identity matchers of a taint role, each with its pattern's label.
pub open spec fn resolved_of(patterns: Seq<TaintPattern>) -> Seq<(crate::model::ResolvedMatcher, Option<String>)>
    decreases patterns.len(),
{
    if patterns.len() == 0 {
        Seq::empty()
    } else {
        let rest = resolved_of(patterns.drop_last());
        match patterns.last().resolved {
            Some(r) => rest.push((r, patterns.last().label)),
            None => rest,
        }
    }
}

fn opt_copy(s: &Option<String>) -> (r: Option<String>)
    ensures
        opt_view(r) == opt_view(*s),
{
    match s {
        Some(x) => Some(x.clone()),
        None => None,
    }
}

fn compile_resolved(patterns: &Vec<TaintPattern>) -> (r: Vec<CompiledResolvedMatcher>)
    ensures
        views(r@) == matcher_views(patterns@),
{
    let mut out: Vec<CompiledResolvedMatcher> = Vec::new();
    let n = patterns.len();
    for i in 0..n
        invariant
            n == patterns@.len(),
            views(out@) == matcher_views(patterns@.take(i as int)),
    {
        assert(patterns@.take(i + 1).drop_last() =~= patterns@.take(i as int));
        let ghost prev = resolved_of(patterns@.take(i as int));
        let ghost before = views(out@);
        match &patterns[i].resolved {
            Some(r) => {
                let m = CompiledResolvedMatcher {
                    module: opt_copy(&r.module),
                    member_of: opt_copy(&r.member_of),
                    name: opt_copy(&r.name),
                    path: copy_strings(&r.path),
                    arg_index: r.arg_index,
                    match_unresolved: r.match_unresolved,
                    label: opt_copy(&patterns[i].label),
                };
                let ghost mv = m@;
                out.push(m);
                assert(views(out@) =~= before.push(mv));
                assert(resolved_of(patterns@.take(i + 1)) == prev.push((*r, patterns@[i as int].label)));
                assert(views(out@) =~= matcher_views(patterns@.take(i + 1)));
            }
            None => {
                assert(resolved_of(patterns@.take(i + 1)) == prev);
                assert(views(out@) =~= matcher_views(patterns@.take(i + 1)));
            }
        }
    }
    assert(patterns@.take(n as int) =~= patterns@);
    out
}

/// A failure message of a taint rule: a refused query of one of its roles
/// that has queries, with the grammar's error text.
pub open spec fn taint_failure_text(r: RuleSpec, m: Seq<char>) -> bool {
    exists|e: Seq<char>|
        #![trigger query_error("source"@, e)] #![trigger query_error("sink"@, e)] #![trigger query_error("sanitizer"@, e)] {
        ||| (has_query(r.sources@) && m == query_error("source"@, e))
        ||| (has_query(r.sinks@) && m == query_error("sink"@, e))
        ||| (has_query(r.sanitizers@) && m == query_error("sanitizer"@, e))
    }
}

/// Compile a taint rule for a language: its queries of every role (the
/// first that does not compile fails the rule) and its identity matchers.
fn compile_taint(rule: &Arc<RuleSpec>, def: &LanguageDef) -> (r: Result<(TaintRule, TaintQuerySet), String>)
    ensures
        r matches Ok(t) ==> t.0.rule == *rule && taint_fits(t.0, t.1, **rule),
        !has_query(rule.sources@) && !has_query(rule.sinks@) && !has_query(rule.sanitizers@) ==> r is Ok,
        r matches Err(m) ==> taint_failure_text(**rule, m@),
{
    let (ps, sources) = match compile_queries(&rule.sources, "source", def) {
        Ok(v) => v,
        Err(e) => {
            proof {
                let w = choose|w: Seq<char>| e@ == #[trigger] query_error("source"@, w);
                assert(e@ == query_error("source"@, w));
            }
            return Err(e);
        }
    };
    let (pk, sinks) = match compile_queries(&rule.sinks, "sink", def) {
        Ok(v) => v,
        Err(e) => {
            proof {
                let w = choose|w: Seq<char>| e@ == #[trigger] query_error("sink"@, w);
                assert(e@ == query_error("sink"@, w));
            }
            return Err(e);
        }
    };
    let (pz, sanitizers) = match compile_queries(&rule.sanitizers, "sanitizer", def) {
        Ok(v) => v,
        Err(e) => {
            proof {
                let w = choose|w: Seq<char>| e@ == #[trigger] query_error("sanitizer"@, w);
                assert(e@ == query_error("sanitizer"@, w));
            }
            return Err(e);
        }
    };
    let t = TaintRule {
        rule: share(rule),
        sources: ps,
        sinks: pk,
        sanitizers: pz,
        resolved_sources: compile_resolved(&rule.sources),
        resolved_sinks: compile_resolved(&rule.sinks),
        resolved_sanitizers: compile_resolved(&rule.sanitizers),
    };
    Ok((t, TaintQuerySet { sources, sinks, sanitizers }))
}

fn compile_filters(rule: &RuleSpec) -> (r: Vec<CompiledFilter>)
    ensures
        r@.len() == rule.filters@.len(),
        forall|i: int| 0 <= i < r@.len() ==> filter_of(#[trigger] r@[i], rule.filters@[i]),
{
    let mut out: Vec<CompiledFilter> = Vec::new();
    let n = rule.filters.len();
    for i in 0..n
        invariant
            n == rule.filters@.len(),
            out@.len() == i,
            forall|k: int| 0 <= k < i ==> filter_of(#[trigger] out@[k], rule.filters@[k]),
    {
        out.push(CompiledFilter::compile(&rule.filters[i]));
    }
    out
}

/// The query text of a pattern rule (empty where it has none).
pub open spec fn pattern_text(r: RuleSpec) -> Seq<char> {
    match r.query {
        Some(q) => q@,
        None => Seq::empty(),
    }
}

/// A pattern rule is kept for `lang` when it lists the language and the
/// verdict on its query is that it compiled.
pub open spec fn keeps_pattern(r: RuleSpec, lang: Seq<char>, v: Option<Seq<char>>) -> bool {
    applies(r, lang) && r.kind == RuleKind::Pattern && v is None
}

/// A taint rule is kept for `lang` when it lists the language, the
/// language has a taint profile, and the rule compiled.
pub open spec fn keeps_taint(r: RuleSpec, lang: Seq<char>, has_profile: bool, v: Option<Seq<char>>) -> bool {
    applies(r, lang) && r.kind == RuleKind::Taint && has_profile && v is None
}

/// The pattern rules kept for `lang` among the first `rv.len()` rules,
/// `rv[i]` being the recorded outcome of compiling rule `i`.
pub open spec fn kept_patterns(rules: Seq<RuleSpec>, lang: Seq<char>, rv: Verdicts) -> Seq<RuleSpec>
    decreases rv.len(),
{
    if rv.len() == 0 {
        Seq::empty()
    } else {
        let i = rv.len() - 1;
        let rest = kept_patterns(rules, lang, rv.drop_last());
        if keeps_pattern(rules[i], lang, rv[i]) { rest.push(rules[i]) } else { rest }
    }
}

/// The taint rules kept for `lang` among the first `rv.len()` rules.
pub open spec fn kept_taints(rules: Seq<RuleSpec>, lang: Seq<char>, has_profile: bool, rv: Verdicts) -> Seq<RuleSpec>
    decreases rv.len(),
{
    if rv.len() == 0 {
        Seq::empty()
    } else {
        let i = rv.len() - 1;
        let rest = kept_taints(rules, lang, has_profile, rv.drop_last());
        if keeps_taint(rules[i], lang, has_profile, rv[i]) { rest.push(rules[i]) } else { rest }
    }
}

/// The warning a rule that lists `lang` gets when it is not kept, given
/// the recorded outcome `v` of compiling it.
pub open spec fn rule_warning(r: RuleSpec, lang: Seq<char>, has_profile: bool, v: Option<Seq<char>>) -> Option<Seq<char>> {
    if !applies(r, lang) {
        None
    } else {
        match r.kind {
            RuleKind::Pattern => match v {
                Some(e) => Some("rule `"@ + r.id@ + "` query does not compile for `"@ + lang + "`: "@ + e),
                None => None,
            },
            RuleKind::Taint => if !has_profile {
                Some("taint rule `"@ + r.id@ + "` skipped for `"@ + lang + "`: language has no taint profile"@)
            } else {
                match v {
                    Some(e) => Some("taint rule `"@ + r.id@ + "` skipped for `"@ + lang + "`: "@ + e),
                    None => None,
                }
            },
        }
    }
}

/// The warnings of compiling the first `rv.len()` rules for `lang`, in
/// rule order.
pub open spec fn rule_warnings(rules: Seq<RuleSpec>, lang: Seq<char>, has_profile: bool, rv: Verdicts) -> Seq<Seq<char>>
    decreases rv.len(),
{
    if rv.len() == 0 {
        Seq::empty()
    } else {
        let i = rv.len() - 1;
        let rest = rule_warnings(rules, lang, has_profile, rv.drop_last());
        match rule_warning(rules[i], lang, has_profile, rv[i]) {
            Some(w) => rest.push(w),
            None => rest,
        }
    }
}

/// What is recorded of compiling one language: the verdicts on its
/// profile's queries, and the outcome of compiling each rule.
pub type LanguageRecord = (Seq<Verdicts>, Verdicts);

/// The record fits the language and the rules: one outcome per rule; a
/// taint rule that was tried failed only with the refusal of one of its
/// queries, and one without queries compiled.
pub open spec fn record_fits(def: LanguageDef, rules: Seq<RuleSpec>, rec: LanguageRecord) -> bool {
    &&& rec.1.len() == rules.len()
    &&& (def.taint_profile matches Some(p) ==> profile_record_fits(p, rec.0))
    &&& forall|i: int| 0 <= i < rules.len() && applies(#[trigger] rules[i], def.id@) && rules[i].kind == RuleKind::Taint
            && def.taint_profile is Some ==> {
        &&& (rec.1[i] matches Some(t) ==> taint_failure_text(rules[i], t))
        &&& (!has_query(rules[i].sources@) && !has_query(rules[i].sinks@) && !has_query(rules[i].sanitizers@) ==> rec.1[i] is None)
    }
}

/// The warnings of compiling one language: its profile's, then its rules'.
pub open spec fn language_warnings(def: LanguageDef, rules: Seq<RuleSpec>, rec: LanguageRecord) -> Seq<Seq<char>> {
    let pw = match def.taint_profile {
        Some(_) => profile_warnings(rec.0, def.id@),
        None => Seq::empty(),
    };
    pw + rule_warnings(rules, def.id@, def.taint_profile is Some, rec.1)
}

/// The warnings of compiling the first `k` languages, in order.
pub open spec fn languages_warnings(defs: Seq<LanguageDef>, rules: Seq<RuleSpec>, recs: Seq<LanguageRecord>, k: int) -> Seq<Seq<char>>
    decreases k,
{
    if k <= 0 { Seq::empty() } else { languages_warnings(defs, rules, recs, k - 1) + language_warnings(defs[k - 1], rules, recs[k - 1]) }
}

/// The rules of a loaded rule list, in id order.
pub open spec fn rule_specs(rules: Seq<(String, RuleSpec)>) -> Seq<RuleSpec> {
    rules.map_values(|e: (String, RuleSpec)| e.1)
}

pub open spec fn arc_specs(rules: Seq<Arc<RuleSpec>>) -> Seq<RuleSpec> {
    rules.map_values(|a: Arc<RuleSpec>| *a)
}

pub open spec fn pattern_rules(ps: Seq<CompiledPattern>) -> Seq<RuleSpec> {
    ps.map_values(|p: CompiledPattern| *p.rule)
}

pub open spec fn taint_rules(ts: Seq<TaintRule>) -> Seq<RuleSpec> {
    ts.map_values(|t: TaintRule| *t.rule)
}

/// What is compiled for a language, given the record of compiling it:
/// exactly the kept pattern rules and the kept taint rules, in rule order,
/// each with its compiled form and each one of the given rules, and of the
/// profile the queries that compiled.
pub open spec fn language_fits(lr: LanguageRules, def: LanguageDef, rules: Seq<(String, RuleSpec)>, rec: LanguageRecord) -> bool {
    let lang = def.id@;
    &&& lr.lang_id@ == lang
    &&& (lr.profile is Some <==> def.taint_profile is Some)
    &&& record_fits(def, rule_specs(rules), rec)
    &&& (lr.profile matches Some(cp) ==> def.taint_profile matches Some(p) && profile_kept(cp, p, rec.0))
    &&& lr.patterns@.len() == lr.pattern_queries@.len()
    &&& lr.taints@.len() == lr.taint_queries@.len()
    &&& pattern_rules(lr.patterns@) == kept_patterns(rule_specs(rules), lang, rec.1)
    &&& taint_rules(lr.taints@) == kept_taints(rule_specs(rules), lang, lr.profile is Some, rec.1)
    &&& forall|k: int| 0 <= k < lr.patterns@.len() ==> {
        let r = *(#[trigger] lr.patterns@[k]).rule;
        &&& applies(r, lang) && r.kind == RuleKind::Pattern
        &&& crate::rules::value_at(rules, r.id@) == Some(r)
        &&& pattern_fits(lr.patterns@[k], r)
        &&& lr.pattern_queries@[k].source@ == pattern_text(r)
    }
    &&& forall|k: int| 0 <= k < lr.taints@.len() ==> {
        let r = *(#[trigger] lr.taints@[k]).rule;
        &&& applies(r, lang) && r.kind == RuleKind::Taint
        &&& crate::rules::value_at(rules, r.id@) == Some(r)
        &&& lr.profile is Some
        &&& taint_fits(lr.taints@[k], lr.taint_queries@[k], r)
    }
}

/// Compile the rules that apply to one language: its profile first, then
/// each rule in order, kept or reported, recording each outcome.
fn compile_language(def: &LanguageDef, rules: &Vec<Arc<RuleSpec>>, warnings: &mut Vec<String>, Ghost(loaded): Ghost<Seq<(String, RuleSpec)>>) -> (r: (LanguageRules, Ghost<LanguageRecord>))
    requires
        forall|j: int| 0 <= j < rules@.len() ==> crate::rules::value_at(loaded, (#[trigger] rules@[j]).id@) == Some(*rules@[j]),
        arc_specs(rules@) == rule_specs(loaded),
    ensures
        language_fits(r.0, *def, loaded, r.1@),
        final(warnings)@.len() >= old(warnings)@.len(),
        final(warnings)@.take(old(warnings)@.len() as int) == old(warnings)@,
        strings_view(final(warnings)@) == strings_view(old(warnings)@) + language_warnings(*def, rule_specs(loaded), r.1@),
{
    let ghost w0 = warnings@;
    let ghost specs = rule_specs(loaded);
    let ghost lang = def.id@;
    let ghost hp = def.taint_profile is Some;
    let ghost mut pv: Seq<Verdicts> = Seq::empty();
    let profile = match &def.taint_profile {
        Some(spec) => {
            let (cp, Ghost(v)) = compile_profile(spec, def, warnings);
            proof { pv = v; }
            Some(cp)
        },
        None => None,
    };
    let ghost wp = warnings@;
    assert(strings_view(wp) == strings_view(w0) + match def.taint_profile {
        Some(_) => profile_warnings(pv, def.id@),
        None => Seq::<Seq<char>>::empty(),
    }) by {
        if def.taint_profile is None { assert(strings_view(wp) =~= strings_view(w0) + Seq::<Seq<char>>::empty()); }
    }
    let ghost mut rv: Verdicts = Seq::empty();
    let mut patterns: Vec<CompiledPattern> = Vec::new();
    let mut pattern_queries: Vec<SourcedQuery> = Vec::new();
    let mut taints: Vec<TaintRule> = Vec::new();
    let mut taint_queries: Vec<TaintQuerySet> = Vec::new();
    let n = rules.len();
    assert(specs.len() == n) by { assert(arc_specs(rules@).len() == rules@.len()); }
    for i in 0..n
        invariant
            n == rules@.len(),
            n == specs.len(),
            specs == rule_specs(loaded),
            arc_specs(rules@) == specs,
            lang == def.id@,
            hp == (def.taint_profile is Some),
            profile is Some <==> def.taint_profile is Some,
            def.taint_profile matches Some(p) ==> profile_record_fits(p, pv),
            profile matches Some(cp) ==> def.taint_profile matches Some(p) && profile_kept(cp, p, pv),
            rv.len() == i,
            forall|q: int| 0 <= q < i && applies(#[trigger] specs[q], lang) && specs[q].kind == RuleKind::Taint && hp ==> {
                &&& (rv[q] matches Some(t) ==> taint_failure_text(specs[q], t))
                &&& (!has_query(specs[q].sources@) && !has_query(specs[q].sinks@) && !has_query(specs[q].sanitizers@) ==> rv[q] is None)
            },
            warnings@.len() >= wp.len(),
            warnings@.take(wp.len() as int) == wp,
            wp.len() >= w0.len(),
            wp.take(w0.len() as int) == w0,
            w0 == old(warnings)@,
            strings_view(warnings@) == strings_view(wp) + rule_warnings(specs, lang, hp, rv),
            forall|j: int| 0 <= j < rules@.len() ==> crate::rules::value_at(loaded, (#[trigger] rules@[j]).id@) == Some(*rules@[j]),
            patterns@.len() == pattern_queries@.len(),
            taints@.len() == taint_queries@.len(),
            pattern_rules(patterns@) == kept_patterns(specs, lang, rv),
            taint_rules(taints@) == kept_taints(specs, lang, hp, rv),
            forall|k: int| 0 <= k < patterns@.len() ==> {
                let r = *(#[trigger] patterns@[k]).rule;
                &&& applies(r, def.id@) && r.kind == RuleKind::Pattern
                &&& crate::rules::value_at(loaded, r.id@) == Some(r)
                &&& pattern_fits(patterns@[k], r)
                &&& pattern_queries@[k].source@ == pattern_text(r)
            },
            forall|k: int| 0 <= k < taints@.len() ==> {
                let r = *(#[trigger] taints@[k]).rule;
                &&& applies(r, def.id@) && r.kind == RuleKind::Taint
                &&& crate::rules::value_at(loaded, r.id@) == Some(r)
                &&& profile is Some
                &&& taint_fits(taints@[k], taint_queries@[k], r)
            },
    {
        let rule = &rules[i];
        let ghost wb = warnings@;
        let ghost pb = pattern_rules(patterns@);
        let ghost tb = taint_rules(taints@);
        let ghost rb = rv;
        proof {
            assert(specs[i as int] == arc_specs(rules@)[i as int]);
        }
        let ghost r = specs[i as int];
        let mut outcome: Option<String> = None;
        if rule_applies(rule, def.id.as_str()) {
        match rule.kind {
            RuleKind::Pattern => {
                let text: &str = match &rule.query { Some(q) => q.as_str(), None => "" };
                proof {
                    reveal_strlit("");
                    assert(text@ =~= pattern_text(r));
                }
                match query_new(def, text) {
                    Ok(query) => {
                        let names = query_capture_names(&query.query);
                        let p = CompiledPattern { rule: share(rule), capture_names: names, filters: compile_filters(rule) };
                        patterns.push(p);
                        pattern_queries.push(query);
                        assert(rules@[i as int] == patterns@.last().rule);
                    }
                    Err(e) => {
                        let mut m = "rule `".to_owned();
                        m.append(rule.id.as_str());
                        m.append("` query does not compile for `");
                        m.append(def.id.as_str());
                        m.append("`: ");
                        m.append(e.as_str());
                        assert(rule_warning(r, lang, hp, Some(e@)) == Some(m@));
                        warnings.push(m);
                        outcome = Some(e);
                    }
                }
            }
            RuleKind::Taint => {
                if profile.is_none() {
                    let mut m = "taint rule `".to_owned();
                    m.append(rule.id.as_str());
                    m.append("` skipped for `");
                    m.append(def.id.as_str());
                    m.append("`: language has no taint profile");
                    assert(rule_warning(r, lang, hp, None) == Some(m@));
                    warnings.push(m);
                } else {
                    match compile_taint(rule, def) {
                        Ok((t, q)) => {
                            taints.push(t);
                            taint_queries.push(q);
                            assert(rules@[i as int] == taints@.last().rule);
                        }
                        Err(e) => {
                            let mut m = "taint rule `".to_owned();
                            m.append(rule.id.as_str());
                            m.append("` skipped for `");
                            m.append(def.id.as_str());
                            m.append("`: ");
                            m.append(e.as_str());
                            assert(rule_warning(r, lang, hp, Some(e@)) == Some(m@));
                            warnings.push(m);
                            outcome = Some(e);
                        }
                    }
                }
            }
        }
        }
        proof {
            rv = rv.push(match outcome { Some(e) => Some(e@), None => None });
            assert(rv.drop_last() =~= rb);
            assert(rv[i as int] == (match outcome { Some(e) => Some(e@), None => None }));
            if patterns@.len() > pb.len() {
                assert(pattern_rules(patterns@) =~= pb.push(r));
            } else {
                assert(pattern_rules(patterns@) =~= pb);
            }
            if taints@.len() > tb.len() {
                assert(taint_rules(taints@) =~= tb.push(r));
            } else {
                assert(taint_rules(taints@) =~= tb);
            }
            if warnings@.len() > wb.len() {
                assert(strings_view(warnings@) =~= strings_view(wb).push(warnings@.last()@));
            } else {
                assert(strings_view(warnings@) =~= strings_view(wb));
            }
            assert(warnings@.take(wp.len() as int) =~= wp) by {
                assert(wb.take(wp.len() as int) == wp);
            }
        }
    }
    assert(warnings@.take(w0.len() as int) =~= w0) by {
        assert(warnings@.take(wp.len() as int) == wp);
    }
    let ghost rec: LanguageRecord = (pv, rv);
    assert(strings_view(warnings@) =~= strings_view(w0) + language_warnings(*def, specs, rec));
    (LanguageRules { lang_id: def.id.clone(), patterns, pattern_queries, taints, taint_queries, profile }, Ghost(rec))
}

/// The rule ids that compiled somewhere, gathered from the first `k`
/// languages.
pub open spec fn live_in(langs: Seq<LanguageRules>, id: Seq<char>) -> bool {
    exists|i: int, k: int| #![trigger langs[i].patterns@[k]] #![trigger langs[i].taints@[k]] 0 <= i < langs.len() && (
        (0 <= k < langs[i].patterns@.len() && langs[i].patterns@[k].rule.id@ == id)
        || (0 <= k < langs[i].taints@.len() && langs[i].taints@[k].rule.id@ == id))
}

fn is_live(langs: &Vec<LanguageRules>, id: &str) -> (r: bool)
    ensures
        r == live_in(langs@, id@),
{
    let n = langs.len();
    for i in 0..n
        invariant
            n == langs@.len(),
            forall|a: int, k: int| #![trigger langs@[a].patterns@[k]] #![trigger langs@[a].taints@[k]] 0 <= a < i ==> !((0 <= k < langs@[a].patterns@.len() && langs@[a].patterns@[k].rule.id@ == id@)
                || (0 <= k < langs@[a].taints@.len() && langs@[a].taints@[k].rule.id@ == id@)),
    {
        let l = &langs[i];
        let np = l.patterns.len();
        for k in 0..np
            invariant
                np == l.patterns@.len(),
                i < langs@.len(),
                *l == langs@[i as int],
                forall|q: int| 0 <= q < k ==> (#[trigger] l.patterns@[q]).rule.id@ != id@,
        {
            if str_is(l.patterns[k].rule.id.as_str(), id) {
                assert(langs@[i as int].patterns@[k as int].rule.id@ == id@);
                return true;
            }
        }
        let nt = l.taints.len();
        for k in 0..nt
            invariant
                nt == l.taints@.len(),
                i < langs@.len(),
                *l == langs@[i as int],
                forall|q: int| 0 <= q < k ==> (#[trigger] l.taints@[q]).rule.id@ != id@,
        {
            if str_is(l.taints[k].rule.id.as_str(), id) {
                assert(langs@[i as int].taints@[k as int].rule.id@ == id@);
                return true;
            }
        }
    }
    false
}

proof fn lemma_languages_warnings_prefix(defs: Seq<LanguageDef>, rules: Seq<RuleSpec>, a: Seq<LanguageRecord>, b: Seq<LanguageRecord>, k: int)
    requires
        k <= a.len(),
        forall|q: int| 0 <= q < k ==> #[trigger] a[q] == b[q],
    ensures
        languages_warnings(defs, rules, b, k) == languages_warnings(defs, rules, a, k),
    decreases k,
{
    if k > 0 {
        lemma_languages_warnings_prefix(defs, rules, a, b, k - 1);
        assert(a[k - 1] == b[k - 1]);
    }
}

impl CompiledRuleSet {
    /// Compile loaded rules for every registered language. `rule_docs`
    /// holds each loaded rule serialized (in id order) and
    /// `profile_docs` each language's serialized taint profile (in
    /// registration order); both feed the rules hash.
    pub fn compile(loaded: LoadedRules, registry: &Registry, rule_docs: &Vec<Vec<u8>>, profile_docs: &Vec<Option<Vec<u8>>>) -> (r: CompiledRuleSet)
        requires
            loaded.wf(),
            registry.wf(),
            rule_docs@.len() == loaded.rules@.len(),
            profile_docs@.len() == registry.languages().len(),
        ensures
            r.rules_hash@ == blake3_hex(rules_hash_input(keys_of(loaded.rules@), bytes_view(rule_docs@),
                lang_ids(registry.languages()), opt_bytes_view(profile_docs@))),
            r.warnings@.len() >= loaded.warnings@.len(),
            r.warnings@.take(loaded.warnings@.len() as int) == loaded.warnings@,
            r.by_language@.len() == registry.languages().len(),
            forall|i: int| 0 <= i < r.by_language@.len() ==> (#[trigger] r.by_language@[i]).wf(),
            exists|recs: Seq<LanguageRecord>| {
                &&& recs.len() == registry.languages().len()
                &&& strings_view(r.warnings@) == strings_view(loaded.warnings@)
                    + #[trigger] languages_warnings(registry.languages(), rule_specs(loaded.rules@), recs, registry.languages().len() as int)
                &&& forall|i: int| 0 <= i < r.by_language@.len() ==>
                    language_fits(#[trigger] r.by_language@[i], registry.languages()[i], loaded.rules@, recs[i])
            },
            strictly_sorted(r.rules@.map_values(|a: Arc<RuleSpec>| a.id@)),
            forall|i: int| 0 <= i < r.rules@.len() ==> live_in(r.by_language@, (#[trigger] r.rules@[i]).id@),
            forall|id: Seq<char>| live_in(r.by_language@, id) ==> r.rules@.map_values(|a: Arc<RuleSpec>| a.id@).contains(id),
            forall|i: int| 0 <= i < r.rules@.len() ==>
                crate::rules::value_at(loaded.rules@, (#[trigger] r.rules@[i]).id@) == Some(*r.rules@[i]),
    {
        let ghost lr = loaded.rules@;
        let LoadedRules { rules: loaded_rules, warnings: loaded_warnings } = loaded;
        let mut warnings = loaded_warnings;
        let ghost w0 = warnings@;
        // The rules as shared values, in id order, and their ids.
        let mut ids: Vec<String> = Vec::new();
        let mut arcs: Vec<Arc<RuleSpec>> = Vec::new();
        let mut rest = loaded_rules;
        let n = rest.len();
        let mut rev: Vec<(String, RuleSpec)> = Vec::new();
        let mut k = n;
        while k > 0
            invariant
                k <= n,
                n == lr.len(),
                rest@ == lr.take(k as int),
                rev@.len() == n - k,
                forall|j: int| 0 <= j < rev@.len() ==> #[trigger] rev@[j] == lr[n - 1 - j],
            decreases k,
        {
            let e = rest.pop().unwrap();
            assert(lr.take(k as int).last() == lr[k - 1]);
            rev.push(e);
            assert(lr.take(k as int).drop_last() =~= lr.take(k - 1));
            k -= 1;
        }
        for i in 0..n
            invariant
                n == lr.len(),
                rev@.len() == n - i,
                forall|j: int| 0 <= j < rev@.len() ==> #[trigger] rev@[j] == lr[n - 1 - j],
                strings_view(ids@) == keys_of(lr).take(i as int),
                arcs@.len() == i,
                forall|j: int| 0 <= j < i ==> *(#[trigger] arcs@[j]) == lr[j].1,
                strictly_sorted(keys_of(lr)),
                forall|j: int| 0 <= j < n ==> (#[trigger] lr[j]).1.id@ == lr[j].0@,
                forall|j: int| 0 <= j < i ==> crate::rules::value_at(lr, (#[trigger] arcs@[j]).id@) == Some(*arcs@[j]),
        {
            let (id, rule) = rev.pop().unwrap();
            assert((id, rule) == lr[i as int]);
            let ghost before = strings_view(ids@);
            ids.push(id);
            assert(strings_view(ids@) =~= before.push(lr[i as int].0@));
            assert(keys_of(lr).take(i + 1) =~= keys_of(lr).take(i as int).push(lr[i as int].0@));
            arcs.push(Arc::new(rule));
            proof {
                crate::rules::lemma_key_index(lr, lr[i as int].0@, i as int);
            }
        }
        assert(keys_of(lr).take(n as int) =~= keys_of(lr));
        assert(arc_specs(arcs@) =~= rule_specs(lr));
        let mut lang_list: Vec<String> = Vec::new();
        let defs = registry.all();
        let m = defs.len();
        let mut by_language: Vec<LanguageRules> = Vec::new();
        let ghost mut recs: Seq<LanguageRecord> = Seq::empty();
        for j in 0..m
            invariant
                m == defs@.len(),
                defs@ == registry.languages(),
                forall|q: int| 0 <= q < n ==> crate::rules::value_at(lr, (#[trigger] arcs@[q]).id@) == Some(*arcs@[q]),
                arcs@.len() == n,
                strings_view(lang_list@) == lang_ids(registry.languages()).take(j as int),
                by_language@.len() == j,
                recs.len() == j,
                forall|q: int| 0 <= q < j ==> language_fits(#[trigger] by_language@[q], registry.languages()[q], lr, recs[q]),
                warnings@.len() >= w0.len(),
                warnings@.take(w0.len() as int) == w0,
                arc_specs(arcs@) == rule_specs(lr),
                strings_view(warnings@) == strings_view(w0) + languages_warnings(registry.languages(), rule_specs(lr), recs, j as int),
        {
            let def = &defs[j];
            let ghost before = strings_view(lang_list@);
            lang_list.push(def.id.clone());
            assert(strings_view(lang_list@) =~= before.push(def.id@));
            assert(lang_ids(registry.languages()).take(j + 1) =~= lang_ids(registry.languages()).take(j as int).push(def.id@));
            let ghost wb = warnings@;
            let ghost rb = recs;
            let (lrules, Ghost(rec)) = compile_language(def, &arcs, &mut warnings, Ghost(lr));
            by_language.push(lrules);
            proof { recs = recs.push(rec); }
            proof { lemma_languages_warnings_prefix(registry.languages(), rule_specs(lr), rb, recs, j as int); }
            assert(languages_warnings(registry.languages(), rule_specs(lr), recs, j as int) == languages_warnings(registry.languages(), rule_specs(lr), rb, j as int));
            assert(warnings@.take(w0.len() as int) =~= w0) by {
                assert(warnings@.take(wb.len() as int) == wb);
                assert(wb.take(w0.len() as int) == w0);
            }
            assert(strings_view(warnings@) =~= strings_view(w0) + languages_warnings(registry.languages(), rule_specs(lr), recs, j + 1));
        }
        assert(lang_ids(registry.languages()).take(m as int) =~= lang_ids(registry.languages()));
        let rules_hash = rules_hash(&ids, rule_docs, &lang_list, profile_docs);
        // Keep the rules that compiled for some language, in id order.
        let mut kept: Vec<Arc<RuleSpec>> = Vec::new();
        let ghost keys = keys_of(lr);
        let ghost mut idx: Seq<int> = Seq::empty();
        for i in 0..n
            invariant
                n == arcs@.len(),
                n == lr.len(),
                keys == keys_of(lr),
                strictly_sorted(keys),
                forall|j: int| 0 <= j < n ==> (#[trigger] lr[j]).1.id@ == lr[j].0@,
                forall|j: int| 0 <= j < n ==> *(#[trigger] arcs@[j]) == lr[j].1,
                forall|q: int| 0 <= q < n ==> crate::rules::value_at(lr, (#[trigger] arcs@[q]).id@) == Some(*arcs@[q]),
                idx.len() == kept@.len(),
                forall|j: int| 0 <= j < idx.len() ==> 0 <= #[trigger] idx[j] < i && kept@[j] == arcs@[idx[j]],
                forall|a: int, b: int| 0 <= a < b < idx.len() ==> #[trigger] idx[a] < #[trigger] idx[b],
                forall|j: int| 0 <= j < kept@.len() ==> live_in(by_language@, (#[trigger] kept@[j]).id@),
                forall|p: int| 0 <= p < i && live_in(by_language@, (#[trigger] arcs@[p]).id@)
                    ==> exists|j: int| 0 <= j < idx.len() && #[trigger] idx[j] == p,
        {
            let ghost old_idx = idx;
            if is_live(&by_language, arcs[i].id.as_str()) {
                kept.push(share(&arcs[i]));
                proof { idx = idx.push(i as int); }
                assert(idx[idx.len() - 1] == i);
                assert forall|p: int| 0 <= p < i + 1 && live_in(by_language@, (#[trigger] arcs@[p]).id@)
                    implies exists|j: int| 0 <= j < idx.len() && #[trigger] idx[j] == p by {
                    if p < i {
                        let j = choose|j: int| 0 <= j < old_idx.len() && #[trigger] old_idx[j] == p;
                        assert(idx[j] == old_idx[j]);
                    } else {
                        assert(idx[idx.len() - 1] == p);
                    }
                }
            }
        }
        proof {
            let kv = kept@.map_values(|a: Arc<RuleSpec>| a.id@);
            assert forall|j: int| 0 <= j < kv.len() implies #[trigger] kv[j] == keys[idx[j]] by {
                assert(kept@[j] == arcs@[idx[j]]);
            }
            assert forall|a: int, b: int| 0 <= a < b < kv.len() implies text_lt(#[trigger] kv[a], #[trigger] kv[b]) by {
                assert(kv[a] == keys[idx[a]]);
                assert(kv[b] == keys[idx[b]]);
                assert(idx[a] < idx[b]);
            }
            assert forall|id: Seq<char>| live_in(by_language@, id) implies kv.contains(id) by {
                let (i, k) = choose|i: int, k: int| #![trigger by_language@[i].patterns@[k]] #![trigger by_language@[i].taints@[k]] 0 <= i < by_language@.len() && (
                    (0 <= k < by_language@[i].patterns@.len() && by_language@[i].patterns@[k].rule.id@ == id)
                    || (0 <= k < by_language@[i].taints@.len() && by_language@[i].taints@[k].rule.id@ == id));
                let lri = by_language@[i];
                assert(language_fits(lri, registry.languages()[i], lr, recs[i]));
                let a = if 0 <= k < lri.patterns@.len() && lri.patterns@[k].rule.id@ == id { lri.patterns@[k].rule } else { lri.taints@[k].rule };
                assert(crate::rules::value_at(lr, id) == Some(*a));
                crate::rules::lemma_key_index_props(lr, id);
                let p = crate::rules::key_index(lr, id)->0;
                assert(arcs@[p].id@ == id);
                let j = choose|j: int| 0 <= j < idx.len() && #[trigger] idx[j] == p;
                assert(kv[j] == id);
            }
            assert forall|j: int| 0 <= j < kept@.len() implies
                crate::rules::value_at(lr, (#[trigger] kept@[j]).id@) == Some(*kept@[j]) by {
                assert(kept@[j] == arcs@[idx[j]]);
            }
        }
        assert(languages_warnings(registry.languages(), rule_specs(lr), recs, m as int) == languages_warnings(registry.languages(), rule_specs(lr), recs, registry.languages().len() as int));
        assert forall|i: int| 0 <= i < by_language@.len() implies (#[trigger] by_language@[i]).wf() by {
            lemma_fits_wf(by_language@[i], registry.languages()[i], lr, recs[i]);
        }
        CompiledRuleSet { rules: kept, by_language, rules_hash, warnings }
    }

    /// The compiled rules of a language.
    pub fn for_language(&self, id: &str) -> (r: Option<&LanguageRules>)
        ensures
            match r {
                Some(l) => l.lang_id@ == id@ && self.by_language@.contains(*l),
                None => forall|i: int| 0 <= i < self.by_language@.len() ==> (#[trigger] self.by_language@[i]).lang_id@ != id@,
            },
    {
        let n = self.by_language.len();
        for i in 0..n
            invariant
                n == self.by_language@.len(),
                forall|j: int| 0 <= j < i ==> (#[trigger] self.by_language@[j]).lang_id@ != id@,
        {
            if str_is(self.by_language[i].lang_id.as_str(), id) {
                assert(self.by_language@[i as int] == self.by_language[i as int]);
                return Some(&self.by_language[i]);
            }
        }
        None
    }

    /// The rules, in id order, for stable listings.
    pub fn sorted_rules(&self) -> (r: &Vec<Arc<RuleSpec>>)
        ensures
            r@ == self.rules@,
    {
        &self.rules
    }

    /// The highest severity among the rules (none without rules).
    pub fn max_severity(&self) -> (r: Option<crate::findings::Severity>)
        ensures
            match r {
                Some(s) => exists|i: int| 0 <= i < self.rules@.len() && (#[trigger] self.rules@[i]).severity == s
                    && forall|j: int| 0 <= j < self.rules@.len() ==> (#[trigger] self.rules@[j]).severity.level() <= s.level(),
                None => self.rules@.len() == 0,
            },
    {
        let n = self.rules.len();
        if n == 0 {
            return None;
        }
        let mut best = self.rules[0].severity;
        let mut at: usize = 0;
        for i in 1..n
            invariant
                n == self.rules@.len(),
                at < n,
                self.rules@[at as int].severity == best,
                forall|j: int| 0 <= j < i ==> (#[trigger] self.rules@[j]).severity.level() <= best.level(),
        {
            if self.rules[i].severity.rank() > best.rank() {
                best = self.rules[i].severity;
                at = i;
            }
        }
        Some(best)
    }
}

} // verus!
