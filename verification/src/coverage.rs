//! Taxonomy coverage: which classes of the OWASP Top 10 (2021) and the
//! MITRE CWE Top 25 (2023) the rules carry a tag for, per language and
//! over the whole rule set.
//!
//! This measures taxonomy completeness (a rule exists per class), not
//! recall against a labelled corpus.

use vstd::prelude::*;
use std::sync::Arc;
use crate::model::RuleSpec;
use crate::paths::strings_view;
use crate::scanner::contains_str;
use crate::sorting::{insert_sorted_unique, pairs_view, strictly_sorted};

verus! {

/// The OWASP Top 10 (2021): id and name.
pub open spec fn owasp_checklist() -> Seq<(Seq<char>, Seq<char>)> {
    seq![
        ("A01:2021"@, "Broken Access Control"@),
        ("A02:2021"@, "Cryptographic Failures"@),
        ("A03:2021"@, "Injection"@),
        ("A04:2021"@, "Insecure Design"@),
        ("A05:2021"@, "Security Misconfiguration"@),
        ("A06:2021"@, "Vulnerable and Outdated Components"@),
        ("A07:2021"@, "Identification and Authentication Failures"@),
        ("A08:2021"@, "Software and Data Integrity Failures"@),
        ("A09:2021"@, "Security Logging and Monitoring Failures"@),
        ("A10:2021"@, "Server-Side Request Forgery (SSRF)"@),
    ]
}

/// The MITRE CWE Top 25 (2023): id and name.
pub open spec fn cwe_checklist() -> Seq<(Seq<char>, Seq<char>)> {
    seq![
        ("CWE-787"@, "Out-of-bounds Write"@),
        ("CWE-79"@, "Cross-site Scripting"@),
        ("CWE-89"@, "SQL Injection"@),
        ("CWE-416"@, "Use After Free"@),
        ("CWE-78"@, "OS Command Injection"@),
        ("CWE-20"@, "Improper Input Validation"@),
        ("CWE-125"@, "Out-of-bounds Read"@),
        ("CWE-22"@, "Path Traversal"@),
        ("CWE-352"@, "Cross-Site Request Forgery"@),
        ("CWE-434"@, "Unrestricted Upload of File with Dangerous Type"@),
        ("CWE-862"@, "Missing Authorization"@),
        ("CWE-476"@, "NULL Pointer Dereference"@),
        ("CWE-287"@, "Improper Authentication"@),
        ("CWE-190"@, "Integer Overflow or Wraparound"@),
        ("CWE-502"@, "Deserialization of Untrusted Data"@),
        ("CWE-77"@, "Command Injection"@),
        ("CWE-119"@, "Improper Restriction of Operations within Memory Bounds"@),
        ("CWE-798"@, "Use of Hard-coded Credentials"@),
        ("CWE-918"@, "Server-Side Request Forgery"@),
        ("CWE-306"@, "Missing Authentication for Critical Function"@),
        ("CWE-362"@, "Race Condition"@),
        ("CWE-269"@, "Improper Privilege Management"@),
        ("CWE-94"@, "Code Injection"@),
        ("CWE-863"@, "Incorrect Authorization"@),
        ("CWE-276"@, "Incorrect Default Permissions"@),
    ]
}

fn pair(id: &str, name: &str) -> (r: (String, String))
    ensures
        r.0@ == id@,
        r.1@ == name@,
{
    (id.to_owned(), name.to_owned())
}

/// The OWASP Top 10 (2021) checklist.
pub fn owasp_top10() -> (r: Vec<(String, String)>)
    ensures
        pairs_view(r@) == owasp_checklist(),
{
    let mut v: Vec<(String, String)> = Vec::new();
    v.push(pair("A01:2021", "Broken Access Control"));
    v.push(pair("A02:2021", "Cryptographic Failures"));
    v.push(pair("A03:2021", "Injection"));
    v.push(pair("A04:2021", "Insecure Design"));
    v.push(pair("A05:2021", "Security Misconfiguration"));
    v.push(pair("A06:2021", "Vulnerable and Outdated Components"));
    v.push(pair("A07:2021", "Identification and Authentication Failures"));
    v.push(pair("A08:2021", "Software and Data Integrity Failures"));
    v.push(pair("A09:2021", "Security Logging and Monitoring Failures"));
    v.push(pair("A10:2021", "Server-Side Request Forgery (SSRF)"));
    assert(pairs_view(v@) =~= owasp_checklist());
    v
}

/// The CWE Top 25 (2023) checklist.
pub fn cwe_top25() -> (r: Vec<(String, String)>)
    ensures
        pairs_view(r@) == cwe_checklist(),
{
    let mut v: Vec<(String, String)> = Vec::new();
    v.push(pair("CWE-787", "Out-of-bounds Write"));
    v.push(pair("CWE-79", "Cross-site Scripting"));
    v.push(pair("CWE-89", "SQL Injection"));
    v.push(pair("CWE-416", "Use After Free"));
    v.push(pair("CWE-78", "OS Command Injection"));
    v.push(pair("CWE-20", "Improper Input Validation"));
    v.push(pair("CWE-125", "Out-of-bounds Read"));
    v.push(pair("CWE-22", "Path Traversal"));
    v.push(pair("CWE-352", "Cross-Site Request Forgery"));
    v.push(pair("CWE-434", "Unrestricted Upload of File with Dangerous Type"));
    v.push(pair("CWE-862", "Missing Authorization"));
    v.push(pair("CWE-476", "NULL Pointer Dereference"));
    v.push(pair("CWE-287", "Improper Authentication"));
    v.push(pair("CWE-190", "Integer Overflow or Wraparound"));
    v.push(pair("CWE-502", "Deserialization of Untrusted Data"));
    v.push(pair("CWE-77", "Command Injection"));
    v.push(pair("CWE-119", "Improper Restriction of Operations within Memory Bounds"));
    v.push(pair("CWE-798", "Use of Hard-coded Credentials"));
    v.push(pair("CWE-918", "Server-Side Request Forgery"));
    v.push(pair("CWE-306", "Missing Authentication for Critical Function"));
    v.push(pair("CWE-362", "Race Condition"));
    v.push(pair("CWE-269", "Improper Privilege Management"));
    v.push(pair("CWE-94", "Code Injection"));
    v.push(pair("CWE-863", "Incorrect Authorization"));
    v.push(pair("CWE-276", "Incorrect Default Permissions"));
    assert(pairs_view(v@) =~= cwe_checklist());
    v
}

/// What a language (or the whole rule set) covers: the rules counted, and
/// the distinct CWE and OWASP tags they carry, sorted.
pub struct Coverage {
    pub rule_count: usize,
    pub cwe: Vec<String>,
    pub owasp: Vec<String>,
}

/// The languages a rule lists.
pub open spec fn langs_of(r: RuleSpec) -> Seq<Seq<char>> {
    strings_view(r.languages@)
}

/// A language passes the filter: no filter, or it is named in it.
pub open spec fn selected(filter: Seq<Seq<char>>, lang: Seq<char>) -> bool {
    filter.len() == 0 || filter.contains(lang)
}

/// A rule counts for the whole set when one of its languages is selected.
pub open spec fn counted(r: RuleSpec, filter: Seq<Seq<char>>) -> bool {
    exists|j: int| 0 <= j < langs_of(r).len() && selected(filter, #[trigger] langs_of(r)[j])
}

/// Which rules a coverage is about: those listing a language, or (with
/// none) those counted under the filter.
pub open spec fn kept(r: RuleSpec, lang: Option<Seq<char>>, filter: Seq<Seq<char>>) -> bool {
    match lang {
        Some(l) => langs_of(r).contains(l),
        None => counted(r, filter),
    }
}

/// A rule's CWE tags, or its OWASP tags.
pub open spec fn tags_of(r: RuleSpec, cwe: bool) -> Seq<Seq<char>> {
    if cwe { strings_view(r.metadata.cwe@) } else { strings_view(r.metadata.owasp@) }
}

/// The tags carried by the rules kept.
pub open spec fn tag_set(rules: Seq<Arc<RuleSpec>>, lang: Option<Seq<char>>, filter: Seq<Seq<char>>, cwe: bool) -> Set<Seq<char>>
    decreases rules.len(),
{
    if rules.len() == 0 {
        Set::empty()
    } else {
        let rest = tag_set(rules.drop_last(), lang, filter, cwe);
        if kept(*rules.last(), lang, filter) { rest + tags_of(*rules.last(), cwe).to_set() } else { rest }
    }
}

/// How many times the rules list a language (a rule listing it twice
/// counts twice).
pub open spec fn listings(rules: Seq<Arc<RuleSpec>>, lang: Seq<char>) -> nat
    decreases rules.len(),
{
    if rules.len() == 0 {
        0
    } else {
        listings(rules.drop_last(), lang) + langs_of(*rules.last()).filter(|x: Seq<char>| x == lang).len()
    }
}

/// How many rules count for the whole set.
pub open spec fn counted_rules(rules: Seq<Arc<RuleSpec>>, filter: Seq<Seq<char>>) -> nat
    decreases rules.len(),
{
    if rules.len() == 0 {
        0
    } else {
        counted_rules(rules.drop_last(), filter) + if counted(*rules.last(), filter) { 1nat } else { 0nat }
    }
}

/// The selected languages the rules list.
pub open spec fn lang_set(rules: Seq<Arc<RuleSpec>>, filter: Seq<Seq<char>>) -> Set<Seq<char>>
    decreases rules.len(),
{
    if rules.len() == 0 {
        Set::empty()
    } else {
        lang_set(rules.drop_last(), filter) + langs_of(*rules.last()).to_set().filter(|l: Seq<char>| selected(filter, l))
    }
}

fn is_selected(filter: &Vec<String>, lang: &str) -> (r: bool)
    ensures
        r == selected(strings_view(filter@), lang@),
{
    filter.len() == 0 || contains_str(filter, lang)
}

fn is_counted(r: &RuleSpec, filter: &Vec<String>) -> (b: bool)
    ensures
        b == counted(*r, strings_view(filter@)),
{
    let n = r.languages.len();
    for j in 0..n
        invariant
            n == r.languages@.len(),
            forall|k: int| 0 <= k < j ==> !selected(strings_view(filter@), #[trigger] langs_of(*r)[k]),
    {
        if is_selected(filter, r.languages[j].as_str()) {
            assert(langs_of(*r)[j as int] == r.languages@[j as int]@);
            return true;
        }
    }
    false
}

fn is_kept(r: &RuleSpec, lang: Option<&str>, filter: &Vec<String>) -> (b: bool)
    ensures
        b == kept(*r, match lang { Some(l) => Some(l@), None => None }, strings_view(filter@)),
{
    match lang {
        Some(l) => contains_str(&r.languages, l),
        None => is_counted(r, filter),
    }
}

/// Add every item to a sorted set.
fn add_all(set: &mut Vec<String>, items: &Vec<String>)
    requires
        strictly_sorted(strings_view(old(set)@)),
    ensures
        strictly_sorted(strings_view(final(set)@)),
        strings_view(final(set)@).to_set() == strings_view(old(set)@).to_set() + strings_view(items@).to_set(),
{
    let ghost start = strings_view(set@).to_set();
    let n = items.len();
    for i in 0..n
        invariant
            n == items@.len(),
            strictly_sorted(strings_view(set@)),
            strings_view(set@).to_set() == start + strings_view(items@).take(i as int).to_set(),
    {
        let ghost before = strings_view(set@).to_set();
        insert_sorted_unique(set, items[i].clone());
        assert(strings_view(items@).take(i + 1) =~= strings_view(items@).take(i as int).push(items@[i as int]@));
        proof { strings_view(items@).take(i as int).lemma_push_to_set_commute(items@[i as int]@); }
        assert(strings_view(set@).to_set() =~= before.insert(items@[i as int]@));
        assert(strings_view(set@).to_set() =~= start + strings_view(items@).take(i + 1).to_set());
    }
    assert(strings_view(items@).take(n as int) =~= strings_view(items@));
}

/// The sorted distinct tags (CWE or OWASP) of the rules kept.
fn collect_tags(rules: &Vec<Arc<RuleSpec>>, lang: Option<&str>, filter: &Vec<String>, cwe: bool) -> (r: Vec<String>)
    ensures
        strictly_sorted(strings_view(r@)),
        strings_view(r@).to_set() == tag_set(rules@, match lang { Some(l) => Some(l@), None => None }, strings_view(filter@), cwe),
{
    let ghost lv = match lang { Some(l) => Some(l@), None => None };
    let ghost fv = strings_view(filter@);
    let mut out: Vec<String> = Vec::new();
    let n = rules.len();
    assert(strings_view(out@).to_set() =~= Set::<Seq<char>>::empty());
    for i in 0..n
        invariant
            n == rules@.len(),
            lv == match lang { Some(l) => Some(l@), None => None },
            fv == strings_view(filter@),
            strictly_sorted(strings_view(out@)),
            strings_view(out@).to_set() == tag_set(rules@.take(i as int), lv, fv, cwe),
    {
        let r: &RuleSpec = &rules[i];
        assert(rules@.take(i + 1).drop_last() =~= rules@.take(i as int));
        if is_kept(r, lang, filter) {
            if cwe {
                add_all(&mut out, &r.metadata.cwe);
            } else {
                add_all(&mut out, &r.metadata.owasp);
            }
        }
    }
    assert(rules@.take(n as int) =~= rules@);
    out
}

/// How many times a rule lists a language.
fn count_listed(langs: &Vec<String>, lang: &str) -> (r: usize)
    ensures
        r == strings_view(langs@).filter(|x: Seq<char>| x == lang@).len(),
{
    let ghost pred = |x: Seq<char>| x == lang@;
    let mut c: usize = 0;
    let n = langs.len();
    for j in 0..n
        invariant
            n == langs@.len(),
            pred == (|x: Seq<char>| x == lang@),
            c == strings_view(langs@).take(j as int).filter(pred).len(),
            c <= j,
    {
        proof {
            strings_view(langs@).take(j as int).lemma_filter_push(langs@[j as int]@, pred);
            assert(strings_view(langs@).take(j + 1) =~= strings_view(langs@).take(j as int).push(langs@[j as int]@));
        }
        if crate::text::str_is(langs[j].as_str(), lang) {
            c = c + 1;
        }
    }
    assert(strings_view(langs@).take(n as int) =~= strings_view(langs@));
    c
}

/// The coverage of one language: how many times the rules list it
/// (saturating at `usize::MAX`), and the CWE and OWASP tags of the rules
/// that list it.
pub fn language_coverage(rules: &Vec<Arc<RuleSpec>>, lang: &str) -> (r: Coverage)
    ensures
        r.rule_count == if listings(rules@, lang@) <= usize::MAX { listings(rules@, lang@) as int } else { usize::MAX as int },
        strictly_sorted(strings_view(r.cwe@)),
        strictly_sorted(strings_view(r.owasp@)),
        strings_view(r.cwe@).to_set() == tag_set(rules@, Some(lang@), Seq::empty(), true),
        strings_view(r.owasp@).to_set() == tag_set(rules@, Some(lang@), Seq::empty(), false),
{
    let none: Vec<String> = Vec::new();
    assert(strings_view(none@) =~= Seq::<Seq<char>>::empty());
    let cwe = collect_tags(rules, Some(lang), &none, true);
    let owasp = collect_tags(rules, Some(lang), &none, false);
    let mut count: usize = 0;
    let n = rules.len();
    for i in 0..n
        invariant
            n == rules@.len(),
            count == if listings(rules@.take(i as int), lang@) <= usize::MAX { listings(rules@.take(i as int), lang@) as int } else { usize::MAX as int },
    {
        assert(rules@.take(i + 1).drop_last() =~= rules@.take(i as int));
        let k = count_listed(&rules[i].languages, lang);
        if count <= usize::MAX - k {
            count = count + k;
        } else {
            count = usize::MAX;
        }
    }
    assert(rules@.take(n as int) =~= rules@);
    Coverage { rule_count: count, cwe, owasp }
}

/// The coverage of the whole rule set under a language filter: the rules
/// with a selected language, and their CWE and OWASP tags.
pub fn overall_coverage(rules: &Vec<Arc<RuleSpec>>, filter: &Vec<String>) -> (r: Coverage)
    ensures
        r.rule_count == counted_rules(rules@, strings_view(filter@)),
        strictly_sorted(strings_view(r.cwe@)),
        strictly_sorted(strings_view(r.owasp@)),
        strings_view(r.cwe@).to_set() == tag_set(rules@, None, strings_view(filter@), true),
        strings_view(r.owasp@).to_set() == tag_set(rules@, None, strings_view(filter@), false),
{
    let cwe = collect_tags(rules, None, filter, true);
    let owasp = collect_tags(rules, None, filter, false);
    let mut count: usize = 0;
    let n = rules.len();
    for i in 0..n
        invariant
            n == rules@.len(),
            count == counted_rules(rules@.take(i as int), strings_view(filter@)),
            count <= i,
    {
        assert(rules@.take(i + 1).drop_last() =~= rules@.take(i as int));
        if is_counted(&rules[i], filter) {
            count = count + 1;
        }
    }
    assert(rules@.take(n as int) =~= rules@);
    Coverage { rule_count: count, cwe, owasp }
}

/// The selected languages the rules list, sorted and distinct.
pub fn covered_languages(rules: &Vec<Arc<RuleSpec>>, filter: &Vec<String>) -> (r: Vec<String>)
    ensures
        strictly_sorted(strings_view(r@)),
        strings_view(r@).to_set() == lang_set(rules@, strings_view(filter@)),
{
    let ghost fv = strings_view(filter@);
    let mut out: Vec<String> = Vec::new();
    let n = rules.len();
    assert(strings_view(out@).to_set() =~= Set::<Seq<char>>::empty());
    for i in 0..n
        invariant
            n == rules@.len(),
            fv == strings_view(filter@),
            strictly_sorted(strings_view(out@)),
            strings_view(out@).to_set() == lang_set(rules@.take(i as int), fv),
    {
        assert(rules@.take(i + 1).drop_last() =~= rules@.take(i as int));
        let langs = &rules[i].languages;
        let m = langs.len();
        let ghost base = strings_view(out@).to_set();
        for j in 0..m
            invariant
                m == langs@.len(),
                fv == strings_view(filter@),
                strictly_sorted(strings_view(out@)),
                strings_view(out@).to_set() == base + strings_view(langs@).take(j as int).to_set().filter(|l: Seq<char>| selected(fv, l)),
        {
            let ghost before = strings_view(out@).to_set();
            assert(strings_view(langs@).take(j + 1) =~= strings_view(langs@).take(j as int).push(langs@[j as int]@));
            proof { strings_view(langs@).take(j as int).lemma_push_to_set_commute(langs@[j as int]@); }
            if is_selected(filter, langs[j].as_str()) {
                insert_sorted_unique(&mut out, langs[j].clone());
                assert(strings_view(out@).to_set() =~= before.insert(langs@[j as int]@));
            }
            assert(strings_view(out@).to_set() =~= base + strings_view(langs@).take(j + 1).to_set().filter(|l: Seq<char>| selected(fv, l)));
        }
        assert(strings_view(langs@).take(m as int) =~= strings_view(langs@));
        assert(langs_of(*rules@[i as int]) == strings_view(langs@));
    }
    assert(rules@.take(n as int) =~= rules@);
    out
}

/// How many checklist ids a set covers.
pub open spec fn hits(ids: Seq<(Seq<char>, Seq<char>)>, covered: Set<Seq<char>>) -> nat
    decreases ids.len(),
{
    if ids.len() == 0 {
        0
    } else {
        hits(ids.drop_last(), covered) + if covered.contains(ids.last().0) { 1nat } else { 0nat }
    }
}

/// The checklist ids a set does not cover, in checklist order.
pub open spec fn missing(ids: Seq<(Seq<char>, Seq<char>)>, covered: Set<Seq<char>>) -> Seq<Seq<char>>
    decreases ids.len(),
{
    if ids.len() == 0 {
        Seq::empty()
    } else {
        let rest = missing(ids.drop_last(), covered);
        if covered.contains(ids.last().0) { rest } else { rest.push(ids.last().0) }
    }
}

/// How many items of a checklist the tags cover.
pub fn checklist_hits(checklist: &Vec<(String, String)>, tags: &Vec<String>) -> (r: usize)
    ensures
        r == hits(pairs_view(checklist@), strings_view(tags@).to_set()),
{
    let ghost cv = pairs_view(checklist@);
    let mut c: usize = 0;
    let n = checklist.len();
    for i in 0..n
        invariant
            n == checklist@.len(),
            cv == pairs_view(checklist@),
            c == hits(cv.take(i as int), strings_view(tags@).to_set()),
            c <= i,
    {
        assert(cv.take(i + 1).drop_last() =~= cv.take(i as int));
        if contains_str(tags, checklist[i].0.as_str()) {
            c = c + 1;
        }
    }
    assert(cv.take(n as int) =~= cv);
    c
}

/// The ids of a checklist the tags do not cover, in checklist order.
pub fn checklist_missing(checklist: &Vec<(String, String)>, tags: &Vec<String>) -> (r: Vec<String>)
    ensures
        strings_view(r@) == missing(pairs_view(checklist@), strings_view(tags@).to_set()),
{
    let ghost cv = pairs_view(checklist@);
    let mut out: Vec<String> = Vec::new();
    let n = checklist.len();
    for i in 0..n
        invariant
            n == checklist@.len(),
            cv == pairs_view(checklist@),
            strings_view(out@) == missing(cv.take(i as int), strings_view(tags@).to_set()),
    {
        assert(cv.take(i + 1).drop_last() =~= cv.take(i as int));
        if !contains_str(tags, checklist[i].0.as_str()) {
            let ghost before = strings_view(out@);
            out.push(checklist[i].0.clone());
            assert(strings_view(out@) =~= before.push(cv[i as int].0));
        }
    }
    assert(cv.take(n as int) =~= cv);
    out
}

} // verus!
