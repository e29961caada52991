//! What a SARIF 2.1.0 report says about rules: which rules fired (in id
//! order, each described once), how each rule is described, and where
//! each result points in the rule list. Serializing the report is the
//! caller's part.

use vstd::prelude::*;
use crate::findings::{Finding, FindingView, Severity};
use crate::model::RuleSpec;
use crate::paths::strings_view;
use crate::sorting::{strictly_sorted, insert_sorted_unique, sorted_distinct, lemma_sorted_distinct, views};
use crate::text::str_is;

verus! {

broadcast use vstd::string::group_string_axioms;

/// The Unicode lowercase form of a text (`str::to_lowercase`).
pub uninterp spec fn lowercase(s: Seq<char>) -> Seq<char>;

/// `str::to_lowercase`. Named: a function of the text alone.
#[verifier::external_body]
fn to_lowercase(s: &str) -> (r: String)
    ensures
        r@ == lowercase(s@),
{
    s.to_lowercase()
}

/// The rule ids of a list of findings.
pub open spec fn rule_ids_of(fs: Seq<FindingView>) -> Seq<Seq<char>> {
    fs.map_values(|f: FindingView| f.rule_id)
}

/// The rules that fired, in id order, each once.
pub fn fired_rules(findings: &Vec<Finding>) -> (r: Vec<String>)
    ensures
        strings_view(r@) == sorted_distinct(rule_ids_of(views(findings@))),
        strictly_sorted(strings_view(r@)),
{
    let ghost ids = rule_ids_of(views(findings@));
    let mut out: Vec<String> = Vec::new();
    let n = findings.len();
    for i in 0..n
        invariant
            n == findings@.len(),
            ids == rule_ids_of(views(findings@)),
            strictly_sorted(strings_view(out@)),
            forall|y: Seq<char>| strings_view(out@).contains(y) <==> ids.take(i as int).contains(y),
    {
        insert_sorted_unique(&mut out, findings[i].rule_id.clone());
        assert(ids.take(i + 1) =~= ids.take(i as int).push(findings@[i as int].rule_id@));
        assert forall|y: Seq<char>| strings_view(out@).contains(y) <==> ids.take(i + 1).contains(y) by {
            if y == findings@[i as int].rule_id@ {
                assert(ids.take(i + 1)[i as int] == y);
            }
            if ids.take(i + 1).contains(y) && y != findings@[i as int].rule_id@ {
                let k = choose|k: int| 0 <= k < i + 1 && #[trigger] ids.take(i + 1)[k] == y;
                assert(ids.take(i as int)[k] == y);
            }
        }
    }
    assert(ids.take(n as int) =~= ids);
    proof { lemma_sorted_distinct(strings_view(out@), ids); }
    out
}

/// Where a rule stands in the fired list.
pub fn rule_index(fired: &Vec<String>, id: &str) -> (r: Option<usize>)
    ensures
        match r {
            Some(i) => i < fired@.len() && fired@[i as int]@ == id@
                && forall|j: int| 0 <= j < i ==> (#[trigger] fired@[j])@ != id@,
            None => forall|j: int| 0 <= j < fired@.len() ==> (#[trigger] fired@[j])@ != id@,
        },
{
    let n = fired.len();
    for i in 0..n
        invariant
            n == fired@.len(),
            forall|j: int| 0 <= j < i ==> (#[trigger] fired@[j])@ != id@,
    {
        if str_is(fired[i].as_str(), id) {
            return Some(i);
        }
    }
    None
}

/// How a rule is described to SARIF consumers.
pub struct RuleDescriptor {
    pub id: String,
    pub name: String,
    pub short_text: String,
    pub full_text: String,
    pub help_text: String,
    pub help_uri: String,
    pub level: String,
    pub tags: Vec<String>,
    pub security_severity: String,
    pub precision: String,
}

/// A rule's tags: its category, its CWE ids (lowercased, as
/// `external/cwe/…`), OWASP and NIST references, then its own tags.
pub open spec fn rule_tags(r: RuleSpec) -> Seq<Seq<char>> {
    seq![r.category.name()]
        + strings_view(r.metadata.cwe@).map_values(|c: Seq<char>| "external/cwe/"@ + lowercase(c))
        + strings_view(r.metadata.owasp@).map_values(|o: Seq<char>| "owasp/"@ + o)
        + strings_view(r.metadata.nist@).map_values(|n: Seq<char>| "nist/"@ + n)
        + strings_view(r.metadata.tags@)
}

/// A rule's SARIF tags: its category first; then, in order, one
/// `external/cwe/…` tag per CWE id (lowercased), one `owasp/…` tag per
/// OWASP reference, one `nist/…` tag per NIST control, and its own tags,
/// so that every reference of the rule is among its tags.
pub proof fn lemma_rule_tags(r: RuleSpec)
    ensures
        ({
            let t = rule_tags(r);
            let cwe = strings_view(r.metadata.cwe@);
            let owasp = strings_view(r.metadata.owasp@);
            let nist = strings_view(r.metadata.nist@);
            let own = strings_view(r.metadata.tags@);
            &&& t.len() == 1 + cwe.len() + owasp.len() + nist.len() + own.len()
            &&& t[0] == r.category.name()
            &&& forall|k: int| 0 <= k < cwe.len() ==> t[1 + k] == "external/cwe/"@ + lowercase(#[trigger] cwe[k])
            &&& forall|k: int| 0 <= k < owasp.len() ==> t[1 + cwe.len() + k] == "owasp/"@ + #[trigger] owasp[k]
            &&& forall|k: int| 0 <= k < nist.len() ==> t[1 + cwe.len() + owasp.len() + k] == "nist/"@ + #[trigger] nist[k]
            &&& forall|k: int| 0 <= k < own.len() ==> t[1 + cwe.len() + owasp.len() + nist.len() + k] == #[trigger] own[k]
        }),
{
}

/// The help text: the description, then the remediation (after a blank
/// line when both are present); the message when both are absent or
/// empty.
pub open spec fn help_of(r: RuleSpec) -> Seq<char> {
    let desc = match r.description { Some(d) => d@, None => Seq::empty() };
    let text = match r.remediation {
        Some(rem) => (if desc.len() > 0 { desc + "\n\n"@ } else { desc }) + "Remediation: "@ + rem@,
        None => desc,
    };
    if text.len() == 0 { r.message@ } else { text }
}

/// The SARIF help text of a rule: a non-empty description comes first;
/// a remediation comes last, as "Remediation: " and its text, after a
/// blank line when a description precedes it; with both, the text is
/// exactly those parts; with neither (or both empty), it is the message.
pub proof fn lemma_help_text(r: RuleSpec)
    ensures
        r.description is Some && r.description->0@.len() > 0 ==>
            help_of(r).len() >= r.description->0@.len() && help_of(r).take(r.description->0@.len() as int) == r.description->0@,
        r.remediation is Some ==> help_of(r).len() >= ("Remediation: "@ + r.remediation->0@).len()
            && help_of(r).skip(help_of(r).len() - ("Remediation: "@ + r.remediation->0@).len()) == "Remediation: "@ + r.remediation->0@,
        r.description is Some && r.description->0@.len() > 0 && r.remediation is Some ==>
            help_of(r) == r.description->0@ + "\n\n"@ + "Remediation: "@ + r.remediation->0@,
        r.description is Some && r.description->0@.len() > 0 && r.remediation is None ==> help_of(r) == r.description->0@,
        r.remediation is None && (r.description is None || r.description->0@.len() == 0) ==> help_of(r) == r.message@,
{
    reveal_strlit("Remediation: ");
    reveal_strlit("\n\n");
    let desc = match r.description { Some(d) => d@, None => Seq::empty() };
    match r.remediation {
        Some(rem) => {
            let head = if desc.len() > 0 { desc + "\n\n"@ } else { desc };
            let tail = "Remediation: "@ + rem@;
            assert(help_of(r) == head + tail);
            assert((head + tail).skip(head.len() as int) =~= tail);
            if desc.len() > 0 {
                assert((desc + "\n\n"@ + tail).take(desc.len() as int) =~= desc);
                assert(head + tail =~= desc + "\n\n"@ + "Remediation: "@ + rem@);
            }
        },
        None => {},
    }
}

fn push_prefixed(out: &mut Vec<String>, items: &Vec<String>, prefix: &str, lower: bool)
    ensures
        strings_view(final(out)@) == strings_view(old(out)@) + strings_view(items@).map_values(
            |c: Seq<char>| prefix@ + if lower { lowercase(c) } else { c }),
{
    let ghost base = strings_view(out@);
    let n = items.len();
    for i in 0..n
        invariant
            n == items@.len(),
            strings_view(out@) == base + strings_view(items@).take(i as int).map_values(
                |c: Seq<char>| prefix@ + if lower { lowercase(c) } else { c }),
    {
        let mut t = prefix.to_owned();
        if lower {
            let l = to_lowercase(items[i].as_str());
            t.append(l.as_str());
        } else {
            t.append(items[i].as_str());
        }
        let ghost before = strings_view(out@);
        out.push(t);
        assert(strings_view(out@) =~= before.push(prefix@ + if lower { lowercase(items@[i as int]@) } else { items@[i as int]@ }));
        assert(strings_view(items@).take(i + 1).map_values(|c: Seq<char>| prefix@ + if lower { lowercase(c) } else { c })
            =~= strings_view(items@).take(i as int).map_values(|c: Seq<char>| prefix@ + if lower { lowercase(c) } else { c })
                .push(prefix@ + if lower { lowercase(items@[i as int]@) } else { items@[i as int]@ }));
    }
    assert(strings_view(items@).take(n as int) =~= strings_view(items@));
}

/// Describe a rule: id, display name, message as short description,
/// description (else message) as full description, help text, the first
/// reference as help URI (else the project's), level, tags, security
/// severity, and precision (`low` when unmeasured).
pub fn describe_rule(rule: &RuleSpec, project_url: &str) -> (r: RuleDescriptor)
    ensures
        r.id@ == rule.id@,
        r.name@ == rule.display(),
        r.short_text@ == rule.message@,
        r.full_text@ == match rule.description { Some(d) => d@, None => rule.message@ },
        r.help_text@ == help_of(*rule),
        r.help_uri@ == if rule.metadata.references@.len() > 0 { rule.metadata.references@[0]@ } else { project_url@ },
        r.level@ == rule.severity.sarif_name(),
        strings_view(r.tags@) == rule_tags(*rule),
        r.security_severity@ == rule.severity.security_score(),
        r.precision@ == match rule.precision { Some(p) => p@, None => "low"@ },
{
    let mut tags: Vec<String> = Vec::new();
    tags.push(rule.category.as_str().to_owned());
    push_prefixed(&mut tags, &rule.metadata.cwe, "external/cwe/", true);
    push_prefixed(&mut tags, &rule.metadata.owasp, "owasp/", false);
    push_prefixed(&mut tags, &rule.metadata.nist, "nist/", false);
    let ghost before = strings_view(tags@);
    let nt = rule.metadata.tags.len();
    for i in 0..nt
        invariant
            nt == rule.metadata.tags@.len(),
            strings_view(tags@) == before + strings_view(rule.metadata.tags@).take(i as int),
    {
        let ghost b = strings_view(tags@);
        tags.push(rule.metadata.tags[i].clone());
        assert(strings_view(tags@) =~= b.push(rule.metadata.tags@[i as int]@));
        assert(strings_view(rule.metadata.tags@).take(i + 1) =~= strings_view(rule.metadata.tags@).take(i as int).push(rule.metadata.tags@[i as int]@));
    }
    assert(strings_view(rule.metadata.tags@).take(nt as int) =~= strings_view(rule.metadata.tags@));
    assert(strings_view(rule.metadata.cwe@).map_values(|c: Seq<char>| "external/cwe/"@ + if true { lowercase(c) } else { c })
        =~= strings_view(rule.metadata.cwe@).map_values(|c: Seq<char>| "external/cwe/"@ + lowercase(c)));
    assert(strings_view(rule.metadata.owasp@).map_values(|c: Seq<char>| "owasp/"@ + if false { lowercase(c) } else { c })
        =~= strings_view(rule.metadata.owasp@).map_values(|o: Seq<char>| "owasp/"@ + o));
    assert(strings_view(rule.metadata.nist@).map_values(|c: Seq<char>| "nist/"@ + if false { lowercase(c) } else { c })
        =~= strings_view(rule.metadata.nist@).map_values(|n: Seq<char>| "nist/"@ + n));
    assert(strings_view(tags@) =~= rule_tags(*rule));
    let mut help = match &rule.description { Some(d) => d.clone(), None => String::new() };
    match &rule.remediation {
        Some(rem) => {
            if help.as_str().unicode_len() > 0 {
                help.append("\n\n");
            }
            help.append("Remediation: ");
            help.append(rem.as_str());
        }
        None => {}
    }
    let help_text = if help.as_str().unicode_len() == 0 { rule.message.clone() } else { help };
    let help_uri = if rule.metadata.references.len() > 0 { rule.metadata.references[0].clone() } else { project_url.to_owned() };
    RuleDescriptor {
        id: rule.id.clone(),
        name: rule.display_name().to_owned(),
        short_text: rule.message.clone(),
        full_text: match &rule.description { Some(d) => d.clone(), None => rule.message.clone() },
        help_text,
        help_uri,
        level: rule.severity.sarif_level().to_owned(),
        tags,
        security_severity: rule.severity.security_severity().to_owned(),
        precision: match &rule.precision { Some(p) => p.clone(), None => "low".to_owned() },
    }
}

} // verus!
