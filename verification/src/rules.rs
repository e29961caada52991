//! Loaded rule sets: rule documents merged by id (later definitions
//! replace earlier ones), disabled rules removed, and which files count as
//! rule documents.

use vstd::prelude::*;
use crate::model::{RuleSpec, RuleFile, error_text};
use crate::paths::strings_view;
use crate::sorting::{text_lt, text_less, lemma_text_lt, strictly_sorted};
use crate::text::{chars_of, str_is, cat};
use crate::languages::{extension_of, file_name};

verus! {

broadcast use vstd::string::group_string_axioms;

/// The keys of a keyed list, in order.
pub open spec fn keys_of<V>(v: Seq<(String, V)>) -> Seq<Seq<char>> {
    v.map_values(|e: (String, V)| e.0@)
}

/// Where key `k` first stands in a keyed list.
pub open spec fn key_index<V>(v: Seq<(String, V)>, k: Seq<char>) -> Option<int>
    decreases v.len(),
{
    if v.len() == 0 {
        None
    } else {
        match key_index(v.drop_last(), k) {
            Some(i) => Some(i),
            None => if v.last().0@ == k { Some(v.len() - 1) } else { None },
        }
    }
}

/// The value stored under `k`.
pub open spec fn value_at<V>(v: Seq<(String, V)>, k: Seq<char>) -> Option<V> {
    match key_index(v, k) {
        Some(i) => Some(v[i].1),
        None => None,
    }
}

pub proof fn lemma_key_index_props<V>(v: Seq<(String, V)>, k: Seq<char>)
    ensures
        key_index(v, k) matches Some(i) ==> 0 <= i < v.len() && v[i].0@ == k,
        key_index(v, k) is None ==> forall|j: int| 0 <= j < v.len() ==> (#[trigger] v[j]).0@ != k,
    decreases v.len(),
{
    if v.len() > 0 {
        lemma_key_index_props(v.drop_last(), k);
        assert forall|j: int| 0 <= j < v.len() - 1 implies #[trigger] v[j] == v.drop_last()[j] by {}
    }
}

pub proof fn lemma_key_index<V>(v: Seq<(String, V)>, k: Seq<char>, i: int)
    requires
        strictly_sorted(keys_of(v)),
        0 <= i < v.len(),
        v[i].0@ == k,
    ensures
        key_index(v, k) == Some(i),
{
    lemma_key_index_props(v, k);
    if key_index(v, k) is None {
        assert(v[i].0@ != k);
    } else {
        lemma_key_index_props(v, k);
        let j = key_index(v, k)->0;
        assert(keys_of(v)[i] == k);
        assert(keys_of(v)[j] == k);
        if j != i {
            if j < i {
                assert(text_lt(keys_of(v)[j], keys_of(v)[i]));
            } else {
                assert(text_lt(keys_of(v)[i], keys_of(v)[j]));
            }
            lemma_text_lt(k, k, k);
        }
    }
}

/// Store `val` under `key` in a list kept in key order, replacing an
/// earlier value.
pub fn put_sorted<V>(v: &mut Vec<(String, V)>, key: String, val: V)
    requires
        strictly_sorted(keys_of(old(v)@)),
    ensures
        strictly_sorted(keys_of(final(v)@)),
        value_at(final(v)@, key@) == Some(val),
        forall|k: Seq<char>| k != key@ ==> #[trigger] value_at(final(v)@, k) == value_at(old(v)@, k),
{
    let ghost ks = keys_of(v@);
    let ghost ov = v@;
    let n = v.len();
    let mut i: usize = 0;
    while i < n && text_less(v[i].0.as_str(), key.as_str())
        invariant
            i <= n,
            n == v@.len(),
            v@ == ov,
            ks == keys_of(ov),
            strictly_sorted(ks),
            forall|j: int| 0 <= j < i ==> text_lt(#[trigger] ks[j], key@),
        decreases n - i,
    {
        assert(ks[i as int] == v@[i as int].0@);
        i += 1;
    }
    if i < n && str_is(v[i].0.as_str(), key.as_str()) {
        let ghost kk = key@;
        v.set(i, (key, val));
        proof {
            assert(keys_of(v@) =~= ks);
            lemma_key_index(v@, kk, i as int);
            assert forall|k: Seq<char>| k != kk implies #[trigger] value_at(v@, k) == value_at(ov, k) by {
                lemma_key_index_props(ov, k);
                lemma_key_index_props(v@, k);
                if key_index(ov, k) is Some {
                    lemma_key_index_props(ov, k);
                    let p = key_index(ov, k)->0;
                    assert(p != i);
                    assert(v@[p] == ov[p]);
                    lemma_key_index(v@, k, p);
                } else if key_index(v@, k) is Some {
                    lemma_key_index_props(v@, k);
                    let p = key_index(v@, k)->0;
                    if p != i {
                        assert(v@[p] == ov[p]);
                    }
                }
            }
        }
        return;
    }
    proof {
        if i < n {
            assert(ks[i as int] == v@[i as int].0@);
            lemma_text_lt(key@, ks[i as int], key@);
        }
    }
    let ghost kk = key@;
    v.insert(i, (key, val));
    let ghost nv = v@;
    assert(keys_of(nv) =~= ks.insert(i as int, kk));
    assert forall|a: int, b: int| 0 <= a < b < keys_of(nv).len() implies text_lt(#[trigger] keys_of(nv)[a], #[trigger] keys_of(nv)[b]) by {
        let nk = keys_of(nv);
        if b < i {
            assert(nk[a] == ks[a] && nk[b] == ks[b]);
        } else if b == i {
            assert(nk[a] == ks[a]);
        } else if a < i {
            assert(nk[b] == ks[b - 1]);
            assert(nk[a] == ks[a]);
            lemma_text_lt(ks[a], kk, ks[i as int]);
            if b - 1 > i {
                lemma_text_lt(ks[a], ks[i as int], ks[b - 1]);
            }
        } else if a == i {
            assert(nk[b] == ks[b - 1]);
            if b - 1 > i {
                lemma_text_lt(kk, ks[i as int], ks[b - 1]);
            }
        } else {
            assert(nk[a] == ks[a - 1]);
            assert(nk[b] == ks[b - 1]);
        }
    }
    proof {
        lemma_key_index(nv, kk, i as int);
        assert forall|k: Seq<char>| k != kk implies #[trigger] value_at(nv, k) == value_at(ov, k) by {
            lemma_key_index_props(ov, k);
            lemma_key_index_props(nv, k);
            if key_index(ov, k) is Some {
                lemma_key_index_props(ov, k);
                let p = key_index(ov, k)->0;
                let q = if p < i { p } else { p + 1 };
                assert(nv[q] == ov[p]);
                lemma_key_index(nv, k, q);
            } else if key_index(nv, k) is Some {
                lemma_key_index_props(nv, k);
                let q = key_index(nv, k)->0;
                assert(q != i);
                let p = if q < i { q } else { q - 1 };
                assert(nv[q] == ov[p]);
            }
        }
    }
}

/// Drop the value stored under `key`, if any.
pub fn remove_key<V>(v: &mut Vec<(String, V)>, key: &str)
    requires
        strictly_sorted(keys_of(old(v)@)),
    ensures
        strictly_sorted(keys_of(final(v)@)),
        value_at(final(v)@, key@) is None,
        forall|k: Seq<char>| k != key@ ==> #[trigger] value_at(final(v)@, k) == value_at(old(v)@, k),
{
    let ghost ov = v@;
    let ghost ks = keys_of(ov);
    let n = v.len();
    let mut i: usize = 0;
    while i < n
        invariant
            i <= n,
            n == v@.len(),
            v@ == ov,
            ov == old(v)@,
            ks == keys_of(ov),
            strictly_sorted(ks),
            forall|j: int| 0 <= j < i ==> (#[trigger] ov[j]).0@ != key@,
        decreases n - i,
    {
        if str_is(v[i].0.as_str(), key) {
            let _ = v.remove(i);
            let ghost nv = v@;
            assert(nv =~= ov.remove(i as int));
            assert(keys_of(nv) =~= ks.remove(i as int));
            assert forall|a: int, b: int| 0 <= a < b < keys_of(nv).len() implies text_lt(#[trigger] keys_of(nv)[a], #[trigger] keys_of(nv)[b]) by {
                let oa = if a < i { a } else { a + 1 };
                let ob = if b < i { b } else { b + 1 };
                assert(keys_of(nv)[a] == ks[oa]);
                assert(keys_of(nv)[b] == ks[ob]);
            }
            proof {
                lemma_key_index_props(nv, key@);
                lemma_key_index_props(ov, key@);
                if key_index(nv, key@) is Some {
                    lemma_key_index_props(nv, key@);
                    let q = key_index(nv, key@)->0;
                    let p = if q < i { q } else { q + 1 };
                    assert(nv[q] == ov[p]);
                    lemma_key_index(ov, key@, p);
                    lemma_key_index(ov, key@, i as int);
                }
                assert forall|k: Seq<char>| k != key@ implies #[trigger] value_at(nv, k) == value_at(ov, k) by {
                    lemma_key_index_props(ov, k);
                    lemma_key_index_props(nv, k);
                    if key_index(ov, k) is Some {
                        lemma_key_index_props(ov, k);
                        let p = key_index(ov, k)->0;
                        assert(p != i);
                        let q = if p < i { p } else { p - 1 };
                        assert(nv[q] == ov[p]);
                        assert(nv[q].0@ == k);
                        lemma_key_index(nv, k, q);
                        assert(value_at(nv, k) == Some(nv[q].1));
                    } else if key_index(nv, k) is Some {
                        lemma_key_index_props(nv, k);
                        let q = key_index(nv, k)->0;
                        let p = if q < i { q } else { q + 1 };
                        assert(nv[q] == ov[p]);
                        assert(ov[p].0@ == k);
                    }
                }
            }
            assert(v@ == nv);
            return;
        }
        i += 1;
    }
    proof { lemma_key_index_props(ov, key@); }
}

/// A loaded, but not yet compiled, set of rules.
pub struct LoadedRules {
    /// Rules keyed by id, in id order.
    pub rules: Vec<(String, RuleSpec)>,
    /// Non-fatal problems met while loading (shown as warnings).
    pub warnings: Vec<String>,
}

/// Does `s` start with `builtin:`?
pub open spec fn is_builtin_origin(s: Seq<char>) -> bool {
    s.len() >= 8 && s.take(8) == "builtin:"@
}

fn builtin_origin(s: &str) -> (r: bool)
    ensures
        r == is_builtin_origin(s@),
{
    let cs = chars_of(s);
    proof { reveal_strlit("builtin:"); }
    if cs.len() < 8 {
        return false;
    }
    let p = "builtin:";
    let pc = chars_of(p);
    let mut i: usize = 0;
    while i < 8
        invariant
            i <= 8,
            cs@ == s@,
            pc@ == "builtin:"@,
            pc@.len() == 8,
            cs@.len() >= 8,
            forall|j: int| 0 <= j < i ==> cs@[j] == pc@[j],
        decreases 8 - i,
    {
        if cs[i] != pc[i] {
            assert(cs@.take(8)[i as int] != pc@[i as int]);
            return false;
        }
        i += 1;
    }
    assert(cs@.take(8) =~= pc@);
    true
}

/// The rule as stored: its origin set to where it was loaded from.
pub open spec fn stored_as(r: RuleSpec, stored: RuleSpec, origin: Seq<char>) -> bool {
    &&& stored.origin@ == origin
    &&& stored.id == r.id && stored.name == r.name && stored.kind == r.kind
    &&& stored.severity == r.severity && stored.category == r.category
    &&& stored.languages == r.languages && stored.message == r.message
    &&& stored.description == r.description && stored.remediation == r.remediation
    &&& stored.metadata == r.metadata && stored.query == r.query && stored.filters == r.filters
    &&& stored.sources == r.sources && stored.sinks == r.sinks && stored.sanitizers == r.sanitizers
    &&& stored.precision == r.precision
}

/// Merging a document's first `k` rules: the ids present afterwards and
/// the warnings raised. A rule that fails validation is skipped with a
/// warning; one that replaces a loaded rule is noted unless the document
/// is built in.
pub open spec fn merge_doc(present: Set<Seq<char>>, warnings: Seq<Seq<char>>, doc: Seq<RuleSpec>, origin: Seq<char>, k: int)
    -> (Set<Seq<char>>, Seq<Seq<char>>)
    decreases k,
{
    if k <= 0 {
        (present, warnings)
    } else {
        let (p, w) = merge_doc(present, warnings, doc, origin, k - 1);
        let r = doc[k - 1];
        match r.problem() {
            Some(e) => (p, w.push(origin + ": rule `"@ + r.id@ + "` skipped: "@ + error_text(e))),
            None => if p.contains(r.id@) && !is_builtin_origin(origin) {
                (p, w.push(origin + ": rule `"@ + r.id@ + "` overrides a previously loaded rule"@))
            } else {
                (p.insert(r.id@), w)
            },
        }
    }
}

/// The last rule among the first `k` of a document that is valid and has
/// id `id`.
pub open spec fn last_valid(doc: Seq<RuleSpec>, id: Seq<char>, k: int) -> Option<RuleSpec>
    decreases k,
{
    if k <= 0 {
        None
    } else if doc[k - 1].problem() is None && doc[k - 1].id@ == id {
        Some(doc[k - 1])
    } else {
        last_valid(doc, id, k - 1)
    }
}

impl LoadedRules {
    /// Rules are kept in id order, each under its own id.
    pub open spec fn wf(&self) -> bool {
        &&& strictly_sorted(keys_of(self.rules@))
        &&& forall|i: int| 0 <= i < self.rules@.len() ==> (#[trigger] self.rules@[i]).1.id@ == self.rules@[i].0@
    }

    /// The ids loaded.
    pub open spec fn ids(&self) -> Set<Seq<char>> {
        keys_of(self.rules@).to_set()
    }

    pub fn new() -> (r: LoadedRules)
        ensures
            r.wf(),
            r.rules@.len() == 0,
            r.warnings@.len() == 0,
    {
        LoadedRules { rules: Vec::new(), warnings: Vec::new() }
    }

    /// Merge a parsed rules document, each rule recorded as coming from
    /// `origin`. Rules that fail validation are skipped with a warning;
    /// a rule whose id is already loaded replaces it (noted with a warning
    /// unless the document is built in).
    pub fn add_rules(&mut self, doc: RuleFile, origin: &str)
        requires
            old(self).wf(),
        ensures
            final(self).wf(),
            ({
                let (ids, w) = merge_doc(old(self).ids(), strings_view(old(self).warnings@), doc.rules@, origin@, doc.rules@.len() as int);
                &&& final(self).ids() == ids
                &&& strings_view(final(self).warnings@) == w
            }),
            forall|id: Seq<char>| last_valid(doc.rules@, id, doc.rules@.len() as int) is None
                ==> #[trigger] value_at(final(self).rules@, id) == value_at(old(self).rules@, id),
            forall|id: Seq<char>| last_valid(doc.rules@, id, doc.rules@.len() as int) is Some
                ==> (#[trigger] value_at(final(self).rules@, id)) is Some
                    && stored_as(last_valid(doc.rules@, id, doc.rules@.len() as int)->0, value_at(final(self).rules@, id)->0, origin@),
    {
        let ghost d = doc.rules@;
        let ghost ow = strings_view(self.warnings@);
        let ghost oi = self.ids();
        let ghost orules = self.rules@;
        let mut rest = doc.rules;
        let n = rest.len();
        let mut rev: Vec<RuleSpec> = Vec::new();
        let mut k = n;
        while k > 0
            invariant
                k <= n,
                n == d.len(),
                rest@ == d.take(k as int),
                rev@.len() == n - k,
                forall|j: int| 0 <= j < rev@.len() ==> #[trigger] rev@[j] == d[n - 1 - j],
            decreases k,
        {
            let r = rest.pop().unwrap();
            assert(d.take(k as int).last() == d[k - 1]);
            rev.push(r);
            assert(d.take(k as int).drop_last() =~= d.take(k - 1));
            k -= 1;
        }
        let mut i: usize = 0;
        while i < n
            invariant
                i <= n,
                n == d.len(),
                rev@.len() == n - i,
                forall|j: int| 0 <= j < rev@.len() ==> #[trigger] rev@[j] == d[n - 1 - j],
                self.wf(),
                ({
                    let (ids, w) = merge_doc(oi, ow, d, origin@, i as int);
                    &&& self.ids() == ids
                    &&& strings_view(self.warnings@) == w
                }),
                forall|id: Seq<char>| last_valid(d, id, i as int) is None ==> #[trigger] value_at(self.rules@, id) == value_at(orules, id),
                forall|id: Seq<char>| last_valid(d, id, i as int) is Some ==>
                    (#[trigger] value_at(self.rules@, id)) is Some && stored_as(last_valid(d, id, i as int)->0, value_at(self.rules@, id)->0, origin@),
            decreases n - i,
        {
            let mut rule = rev.pop().unwrap();
            let ghost r0 = d[i as int];
            assert(rule == r0);
            match rule.validate() {
                Err(e) => {
                    let mut m = origin.to_owned();
                    m.append(": rule `");
                    m.append(rule.id.as_str());
                    m.append("` skipped: ");
                    m.append(e.message().as_str());
                    let ghost before = strings_view(self.warnings@);
                    self.warnings.push(m);
                    assert(strings_view(self.warnings@) =~= before.push(origin@ + ": rule `"@ + r0.id@ + "` skipped: "@ + error_text(e@)));
                    assert forall|id: Seq<char>| #[trigger] last_valid(d, id, i + 1) == last_valid(d, id, i as int) by {}
                }
                Ok(()) => {
                    let ghost present = self.ids();
                    let exists_already = self.has(rule.id.as_str());
                    if exists_already && !builtin_origin(origin) {
                        let mut m = origin.to_owned();
                        m.append(": rule `");
                        m.append(rule.id.as_str());
                        m.append("` overrides a previously loaded rule");
                        let ghost before = strings_view(self.warnings@);
                        self.warnings.push(m);
                        assert(strings_view(self.warnings@) =~= before.push(origin@ + ": rule `"@ + r0.id@ + "` overrides a previously loaded rule"@));
                    }
                    rule.origin = origin.to_owned();
                    let ghost stored = rule;
                    let key = rule.id.clone();
                    let ghost before_rules = self.rules@;
                    put_sorted(&mut self.rules, key, rule);
                    proof {
                        assert forall|j: int| 0 <= j < self.rules@.len() implies (#[trigger] self.rules@[j]).1.id@ == self.rules@[j].0@ by {
                            let kj = self.rules@[j].0@;
                            lemma_key_index(self.rules@, kj, j);
                            assert(value_at(self.rules@, kj) is Some);
                            if kj != r0.id@ {
                                assert(value_at(before_rules, kj) is Some);
                                lemma_key_index_props(before_rules, kj);
                                let p = key_index(before_rules, kj)->0;
                                assert(before_rules[p].0@ == kj);
                            }
                        }
                        assert forall|y: Seq<char>| self.ids().contains(y) <==> present.insert(r0.id@).contains(y) by {
                            if self.ids().contains(y) {
                                let j = choose|j: int| 0 <= j < keys_of(self.rules@).len() && #[trigger] keys_of(self.rules@)[j] == y;
                                lemma_key_index(self.rules@, y, j);
                                assert(value_at(self.rules@, y) is Some);
                                if y != r0.id@ {
                                    assert(value_at(before_rules, y) is Some);
                                    lemma_key_index_props(before_rules, y);
                                    let p = key_index(before_rules, y)->0;
                                    assert(keys_of(before_rules)[p] == y);
                                }
                            }
                            if present.contains(y) && y != r0.id@ {
                                let j = choose|j: int| 0 <= j < keys_of(before_rules).len() && #[trigger] keys_of(before_rules)[j] == y;
                                lemma_key_index(before_rules, y, j);
                                assert(value_at(before_rules, y) is Some);
                                assert(value_at(self.rules@, y) is Some);
                                lemma_key_index_props(self.rules@, y);
                                let q = key_index(self.rules@, y)->0;
                                assert(keys_of(self.rules@)[q] == y);
                            }
                            if y == r0.id@ {
                                assert(value_at(self.rules@, y) is Some);
                                lemma_key_index_props(self.rules@, y);
                                let q = key_index(self.rules@, y)->0;
                                assert(keys_of(self.rules@)[q] == y);
                            }
                        }
                        assert(self.ids() =~= present.insert(r0.id@));
                    }
                }
            }
            i += 1;
        }
    }

    /// Whether a rule id is loaded.
    pub fn has(&self, id: &str) -> (r: bool)
        ensures
            r == self.ids().contains(id@),
    {
        let n = self.rules.len();
        for i in 0..n
            invariant
                n == self.rules@.len(),
                forall|j: int| 0 <= j < i ==> #[trigger] keys_of(self.rules@)[j] != id@,
        {
            if str_is(self.rules[i].0.as_str(), id) {
                assert(keys_of(self.rules@)[i as int] == id@);
                return true;
            }
        }
        false
    }

    /// Remove disabled rules by id.
    pub fn disable(&mut self, ids: &Vec<String>)
        requires
            old(self).wf(),
        ensures
            final(self).wf(),
            final(self).warnings == old(self).warnings,
            forall|id: Seq<char>| #[trigger] value_at(final(self).rules@, id)
                == if strings_view(ids@).contains(id) { None } else { value_at(old(self).rules@, id) },
    {
        let n = ids.len();
        for i in 0..n
            invariant
                n == ids@.len(),
                self.wf(),
                self.warnings == old(self).warnings,
                forall|id: Seq<char>| #[trigger] value_at(self.rules@, id)
                    == if strings_view(ids@).take(i as int).contains(id) { None } else { value_at(old(self).rules@, id) },
        {
            let ghost before = self.rules@;
            remove_key(&mut self.rules, ids[i].as_str());
            proof {
                assert(strings_view(ids@).take(i + 1) =~= strings_view(ids@).take(i as int).push(ids@[i as int]@));
                assert forall|j: int| 0 <= j < self.rules@.len() implies (#[trigger] self.rules@[j]).1.id@ == self.rules@[j].0@ by {
                    let kj = self.rules@[j].0@;
                    lemma_key_index(self.rules@, kj, j);
                    assert(value_at(self.rules@, kj) is Some);
                    assert(value_at(before, kj) is Some);
                    lemma_key_index_props(before, kj);
                    let p = key_index(before, kj)->0;
                    assert(before[p].0@ == kj);
                }
                assert forall|id: Seq<char>| #[trigger] value_at(self.rules@, id)
                    == if strings_view(ids@).take(i + 1).contains(id) { None } else { value_at(old(self).rules@, id) } by {
                    if id == ids@[i as int]@ {
                        assert(strings_view(ids@).take(i + 1)[i as int] == id);
                    } else if strings_view(ids@).take(i + 1).contains(id) {
                        let j = choose|j: int| 0 <= j < i + 1 && #[trigger] strings_view(ids@).take(i + 1)[j] == id;
                        assert(strings_view(ids@).take(i as int)[j] == id);
                    }
                }
            }
        }
        assert(strings_view(ids@).take(n as int) =~= strings_view(ids@));
    }
}

/// The verified fixture cases of one rule: how many positive cases
/// (expected findings) and negative cases (expected silence) passed.
pub struct EvidenceEntry {
    pub positives: u32,
    pub negatives: u32,
}

/// The SARIF precision tier fixture evidence supports: `high` with at
/// least two positive and two negative cases, `medium` with at least one
/// of each, `low` otherwise.
pub open spec fn precision_tier(positives: int, negatives: int) -> Seq<char> {
    if positives >= 2 && negatives >= 2 {
        "high"@
    } else if positives >= 1 && negatives >= 1 {
        "medium"@
    } else {
        "low"@
    }
}

/// The precision tier a rule's fixture evidence supports.
pub fn derive_precision(e: &EvidenceEntry) -> (r: &'static str)
    ensures
        r@ == precision_tier(e.positives as int, e.negatives as int),
{
    if e.positives >= 2 && e.negatives >= 2 {
        "high"
    } else if e.positives >= 1 && e.negatives >= 1 {
        "medium"
    } else {
        "low"
    }
}

/// The evidence recorded for a rule: the last entry with its id.
pub open spec fn evidence_for(ev: Seq<(String, EvidenceEntry)>, id: Seq<char>) -> Option<EvidenceEntry>
    decreases ev.len(),
{
    if ev.len() == 0 {
        None
    } else if ev.last().0@ == id {
        Some(ev.last().1)
    } else {
        evidence_for(ev.drop_last(), id)
    }
}

/// `b` is `a` with precision `p`.
pub open spec fn with_precision(a: RuleSpec, b: RuleSpec, p: Option<Seq<char>>) -> bool {
    &&& b == RuleSpec { precision: b.precision, ..a }
    &&& crate::state::opt_view(b.precision) == p
}

/// Where key `k` stands in a keyed list.
fn find_key<V>(v: &Vec<(String, V)>, k: &str) -> (r: Option<usize>)
    ensures
        match r {
            Some(p) => p < v@.len() && v@[p as int].0@ == k@,
            None => forall|q: int| 0 <= q < v@.len() ==> (#[trigger] v@[q]).0@ != k@,
        },
{
    let n = v.len();
    for j in 0..n
        invariant
            n == v@.len(),
            forall|q: int| 0 <= q < j ==> (#[trigger] v@[q]).0@ != k@,
    {
        if str_is(v[j].0.as_str(), k) {
            return Some(j);
        }
    }
    None
}

impl LoadedRules {
    /// Give each loaded rule with recorded fixture evidence the precision
    /// tier that evidence supports; other rules, and evidence for rules not
    /// loaded, are left alone.
    pub fn apply_evidence(&mut self, evidence: &Vec<(String, EvidenceEntry)>)
        requires
            old(self).wf(),
        ensures
            final(self).wf(),
            keys_of(final(self).rules@) == keys_of(old(self).rules@),
            final(self).warnings == old(self).warnings,
            forall|i: int| 0 <= i < old(self).rules@.len() ==> {
                let id = (#[trigger] old(self).rules@[i]).0@;
                match evidence_for(evidence@, id) {
                    Some(e) => with_precision(old(self).rules@[i].1, final(self).rules@[i].1,
                        Some(precision_tier(e.positives as int, e.negatives as int))),
                    None => final(self).rules@[i].1 == old(self).rules@[i].1,
                }
            },
    {
        let n = evidence.len();
        for k in 0..n
            invariant
                n == evidence@.len(),
                self.wf(),
                keys_of(self.rules@) == keys_of(old(self).rules@),
                self.warnings == old(self).warnings,
                self.rules@.len() == old(self).rules@.len(),
                forall|i: int| 0 <= i < old(self).rules@.len() ==> {
                    let id = (#[trigger] old(self).rules@[i]).0@;
                    match evidence_for(evidence@.take(k as int), id) {
                        Some(e) => with_precision(old(self).rules@[i].1, self.rules@[i].1,
                            Some(precision_tier(e.positives as int, e.negatives as int))),
                        None => self.rules@[i].1 == old(self).rules@[i].1,
                    }
                },
        {
            assert(evidence@.take(k + 1).drop_last() =~= evidence@.take(k as int));
            let id = evidence[k].0.as_str();
            let ghost before = self.rules@;
            let found = find_key(&self.rules, id);
            if let Some(pos) = found {
                let (key, mut rule) = self.rules.remove(pos);
                let tier = derive_precision(&evidence[k].1);
                rule.precision = Some(tier.to_owned());
                self.rules.insert(pos, (key, rule));
                proof {
                    assert(self.rules@ =~= before.update(pos as int, self.rules@[pos as int]));
                    assert(keys_of(self.rules@) =~= keys_of(before));
                }
            }
            proof {
                assert forall|i: int| 0 <= i < old(self).rules@.len() implies {
                    let id2 = (#[trigger] old(self).rules@[i]).0@;
                    match evidence_for(evidence@.take(k + 1), id2) {
                        Some(e) => with_precision(old(self).rules@[i].1, self.rules@[i].1,
                            Some(precision_tier(e.positives as int, e.negatives as int))),
                        None => self.rules@[i].1 == old(self).rules@[i].1,
                    }
                } by {
                    let id2 = old(self).rules@[i].0@;
                    assert(keys_of(old(self).rules@)[i] == keys_of(before)[i]);
                    assert(before[i].0@ == id2);
                    assert(evidence@.take(k + 1).last() == evidence@[k as int]);
                    if id2 == id@ {
                        lemma_key_index(before, id2, i);
                        let pos = found->0;
                        lemma_key_index(before, id2, pos as int);
                        assert(pos as int == i);
                    } else {
                        if found is Some {
                            assert(i != found->0 as int);
                            assert(self.rules@[i] == before[i]);
                        }
                    }
                }
                assert forall|q: int| 0 <= q < self.rules@.len() implies (#[trigger] self.rules@[q]).1.id@ == self.rules@[q].0@ by {
                    assert(before[q].1.id@ == before[q].0@);
                }
            }
        }
        assert(evidence@.take(n as int) =~= evidence@);
    }
}

/// The name of the generated evidence file inside the rule packs.
pub const EVIDENCE_FILE: &'static str = "evidence.yaml";

/// The fixture directory of a rule pack.
pub const TESTS_DIR: &'static str = "tests";

/// Rule documents are `.yaml`/`.yml` files, except the generated
/// `evidence.yaml` and anything under a pack's `tests/` directory.
pub open spec fn is_rule_path(p: Seq<char>) -> bool {
    &&& (extension_of(p) == Some("yaml"@) || extension_of(p) == Some("yml"@))
    &&& file_name(p) != "evidence.yaml"@
    &&& !crate::linker::split_on(p, '/').contains("tests"@)
}

/// Is this path a rule document?
pub fn is_rule_file(path: &str) -> (r: bool)
    ensures
        r == is_rule_path(path@),
{
    let yaml = match crate::languages::path_extension(path) {
        Some(e) => str_is(e.as_str(), "yaml") || str_is(e.as_str(), "yml"),
        None => false,
    };
    if !yaml {
        return false;
    }
    let name = crate::languages::path_file_name(path);
    if str_is(name.as_str(), EVIDENCE_FILE) {
        return false;
    }
    let cs = chars_of(path);
    let parts = crate::linker::split_chars(&cs, '/');
    let tests = chars_of(TESTS_DIR);
    let n = parts.len();
    for i in 0..n
        invariant
            n == parts@.len(),
            crate::paths::char_vecs_view(parts@) == crate::linker::split_on(path@, '/'),
            tests@ == "tests"@,
            forall|j: int| 0 <= j < i ==> #[trigger] crate::paths::char_vecs_view(parts@)[j] != "tests"@,
    {
        if crate::text::chars_eq(parts[i].as_slice(), tests.as_slice()) {
            assert(crate::paths::char_vecs_view(parts@)[i as int] == "tests"@);
            return false;
        }
    }
    true
}

} // verus!
