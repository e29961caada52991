//! The taint lattice: origins, provenance witnesses, and the per-rule taint
//! state keyed by (scope, access path).
//!
//! Taint is a set of origins per path, not a single flag, so a variable can
//! carry a real `Source` taint and a synthetic `Param` taint at once without
//! one masking the other.

use vstd::prelude::*;
use crate::findings::Span;
use crate::paths::{AccessPath, PathView, paths_overlap};

verus! {

/// Where a tainted value ultimately came from.
#[derive(Debug, Clone, Copy, PartialEq, Eq, Structural, Hash)]
pub enum Origin {
    /// Index into the rule's matched source list: a real, reportable flow.
    Source(usize),
    /// A source reached through a cross-file summary. Reportable.
    External(usize),
    /// Synthetic: the value of parameter `index` of function scope `scope`.
    /// Never reported directly; it must be stitched back to a source.
    Param { scope: usize, index: usize },
}

impl Origin {
    pub open spec fn reportable(self) -> bool {
        self is Source || self is External
    }

    pub fn is_source(&self) -> (r: bool)
        ensures
            r == self.reportable(),
    {
        match self {
            Origin::Source(_) | Origin::External(_) => true,
            Origin::Param { .. } => false,
        }
    }
}

/// Rank of an origin's variant in the origin order.
pub open spec fn variant_rank(o: Origin) -> int {
    match o {
        Origin::Source(_) => 0,
        Origin::External(_) => 1,
        Origin::Param { .. } => 2,
    }
}

/// The origin order: by variant (`Source` < `External` < `Param`), then by
/// the variant's fields.
pub open spec fn origin_lt(a: Origin, b: Origin) -> bool {
    if variant_rank(a) != variant_rank(b) {
        variant_rank(a) < variant_rank(b)
    } else {
        match (a, b) {
            (Origin::Source(x), Origin::Source(y)) => x < y,
            (Origin::External(x), Origin::External(y)) => x < y,
            (Origin::Param { scope: s1, index: i1 }, Origin::Param { scope: s2, index: i2 }) =>
                s1 < s2 || (s1 == s2 && i1 < i2),
            _ => false,
        }
    }
}

pub proof fn lemma_origin_order(a: Origin, b: Origin, c: Origin)
    ensures
        !origin_lt(a, a),
        a != b ==> (origin_lt(a, b) || origin_lt(b, a)),
        origin_lt(a, b) ==> !origin_lt(b, a),
        origin_lt(a, b) && origin_lt(b, c) ==> origin_lt(a, c),
{
}

/// Executable origin order.
pub fn origin_less(a: &Origin, b: &Origin) -> (r: bool)
    ensures
        r == origin_lt(*a, *b),
{
    match (a, b) {
        (Origin::Source(x), Origin::Source(y)) => *x < *y,
        (Origin::External(x), Origin::External(y)) => *x < *y,
        (Origin::Param { scope: s1, index: i1 }, Origin::Param { scope: s2, index: i2 }) =>
            *s1 < *s2 || (*s1 == *s2 && *i1 < *i2),
        (Origin::Source(_), _) => true,
        (Origin::External(_), Origin::Param { .. }) => true,
        _ => false,
    }
}

/// One step in a provenance trace. `file`/`snippet` are `None` for steps in
/// the file being analysed and `Some(..)` for steps imported from a
/// cross-file summary, whose source line is baked in.
#[derive(Debug)]
pub struct Step {
    pub label: String,
    pub span: Span,
    pub file: Option<String>,
    pub snippet: Option<String>,
}

/// The content of a step.
pub struct StepView {
    pub label: Seq<char>,
    pub span: Span,
    pub file: Option<Seq<char>>,
    pub snippet: Option<Seq<char>>,
}

/// The characters of an optional string.
pub open spec fn opt_view(s: Option<String>) -> Option<Seq<char>> {
    match s {
        Some(x) => Some(x@),
        None => None,
    }
}

impl View for Step {
    type V = StepView;

    open spec fn view(&self) -> StepView {
        StepView { label: self.label@, span: self.span, file: opt_view(self.file), snippet: opt_view(self.snippet) }
    }
}

/// The content of each step.
pub open spec fn steps_view(v: Seq<Step>) -> Seq<StepView> {
    v.map_values(|s: Step| s@)
}

/// A copy of an optional string.
pub fn copy_opt_string(s: &Option<String>) -> (r: Option<String>)
    ensures
        r == *s,
{
    match s {
        Some(x) => Some(x.clone()),
        None => None,
    }
}

impl Clone for Step {
    fn clone(&self) -> (r: Step)
        ensures
            r == *self,
    {
        Step {
            label: self.label.clone(),
            span: self.span,
            file: copy_opt_string(&self.file),
            snippet: copy_opt_string(&self.snippet),
        }
    }
}

impl Step {
    /// A step in the file currently being analysed.
    pub fn local(label: String, span: Span) -> (r: Step)
        ensures
            r == (Step { label, span, file: None, snippet: None }),
    {
        Step { label, span, file: None, snippet: None }
    }

    /// A step imported from a cross-file summary (file-tagged, baked snippet).
    pub fn foreign(label: String, span: Span, file: String, snippet: String) -> (r: Step)
        ensures
            r == (Step { label, span, file: Some(file), snippet: Some(snippet) }),
    {
        Step { label, span, file: Some(file), snippet: Some(snippet) }
    }
}

/// A copy of a sequence of steps.
pub fn copy_steps(v: &Vec<Step>) -> (r: Vec<Step>)
    ensures
        r@ == v@,
{
    let mut r: Vec<Step> = Vec::new();
    let n = v.len();
    for i in 0..n
        invariant
            n == v@.len(),
            r@ == v@.take(i as int),
    {
        r.push(v[i].clone());
        assert(v@.take(i + 1) =~= v@.take(i as int).push(v@[i as int]));
    }
    assert(v@.take(n as int) =~= v@);
    r
}

/// Appends copies of `more` to `v`.
pub fn extend_steps(v: &mut Vec<Step>, more: &Vec<Step>)
    ensures
        final(v)@ == old(v)@ + more@,
{
    let n = more.len();
    for i in 0..n
        invariant
            n == more@.len(),
            v@ == old(v)@ + more@.take(i as int),
    {
        v.push(more[i].clone());
        assert(more@.take(i + 1) =~= more@.take(i as int).push(more@[i as int]));
        assert(v@ =~= old(v)@ + more@.take(i + 1));
    }
    assert(more@.take(n as int) =~= more@);
}

/// How a particular origin reached a particular path.
#[derive(Debug)]
pub struct Witness {
    /// Byte at which this taint became bound in its scope. A same-scope use
    /// is only tainted if its position is strictly greater.
    pub write_byte: u32,
    pub steps: Vec<Step>,
}

/// The content of a witness.
pub struct WitnessView {
    pub write_byte: u32,
    pub steps: Seq<StepView>,
}

impl View for Witness {
    type V = WitnessView;

    open spec fn view(&self) -> WitnessView {
        WitnessView { write_byte: self.write_byte, steps: steps_view(self.steps@) }
    }
}

impl Witness {
    /// A copy with the same content.
    pub fn duplicate(&self) -> (r: Witness)
        ensures
            r@ == self@,
    {
        Witness { write_byte: self.write_byte, steps: copy_steps(&self.steps) }
    }
}

impl Clone for Witness {
    fn clone(&self) -> (r: Witness)
        ensures
            r@ == self@,
    {
        self.duplicate()
    }
}

// ---------------------------------------------------------------------------
// Origin sets
// ---------------------------------------------------------------------------

/// Entries strictly ordered by origin (so no origin occurs twice).
pub open spec fn sorted_entries(s: Seq<(Origin, Witness)>) -> bool {
    forall|i: int, j: int| 0 <= i < j < s.len() ==> origin_lt(#[trigger] s[i].0, #[trigger] s[j].0)
}

pub open spec fn has_key(s: Seq<(Origin, Witness)>, o: Origin) -> bool {
    exists|i: int| 0 <= i < s.len() && #[trigger] s[i].0 == o
}

pub open spec fn key_index(s: Seq<(Origin, Witness)>, o: Origin) -> int {
    choose|i: int| 0 <= i < s.len() && #[trigger] s[i].0 == o
}

/// The map an entry sequence denotes.
pub open spec fn entries_map(s: Seq<(Origin, Witness)>) -> Map<Origin, WitnessView> {
    Map::new(|o: Origin| has_key(s, o), |o: Origin| s[key_index(s, o)].1@)
}

pub proof fn lemma_entries_map_at(s: Seq<(Origin, Witness)>, i: int)
    requires
        sorted_entries(s),
        0 <= i < s.len(),
    ensures
        entries_map(s).contains_key(s[i].0),
        entries_map(s)[s[i].0] == s[i].1@,
{
    let o = s[i].0;
    assert(has_key(s, o));
    let j = key_index(s, o);
    if j != i {
        if j < i {
            assert(origin_lt(s[j].0, s[i].0));
        } else {
            assert(origin_lt(s[i].0, s[j].0));
        }
        lemma_origin_order(o, o, o);
    }
}

/// Replacing the witness at an existing key updates the map at that key.
pub proof fn lemma_entries_update(s: Seq<(Origin, Witness)>, i: int, w: Witness)
    requires
        sorted_entries(s),
        0 <= i < s.len(),
    ensures
        sorted_entries(s.update(i, (s[i].0, w))),
        entries_map(s.update(i, (s[i].0, w))) == entries_map(s).insert(s[i].0, w@),
{
    let t = s.update(i, (s[i].0, w));
    assert(sorted_entries(t)) by {
        assert forall|a: int, b: int| 0 <= a < b < t.len() implies origin_lt(#[trigger] t[a].0, #[trigger] t[b].0) by {
            assert(t[a].0 == s[a].0 && t[b].0 == s[b].0);
        }
    }
    assert forall|o: Origin| #![auto] entries_map(t).contains_key(o) == entries_map(s).insert(s[i].0, w@).contains_key(o) by {
        if has_key(s, o) {
            let j = choose|j: int| 0 <= j < s.len() && #[trigger] s[j].0 == o;
            assert(t[j].0 == o);
        }
        if has_key(t, o) {
            let j = choose|j: int| 0 <= j < t.len() && #[trigger] t[j].0 == o;
            assert(s[j].0 == o);
        }
    }
    assert forall|o: Origin| #[trigger] entries_map(t).contains_key(o) implies entries_map(t)[o] == entries_map(s).insert(s[i].0, w@)[o] by {
        let j = choose|j: int| 0 <= j < t.len() && #[trigger] t[j].0 == o;
        lemma_entries_map_at(t, j);
        if j != i {
            assert(s[j].0 == o);
            lemma_entries_map_at(s, j);
            lemma_origin_order(s[i].0, s[j].0, s[j].0);
            if j < i { assert(origin_lt(s[j].0, s[i].0)); } else { assert(origin_lt(s[i].0, s[j].0)); }
        }
    }
    assert(entries_map(t) =~= entries_map(s).insert(s[i].0, w@));
}

/// Inserting a fresh key at its ordered position adds it to the map.
pub proof fn lemma_entries_insert(s: Seq<(Origin, Witness)>, i: int, o: Origin, w: Witness)
    requires
        sorted_entries(s),
        0 <= i <= s.len(),
        forall|j: int| 0 <= j < i ==> origin_lt(#[trigger] s[j].0, o),
        forall|j: int| i <= j < s.len() ==> origin_lt(o, #[trigger] s[j].0),
    ensures
        sorted_entries(s.insert(i, (o, w))),
        entries_map(s.insert(i, (o, w))) == entries_map(s).insert(o, w@),
        !entries_map(s).contains_key(o),
{
    let t = s.insert(i, (o, w));
    assert(sorted_entries(t)) by {
        assert forall|a: int, b: int| 0 <= a < b < t.len() implies origin_lt(#[trigger] t[a].0, #[trigger] t[b].0) by {
            if a < i && b > i {
                lemma_origin_order(s[a].0, o, s[b - 1].0);
            }
        }
    }
    assert(!has_key(s, o)) by {
        if has_key(s, o) {
            let j = choose|j: int| 0 <= j < s.len() && #[trigger] s[j].0 == o;
            lemma_origin_order(o, o, o);
            if j < i { assert(origin_lt(s[j].0, o)); } else { assert(origin_lt(o, s[j].0)); }
        }
    }
    assert forall|q: Origin| #![auto] entries_map(t).contains_key(q) == entries_map(s).insert(o, w@).contains_key(q) by {
        if has_key(s, q) {
            let j = choose|j: int| 0 <= j < s.len() && #[trigger] s[j].0 == q;
            if j < i { assert(t[j].0 == q); } else { assert(t[j + 1].0 == q); }
        }
        if q == o {
            assert(t[i].0 == o);
        }
        if has_key(t, q) {
            let j = choose|j: int| 0 <= j < t.len() && #[trigger] t[j].0 == q;
            if j < i { assert(s[j].0 == q); } else if j > i { assert(s[j - 1].0 == q); }
        }
    }
    assert forall|q: Origin| #[trigger] entries_map(t).contains_key(q) implies entries_map(t)[q] == entries_map(s).insert(o, w@)[q] by {
        let j = choose|j: int| 0 <= j < t.len() && #[trigger] t[j].0 == q;
        lemma_entries_map_at(t, j);
        if j < i {
            lemma_entries_map_at(s, j);
        } else if j > i {
            lemma_entries_map_at(s, j - 1);
        }
    }
    assert(entries_map(t) =~= entries_map(s).insert(o, w@));
}

/// A set of origins with their witnesses, kept in origin order.
#[derive(Debug)]
pub struct Origins {
    pub entries: Vec<(Origin, Witness)>,
}

impl View for Origins {
    type V = Map<Origin, WitnessView>;

    open spec fn view(&self) -> Map<Origin, WitnessView> {
        entries_map(self.entries@)
    }
}

impl Origins {
    pub open spec fn wf(&self) -> bool {
        sorted_entries(self.entries@)
    }

    pub fn new() -> (r: Origins)
        ensures
            r.wf(),
            r@ == Map::<Origin, WitnessView>::empty(),
            r.entries@.len() == 0,
    {
        let r = Origins { entries: Vec::new() };
        assert(r@ =~= Map::<Origin, WitnessView>::empty());
        r
    }

    pub fn len(&self) -> (n: usize)
        ensures
            n == self.entries@.len(),
    {
        self.entries.len()
    }

    pub fn is_empty(&self) -> (r: bool)
        requires
            self.wf(),
        ensures
            r == (self.entries@.len() == 0),
            r == (self@ == Map::<Origin, WitnessView>::empty()),
    {
        proof {
            if self.entries@.len() > 0 {
                lemma_entries_map_at(self.entries@, 0);
            } else {
                assert(self@ =~= Map::<Origin, WitnessView>::empty());
            }
        }
        self.entries.len() == 0
    }

    /// Position of `o` among the entries, if present.
    pub fn find(&self, o: &Origin) -> (r: Option<usize>)
        requires
            self.wf(),
        ensures
            match r {
                Some(i) => i < self.entries@.len() && self.entries@[i as int].0 == *o,
                None => !self@.contains_key(*o),
            },
    {
        let n = self.entries.len();
        for i in 0..n
            invariant
                n == self.entries@.len(),
                forall|j: int| 0 <= j < i ==> #[trigger] self.entries@[j].0 != *o,
        {
            if self.entries[i].0 == *o {
                return Some(i);
            }
        }
        proof {
            if self@.contains_key(*o) {
                let j = choose|j: int| 0 <= j < self.entries@.len() && #[trigger] self.entries@[j].0 == *o;
                assert(self.entries@[j].0 == *o);
            }
        }
        None
    }

    /// Whether `o` is present.
    pub fn contains(&self, o: &Origin) -> (r: bool)
        requires
            self.wf(),
        ensures
            r == self@.contains_key(*o),
    {
        match self.find(o) {
            Some(i) => {
                proof { lemma_entries_map_at(self.entries@, i as int); }
                true
            },
            None => false,
        }
    }

    /// Set the witness of `o` (replacing any previous one), keeping the
    /// entries in origin order.
    pub fn insert(&mut self, o: Origin, w: Witness)
        requires
            old(self).wf(),
        ensures
            final(self).wf(),
            final(self)@ == old(self)@.insert(o, w@),
    {
        let n = self.entries.len();
        let mut i: usize = 0;
        while i < n && origin_less(&self.entries[i].0, &o)
            invariant
                i <= n,
                n == self.entries@.len(),
                forall|j: int| 0 <= j < i ==> origin_lt(#[trigger] self.entries@[j].0, o),
            decreases n - i,
        {
            i = i + 1;
        }
        if i < n && self.entries[i].0 == o {
            proof { lemma_entries_update(self.entries@, i as int, w); }
            self.entries.set(i, (o, w));
        } else {
            proof {
                assert forall|j: int| i <= j < self.entries@.len() implies origin_lt(o, #[trigger] self.entries@[j].0) by {
                    lemma_origin_order(o, self.entries@[i as int].0, self.entries@[j].0);
                    if j > i {
                        assert(origin_lt(self.entries@[i as int].0, self.entries@[j].0));
                    }
                }
                lemma_entries_insert(self.entries@, i as int, o, w);
            }
            self.entries.insert(i, (o, w));
        }
    }

    /// Add `o` only if absent (`entry(o).or_insert(w)`).
    pub fn insert_if_absent(&mut self, o: Origin, w: Witness)
        requires
            old(self).wf(),
        ensures
            final(self).wf(),
            final(self)@ == (if old(self)@.contains_key(o) { old(self)@ } else { old(self)@.insert(o, w@) }),
    {
        if !self.contains(&o) {
            self.insert(o, w);
        }
    }

    /// A copy with the same entries.
    pub fn duplicate(&self) -> (r: Origins)
        requires
            self.wf(),
        ensures
            r.wf(),
            r.entries@.len() == self.entries@.len(),
            forall|i: int| 0 <= i < self.entries@.len() ==>
                (#[trigger] r.entries@[i]).0 == self.entries@[i].0 && r.entries@[i].1@ == self.entries@[i].1@,
            r@ == self@,
    {
        let mut v: Vec<(Origin, Witness)> = Vec::new();
        let n = self.entries.len();
        for i in 0..n
            invariant
                n == self.entries@.len(),
                v@.len() == i,
                forall|j: int| 0 <= j < i ==>
                    (#[trigger] v@[j]).0 == self.entries@[j].0 && v@[j].1@ == self.entries@[j].1@,
        {
            let e = &self.entries[i];
            v.push((e.0, e.1.duplicate()));
        }
        let r = Origins { entries: v };
        proof {
            assert(sorted_entries(r.entries@)) by {
                assert forall|a: int, b: int| 0 <= a < b < r.entries@.len() implies origin_lt(#[trigger] r.entries@[a].0, #[trigger] r.entries@[b].0) by {
                    assert(r.entries@[a].0 == self.entries@[a].0);
                    assert(r.entries@[b].0 == self.entries@[b].0);
                }
            }
            assert forall|o: Origin| #![auto] r@.contains_key(o) == self@.contains_key(o) by {
                if has_key(r.entries@, o) {
                    let j = choose|j: int| 0 <= j < r.entries@.len() && #[trigger] r.entries@[j].0 == o;
                    assert(self.entries@[j].0 == o);
                }
                if has_key(self.entries@, o) {
                    let j = choose|j: int| 0 <= j < self.entries@.len() && #[trigger] self.entries@[j].0 == o;
                    assert(r.entries@[j].0 == o);
                }
            }
            assert forall|o: Origin| #[trigger] r@.contains_key(o) implies r@[o] == self@[o] by {
                let j = choose|j: int| 0 <= j < r.entries@.len() && #[trigger] r.entries@[j].0 == o;
                lemma_entries_map_at(r.entries@, j);
                assert(self.entries@[j].0 == o);
                lemma_entries_map_at(self.entries@, j);
            }
            assert(r@ =~= self@);
        }
        r
    }
}


/// Entries of a sorted sequence, one position longer.
pub proof fn lemma_entries_take_step(s: Seq<(Origin, Witness)>, i: int)
    requires
        sorted_entries(s),
        0 <= i < s.len(),
    ensures
        entries_map(s.take(i + 1)) == entries_map(s.take(i)).insert(s[i].0, s[i].1@),
        !entries_map(s.take(i)).contains_key(s[i].0),
{
    let t = s.take(i);
    assert(sorted_entries(t));
    assert(t.insert(i, s[i]) =~= s.take(i + 1));
    lemma_entries_insert(t, i, s[i].0, s[i].1);
}

/// The content of each entry.
pub open spec fn view_entries(s: Seq<(Origin, Witness)>) -> Seq<(Origin, WitnessView)> {
    s.map_values(|e: (Origin, Witness)| (e.0, e.1@))
}

pub open spec fn sorted_views(s: Seq<(Origin, WitnessView)>) -> bool {
    forall|i: int, j: int| 0 <= i < j < s.len() ==> origin_lt(#[trigger] s[i].0, #[trigger] s[j].0)
}

/// The map a sequence of entry views denotes.
pub open spec fn vmap(s: Seq<(Origin, WitnessView)>) -> Map<Origin, WitnessView> {
    Map::new(
        |o: Origin| exists|i: int| 0 <= i < s.len() && #[trigger] s[i].0 == o,
        |o: Origin| s[choose|i: int| 0 <= i < s.len() && #[trigger] s[i].0 == o].1,
    )
}

/// The entries of `m` in origin order.
pub open spec fn ordered(m: Map<Origin, WitnessView>) -> Seq<(Origin, WitnessView)> {
    choose|s: Seq<(Origin, WitnessView)>| sorted_views(s) && vmap(s) == m
}

pub proof fn lemma_vmap_at(s: Seq<(Origin, WitnessView)>, i: int)
    requires
        sorted_views(s),
        0 <= i < s.len(),
    ensures
        vmap(s).contains_key(s[i].0),
        vmap(s)[s[i].0] == s[i].1,
{
    let o = s[i].0;
    assert(exists|k: int| 0 <= k < s.len() && #[trigger] s[k].0 == o);
    let j = choose|k: int| 0 <= k < s.len() && #[trigger] s[k].0 == o;
    if j < i {
        assert(origin_lt(s[j].0, s[i].0));
        lemma_origin_order(o, o, o);
    } else if j > i {
        assert(origin_lt(s[i].0, s[j].0));
        lemma_origin_order(o, o, o);
    }
}

proof fn lemma_vmap_drop_first(s: Seq<(Origin, WitnessView)>)
    requires
        sorted_views(s),
        s.len() > 0,
    ensures
        sorted_views(s.drop_first()),
        vmap(s.drop_first()) == vmap(s).remove(s[0].0),
{
    let t = s.drop_first();
    assert(sorted_views(t)) by {
        assert forall|a: int, b: int| 0 <= a < b < t.len() implies origin_lt(#[trigger] t[a].0, #[trigger] t[b].0) by {
            assert(t[a] == s[a + 1] && t[b] == s[b + 1]);
        }
    }
    assert forall|q: Origin| #![auto] vmap(t).contains_key(q) == vmap(s).remove(s[0].0).contains_key(q) by {
        if vmap(t).contains_key(q) {
            let k = choose|k: int| 0 <= k < t.len() && #[trigger] t[k].0 == q;
            assert(s[k + 1].0 == q);
            assert(origin_lt(s[0].0, s[k + 1].0));
            lemma_origin_order(q, q, q);
        }
        if vmap(s).remove(s[0].0).contains_key(q) {
            let k = choose|k: int| 0 <= k < s.len() && #[trigger] s[k].0 == q;
            assert(k != 0);
            assert(t[k - 1].0 == q);
        }
    }
    assert forall|q: Origin| #[trigger] vmap(t).contains_key(q) implies vmap(t)[q] == vmap(s).remove(s[0].0)[q] by {
        let k = choose|k: int| 0 <= k < t.len() && #[trigger] t[k].0 == q;
        lemma_vmap_at(t, k);
        lemma_vmap_at(s, k + 1);
    }
    assert(vmap(t) =~= vmap(s).remove(s[0].0));
}

/// A sorted entry sequence is determined by the map it denotes.
pub proof fn lemma_sorted_unique(s1: Seq<(Origin, WitnessView)>, s2: Seq<(Origin, WitnessView)>)
    requires
        sorted_views(s1),
        sorted_views(s2),
        vmap(s1) == vmap(s2),
    ensures
        s1 == s2,
    decreases s1.len(),
{
    if s1.len() == 0 {
        if s2.len() > 0 {
            lemma_vmap_at(s2, 0);
        }
        assert(s1 =~= s2);
    } else {
        lemma_vmap_at(s1, 0);
        if s2.len() == 0 {
            assert(!vmap(s2).contains_key(s1[0].0));
        }
        let j = choose|k: int| 0 <= k < s2.len() && #[trigger] s2[k].0 == s1[0].0;
        lemma_vmap_at(s2, 0);
        let i = choose|k: int| 0 <= k < s1.len() && #[trigger] s1[k].0 == s2[0].0;
        if j > 0 {
            assert(origin_lt(s2[0].0, s2[j].0));
            if i > 0 {
                assert(origin_lt(s1[0].0, s1[i].0));
                lemma_origin_order(s1[0].0, s2[0].0, s1[0].0);
            } else {
                lemma_origin_order(s1[0].0, s1[0].0, s1[0].0);
            }
        }
        assert(s2[0].0 == s1[0].0);
        lemma_vmap_at(s1, 0);
        lemma_vmap_at(s2, 0);
        lemma_vmap_drop_first(s1);
        lemma_vmap_drop_first(s2);
        lemma_sorted_unique(s1.drop_first(), s2.drop_first());
        assert(s1 =~= s2) by {
            assert forall|k: int| 0 <= k < s1.len() implies s1[k] == s2[k] by {
                if k > 0 {
                    assert(s1[k] == s1.drop_first()[k - 1]);
                    assert(s2[k] == s2.drop_first()[k - 1]);
                }
            }
        }
    }
}

/// The entries of a well-formed origin set are its map in origin order.
pub proof fn lemma_ordered(s: Seq<(Origin, Witness)>)
    requires
        sorted_entries(s),
    ensures
        view_entries(s) == ordered(entries_map(s)),
        sorted_views(view_entries(s)),
        vmap(view_entries(s)) == entries_map(s),
{
    let v = view_entries(s);
    assert(sorted_views(v)) by {
        assert forall|a: int, b: int| 0 <= a < b < v.len() implies origin_lt(#[trigger] v[a].0, #[trigger] v[b].0) by {
            assert(v[a].0 == s[a].0 && v[b].0 == s[b].0);
        }
    }
    assert forall|q: Origin| #![auto] vmap(v).contains_key(q) == entries_map(s).contains_key(q) by {
        if vmap(v).contains_key(q) {
            let k = choose|k: int| 0 <= k < v.len() && #[trigger] v[k].0 == q;
            assert(s[k].0 == q);
        }
        if entries_map(s).contains_key(q) {
            let k = choose|k: int| 0 <= k < s.len() && #[trigger] s[k].0 == q;
            assert(v[k].0 == q);
        }
    }
    assert forall|q: Origin| #[trigger] vmap(v).contains_key(q) implies vmap(v)[q] == entries_map(s)[q] by {
        let k = choose|k: int| 0 <= k < v.len() && #[trigger] v[k].0 == q;
        lemma_vmap_at(v, k);
        lemma_entries_map_at(s, k);
    }
    assert(vmap(v) =~= entries_map(s));
    let c = ordered(entries_map(s));
    assert(sorted_views(c) && vmap(c) == entries_map(s));
    lemma_sorted_unique(v, c);
}

/// `dst` merged with `src`: every origin of either; where both have one,
/// the witness with the smaller write byte, and `dst`'s on a tie.
pub open spec fn merge_map(d: Map<Origin, WitnessView>, s: Map<Origin, WitnessView>) -> Map<Origin, WitnessView> {
    Map::new(
        |o: Origin| d.contains_key(o) || s.contains_key(o),
        |o: Origin| if s.contains_key(o) && (!d.contains_key(o) || s[o].write_byte < d[o].write_byte) { s[o] } else { d[o] },
    )
}

/// Merge `src` into `dst`, keeping the earliest witness per origin. Returns
/// true if `dst` gained a new origin (drives the fixpoint's change flag).
pub fn merge_origins(dst: &mut Origins, src: &Origins) -> (changed: bool)
    requires
        old(dst).wf(),
        src.wf(),
    ensures
        final(dst).wf(),
        final(dst)@ == merge_map(old(dst)@, src@),
        changed == exists|o: Origin| src@.contains_key(o) && !old(dst)@.contains_key(o),
{
    let ghost d0 = dst@;
    let mut changed = false;
    let n = src.entries.len();
    assert(entries_map(src.entries@.take(0)) =~= Map::<Origin, WitnessView>::empty());
    assert(merge_map(d0, Map::<Origin, WitnessView>::empty()) =~= d0);
    for i in 0..n
        invariant
            n == src.entries@.len(),
            src.wf(),
            dst.wf(),
            dst@ == merge_map(d0, entries_map(src.entries@.take(i as int))),
            changed == exists|o: Origin| entries_map(src.entries@.take(i as int)).contains_key(o) && !d0.contains_key(o),
    {
        let ghost m = entries_map(src.entries@.take(i as int));
        proof { lemma_entries_take_step(src.entries@, i as int); }
        let o = src.entries[i].0;
        let w = &src.entries[i].1;
        let ghost m2 = m.insert(o, w@);
        match dst.find(&o) {
            Some(k) => {
                proof { lemma_entries_map_at(dst.entries@, k as int); }
                if w.write_byte < dst.entries[k].1.write_byte {
                    let nw = w.duplicate();
                    proof { lemma_entries_update(dst.entries@, k as int, nw); }
                    dst.entries.set(k, (o, nw));
                }
                assert(dst@ =~= merge_map(d0, m2));
                assert((exists|q: Origin| m2.contains_key(q) && !d0.contains_key(q)) == (exists|q: Origin| m.contains_key(q) && !d0.contains_key(q))) by {
                    if exists|q: Origin| m2.contains_key(q) && !d0.contains_key(q) {
                        let q = choose|q: Origin| m2.contains_key(q) && !d0.contains_key(q);
                        assert(m.contains_key(q));
                    }
                }
            },
            None => {
                dst.insert(o, w.duplicate());
                changed = true;
                assert(dst@ =~= merge_map(d0, m2));
                assert(m2.contains_key(o) && !d0.contains_key(o));
            },
        }
    }
    assert(src.entries@.take(n as int) =~= src.entries@);
    changed
}

/// Keep the witness already held for `e.0` unless `e`'s is strictly earlier.
pub open spec fn keep_earliest(m: Map<Origin, WitnessView>, e: (Origin, WitnessView)) -> Map<Origin, WitnessView> {
    if m.contains_key(e.0) && m[e.0].write_byte <= e.1.write_byte {
        m
    } else {
        m.insert(e.0, e.1)
    }
}

/// `keep_earliest` applied to each candidate in turn.
pub open spec fn fold_earliest(m: Map<Origin, WitnessView>, c: Seq<(Origin, WitnessView)>) -> Map<Origin, WitnessView>
    decreases c.len(),
{
    if c.len() == 0 {
        m
    } else {
        keep_earliest(fold_earliest(m, c.drop_last()), c.last())
    }
}

/// One cell of the taint state: the origins bound to `path` in `scope`.
#[derive(Debug)]
pub struct Cell {
    pub scope: usize,
    pub path: AccessPath,
    pub origins: Origins,
}

/// Per-rule taint state: (scope, access path) cells, each holding a set of
/// origins. Cells are few per file, so lookup is a linear scan.
#[derive(Debug)]
pub struct TaintState {
    pub cells: Vec<Cell>,
}

/// Whether cell `c` is the one for `(scope, path)`.
pub open spec fn cell_is(c: Cell, scope: usize, path: PathView) -> bool {
    c.scope == scope && c.path@ == path
}

/// Candidates contributed by one cell's entries, in order; late same-scope
/// writes are skipped when `same_scope` holds.
pub open spec fn entry_cands(es: Seq<(Origin, Witness)>, same_scope: bool, use_byte: u32) -> Seq<(Origin, WitnessView)>
    decreases es.len(),
{
    if es.len() == 0 {
        Seq::empty()
    } else {
        let prev = entry_cands(es.drop_last(), same_scope, use_byte);
        let e = es.last();
        if same_scope && e.1.write_byte >= use_byte {
            prev
        } else {
            prev.push((e.0, e.1@))
        }
    }
}

/// Candidates from the cells of scope `s` whose path overlaps `path`.
pub open spec fn scope_cands(cells: Seq<Cell>, s: usize, use_scope: usize, path: PathView, use_byte: u32) -> Seq<(Origin, WitnessView)>
    decreases cells.len(),
{
    if cells.len() == 0 {
        Seq::empty()
    } else {
        let c = cells.last();
        scope_cands(cells.drop_last(), s, use_scope, path, use_byte) + (if c.scope == s && paths_overlap(c.path@, path) {
            entry_cands(c.origins.entries@, s == use_scope, use_byte)
        } else {
            Seq::empty()
        })
    }
}

/// Candidates over a scope chain, innermost scope first.
pub open spec fn chain_cands(cells: Seq<Cell>, chain: Seq<usize>, use_scope: usize, path: PathView, use_byte: u32) -> Seq<(Origin, WitnessView)>
    decreases chain.len(),
{
    if chain.len() == 0 {
        Seq::empty()
    } else {
        chain_cands(cells, chain.drop_last(), use_scope, path, use_byte) + scope_cands(cells, chain.last(), use_scope, path, use_byte)
    }
}

/// The origins visible to a use of `path` at `use_byte` in `use_scope`:
/// every witnessed binding in a chain scope on an overlapping path, except
/// same-scope bindings written at or after the use; per origin, the
/// earliest-written witness (the first such on a tie).
pub open spec fn visible_map(cells: Seq<Cell>, chain: Seq<usize>, use_scope: usize, path: PathView, use_byte: u32) -> Map<Origin, WitnessView> {
    fold_earliest(Map::empty(), chain_cands(cells, chain, use_scope, path, use_byte))
}

/// Some candidate carries origin `o`.
pub open spec fn has_origin(c: Seq<(Origin, WitnessView)>, o: Origin) -> bool {
    exists|i: int| 0 <= i < c.len() && (#[trigger] c[i]).0 == o
}

/// Entry `e` of cell `c` reaches a use of `path` at `use_byte` in
/// `use_scope` through chain scope `k`: the cell belongs to that scope,
/// its path overlaps the use's, the entry carries `o`, and it is not a
/// same-scope write at or after the use.
pub open spec fn reaches(cells: Seq<Cell>, chain: Seq<usize>, k: int, c: int, e: int, use_scope: usize, path: PathView, use_byte: u32, o: Origin) -> bool {
    &&& 0 <= k < chain.len()
    &&& 0 <= c < cells.len()
    &&& 0 <= e < cells[c].origins.entries@.len()
    &&& cells[c].scope == chain[k]
    &&& paths_overlap(cells[c].path@, path)
    &&& cells[c].origins.entries@[e].0 == o
    &&& !(chain[k] == use_scope && cells[c].origins.entries@[e].1.write_byte >= use_byte)
}

proof fn lemma_has_origin_concat(a: Seq<(Origin, WitnessView)>, b: Seq<(Origin, WitnessView)>, o: Origin)
    ensures
        has_origin(a + b, o) <==> has_origin(a, o) || has_origin(b, o),
{
    if has_origin(a + b, o) {
        let i = choose|i: int| 0 <= i < (a + b).len() && (#[trigger] (a + b)[i]).0 == o;
        if i >= a.len() { assert(b[i - a.len()] == (a + b)[i]); }
    }
    if has_origin(a, o) {
        let i = choose|i: int| 0 <= i < a.len() && (#[trigger] a[i]).0 == o;
        assert((a + b)[i] == a[i]);
    }
    if has_origin(b, o) {
        let i = choose|i: int| 0 <= i < b.len() && (#[trigger] b[i]).0 == o;
        assert((a + b)[a.len() + i] == b[i]);
    }
}

proof fn lemma_fold_keys(m: Map<Origin, WitnessView>, c: Seq<(Origin, WitnessView)>, o: Origin)
    ensures
        fold_earliest(m, c).contains_key(o) <==> m.contains_key(o) || has_origin(c, o),
    decreases c.len(),
{
    if c.len() > 0 {
        lemma_fold_keys(m, c.drop_last(), o);
        lemma_has_origin_concat(c.drop_last(), seq![c.last()], o);
        assert(c.drop_last() + seq![c.last()] =~= c);
        if has_origin(seq![c.last()], o) {
            let i = choose|i: int| 0 <= i < 1 && (#[trigger] seq![c.last()][i]).0 == o;
            assert(seq![c.last()][i] == c.last());
        }
        if c.last().0 == o {
            assert(seq![c.last()][0].0 == o);
        }
    }
}

proof fn lemma_entry_cands(es: Seq<(Origin, Witness)>, same_scope: bool, use_byte: u32, o: Origin)
    ensures
        has_origin(entry_cands(es, same_scope, use_byte), o) <==>
            exists|e: int| 0 <= e < es.len() && (#[trigger] es[e]).0 == o && !(same_scope && es[e].1.write_byte >= use_byte),
    decreases es.len(),
{
    if es.len() > 0 {
        let prev = entry_cands(es.drop_last(), same_scope, use_byte);
        lemma_entry_cands(es.drop_last(), same_scope, use_byte, o);
        let last = es.last();
        if !(same_scope && last.1.write_byte >= use_byte) {
            lemma_has_origin_concat(prev, seq![(last.0, last.1@)], o);
            assert(prev.push((last.0, last.1@)) =~= prev + seq![(last.0, last.1@)]);
            if has_origin(seq![(last.0, last.1@)], o) {
                let i = choose|i: int| 0 <= i < 1 && (#[trigger] seq![(last.0, last.1@)][i]).0 == o;
                assert(seq![(last.0, last.1@)][i].0 == last.0);
            }
            if last.0 == o {
                assert(seq![(last.0, last.1@)][0].0 == o);
            }
        }
        if exists|e: int| 0 <= e < es.len() && (#[trigger] es[e]).0 == o && !(same_scope && es[e].1.write_byte >= use_byte) {
            let e = choose|e: int| 0 <= e < es.len() && (#[trigger] es[e]).0 == o && !(same_scope && es[e].1.write_byte >= use_byte);
            if e < es.len() - 1 {
                assert(es.drop_last()[e] == es[e]);
            }
        }
        if exists|e: int| 0 <= e < es.len() - 1 && (#[trigger] es.drop_last()[e]).0 == o && !(same_scope && es.drop_last()[e].1.write_byte >= use_byte) {
            let e = choose|e: int| 0 <= e < es.len() - 1 && (#[trigger] es.drop_last()[e]).0 == o && !(same_scope && es.drop_last()[e].1.write_byte >= use_byte);
            assert(es[e] == es.drop_last()[e]);
        }
    }
}

proof fn lemma_scope_cands(cells: Seq<Cell>, s: usize, use_scope: usize, path: PathView, use_byte: u32, o: Origin)
    ensures
        has_origin(scope_cands(cells, s, use_scope, path, use_byte), o) <==>
            exists|c: int, e: int| 0 <= c < cells.len() && 0 <= e < cells[c].origins.entries@.len()
                && (#[trigger] cells[c].origins.entries@[e]).0 == o
                && cells[c].scope == s && paths_overlap(cells[c].path@, path)
                && !(s == use_scope && cells[c].origins.entries@[e].1.write_byte >= use_byte),
    decreases cells.len(),
{
    if cells.len() > 0 {
        let init = cells.drop_last();
        let c = cells.last();
        lemma_scope_cands(init, s, use_scope, path, use_byte, o);
        let tail = if c.scope == s && paths_overlap(c.path@, path) {
            entry_cands(c.origins.entries@, s == use_scope, use_byte)
        } else {
            Seq::empty()
        };
        lemma_has_origin_concat(scope_cands(init, s, use_scope, path, use_byte), tail, o);
        lemma_entry_cands(c.origins.entries@, s == use_scope, use_byte, o);
        let last = cells.len() - 1;
        assert(cells[last] == c);
        assert forall|i: int, e: int| 0 <= i < init.len() && 0 <= e < init[i].origins.entries@.len() implies
            #[trigger] init[i].origins.entries@[e] == cells[i].origins.entries@[e] by {
            assert(init[i] == cells[i]);
        }
        if exists|i: int, e: int| 0 <= i < cells.len() && 0 <= e < cells[i].origins.entries@.len()
                && (#[trigger] cells[i].origins.entries@[e]).0 == o
                && cells[i].scope == s && paths_overlap(cells[i].path@, path)
                && !(s == use_scope && cells[i].origins.entries@[e].1.write_byte >= use_byte) {
            let (i, e) = choose|i: int, e: int| 0 <= i < cells.len() && 0 <= e < cells[i].origins.entries@.len()
                && (#[trigger] cells[i].origins.entries@[e]).0 == o
                && cells[i].scope == s && paths_overlap(cells[i].path@, path)
                && !(s == use_scope && cells[i].origins.entries@[e].1.write_byte >= use_byte);
            if i < last {
                assert(init[i] == cells[i]);
                assert(init[i].origins.entries@[e].0 == o);
            } else {
                assert(c.origins.entries@[e].0 == o);
            }
        }
        if exists|i: int, e: int| 0 <= i < init.len() && 0 <= e < init[i].origins.entries@.len()
                && (#[trigger] init[i].origins.entries@[e]).0 == o
                && init[i].scope == s && paths_overlap(init[i].path@, path)
                && !(s == use_scope && init[i].origins.entries@[e].1.write_byte >= use_byte) {
            let (i, e) = choose|i: int, e: int| 0 <= i < init.len() && 0 <= e < init[i].origins.entries@.len()
                && (#[trigger] init[i].origins.entries@[e]).0 == o
                && init[i].scope == s && paths_overlap(init[i].path@, path)
                && !(s == use_scope && init[i].origins.entries@[e].1.write_byte >= use_byte);
            assert(init[i] == cells[i]);
            assert(cells[i].origins.entries@[e].0 == o);
        }
        if exists|e: int| 0 <= e < c.origins.entries@.len() && (#[trigger] c.origins.entries@[e]).0 == o
                && !(s == use_scope && c.origins.entries@[e].1.write_byte >= use_byte) {
            let e = choose|e: int| 0 <= e < c.origins.entries@.len() && (#[trigger] c.origins.entries@[e]).0 == o
                && !(s == use_scope && c.origins.entries@[e].1.write_byte >= use_byte);
            if c.scope == s && paths_overlap(c.path@, path) {
                assert(cells[last].origins.entries@[e].0 == o);
            }
        }
    }
}

proof fn lemma_chain_cands(cells: Seq<Cell>, chain: Seq<usize>, use_scope: usize, path: PathView, use_byte: u32, o: Origin)
    ensures
        has_origin(chain_cands(cells, chain, use_scope, path, use_byte), o) <==>
            exists|k: int, c: int, e: int| #[trigger] reaches(cells, chain, k, c, e, use_scope, path, use_byte, o),
    decreases chain.len(),
{
    if chain.len() > 0 {
        let init = chain.drop_last();
        let s = chain.last();
        lemma_chain_cands(cells, init, use_scope, path, use_byte, o);
        lemma_scope_cands(cells, s, use_scope, path, use_byte, o);
        lemma_has_origin_concat(chain_cands(cells, init, use_scope, path, use_byte), scope_cands(cells, s, use_scope, path, use_byte), o);
        if exists|k: int, c: int, e: int| #[trigger] reaches(cells, chain, k, c, e, use_scope, path, use_byte, o) {
            let (k, c, e) = choose|k: int, c: int, e: int| #[trigger] reaches(cells, chain, k, c, e, use_scope, path, use_byte, o);
            if k < chain.len() - 1 {
                assert(init[k] == chain[k]);
                assert(reaches(cells, init, k, c, e, use_scope, path, use_byte, o));
            } else {
                assert(cells[c].origins.entries@[e].0 == o);
            }
        }
        if exists|k: int, c: int, e: int| #[trigger] reaches(cells, init, k, c, e, use_scope, path, use_byte, o) {
            let (k, c, e) = choose|k: int, c: int, e: int| #[trigger] reaches(cells, init, k, c, e, use_scope, path, use_byte, o);
            assert(init[k] == chain[k]);
            assert(reaches(cells, chain, k, c, e, use_scope, path, use_byte, o));
        }
        if exists|c: int, e: int| 0 <= c < cells.len() && 0 <= e < cells[c].origins.entries@.len()
                && (#[trigger] cells[c].origins.entries@[e]).0 == o
                && cells[c].scope == s && paths_overlap(cells[c].path@, path)
                && !(s == use_scope && cells[c].origins.entries@[e].1.write_byte >= use_byte) {
            let (c, e) = choose|c: int, e: int| 0 <= c < cells.len() && 0 <= e < cells[c].origins.entries@.len()
                && (#[trigger] cells[c].origins.entries@[e]).0 == o
                && cells[c].scope == s && paths_overlap(cells[c].path@, path)
                && !(s == use_scope && cells[c].origins.entries@[e].1.write_byte >= use_byte);
            assert(reaches(cells, chain, chain.len() - 1, c, e, use_scope, path, use_byte, o));
        }
    }
}

/// Folding keeps, per origin, a witness written no later than any
/// candidate's.
proof fn lemma_fold_min(m: Map<Origin, WitnessView>, c: Seq<(Origin, WitnessView)>, i: int)
    requires
        0 <= i < c.len(),
    ensures
        fold_earliest(m, c).contains_key(c[i].0),
        fold_earliest(m, c)[c[i].0].write_byte <= c[i].1.write_byte,
    decreases c.len(),
{
    let o = c[i].0;
    if i < c.len() - 1 {
        lemma_fold_min(m, c.drop_last(), i);
        assert(c.drop_last()[i] == c[i]);
    }
}

proof fn lemma_entry_pair(es: Seq<(Origin, Witness)>, same_scope: bool, use_byte: u32, e: int)
    requires
        0 <= e < es.len(),
        !(same_scope && es[e].1.write_byte >= use_byte),
    ensures
        entry_cands(es, same_scope, use_byte).contains((es[e].0, es[e].1@)),
    decreases es.len(),
{
    let prev = entry_cands(es.drop_last(), same_scope, use_byte);
    if e < es.len() - 1 {
        assert(es.drop_last()[e] == es[e]);
        lemma_entry_pair(es.drop_last(), same_scope, use_byte, e);
        let j = choose|j: int| 0 <= j < prev.len() && prev[j] == (es[e].0, es[e].1@);
        if !(same_scope && es.last().1.write_byte >= use_byte) {
            assert(prev.push((es.last().0, es.last().1@))[j] == prev[j]);
        }
    } else {
        assert(prev.push((es.last().0, es.last().1@))[prev.len() as int] == (es[e].0, es[e].1@));
    }
}

proof fn lemma_scope_pair(cells: Seq<Cell>, s: usize, use_scope: usize, path: PathView, use_byte: u32, c: int, e: int)
    requires
        0 <= c < cells.len(),
        0 <= e < cells[c].origins.entries@.len(),
        cells[c].scope == s,
        paths_overlap(cells[c].path@, path),
        !(s == use_scope && cells[c].origins.entries@[e].1.write_byte >= use_byte),
    ensures
        scope_cands(cells, s, use_scope, path, use_byte).contains((cells[c].origins.entries@[e].0, cells[c].origins.entries@[e].1@)),
    decreases cells.len(),
{
    let init = cells.drop_last();
    let last = cells.last();
    let x = (cells[c].origins.entries@[e].0, cells[c].origins.entries@[e].1@);
    let a = scope_cands(init, s, use_scope, path, use_byte);
    let b = if last.scope == s && paths_overlap(last.path@, path) {
        entry_cands(last.origins.entries@, s == use_scope, use_byte)
    } else {
        Seq::empty()
    };
    if c < cells.len() - 1 {
        assert(init[c] == cells[c]);
        lemma_scope_pair(init, s, use_scope, path, use_byte, c, e);
        let j = choose|j: int| 0 <= j < a.len() && a[j] == x;
        assert((a + b)[j] == a[j]);
    } else {
        lemma_entry_pair(last.origins.entries@, s == use_scope, use_byte, e);
        let j = choose|j: int| 0 <= j < b.len() && b[j] == x;
        assert((a + b)[a.len() + j] == b[j]);
    }
}

proof fn lemma_chain_pair(cells: Seq<Cell>, chain: Seq<usize>, use_scope: usize, path: PathView, use_byte: u32, k: int, c: int, e: int, o: Origin)
    requires
        reaches(cells, chain, k, c, e, use_scope, path, use_byte, o),
    ensures
        chain_cands(cells, chain, use_scope, path, use_byte).contains((o, cells[c].origins.entries@[e].1@)),
    decreases chain.len(),
{
    let init = chain.drop_last();
    let x = (o, cells[c].origins.entries@[e].1@);
    let a = chain_cands(cells, init, use_scope, path, use_byte);
    let b = scope_cands(cells, chain.last(), use_scope, path, use_byte);
    if k < chain.len() - 1 {
        assert(init[k] == chain[k]);
        lemma_chain_pair(cells, init, use_scope, path, use_byte, k, c, e, o);
        let j = choose|j: int| 0 <= j < a.len() && a[j] == x;
        assert((a + b)[j] == a[j]);
    } else {
        lemma_scope_pair(cells, chain.last(), use_scope, path, use_byte, c, e);
        let j = choose|j: int| 0 <= j < b.len() && b[j] == x;
        assert((a + b)[a.len() + j] == b[j]);
    }
}

/// What folding keeps for an origin from an empty start is one of its
/// candidates.
proof fn lemma_fold_from(c: Seq<(Origin, WitnessView)>, o: Origin)
    requires
        fold_earliest(Map::empty(), c).contains_key(o),
    ensures
        exists|i: int| 0 <= i < c.len() && #[trigger] c[i] == (o, fold_earliest(Map::empty(), c)[o]),
    decreases c.len(),
{
    if c.len() > 0 {
        let prev = fold_earliest(Map::empty(), c.drop_last());
        if c.last().0 == o && !(prev.contains_key(o) && prev[o].write_byte <= c.last().1.write_byte) {
            assert(c[c.len() - 1] == (o, fold_earliest(Map::empty(), c)[o]));
        } else {
            lemma_fold_from(c.drop_last(), o);
            let i = choose|i: int| 0 <= i < c.drop_last().len() && #[trigger] c.drop_last()[i] == (o, prev[o]);
            assert(c[i] == c.drop_last()[i]);
        }
    }
}

proof fn lemma_entry_pair_inv(es: Seq<(Origin, Witness)>, same_scope: bool, use_byte: u32, x: (Origin, WitnessView))
    requires
        entry_cands(es, same_scope, use_byte).contains(x),
    ensures
        exists|e: int| 0 <= e < es.len() && (#[trigger] es[e]).0 == x.0 && es[e].1@ == x.1 && !(same_scope && es[e].1.write_byte >= use_byte),
    decreases es.len(),
{
    let prev = entry_cands(es.drop_last(), same_scope, use_byte);
    let cur = entry_cands(es, same_scope, use_byte);
    let j = choose|j: int| 0 <= j < cur.len() && cur[j] == x;
    if j < prev.len() {
        if !(same_scope && es.last().1.write_byte >= use_byte) {
            assert(cur[j] == prev[j]);
        }
        assert(prev.contains(x));
        lemma_entry_pair_inv(es.drop_last(), same_scope, use_byte, x);
        let e = choose|e: int| 0 <= e < es.drop_last().len() && (#[trigger] es.drop_last()[e]).0 == x.0 && es.drop_last()[e].1@ == x.1
            && !(same_scope && es.drop_last()[e].1.write_byte >= use_byte);
        assert(es[e] == es.drop_last()[e]);
    } else {
        assert(es[es.len() - 1].0 == x.0);
    }
}

proof fn lemma_scope_pair_inv(cells: Seq<Cell>, s: usize, use_scope: usize, path: PathView, use_byte: u32, x: (Origin, WitnessView))
    requires
        scope_cands(cells, s, use_scope, path, use_byte).contains(x),
    ensures
        exists|c: int, e: int| 0 <= c < cells.len() && 0 <= e < cells[c].origins.entries@.len()
            && (#[trigger] cells[c].origins.entries@[e]).0 == x.0 && cells[c].origins.entries@[e].1@ == x.1
            && cells[c].scope == s && paths_overlap(cells[c].path@, path)
            && !(s == use_scope && cells[c].origins.entries@[e].1.write_byte >= use_byte),
    decreases cells.len(),
{
    let init = cells.drop_last();
    let last = cells.last();
    let a = scope_cands(init, s, use_scope, path, use_byte);
    let b = if last.scope == s && paths_overlap(last.path@, path) {
        entry_cands(last.origins.entries@, s == use_scope, use_byte)
    } else {
        Seq::empty()
    };
    let j = choose|j: int| 0 <= j < (a + b).len() && (a + b)[j] == x;
    if j < a.len() {
        assert(a[j] == x);
        lemma_scope_pair_inv(init, s, use_scope, path, use_byte, x);
        let (c, e) = choose|c: int, e: int| 0 <= c < init.len() && 0 <= e < init[c].origins.entries@.len()
            && (#[trigger] init[c].origins.entries@[e]).0 == x.0 && init[c].origins.entries@[e].1@ == x.1
            && init[c].scope == s && paths_overlap(init[c].path@, path)
            && !(s == use_scope && init[c].origins.entries@[e].1.write_byte >= use_byte);
        assert(cells[c] == init[c]);
        assert(cells[c].origins.entries@[e].0 == x.0);
    } else {
        assert(b[j - a.len()] == x);
        lemma_entry_pair_inv(last.origins.entries@, s == use_scope, use_byte, x);
        let e = choose|e: int| 0 <= e < last.origins.entries@.len() && (#[trigger] last.origins.entries@[e]).0 == x.0
            && last.origins.entries@[e].1@ == x.1 && !((s == use_scope) && last.origins.entries@[e].1.write_byte >= use_byte);
        assert(cells[cells.len() - 1].origins.entries@[e].0 == x.0);
    }
}

proof fn lemma_chain_pair_inv(cells: Seq<Cell>, chain: Seq<usize>, use_scope: usize, path: PathView, use_byte: u32, x: (Origin, WitnessView))
    requires
        chain_cands(cells, chain, use_scope, path, use_byte).contains(x),
    ensures
        exists|k: int, c: int, e: int| #[trigger] reaches(cells, chain, k, c, e, use_scope, path, use_byte, x.0)
            && cells[c].origins.entries@[e].1@ == x.1,
    decreases chain.len(),
{
    let init = chain.drop_last();
    let a = chain_cands(cells, init, use_scope, path, use_byte);
    let b = scope_cands(cells, chain.last(), use_scope, path, use_byte);
    let j = choose|j: int| 0 <= j < (a + b).len() && (a + b)[j] == x;
    if j < a.len() {
        assert(a[j] == x);
        lemma_chain_pair_inv(cells, init, use_scope, path, use_byte, x);
        let (k, c, e) = choose|k: int, c: int, e: int| #[trigger] reaches(cells, init, k, c, e, use_scope, path, use_byte, x.0)
            && cells[c].origins.entries@[e].1@ == x.1;
        assert(init[k] == chain[k]);
        assert(reaches(cells, chain, k, c, e, use_scope, path, use_byte, x.0));
    } else {
        assert(b[j - a.len()] == x);
        lemma_scope_pair_inv(cells, chain.last(), use_scope, path, use_byte, x);
        let (c, e) = choose|c: int, e: int| 0 <= c < cells.len() && 0 <= e < cells[c].origins.entries@.len()
            && (#[trigger] cells[c].origins.entries@[e]).0 == x.0 && cells[c].origins.entries@[e].1@ == x.1
            && cells[c].scope == chain.last() && paths_overlap(cells[c].path@, path)
            && !(chain.last() == use_scope && cells[c].origins.entries@[e].1.write_byte >= use_byte);
        assert(reaches(cells, chain, chain.len() - 1, c, e, use_scope, path, use_byte, x.0));
    }
}

/// The witness a visible origin carries is that of one of the bindings
/// through which it reaches the use.
pub proof fn lemma_visible_witnessed(cells: Seq<Cell>, chain: Seq<usize>, use_scope: usize, path: PathView, use_byte: u32, o: Origin)
    requires
        visible_map(cells, chain, use_scope, path, use_byte).contains_key(o),
    ensures
        exists|k: int, c: int, e: int| #[trigger] reaches(cells, chain, k, c, e, use_scope, path, use_byte, o)
            && cells[c].origins.entries@[e].1@ == visible_map(cells, chain, use_scope, path, use_byte)[o],
{
    let cands = chain_cands(cells, chain, use_scope, path, use_byte);
    lemma_fold_from(cands, o);
    let w = visible_map(cells, chain, use_scope, path, use_byte)[o];
    let i = choose|i: int| 0 <= i < cands.len() && #[trigger] cands[i] == (o, w);
    assert(cands.contains((o, w)));
    lemma_chain_pair_inv(cells, chain, use_scope, path, use_byte, (o, w));
}

/// The earliest witness wins: the witness a visible origin carries was
/// written no later than any binding through which the origin reaches the
/// use.
pub proof fn lemma_visible_earliest(cells: Seq<Cell>, chain: Seq<usize>, use_scope: usize, path: PathView, use_byte: u32,
    k: int, c: int, e: int, o: Origin)
    requires
        reaches(cells, chain, k, c, e, use_scope, path, use_byte, o),
    ensures
        visible_map(cells, chain, use_scope, path, use_byte).contains_key(o),
        visible_map(cells, chain, use_scope, path, use_byte)[o].write_byte <= cells[c].origins.entries@[e].1.write_byte,
{
    lemma_chain_pair(cells, chain, use_scope, path, use_byte, k, c, e, o);
    let cands = chain_cands(cells, chain, use_scope, path, use_byte);
    let j = choose|j: int| 0 <= j < cands.len() && cands[j] == (o, cells[c].origins.entries@[e].1@);
    lemma_fold_min(Map::empty(), cands, j);
}

/// Flow-sensitivity within a scope, position-insensitivity across scopes,
/// and field sensitivity: an origin reaches a use of `path` at `use_byte`
/// in `use_scope` exactly when some scope of the use's chain holds it in a
/// cell whose path overlaps `path`, and — in the use's own scope — only
/// through a binding written before the use.
pub proof fn lemma_visible_iff(cells: Seq<Cell>, chain: Seq<usize>, use_scope: usize, path: PathView, use_byte: u32, o: Origin)
    ensures
        visible_map(cells, chain, use_scope, path, use_byte).contains_key(o) <==>
            exists|k: int, c: int, e: int| #[trigger] reaches(cells, chain, k, c, e, use_scope, path, use_byte, o),
{
    lemma_fold_keys(Map::empty(), chain_cands(cells, chain, use_scope, path, use_byte), o);
    lemma_chain_cands(cells, chain, use_scope, path, use_byte, o);
}

/// What binding `origins` to `(scope, path)` does to a taint state: the
/// origins are merged into that cell when it exists, or a new cell is
/// appended; the change flag reports whether any origin is new to the cell.
pub open spec fn bind_post(pre: TaintState, scope: usize, path: PathView, origins: Map<Origin, WitnessView>, post: TaintState, changed: bool) -> bool {
    match pre.find_cell(scope, path) {
        Some(k) => {
            &&& post.cells@.len() == pre.cells@.len()
            &&& forall|j: int| 0 <= j < post.cells@.len() && j != k ==> #[trigger] post.cells@[j] == pre.cells@[j]
            &&& cell_is(post.cells@[k], scope, path)
            &&& post.cells@[k].origins@ == merge_map(pre.cells@[k].origins@, origins)
            &&& changed == exists|o: Origin| origins.contains_key(o) && !pre.cells@[k].origins@.contains_key(o)
        },
        None => {
            &&& post.cells@.len() == pre.cells@.len() + 1
            &&& post.cells@.take(pre.cells@.len() as int) == pre.cells@
            &&& cell_is(post.cells@.last(), scope, path)
            &&& post.cells@.last().origins@ == origins
            &&& changed == exists|o: Origin| origins.contains_key(o)
        },
    }
}

/// `post` keeps every cell of `pre` in place, with the same scope and path,
/// every origin it held, each with a witness written no later.
pub open spec fn grows(pre: TaintState, post: TaintState) -> bool {
    &&& post.cells@.len() >= pre.cells@.len()
    &&& forall|c: int| 0 <= c < pre.cells@.len() ==> {
        let a = #[trigger] pre.cells@[c];
        let b = post.cells@[c];
        &&& b.scope == a.scope
        &&& b.path@ == a.path@
        &&& forall|o: Origin| #[trigger] a.origins@.contains_key(o) ==>
            b.origins@.contains_key(o) && b.origins@[o].write_byte <= a.origins@[o].write_byte
    }
}

pub proof fn lemma_grows_refl(s: TaintState)
    ensures
        grows(s, s),
{
}

pub proof fn lemma_grows_trans(a: TaintState, b: TaintState, c: TaintState)
    requires
        grows(a, b),
        grows(b, c),
    ensures
        grows(a, c),
{
    assert forall|k: int| 0 <= k < a.cells@.len() implies {
        let x = #[trigger] a.cells@[k];
        let z = c.cells@[k];
        &&& z.scope == x.scope
        &&& z.path@ == x.path@
        &&& forall|o: Origin| #[trigger] x.origins@.contains_key(o) ==>
            z.origins@.contains_key(o) && z.origins@[o].write_byte <= x.origins@[o].write_byte
    } by {
        let y = b.cells@[k];
        assert forall|o: Origin| #[trigger] a.cells@[k].origins@.contains_key(o) implies
            c.cells@[k].origins@.contains_key(o) && c.cells@[k].origins@[o].write_byte <= a.cells@[k].origins@[o].write_byte by {
            assert(y.origins@.contains_key(o));
        }
    }
}

/// Binding only adds taint: the bound state keeps every cell, origin and
/// (no later) witness of the state before.
pub proof fn lemma_bind_grows(pre: TaintState, scope: usize, path: PathView, origins: Map<Origin, WitnessView>, post: TaintState, changed: bool)
    requires
        bind_post(pre, scope, path, origins, post, changed),
    ensures
        grows(pre, post),
{
    match pre.find_cell(scope, path) {
        Some(k) => {
            assert(cell_is(pre.cells@[k], scope, path));
            assert forall|c: int| 0 <= c < pre.cells@.len() implies {
                let a = #[trigger] pre.cells@[c];
                let b = post.cells@[c];
                &&& b.scope == a.scope
                &&& b.path@ == a.path@
                &&& forall|o: Origin| #[trigger] a.origins@.contains_key(o) ==>
                    b.origins@.contains_key(o) && b.origins@[o].write_byte <= a.origins@[o].write_byte
            } by {
                if c != k {
                    assert(post.cells@[c] == pre.cells@[c]);
                }
            }
        },
        None => {
            assert forall|c: int| 0 <= c < pre.cells@.len() implies #[trigger] post.cells@[c] == pre.cells@[c] by {
                assert(post.cells@.take(pre.cells@.len() as int)[c] == post.cells@[c]);
            }
        },
    }
}

/// Taint that reaches a use stays reaching it as the state grows: every
/// origin visible to a use of `path` at `use_byte` in `use_scope` before is
/// visible after.
pub proof fn lemma_visible_grows(pre: TaintState, post: TaintState, chain: Seq<usize>, use_scope: usize, path: PathView, use_byte: u32, o: Origin)
    requires
        pre.wf(),
        grows(pre, post),
        visible_map(pre.cells@, chain, use_scope, path, use_byte).contains_key(o),
    ensures
        visible_map(post.cells@, chain, use_scope, path, use_byte).contains_key(o),
{
    lemma_visible_iff(pre.cells@, chain, use_scope, path, use_byte, o);
    lemma_visible_iff(post.cells@, chain, use_scope, path, use_byte, o);
    let (k, c, e) = choose|k: int, c: int, e: int| #[trigger] reaches(pre.cells@, chain, k, c, e, use_scope, path, use_byte, o);
    let a = pre.cells@[c];
    let b = post.cells@[c];
    assert(a.origins.wf());
    lemma_entries_map_at(a.origins.entries@, e);
    assert(a.origins@.contains_key(o));
    assert(b.origins@.contains_key(o));
    assert(has_key(b.origins.entries@, o));
    let i = key_index(b.origins.entries@, o);
    assert(b.origins.entries@[i].0 == o);
    assert(b.origins@[o] == b.origins.entries@[i].1@);
    assert(reaches(post.cells@, chain, k, c, i, use_scope, path, use_byte, o));
}

/// The visibility rule in full: the origins visible to a use of `path` at
/// `use_byte` in `use_scope` are exactly those bound, in a scope of the
/// use's chain, to a path overlapping `path` (in the use's own scope only
/// when written before the use); each carries the earliest-written of the
/// witnesses through which it reaches the use.
pub proof fn lemma_visible_law(cells: Seq<Cell>, chain: Seq<usize>, use_scope: usize, path: PathView, use_byte: u32, o: Origin)
    ensures
        visible_map(cells, chain, use_scope, path, use_byte).contains_key(o) <==>
            exists|k: int, c: int, e: int| #[trigger] reaches(cells, chain, k, c, e, use_scope, path, use_byte, o),
        visible_map(cells, chain, use_scope, path, use_byte).contains_key(o) ==> {
            &&& exists|k: int, c: int, e: int| #[trigger] reaches(cells, chain, k, c, e, use_scope, path, use_byte, o)
                && cells[c].origins.entries@[e].1@ == visible_map(cells, chain, use_scope, path, use_byte)[o]
            &&& forall|k: int, c: int, e: int| #[trigger] reaches(cells, chain, k, c, e, use_scope, path, use_byte, o) ==>
                visible_map(cells, chain, use_scope, path, use_byte)[o].write_byte <= cells[c].origins.entries@[e].1.write_byte
        },
{
    lemma_visible_iff(cells, chain, use_scope, path, use_byte, o);
    if visible_map(cells, chain, use_scope, path, use_byte).contains_key(o) {
        lemma_visible_witnessed(cells, chain, use_scope, path, use_byte, o);
        assert forall|k: int, c: int, e: int| #[trigger] reaches(cells, chain, k, c, e, use_scope, path, use_byte, o) implies
            visible_map(cells, chain, use_scope, path, use_byte)[o].write_byte <= cells[c].origins.entries@[e].1.write_byte by {
            lemma_visible_earliest(cells, chain, use_scope, path, use_byte, k, c, e, o);
        }
    }
}

impl TaintState {
    pub open spec fn wf(&self) -> bool {
        &&& forall|i: int| 0 <= i < self.cells@.len() ==> (#[trigger] self.cells@[i]).origins.wf()
        &&& forall|i: int, j: int| 0 <= i < j < self.cells@.len() ==>
            !cell_is(#[trigger] self.cells@[i], self.cells@[j].scope, #[trigger] self.cells@[j].path@)
    }

    pub fn new() -> (r: TaintState)
        ensures
            r.wf(),
            r.cells@.len() == 0,
    {
        TaintState { cells: Vec::new() }
    }

    /// Union `origins` into the cell for `(scope, path)`. Returns true if any
    /// new origin was added.
    pub fn bind(&mut self, scope: usize, path: &AccessPath, origins: &Origins) -> (changed: bool)
        requires
            old(self).wf(),
            origins.wf(),
        ensures
            final(self).wf(),
            bind_post(*old(self), scope, path@, origins@, *final(self), changed),
    {
        let n = self.cells.len();
        for k in 0..n
            invariant
                n == self.cells@.len(),
                self.wf(),
                origins.wf(),
                *self == *old(self),
                forall|j: int| 0 <= j < k ==> !cell_is(#[trigger] self.cells@[j], scope, path@),
        {
            if self.cells[k].scope == scope && self.cells[k].path.same(path) {
                let ghost oldc = self.cells@;
                proof { self.lemma_find_cell_is(k as int, scope, path@); }
                let mut cell = Cell { scope: 0, path: AccessPath::base_only(String::new()), origins: Origins::new() };
                self.cells.set_and_swap(k, &mut cell);
                let changed = merge_origins(&mut cell.origins, origins);
                self.cells.set(k, cell);
                proof {
                    assert forall|i: int| 0 <= i < self.cells@.len() implies (#[trigger] self.cells@[i]).origins.wf() by {
                        if i != k { assert(self.cells@[i] == oldc[i]); }
                    }
                    assert forall|i: int, j: int| 0 <= i < j < self.cells@.len() implies
                        !cell_is(#[trigger] self.cells@[i], self.cells@[j].scope, #[trigger] self.cells@[j].path@) by {
                        assert(cell_is(self.cells@[k as int], oldc[k as int].scope, oldc[k as int].path@));
                        if i != k && j != k { assert(self.cells@[i] == oldc[i] && self.cells@[j] == oldc[j]); }
                        else if i == k { assert(self.cells@[j] == oldc[j]); assert(!cell_is(oldc[i], oldc[j].scope, oldc[j].path@)); }
                        else { assert(self.cells@[i] == oldc[i]); assert(!cell_is(oldc[i], oldc[j].scope, oldc[j].path@)); }
                    }
                }
                return changed;
            }
        }
        proof { self.lemma_find_cell_none(scope, path@); }
        let cell = Cell { scope, path: path.duplicate(), origins: origins.duplicate() };
        self.cells.push(cell);
        proof {
            assert(self.cells@.take(n as int) =~= old(self).cells@);
            assert forall|i: int, j: int| 0 <= i < j < self.cells@.len() implies
                !cell_is(#[trigger] self.cells@[i], self.cells@[j].scope, #[trigger] self.cells@[j].path@) by {
                if j < n { assert(self.cells@[i] == old(self).cells@[i] && self.cells@[j] == old(self).cells@[j]); }
                else { assert(self.cells@[i] == old(self).cells@[i]); }
            }
            if origins.entries@.len() > 0 {
                lemma_entries_map_at(origins.entries@, 0);
            } else {
                assert forall|o: Origin| !origins@.contains_key(o) by {
                    if has_key(origins.entries@, o) {
                        let i = choose|i: int| 0 <= i < origins.entries@.len() && #[trigger] origins.entries@[i].0 == o;
                    }
                }
            }
        }
        origins.len() > 0
    }

    /// The position of the cell for `(scope, path)`, if any.
    pub open spec fn find_cell(&self, scope: usize, path: PathView) -> Option<int> {
        if exists|k: int| 0 <= k < self.cells@.len() && cell_is(#[trigger] self.cells@[k], scope, path) {
            Some(choose|k: int| 0 <= k < self.cells@.len() && cell_is(#[trigger] self.cells@[k], scope, path))
        } else {
            None
        }
    }

    proof fn lemma_find_cell_is(&self, k: int, scope: usize, path: PathView)
        requires
            self.wf(),
            0 <= k < self.cells@.len(),
            cell_is(self.cells@[k], scope, path),
        ensures
            self.find_cell(scope, path) == Some(k),
    {
        let j = choose|j: int| 0 <= j < self.cells@.len() && cell_is(#[trigger] self.cells@[j], scope, path);
        if j < k {
            assert(!cell_is(self.cells@[j], self.cells@[k].scope, self.cells@[k].path@));
        } else if j > k {
            assert(!cell_is(self.cells@[k], self.cells@[j].scope, self.cells@[j].path@));
        }
    }

    proof fn lemma_find_cell_none(&self, scope: usize, path: PathView)
        requires
            forall|j: int| 0 <= j < self.cells@.len() ==> !cell_is(#[trigger] self.cells@[j], scope, path),
        ensures
            self.find_cell(scope, path) is None,
    {
    }

    /// Collect the origins visible to a use of `path` at byte `use_byte` in
    /// `use_scope`, given that scope's ancestor chain (innermost first).
    ///
    /// A binding in scope `S` written at byte `W` is visible iff
    /// `S == use_scope && W < use_byte` (same scope, textually earlier), or
    /// `S` is another scope of the chain (position-insensitive, so closures
    /// see outer bindings regardless of order).
    pub fn visible(&self, use_scope: usize, chain: &[usize], path: &AccessPath, use_byte: u32) -> (out: Origins)
        requires
            self.wf(),
        ensures
            out.wf(),
            out@ == visible_map(self.cells@, chain@, use_scope, path@, use_byte),
    {
        let mut out = Origins::new();
        let ghost cells = self.cells@;
        let nc = chain.len();
        assert(chain@.take(0) =~= Seq::<usize>::empty());
        for k in 0..nc
            invariant
                nc == chain@.len(),
                cells == self.cells@,
                self.wf(),
                out.wf(),
                out@ == fold_earliest(Map::empty(), chain_cands(cells, chain@.take(k as int), use_scope, path@, use_byte)),
        {
            let s = chain[k];
            let ghost pre = chain_cands(cells, chain@.take(k as int), use_scope, path@, use_byte);
            let n = self.cells.len();
            assert(cells.take(0) =~= Seq::<Cell>::empty());
            assert(pre + scope_cands(cells.take(0), s, use_scope, path@, use_byte) =~= pre);
            for j in 0..n
                invariant
                    n == cells.len(),
                    cells == self.cells@,
                    self.wf(),
                    out.wf(),
                    out@ == fold_earliest(Map::empty(), pre + scope_cands(cells.take(j as int), s, use_scope, path@, use_byte)),
            {
                let ghost pre2 = pre + scope_cands(cells.take(j as int), s, use_scope, path@, use_byte);
                assert(cells.take(j + 1).drop_last() =~= cells.take(j as int));
                let c = &self.cells[j];
                if c.scope == s && c.path.overlaps(path) {
                    let same = s == use_scope;
                    let es = &c.origins.entries;
                    let m = es.len();
                    assert(es@.take(0) =~= Seq::<(Origin, Witness)>::empty());
                    assert(pre2 + entry_cands(es@.take(0), same, use_byte) =~= pre2);
                    for e in 0..m
                        invariant
                            m == es@.len(),
                            out.wf(),
                            out@ == fold_earliest(Map::empty(), pre2 + entry_cands(es@.take(e as int), same, use_byte)),
                    {
                        let ghost pre3 = pre2 + entry_cands(es@.take(e as int), same, use_byte);
                        assert(es@.take(e + 1).drop_last() =~= es@.take(e as int));
                        let o = es[e].0;
                        let w = &es[e].1;
                        if same && w.write_byte >= use_byte {
                            assert(pre2 + entry_cands(es@.take(e + 1), same, use_byte) =~= pre3);
                        } else {
                            assert(pre2 + entry_cands(es@.take(e + 1), same, use_byte) =~= pre3.push((o, w@)));
                            assert((pre3.push((o, w@))).drop_last() =~= pre3);
                            let keep = match out.find(&o) {
                                Some(i) => {
                                    proof { lemma_entries_map_at(out.entries@, i as int); }
                                    out.entries[i].1.write_byte <= w.write_byte
                                },
                                None => false,
                            };
                            if !keep {
                                out.insert(o, w.duplicate());
                            }
                        }
                    }
                    assert(es@.take(m as int) =~= es@);
                    assert(pre + scope_cands(cells.take(j + 1), s, use_scope, path@, use_byte) =~= pre2 + entry_cands(es@, same, use_byte));
                } else {
                    assert(pre + scope_cands(cells.take(j + 1), s, use_scope, path@, use_byte) =~= pre2);
                }
            }
            assert(cells.take(n as int) =~= cells);
            assert(chain@.take(k + 1).drop_last() =~= chain@.take(k as int));
        }
        assert(chain@.take(nc as int) =~= chain@);
        out
    }
}

} // verus!
