//! Access paths: a base identifier plus a bounded chain of field accesses
//! (`req.query.id` is base `req`, fields `[query, id]`).
//!
//! A node whose text is a pure `ident(.ident)*` chain becomes a path;
//! anything else falls back to a base-only path.

use vstd::prelude::*;
use crate::text::{chars_of, string_of, trimmed, trim, is_alphabetic, is_alphanumeric, char_alphabetic, char_alphanumeric};

verus! {

/// Maximum tracked field depth; deeper accesses widen to the prefix.
pub const MAX_PATH_DEPTH: usize = 3;

/// The characters of each string.
pub open spec fn strings_view(v: Seq<String>) -> Seq<Seq<char>> {
    v.map_values(|s: String| s@)
}

#[derive(Debug)]
pub struct AccessPath {
    pub base: String,
    pub fields: Vec<String>,
    /// True if the original access was deeper than `MAX_PATH_DEPTH`.
    pub truncated: bool,
}

/// The mathematical content of an access path.
pub struct PathView {
    pub base: Seq<char>,
    pub fields: Seq<Seq<char>>,
    pub truncated: bool,
}

impl View for AccessPath {
    type V = PathView;

    open spec fn view(&self) -> PathView {
        PathView { base: self.base@, fields: strings_view(self.fields@), truncated: self.truncated }
    }
}

/// An identifier: a letter, `_` or `$`, then letters, digits, `_` or `$`.
pub open spec fn is_ident_seq(s: Seq<char>) -> bool {
    &&& s.len() > 0
    &&& (char_alphabetic(s[0]) || s[0] == '_' || s[0] == '$')
    &&& forall|i: int| 1 <= i < s.len() ==> (char_alphanumeric(#[trigger] s[i]) || s[i] == '_' || s[i] == '$')
}

/// `s` split at every `.` (always at least one, possibly empty, segment).
pub open spec fn split_dots(s: Seq<char>) -> Seq<Seq<char>>
    decreases s.len(),
{
    if s.len() == 0 {
        seq![Seq::<char>::empty()]
    } else {
        let prev = split_dots(s.drop_last());
        if s.last() == '.' {
            prev.push(Seq::<char>::empty())
        } else {
            prev.update(prev.len() - 1, prev.last().push(s.last()))
        }
    }
}

pub proof fn lemma_split_dots_nonempty(s: Seq<char>)
    ensures
        split_dots(s).len() >= 1,
    decreases s.len(),
{
    if s.len() > 0 {
        lemma_split_dots_nonempty(s.drop_last());
    }
}

/// The path denoted by `text`, if it is an `ident(.ident)*` chain once
/// trimmed; fields beyond `MAX_PATH_DEPTH` are dropped and flagged.
pub open spec fn parse_path(text: Seq<char>) -> Option<PathView> {
    let t = trim(text);
    let segs = split_dots(t);
    if t.len() == 0 || !(forall|i: int| 0 <= i < segs.len() ==> is_ident_seq(#[trigger] segs[i])) {
        None
    } else {
        let fields = segs.drop_first();
        Some(PathView {
            base: segs[0],
            fields: if fields.len() > MAX_PATH_DEPTH { fields.take(MAX_PATH_DEPTH as int) } else { fields },
            truncated: fields.len() > MAX_PATH_DEPTH,
        })
    }
}

/// `AccessPath::parse` succeeds exactly on a text that is not blank once
/// trimmed and whose dot-separated segments are all identifiers; the base
/// is the first segment, the fields are the next ones up to
/// `MAX_PATH_DEPTH`, and the path is flagged truncated exactly when more
/// segments followed.
pub proof fn lemma_parse_path_law(text: Seq<char>)
    ensures
        parse_path(text) is Some <==> (trim(text).len() > 0
            && forall|i: int| 0 <= i < split_dots(trim(text)).len() ==> is_ident_seq(#[trigger] split_dots(trim(text))[i])),
        parse_path(text) matches Some(p) ==> {
            let segs = split_dots(trim(text));
            let end = if segs.len() - 1 > MAX_PATH_DEPTH { MAX_PATH_DEPTH + 1 } else { segs.len() as int };
            &&& p.base == segs[0]
            &&& p.fields == segs.subrange(1, end)
            &&& p.truncated == (segs.len() - 1 > MAX_PATH_DEPTH)
            &&& p.fields.len() <= MAX_PATH_DEPTH
        },
{
    let segs = split_dots(trim(text));
    lemma_split_dots_nonempty(trim(text));
    if parse_path(text) is Some {
        let p = parse_path(text)->0;
        let end = if segs.len() - 1 > MAX_PATH_DEPTH { MAX_PATH_DEPTH + 1 } else { segs.len() as int };
        assert(p.fields =~= segs.subrange(1, end));
    }
}

/// `a` is a prefix of `b`.
pub open spec fn is_prefix<T>(a: Seq<T>, b: Seq<T>) -> bool {
    a.len() <= b.len() && b.take(a.len() as int) == a
}

/// Whether taint on one path reaches a use of the other: same base, and
/// one field chain is a prefix of the other.
pub open spec fn paths_overlap(a: PathView, b: PathView) -> bool {
    a.base == b.base && (is_prefix(a.fields, b.fields) || is_prefix(b.fields, a.fields))
}

/// Whether `s` is an identifier.
pub fn is_ident(s: &[char]) -> (r: bool)
    ensures
        r == is_ident_seq(s@),
{
    if s.len() == 0 {
        return false;
    }
    let c0 = s[0];
    if !(is_alphabetic(c0) || c0 == '_' || c0 == '$') {
        return false;
    }
    let n = s.len();
    for i in 1..n
        invariant
            n == s@.len(),
            forall|j: int| 1 <= j < i ==> (char_alphanumeric(#[trigger] s@[j]) || s@[j] == '_' || s@[j] == '$'),
    {
        let c = s[i];
        if !(is_alphanumeric(c) || c == '_' || c == '$') {
            return false;
        }
    }
    true
}

/// The characters of each vector.
pub open spec fn char_vecs_view(v: Seq<Vec<char>>) -> Seq<Seq<char>> {
    v.map_values(|x: Vec<char>| x@)
}

/// Split characters at every `.`.
pub fn split_dot_chars(t: &Vec<char>) -> (segs: Vec<Vec<char>>)
    ensures
        char_vecs_view(segs@) == split_dots(t@),
{
    let mut segs: Vec<Vec<char>> = Vec::new();
    let mut cur: Vec<char> = Vec::new();
    let n = t.len();
    assert(t@.take(0) =~= Seq::<char>::empty());
    for i in 0..n
        invariant
            n == t@.len(),
            char_vecs_view(segs@).push(cur@) == split_dots(t@.take(i as int)),
    {
        let ghost prev = split_dots(t@.take(i as int));
        proof {
            lemma_split_dots_nonempty(t@.take(i as int));
            assert(t@.take(i + 1).drop_last() =~= t@.take(i as int));
        }
        if t[i] == '.' {
            let done = cur;
            segs.push(done);
            cur = Vec::new();
            assert(char_vecs_view(segs@).push(cur@) =~= prev.push(Seq::<char>::empty()));
        } else {
            cur.push(t[i]);
            assert(char_vecs_view(segs@).push(cur@) =~= prev.update(prev.len() - 1, prev.last().push(t@[i as int])));
        }
    }
    assert(t@.take(n as int) =~= t@);
    segs.push(cur);
    segs
}

/// Element-wise string equality of two vectors of strings.
pub fn strings_eq(a: &Vec<String>, b: &Vec<String>) -> (r: bool)
    ensures
        r == (strings_view(a@) == strings_view(b@)),
{
    if a.len() != b.len() {
        assert(strings_view(a@).len() != strings_view(b@).len());
        return false;
    }
    let n = a.len();
    for i in 0..n
        invariant
            n == a@.len(),
            n == b@.len(),
            forall|j: int| 0 <= j < i ==> a@[j]@ == b@[j]@,
    {
        if !(a[i] == b[i]) {
            assert(strings_view(a@)[i as int] != strings_view(b@)[i as int]);
            return false;
        }
    }
    assert(strings_view(a@) =~= strings_view(b@));
    true
}

/// Whether `short` is a prefix of `long`, comparing strings by content.
pub fn strings_prefix(short: &Vec<String>, long: &Vec<String>) -> (r: bool)
    ensures
        r == is_prefix(strings_view(short@), strings_view(long@)),
{
    if short.len() > long.len() {
        return false;
    }
    let n = short.len();
    for i in 0..n
        invariant
            n == short@.len(),
            n <= long@.len(),
            forall|j: int| 0 <= j < i ==> short@[j]@ == long@[j]@,
    {
        if !(short[i] == long[i]) {
            assert(strings_view(long@).take(n as int)[i as int] != strings_view(short@)[i as int]);
            return false;
        }
    }
    assert(strings_view(long@).take(n as int) =~= strings_view(short@));
    true
}

/// A copy of a string.
pub fn copy_string(s: &String) -> (r: String)
    ensures
        r@ == s@,
{
    s.clone()
}

/// A copy of a vector of strings.
pub fn copy_strings(v: &Vec<String>) -> (r: Vec<String>)
    ensures
        strings_view(r@) == strings_view(v@),
{
    let mut r: Vec<String> = Vec::new();
    let n = v.len();
    for i in 0..n
        invariant
            n == v@.len(),
            strings_view(r@) == strings_view(v@.take(i as int)),
    {
        r.push(copy_string(&v[i]));
        assert(strings_view(v@.take(i + 1)) =~= strings_view(v@.take(i as int)).push(v@[i as int]@));
        assert(strings_view(r@) =~= strings_view(v@.take(i as int)).push(v@[i as int]@));
    }
    assert(v@.take(n as int) =~= v@);
    r
}

impl AccessPath {
    pub fn base_only(base: String) -> (r: AccessPath)
        ensures
            r@.base == base@,
            r@.fields == Seq::<Seq<char>>::empty(),
            !r@.truncated,
    {
        let r = AccessPath { base, fields: Vec::new(), truncated: false };
        assert(r@.fields =~= Seq::<Seq<char>>::empty());
        r
    }

    /// A copy with the same content.
    pub fn duplicate(&self) -> (r: AccessPath)
        ensures
            r@ == self@,
    {
        AccessPath { base: copy_string(&self.base), fields: copy_strings(&self.fields), truncated: self.truncated }
    }

    /// Same base, fields and truncation flag.
    pub fn same(&self, other: &AccessPath) -> (r: bool)
        ensures
            r == (self@ == other@),
    {
        self.base == other.base && strings_eq(&self.fields, &other.fields) && self.truncated == other.truncated
    }

    /// Parse `ident(.ident)*`; `None` for anything else.
    pub fn parse(text: &str) -> (r: Option<AccessPath>)
        ensures
            match r {
                Some(p) => parse_path(text@) == Some(p@),
                None => parse_path(text@) is None,
            },
    {
        let t = trimmed(text);
        if t.len() == 0 {
            return None;
        }
        let segs = split_dot_chars(&t);
        let ghost sv = char_vecs_view(segs@);
        let n = segs.len();
        for i in 0..n
            invariant
                n == segs@.len(),
                sv == char_vecs_view(segs@),
                sv == split_dots(trim(text@)),
                forall|j: int| 0 <= j < i ==> is_ident_seq(#[trigger] sv[j]),
        {
            if !is_ident(segs[i].as_slice()) {
                assert(!is_ident_seq(split_dots(trim(text@))[i as int]));
                return None;
            }
        }
        proof { lemma_split_dots_nonempty(t@); }
        let base = string_of(segs[0].as_slice());
        let mut fields: Vec<String> = Vec::new();
        let mut k: usize = 1;
        while k < n && k <= MAX_PATH_DEPTH
            invariant
                n == segs@.len(),
                sv == char_vecs_view(segs@),
                1 <= k <= n,
                k <= MAX_PATH_DEPTH + 1,
                strings_view(fields@) == sv.drop_first().take(k - 1),
            decreases n - k,
        {
            fields.push(string_of(segs[k].as_slice()));
            assert(sv.drop_first().take(k as int) =~= sv.drop_first().take(k - 1).push(sv[k as int]));
            assert(strings_view(fields@) =~= sv.drop_first().take(k - 1).push(sv[k as int]));
            k = k + 1;
        }
        let truncated = n - 1 > MAX_PATH_DEPTH;
        let p = AccessPath { base, fields, truncated };
        proof {
            let fs = sv.drop_first();
            if !truncated {
                assert(fs.take(k - 1) =~= fs);
            }
        }
        Some(p)
    }

    /// Whether taint on `self` should reach a use of `other`, or vice versa:
    /// true when either path is a prefix of the other. Tainting `o` reaches
    /// `o.v` (prefix); a tainted `o.v` reaches a read of `o` (extension).
    pub fn overlaps(&self, other: &AccessPath) -> (r: bool)
        ensures
            r == paths_overlap(self@, other@),
    {
        if !(self.base == other.base) {
            return false;
        }
        if self.fields.len() <= other.fields.len() {
            let r = strings_prefix(&self.fields, &other.fields);
            proof {
                if is_prefix(strings_view(other.fields@), strings_view(self.fields@)) {
                    assert(strings_view(self.fields@) =~= strings_view(other.fields@));
                }
            }
            r
        } else {
            strings_prefix(&other.fields, &self.fields)
        }
    }
}

/// Overlap is symmetric: taint on `a` reaches a use of `b` exactly when
/// taint on `b` reaches a use of `a`.
pub proof fn lemma_overlap_symmetric(a: PathView, b: PathView)
    ensures
        paths_overlap(a, b) == paths_overlap(b, a),
{
}

/// A path overlaps itself, and a base-only path overlaps every path on the
/// same base (tainting `o` reaches `o.v`, and `o.v` reaches a read of `o`).
pub proof fn lemma_overlap_base(a: PathView, b: PathView)
    ensures
        paths_overlap(a, a),
        a.fields.len() == 0 && a.base == b.base ==> paths_overlap(a, b),
{
    assert(a.fields.take(a.fields.len() as int) =~= a.fields);
    if a.fields.len() == 0 {
        assert(b.fields.take(0) =~= a.fields);
    }
}

/// Paths on different bases never overlap, and neither do paths whose
/// field chains differ at a common position (`o.a` and `o.b` stay
/// distinct).
pub proof fn lemma_overlap_needs_common_prefix(a: PathView, b: PathView, i: int)
    ensures
        a.base != b.base ==> !paths_overlap(a, b),
        0 <= i < a.fields.len() && i < b.fields.len() && a.fields[i] != b.fields[i] ==> !paths_overlap(a, b),
{
    if 0 <= i < a.fields.len() && i < b.fields.len() && a.fields[i] != b.fields[i] {
        if is_prefix(a.fields, b.fields) {
            assert(b.fields.take(a.fields.len() as int)[i] == b.fields[i]);
        }
        if is_prefix(b.fields, a.fields) {
            assert(a.fields.take(b.fields.len() as int)[i] == a.fields[i]);
        }
    }
}

} // verus!
