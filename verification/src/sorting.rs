//! Stable ordering of located facts by an integer key, and removal of
//! adjacent facts at the same location.

use vstd::prelude::*;
use crate::findings::Span;

verus! {

/// A fact with a location in the source and an ordering key.
pub trait Located: View + Sized {
    /// The location of a fact.
    spec fn loc_of(v: Self::V) -> Span;

    /// The key the fact is ordered by.
    spec fn key_of(v: Self::V) -> u64;

    fn loc(&self) -> (r: Span)
        ensures
            r == Self::loc_of(self@);

    fn key(&self) -> (r: u64)
        ensures
            r == Self::key_of(self@);
}

/// The views of a sequence.
pub open spec fn views<T: View>(s: Seq<T>) -> Seq<T::V> {
    s.map_values(|x: T| x@)
}

/// Where `x` goes in `t`: after every element whose key is at most its key,
/// counting from the end.
pub open spec fn ins_pos<T: Located>(t: Seq<T::V>, x: T::V) -> int
    decreases t.len(),
{
    if t.len() == 0 {
        0
    } else if T::key_of(t.last()) <= T::key_of(x) {
        t.len() as int
    } else {
        ins_pos::<T>(t.drop_last(), x)
    }
}

/// The stable sort of `s` by key: equal keys keep their order.
pub open spec fn ssort<T: Located>(s: Seq<T::V>) -> Seq<T::V>
    decreases s.len(),
{
    if s.len() == 0 {
        s
    } else {
        let t = ssort::<T>(s.drop_last());
        t.insert(ins_pos::<T>(t, s.last()), s.last())
    }
}

/// Drop each fact at the same location as the fact kept before it.
pub open spec fn dedup_loc<T: Located>(s: Seq<T::V>) -> Seq<T::V>
    decreases s.len(),
{
    if s.len() == 0 {
        s
    } else {
        let d = dedup_loc::<T>(s.drop_last());
        if d.len() > 0 && T::loc_of(d.last()) == T::loc_of(s.last()) {
            d
        } else {
            d.push(s.last())
        }
    }
}

pub proof fn lemma_ins_pos_bounds<T: Located>(t: Seq<T::V>, x: T::V)
    ensures
        0 <= ins_pos::<T>(t, x) <= t.len(),
    decreases t.len(),
{
    if t.len() > 0 {
        lemma_ins_pos_bounds::<T>(t.drop_last(), x);
    }
}

pub proof fn lemma_ssort_len<T: Located>(s: Seq<T::V>)
    ensures
        ssort::<T>(s).len() == s.len(),
    decreases s.len(),
{
    if s.len() > 0 {
        lemma_ssort_len::<T>(s.drop_last());
        lemma_ins_pos_bounds::<T>(ssort::<T>(s.drop_last()), s.last());
    }
}

/// Order `v` stably by key.
pub fn stable_sort<T: Located>(v: Vec<T>) -> (r: Vec<T>)
    ensures
        views(r@) == ssort::<T>(views(v@)),
{
    let ghost orig = views(v@);
    let mut v = v;
    let mut out: Vec<T> = Vec::new();
    let n = v.len();
    let mut i: usize = 0;
    while v.len() > 0
        invariant
            i + v@.len() == n,
            orig.len() == n,
            views(v@) == orig.skip(i as int),
            views(out@) == ssort::<T>(orig.take(i as int)),
        decreases v@.len(),
    {
        let ghost rest = views(v@);
        let ghost vv = v@;
        let x = v.remove(0);
        assert(views(v@) =~= rest.drop_first());
        assert(rest[0] == vv[0]@);
        assert(x@ == orig[i as int]);
        let kx = x.key();
        let ghost t = views(out@);
        let mut j = out.len();
        assert(t.take(j as int) =~= t);
        let mut going = j > 0 && out[j - 1].key() > kx;
        while going
            invariant
                j <= out@.len(),
                t == views(out@),
                kx == T::key_of(x@),
                ins_pos::<T>(t, x@) == ins_pos::<T>(t.take(j as int), x@),
                going ==> j > 0 && T::key_of(out@[j - 1]@) > kx,
                !going ==> j == 0 || T::key_of(out@[j - 1]@) <= kx,
            decreases j,
        {
            assert(t[j - 1] == out@[j - 1]@);
            assert(t.take(j as int).last() == out@[j - 1]@);
            assert(t.take(j as int).drop_last() =~= t.take(j - 1));
            j -= 1;
            going = j > 0 && out[j - 1].key() > kx;
        }
        proof {
            if j > 0 {
                assert(t[j - 1] == out@[j - 1]@);
                assert(t.take(j as int).last() == out@[j - 1]@);
            }
            assert(ins_pos::<T>(t.take(j as int), x@) == j);
            assert(orig.take(i + 1).drop_last() =~= orig.take(i as int));
            assert(orig.take(i + 1).last() == x@);
        }
        out.insert(j, x);
        assert(views(out@) =~= t.insert(j as int, x@));
        assert(orig.skip(i + 1) =~= orig.skip(i as int).drop_first());
        i += 1;
    }
    assert(orig.take(n as int) =~= orig);
    out
}

/// Drop each fact at the same location as the fact kept before it.
pub fn dedup_located<T: Located>(v: Vec<T>) -> (r: Vec<T>)
    ensures
        views(r@) == dedup_loc::<T>(views(v@)),
{
    let ghost orig = views(v@);
    let mut v = v;
    let mut out: Vec<T> = Vec::new();
    let n = v.len();
    let mut i: usize = 0;
    while v.len() > 0
        invariant
            i + v@.len() == n,
            orig.len() == n,
            views(v@) == orig.skip(i as int),
            views(out@) == dedup_loc::<T>(orig.take(i as int)),
        decreases v@.len(),
    {
        let ghost rest = views(v@);
        let ghost vv = v@;
        let x = v.remove(0);
        assert(views(v@) =~= rest.drop_first());
        assert(rest[0] == vv[0]@);
        assert(x@ == orig[i as int]);
        proof {
            assert(orig.take(i + 1).drop_last() =~= orig.take(i as int));
            assert(orig.take(i + 1).last() == x@);
        }
        let keep = if out.len() == 0 {
            true
        } else {
            let a = out[out.len() - 1].loc();
            let b = x.loc();
            !(a.start.line == b.start.line && a.start.column == b.start.column
                && a.end.line == b.end.line && a.end.column == b.end.column
                && a.start_byte == b.start_byte && a.end_byte == b.end_byte)
        };
        if keep {
            let ghost t = views(out@);
            out.push(x);
            assert(views(out@) =~= t.push(x@));
        }
        assert(orig.skip(i + 1) =~= orig.skip(i as int).drop_first());
        i += 1;
    }
    assert(orig.take(n as int) =~= orig);
    out
}

/// `ins_pos` is after every element with a key at most `x`'s, counting
/// from the end: the elements from it on have larger keys.
pub proof fn lemma_ins_pos<T: Located>(t: Seq<T::V>, x: T::V)
    ensures
        0 <= ins_pos::<T>(t, x) <= t.len(),
        forall|j: int| ins_pos::<T>(t, x) <= j < t.len() ==> T::key_of(#[trigger] t[j]) > T::key_of(x),
        ins_pos::<T>(t, x) > 0 ==> T::key_of(t[ins_pos::<T>(t, x) - 1]) <= T::key_of(x),
    decreases t.len(),
{
    if t.len() > 0 && T::key_of(t.last()) > T::key_of(x) {
        lemma_ins_pos::<T>(t.drop_last(), x);
        assert forall|j: int| ins_pos::<T>(t, x) <= j < t.len() implies T::key_of(#[trigger] t[j]) > T::key_of(x) by {
            if j < t.len() - 1 {
                assert(t[j] == t.drop_last()[j]);
            }
        }
        if ins_pos::<T>(t, x) > 0 {
            assert(t[ins_pos::<T>(t, x) - 1] == t.drop_last()[ins_pos::<T>(t, x) - 1]);
        }
    }
}

/// Keys never decrease along `s`.
pub open spec fn key_sorted<T: Located>(s: Seq<T::V>) -> bool {
    forall|i: int, j: int| 0 <= i <= j < s.len() ==> T::key_of(#[trigger] s[i]) <= T::key_of(#[trigger] s[j])
}

/// The stable sort is ordered by key, has the same length, and holds only
/// elements of its input.
pub proof fn lemma_ssort<T: Located>(s: Seq<T::V>)
    ensures
        ssort::<T>(s).len() == s.len(),
        key_sorted::<T>(ssort::<T>(s)),
        forall|i: int| 0 <= i < s.len() ==> exists|j: int| 0 <= j < s.len() && #[trigger] ssort::<T>(s)[i] == s[j],
    decreases s.len(),
{
    if s.len() > 0 {
        let t = ssort::<T>(s.drop_last());
        let x = s.last();
        lemma_ssort::<T>(s.drop_last());
        lemma_ins_pos::<T>(t, x);
        let q = ins_pos::<T>(t, x);
        t.insert_ensures(q, x);
        let r = t.insert(q, x);
        assert(r == ssort::<T>(s));
        assert forall|i: int, j: int| 0 <= i <= j < r.len() implies T::key_of(#[trigger] r[i]) <= T::key_of(#[trigger] r[j]) by {
            if i < q {
                if j < q {
                } else if j == q {
                    assert(T::key_of(t[i]) <= T::key_of(t[q - 1]));
                } else {
                    assert(r[j] == t[j - 1]);
                }
            } else if i == q {
                if j > q {
                    assert(r[j] == t[j - 1]);
                }
            } else {
                assert(r[i] == t[i - 1]);
                assert(r[j] == t[j - 1]);
            }
        }
        assert forall|i: int| 0 <= i < s.len() implies exists|j: int| 0 <= j < s.len() && #[trigger] r[i] == s[j] by {
            if i < q {
                let k = choose|k: int| 0 <= k < s.drop_last().len() && t[i] == s.drop_last()[k];
                assert(r[i] == s[k]);
            } else if i == q {
                assert(r[i] == s[s.len() - 1]);
            } else {
                assert(r[i] == t[i - 1]);
                let k = choose|k: int| 0 <= k < s.drop_last().len() && t[i - 1] == s.drop_last()[k];
                assert(r[i] == s[k]);
            }
        }
    }
}

/// Removing adjacent facts at the same location keeps only elements of the
/// input, and keeps the first if there is one.
pub proof fn lemma_dedup_loc<T: Located>(s: Seq<T::V>)
    ensures
        dedup_loc::<T>(s).len() <= s.len(),
        s.len() > 0 ==> dedup_loc::<T>(s).len() > 0,
        forall|i: int| 0 <= i < dedup_loc::<T>(s).len() ==> exists|j: int| 0 <= j < s.len() && #[trigger] dedup_loc::<T>(s)[i] == s[j],
    decreases s.len(),
{
    if s.len() > 0 {
        let d = dedup_loc::<T>(s.drop_last());
        lemma_dedup_loc::<T>(s.drop_last());
        let r = dedup_loc::<T>(s);
        assert forall|i: int| 0 <= i < r.len() implies exists|j: int| 0 <= j < s.len() && #[trigger] r[i] == s[j] by {
            if i < d.len() {
                let k = choose|k: int| 0 <= k < s.drop_last().len() && d[i] == s.drop_last()[k];
                assert(r[i] == s[k]);
            } else {
                assert(r[i] == s[s.len() - 1]);
            }
        }
    }
}

/// Lexicographic order on character sequences (by code point), the order
/// of `str` comparison.
pub open spec fn text_lt(a: Seq<char>, b: Seq<char>) -> bool
    decreases a.len(),
{
    if a.len() == 0 {
        b.len() > 0
    } else if b.len() == 0 {
        false
    } else if a[0] != b[0] {
        a[0] < b[0]
    } else {
        text_lt(a.drop_first(), b.drop_first())
    }
}

proof fn lemma_text_irrefl(a: Seq<char>)
    ensures
        !text_lt(a, a),
    decreases a.len(),
{
    if a.len() > 0 {
        lemma_text_irrefl(a.drop_first());
    }
}

proof fn lemma_text_asym_total(a: Seq<char>, b: Seq<char>)
    ensures
        text_lt(a, b) ==> !text_lt(b, a),
        a != b ==> text_lt(a, b) || text_lt(b, a),
    decreases a.len(),
{
    if a.len() > 0 && b.len() > 0 {
        lemma_text_asym_total(a.drop_first(), b.drop_first());
        if a != b && a[0] == b[0] {
            assert(a.drop_first() != b.drop_first()) by {
                if a.drop_first() == b.drop_first() {
                    assert(a =~= seq![a[0]] + a.drop_first());
                    assert(b =~= seq![b[0]] + b.drop_first());
                }
            }
        }
    } else if a.len() == 0 && b.len() == 0 {
        assert(a =~= b);
    }
}

proof fn lemma_text_trans(a: Seq<char>, b: Seq<char>, c: Seq<char>)
    ensures
        text_lt(a, b) && text_lt(b, c) ==> text_lt(a, c),
    decreases a.len(),
{
    if a.len() > 0 && b.len() > 0 && c.len() > 0 {
        lemma_text_trans(a.drop_first(), b.drop_first(), c.drop_first());
    }
}

/// `text_lt` is a strict total order.
pub proof fn lemma_text_lt(a: Seq<char>, b: Seq<char>, c: Seq<char>)
    ensures
        !text_lt(a, a),
        text_lt(a, b) ==> !text_lt(b, a),
        a != b ==> text_lt(a, b) || text_lt(b, a),
        text_lt(a, b) && text_lt(b, c) ==> text_lt(a, c),
{
    lemma_text_irrefl(a);
    lemma_text_asym_total(a, b);
    lemma_text_trans(a, b, c);
}

/// Compare two strings lexicographically.
pub fn text_less(a: &str, b: &str) -> (r: bool)
    ensures
        r == text_lt(a@, b@),
{
    let x = crate::text::chars_of(a);
    let y = crate::text::chars_of(b);
    let mut i: usize = 0;
    assert(x@.skip(0) =~= x@);
    assert(y@.skip(0) =~= y@);
    while i < x.len() && i < y.len() && x[i] == y[i]
        invariant
            i <= x@.len(),
            i <= y@.len(),
            text_lt(a@, b@) == text_lt(x@.skip(i as int), y@.skip(i as int)),
        decreases x@.len() - i,
    {
        assert(x@.skip(i as int).drop_first() =~= x@.skip(i + 1));
        assert(y@.skip(i as int).drop_first() =~= y@.skip(i + 1));
        i += 1;
    }
    if i == x.len() {
        i < y.len()
    } else if i == y.len() {
        false
    } else {
        assert(x@.skip(i as int)[0] == x@[i as int]);
        assert(y@.skip(i as int)[0] == y@[i as int]);
        x[i] < y[i]
    }
}

/// Strictly increasing in `text_lt`.
pub open spec fn strictly_sorted(s: Seq<Seq<char>>) -> bool {
    forall|i: int, j: int| 0 <= i < j < s.len() ==> text_lt(#[trigger] s[i], #[trigger] s[j])
}

/// Add `x` to a strictly sorted list of strings (no effect if present).
pub fn insert_sorted_unique(v: &mut Vec<String>, x: String)
    requires
        strictly_sorted(crate::paths::strings_view(old(v)@)),
    ensures
        strictly_sorted(crate::paths::strings_view(final(v)@)),
        forall|y: Seq<char>| crate::paths::strings_view(final(v)@).contains(y) <==> (crate::paths::strings_view(old(v)@).contains(y) || y == x@),
{
    let ghost sv = crate::paths::strings_view(v@);
    let n = v.len();
    let mut i: usize = 0;
    while i < n && text_less(v[i].as_str(), x.as_str())
        invariant
            i <= n,
            n == v@.len(),
            sv == crate::paths::strings_view(v@),
            strictly_sorted(sv),
            forall|j: int| 0 <= j < i ==> text_lt(#[trigger] sv[j], x@),
        decreases n - i,
    {
        assert(sv[i as int] == v@[i as int]@);
        i += 1;
    }
    if i < n && v[i] == x {
        assert(sv.contains(x@)) by {
            assert(sv[i as int] == x@);
        }
        return;
    }
    proof {
        if i < n {
            assert(sv[i as int] == v@[i as int]@);
            lemma_text_lt(x@, sv[i as int], x@);
            assert(text_lt(x@, sv[i as int]));
        }
    }
    v.insert(i, x);
    let ghost nv = crate::paths::strings_view(v@);
    assert(nv =~= sv.insert(i as int, x@));
    proof { sv.insert_ensures(i as int, x@); }
    assert forall|a: int, b: int| 0 <= a < b < nv.len() implies text_lt(#[trigger] nv[a], #[trigger] nv[b]) by {
        if b < i {
        } else if b == i {
            assert(nv[a] == sv[a]);
        } else if a < i {
            assert(nv[b] == sv[b - 1]);
            assert(nv[a] == sv[a]);
            if i < n {
                lemma_text_lt(sv[a], x@, sv[i as int]);
                if b - 1 > i {
                    lemma_text_lt(sv[a], sv[i as int], sv[b - 1]);
                }
            }
        } else if a == i {
            assert(nv[b] == sv[b - 1]);
            if b - 1 > i {
                lemma_text_lt(x@, sv[i as int], sv[b - 1]);
            }
        } else {
            assert(nv[a] == sv[a - 1]);
            assert(nv[b] == sv[b - 1]);
        }
    }
    assert forall|y: Seq<char>| nv.contains(y) <==> (sv.contains(y) || y == x@) by {
        if nv.contains(y) {
            let k = choose|k: int| 0 <= k < nv.len() && nv[k] == y;
            if k < i { assert(sv[k] == y); } else if k > i { assert(sv[k - 1] == y); }
        }
        if sv.contains(y) {
            let k = choose|k: int| 0 <= k < sv.len() && sv[k] == y;
            if k < i { assert(nv[k] == y); } else { assert(nv[k + 1] == y); }
        }
        if y == x@ {
            assert(nv[i as int] == y);
        }
    }
}

/// Two strictly sorted lists with the same elements are equal.
pub proof fn lemma_sorted_same(s1: Seq<Seq<char>>, s2: Seq<Seq<char>>)
    requires
        strictly_sorted(s1),
        strictly_sorted(s2),
        forall|y: Seq<char>| s1.contains(y) <==> s2.contains(y),
    ensures
        s1 == s2,
    decreases s1.len(),
{
    if s1.len() == 0 {
        if s2.len() > 0 {
            assert(s2.contains(s2[0]));
        }
        assert(s1 =~= s2);
    } else {
        assert(s1.contains(s1[0]));
        assert(s2.len() > 0);
        assert(s2.contains(s2[0]));
        let a = s1[0];
        let b = s2[0];
        let i = choose|i: int| 0 <= i < s2.len() && s2[i] == a;
        let j = choose|j: int| 0 <= j < s1.len() && s1[j] == b;
        lemma_text_lt(a, b, a);
        if a != b {
            assert(j > 0);
            assert(i > 0);
            assert(text_lt(a, b));
            assert(text_lt(b, a));
        }
        let t1 = s1.drop_first();
        let t2 = s2.drop_first();
        assert forall|y: Seq<char>| t1.contains(y) <==> t2.contains(y) by {
            if t1.contains(y) {
                let k = choose|k: int| 0 <= k < t1.len() && t1[k] == y;
                assert(s1[k + 1] == y);
                assert(text_lt(a, y));
                lemma_text_lt(a, y, a);
                assert(s2.contains(y));
                let m = choose|m: int| 0 <= m < s2.len() && s2[m] == y;
                assert(m != 0);
                assert(t2[m - 1] == y);
            }
            if t2.contains(y) {
                let k = choose|k: int| 0 <= k < t2.len() && t2[k] == y;
                assert(s2[k + 1] == y);
                assert(text_lt(b, y));
                lemma_text_lt(b, y, b);
                assert(s1.contains(y));
                let m = choose|m: int| 0 <= m < s1.len() && s1[m] == y;
                assert(m != 0);
                assert(t1[m - 1] == y);
            }
        }
        assert(strictly_sorted(t1)) by {
            assert forall|x: int, y: int| 0 <= x < y < t1.len() implies text_lt(#[trigger] t1[x], #[trigger] t1[y]) by {
                assert(t1[x] == s1[x + 1]);
                assert(t1[y] == s1[y + 1]);
            }
        }
        assert(strictly_sorted(t2)) by {
            assert forall|x: int, y: int| 0 <= x < y < t2.len() implies text_lt(#[trigger] t2[x], #[trigger] t2[y]) by {
                assert(t2[x] == s2[x + 1]);
                assert(t2[y] == s2[y + 1]);
            }
        }
        lemma_sorted_same(t1, t2);
        assert(s1 =~= seq![a] + t1);
        assert(s2 =~= seq![b] + t2);
    }
}

/// The strictly sorted list of the distinct elements of `xs`.
pub open spec fn sorted_distinct(xs: Seq<Seq<char>>) -> Seq<Seq<char>> {
    choose|s: Seq<Seq<char>>| strictly_sorted(s) && forall|y: Seq<char>| s.contains(y) <==> xs.contains(y)
}

/// A strictly sorted list holding exactly the elements of `xs` is their
/// sorted distinct list.
pub proof fn lemma_sorted_distinct(s: Seq<Seq<char>>, xs: Seq<Seq<char>>)
    requires
        strictly_sorted(s),
        forall|y: Seq<char>| s.contains(y) <==> xs.contains(y),
    ensures
        sorted_distinct(xs) == s,
{
    let c = sorted_distinct(xs);
    assert(strictly_sorted(c) && forall|y: Seq<char>| c.contains(y) <==> xs.contains(y));
    lemma_sorted_same(c, s);
}

/// Lexicographic order on pairs of character sequences.
pub open spec fn pair_lt(a: (Seq<char>, Seq<char>), b: (Seq<char>, Seq<char>)) -> bool {
    text_lt(a.0, b.0) || (a.0 == b.0 && text_lt(a.1, b.1))
}

pub proof fn lemma_pair_lt(a: (Seq<char>, Seq<char>), b: (Seq<char>, Seq<char>), c: (Seq<char>, Seq<char>))
    ensures
        !pair_lt(a, a),
        pair_lt(a, b) ==> !pair_lt(b, a),
        a != b ==> pair_lt(a, b) || pair_lt(b, a),
        pair_lt(a, b) && pair_lt(b, c) ==> pair_lt(a, c),
{
    lemma_text_lt(a.0, b.0, c.0);
    lemma_text_lt(a.1, b.1, c.1);
    lemma_text_lt(b.0, a.0, c.0);
    lemma_text_lt(a.0, c.0, b.0);
}

pub open spec fn pairs_view(v: Seq<(String, String)>) -> Seq<(Seq<char>, Seq<char>)> {
    v.map_values(|e: (String, String)| (e.0@, e.1@))
}

pub open spec fn pairs_sorted(s: Seq<(Seq<char>, Seq<char>)>) -> bool {
    forall|i: int, j: int| 0 <= i < j < s.len() ==> pair_lt(#[trigger] s[i], #[trigger] s[j])
}

/// Add `x` to a strictly sorted list of pairs (no effect if present).
pub fn insert_pair_sorted_unique(v: &mut Vec<(String, String)>, x: (String, String))
    requires
        pairs_sorted(pairs_view(old(v)@)),
    ensures
        pairs_sorted(pairs_view(final(v)@)),
        forall|y: (Seq<char>, Seq<char>)| pairs_view(final(v)@).contains(y) <==> (pairs_view(old(v)@).contains(y) || y == (x.0@, x.1@)),
{
    let ghost sv = pairs_view(v@);
    let ghost xv = (x.0@, x.1@);
    let n = v.len();
    let mut i: usize = 0;
    while i < n && (text_less(v[i].0.as_str(), x.0.as_str()) || (v[i].0 == x.0 && text_less(v[i].1.as_str(), x.1.as_str())))
        invariant
            i <= n,
            n == v@.len(),
            sv == pairs_view(v@),
            xv == (x.0@, x.1@),
            pairs_sorted(sv),
            forall|j: int| 0 <= j < i ==> pair_lt(#[trigger] sv[j], xv),
        decreases n - i,
    {
        assert(sv[i as int] == (v@[i as int].0@, v@[i as int].1@));
        i += 1;
    }
    if i < n && v[i].0 == x.0 && v[i].1 == x.1 {
        assert(sv.contains(xv)) by {
            assert(sv[i as int] == xv);
        }
        return;
    }
    proof {
        if i < n {
            assert(sv[i as int] == (v@[i as int].0@, v@[i as int].1@));
            lemma_pair_lt(xv, sv[i as int], xv);
            assert(pair_lt(xv, sv[i as int]));
        }
    }
    v.insert(i, x);
    let ghost nv = pairs_view(v@);
    assert(nv =~= sv.insert(i as int, xv));
    proof { sv.insert_ensures(i as int, xv); }
    assert forall|a: int, b: int| 0 <= a < b < nv.len() implies pair_lt(#[trigger] nv[a], #[trigger] nv[b]) by {
        if b < i {
        } else if b == i {
            assert(nv[a] == sv[a]);
        } else if a < i {
            assert(nv[b] == sv[b - 1]);
            assert(nv[a] == sv[a]);
            if i < n {
                lemma_pair_lt(sv[a], xv, sv[i as int]);
                if b - 1 > i {
                    lemma_pair_lt(sv[a], sv[i as int], sv[b - 1]);
                }
            }
        } else if a == i {
            assert(nv[b] == sv[b - 1]);
            if b - 1 > i {
                lemma_pair_lt(xv, sv[i as int], sv[b - 1]);
            }
        } else {
            assert(nv[a] == sv[a - 1]);
            assert(nv[b] == sv[b - 1]);
        }
    }
    assert forall|y: (Seq<char>, Seq<char>)| nv.contains(y) <==> (sv.contains(y) || y == xv) by {
        if nv.contains(y) {
            let k = choose|k: int| 0 <= k < nv.len() && nv[k] == y;
            if k < i { assert(sv[k] == y); } else if k > i { assert(sv[k - 1] == y); }
        }
        if sv.contains(y) {
            let k = choose|k: int| 0 <= k < sv.len() && sv[k] == y;
            if k < i { assert(nv[k] == y); } else { assert(nv[k + 1] == y); }
        }
        if y == xv {
            assert(nv[i as int] == y);
        }
    }
}

/// Two strictly sorted lists of pairs with the same elements are equal.
pub proof fn lemma_pairs_same(s1: Seq<(Seq<char>, Seq<char>)>, s2: Seq<(Seq<char>, Seq<char>)>)
    requires
        pairs_sorted(s1),
        pairs_sorted(s2),
        forall|y: (Seq<char>, Seq<char>)| s1.contains(y) <==> s2.contains(y),
    ensures
        s1 == s2,
    decreases s1.len(),
{
    if s1.len() == 0 {
        if s2.len() > 0 {
            assert(s2.contains(s2[0]));
        }
        assert(s1 =~= s2);
    } else {
        assert(s1.contains(s1[0]));
        assert(s2.contains(s2[0]));
        let a = s1[0];
        let b = s2[0];
        let i = choose|i: int| 0 <= i < s2.len() && s2[i] == a;
        let j = choose|j: int| 0 <= j < s1.len() && s1[j] == b;
        lemma_pair_lt(a, b, a);
        if a != b {
            assert(j > 0);
            assert(i > 0);
            assert(pair_lt(a, b));
            assert(pair_lt(b, a));
        }
        let t1 = s1.drop_first();
        let t2 = s2.drop_first();
        assert forall|y: (Seq<char>, Seq<char>)| t1.contains(y) <==> t2.contains(y) by {
            if t1.contains(y) {
                let k = choose|k: int| 0 <= k < t1.len() && t1[k] == y;
                assert(s1[k + 1] == y);
                assert(pair_lt(a, y));
                lemma_pair_lt(a, y, a);
                assert(s2.contains(y));
                let m = choose|m: int| 0 <= m < s2.len() && s2[m] == y;
                assert(m != 0);
                assert(t2[m - 1] == y);
            }
            if t2.contains(y) {
                let k = choose|k: int| 0 <= k < t2.len() && t2[k] == y;
                assert(s2[k + 1] == y);
                assert(pair_lt(b, y));
                lemma_pair_lt(b, y, b);
                assert(s1.contains(y));
                let m = choose|m: int| 0 <= m < s1.len() && s1[m] == y;
                assert(m != 0);
                assert(t1[m - 1] == y);
            }
        }
        assert(pairs_sorted(t1)) by {
            assert forall|x: int, y: int| 0 <= x < y < t1.len() implies pair_lt(#[trigger] t1[x], #[trigger] t1[y]) by {
                assert(t1[x] == s1[x + 1]);
                assert(t1[y] == s1[y + 1]);
            }
        }
        assert(pairs_sorted(t2)) by {
            assert forall|x: int, y: int| 0 <= x < y < t2.len() implies pair_lt(#[trigger] t2[x], #[trigger] t2[y]) by {
                assert(t2[x] == s2[x + 1]);
                assert(t2[y] == s2[y + 1]);
            }
        }
        lemma_pairs_same(t1, t2);
        assert(s1 =~= seq![a] + t1);
        assert(s2 =~= seq![b] + t2);
    }
}

/// The sorted list of the distinct pairs of `xs`.
pub open spec fn pairs_distinct(xs: Seq<(Seq<char>, Seq<char>)>) -> Seq<(Seq<char>, Seq<char>)> {
    choose|s: Seq<(Seq<char>, Seq<char>)>| pairs_sorted(s) && forall|y: (Seq<char>, Seq<char>)| s.contains(y) <==> xs.contains(y)
}

pub proof fn lemma_pairs_distinct(s: Seq<(Seq<char>, Seq<char>)>, xs: Seq<(Seq<char>, Seq<char>)>)
    requires
        pairs_sorted(s),
        forall|y: (Seq<char>, Seq<char>)| s.contains(y) <==> xs.contains(y),
    ensures
        pairs_distinct(xs) == s,
{
    let c = pairs_distinct(xs);
    assert(pairs_sorted(c) && forall|y: (Seq<char>, Seq<char>)| c.contains(y) <==> xs.contains(y));
    lemma_pairs_same(c, s);
}

/// Where `x` goes in `t` under the strict order `lt`: after every element
/// it is not less than, counting from the end.
pub open spec fn ins_pos_by<V>(t: Seq<V>, x: V, lt: spec_fn(V, V) -> bool) -> int
    decreases t.len(),
{
    if t.len() == 0 {
        0
    } else if !lt(x, t.last()) {
        t.len() as int
    } else {
        ins_pos_by(t.drop_last(), x, lt)
    }
}

/// The stable sort of `s` under the strict order `lt` (insertion order).
pub open spec fn ssort_by<V>(s: Seq<V>, lt: spec_fn(V, V) -> bool) -> Seq<V>
    decreases s.len(),
{
    if s.len() == 0 {
        s
    } else {
        let t = ssort_by(s.drop_last(), lt);
        t.insert(ins_pos_by(t, s.last(), lt), s.last())
    }
}

/// `lt` is a strict weak order: irreflexive, transitive, and whatever
/// lies strictly between two values in it is comparable to both.
pub open spec fn strict_weak<V>(lt: spec_fn(V, V) -> bool) -> bool {
    &&& forall|a: V| !#[trigger] lt(a, a)
    &&& forall|a: V, b: V, c: V| #[trigger] lt(a, b) && #[trigger] lt(b, c) ==> lt(a, c)
    &&& forall|a: V, b: V, c: V| #[trigger] lt(a, c) ==> lt(a, b) || #[trigger] lt(b, c)
}

/// No element of `s` sorts before one ahead of it.
pub open spec fn sorted_by<V>(s: Seq<V>, lt: spec_fn(V, V) -> bool) -> bool {
    forall|i: int, j: int| 0 <= i < j < s.len() ==> !lt(#[trigger] s[j], #[trigger] s[i])
}

proof fn lemma_ins_pos_by_props<V>(t: Seq<V>, x: V, lt: spec_fn(V, V) -> bool)
    ensures
        0 <= ins_pos_by(t, x, lt) <= t.len(),
        forall|k: int| ins_pos_by(t, x, lt) <= k < t.len() ==> lt(x, #[trigger] t[k]),
        ins_pos_by(t, x, lt) > 0 ==> !lt(x, t[ins_pos_by(t, x, lt) - 1]),
    decreases t.len(),
{
    if t.len() > 0 && lt(x, t.last()) {
        lemma_ins_pos_by_props(t.drop_last(), x, lt);
        let p = ins_pos_by(t, x, lt);
        assert forall|k: int| p <= k < t.len() implies lt(x, #[trigger] t[k]) by {
            if k < t.len() - 1 {
                assert(t[k] == t.drop_last()[k]);
            }
        }
        if p > 0 {
            assert(t[p - 1] == t.drop_last()[p - 1]);
        }
    }
}

/// Inserting at the stable position keeps a sorted sequence sorted.
proof fn lemma_insert_sorted<V>(t: Seq<V>, x: V, lt: spec_fn(V, V) -> bool)
    requires
        strict_weak(lt),
        sorted_by(t, lt),
    ensures
        sorted_by(t.insert(ins_pos_by(t, x, lt), x), lt),
{
    let p = ins_pos_by(t, x, lt);
    lemma_ins_pos_by_props(t, x, lt);
    let u = t.insert(p, x);
    assert forall|i: int, j: int| 0 <= i < j < u.len() implies !lt(#[trigger] u[j], #[trigger] u[i]) by {
        if i == p {
            assert(u[j] == t[j - 1]);
            assert(lt(x, t[j - 1]));
            if lt(t[j - 1], x) {
                assert(lt(x, x));
            }
        } else if j == p {
            assert(u[i] == t[i]);
            if lt(x, t[i]) {
                if i < p - 1 {
                    assert(!lt(t[p - 1], t[i]));
                    assert(lt(x, t[p - 1]) || lt(t[p - 1], t[i]));
                }
            }
        } else {
            let ti = if i < p { i } else { i - 1 };
            let tj = if j < p { j } else { j - 1 };
            assert(u[i] == t[ti]);
            assert(u[j] == t[tj]);
            assert(ti < tj);
        }
    }
}

/// `ssort_by` under a strict weak order gives a sorted sequence.
pub proof fn lemma_ssort_by_sorted<V>(s: Seq<V>, lt: spec_fn(V, V) -> bool)
    requires
        strict_weak(lt),
    ensures
        sorted_by(ssort_by(s, lt), lt),
    decreases s.len(),
{
    if s.len() > 0 {
        lemma_ssort_by_sorted(s.drop_last(), lt);
        lemma_insert_sorted(ssort_by(s.drop_last(), lt), s.last(), lt);
    }
}

/// Order `v` stably by `less`, whose results follow `lt`.
pub fn stable_sort_by<T: View, F: Fn(&T, &T) -> bool>(v: Vec<T>, less: F, Ghost(lt): Ghost<spec_fn(T::V, T::V) -> bool>) -> (r: Vec<T>)
    requires
        forall|a: &T, b: &T| #[trigger] less.requires((a, b)),
        forall|a: &T, b: &T, r: bool| less.ensures((a, b), r) ==> r == lt(a@, b@),
    ensures
        views(r@) == ssort_by(views(v@), lt),
{
    let ghost orig = views(v@);
    let mut v = v;
    let mut out: Vec<T> = Vec::new();
    let n = v.len();
    let mut i: usize = 0;
    while v.len() > 0
        invariant
            i + v@.len() == n,
            orig.len() == n,
            views(v@) == orig.skip(i as int),
            views(out@) == ssort_by(orig.take(i as int), lt),
            forall|a: &T, b: &T| #[trigger] less.requires((a, b)),
            forall|a: &T, b: &T, r: bool| less.ensures((a, b), r) ==> r == lt(a@, b@),
        decreases v@.len(),
    {
        let ghost rest = views(v@);
        let ghost vv = v@;
        let x = v.remove(0);
        assert(views(v@) =~= rest.drop_first());
        assert(rest[0] == vv[0]@);
        assert(x@ == orig[i as int]);
        let ghost t = views(out@);
        let mut j = out.len();
        assert(t.take(j as int) =~= t);
        let mut going = j > 0 && less(&x, &out[j - 1]);
        while going
            invariant
                j <= out@.len(),
                t == views(out@),
                ins_pos_by(t, x@, lt) == ins_pos_by(t.take(j as int), x@, lt),
                going ==> j > 0 && lt(x@, out@[j - 1]@),
                !going ==> j == 0 || !lt(x@, out@[j - 1]@),
                forall|a: &T, b: &T| #[trigger] less.requires((a, b)),
                forall|a: &T, b: &T, r: bool| less.ensures((a, b), r) ==> r == lt(a@, b@),
            decreases j,
        {
            assert(t[j - 1] == out@[j - 1]@);
            assert(t.take(j as int).last() == out@[j - 1]@);
            assert(t.take(j as int).drop_last() =~= t.take(j - 1));
            j -= 1;
            going = j > 0 && less(&x, &out[j - 1]);
        }
        proof {
            if j > 0 {
                assert(t[j - 1] == out@[j - 1]@);
                assert(t.take(j as int).last() == out@[j - 1]@);
            }
            assert(ins_pos_by(t.take(j as int), x@, lt) == j);
            assert(orig.take(i + 1).drop_last() =~= orig.take(i as int));
            assert(orig.take(i + 1).last() == x@);
        }
        out.insert(j, x);
        assert(views(out@) =~= t.insert(j as int, x@));
        assert(orig.skip(i + 1) =~= orig.skip(i as int).drop_first());
        i += 1;
    }
    assert(orig.take(n as int) =~= orig);
    out
}

pub proof fn lemma_ins_pos_by_bounds<V>(t: Seq<V>, x: V, lt: spec_fn(V, V) -> bool)
    ensures
        0 <= ins_pos_by(t, x, lt) <= t.len(),
    decreases t.len(),
{
    if t.len() > 0 {
        lemma_ins_pos_by_bounds(t.drop_last(), x, lt);
    }
}

pub proof fn lemma_ssort_by_len<V>(s: Seq<V>, lt: spec_fn(V, V) -> bool)
    ensures
        ssort_by(s, lt).len() == s.len(),
    decreases s.len(),
{
    if s.len() > 0 {
        lemma_ssort_by_len(s.drop_last(), lt);
        lemma_ins_pos_by_bounds(ssort_by(s.drop_last(), lt), s.last(), lt);
    }
}

} // verus!
