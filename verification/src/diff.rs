//! Differential scans: the files changed relative to a base ref, from the
//! NUL-separated path lists git prints (`git diff --name-only -z` and
//! `git ls-files --others -z`). Running git is the caller's part.

use vstd::prelude::*;
use crate::paths::strings_view;
use crate::sorting::{text_lt, text_less, lemma_text_lt, ssort_by, stable_sort_by, strict_weak, sorted_by, lemma_ssort_by_sorted};
use crate::text::{chars_of, chars_eq};

verus! {

broadcast use vstd::string::group_string_axioms;

/// The text of bytes read as UTF-8 with invalid sequences replaced
/// (`String::from_utf8_lossy`).
pub uninterp spec fn lossy_text(bytes: Seq<u8>) -> Seq<char>;

/// `String::from_utf8_lossy(bytes).into_owned()`. The result is named; it
/// is a function of the bytes alone.
#[verifier::external_body]
fn utf8_lossy(bytes: &[u8]) -> (r: String)
    ensures
        r@ == lossy_text(bytes@),
{
    String::from_utf8_lossy(bytes).into_owned()
}

/// Split bytes at NUL as a fold: the finished non-empty pieces and the
/// piece being read.
pub open spec fn z_acc(b: Seq<u8>) -> (Seq<Seq<u8>>, Seq<u8>)
    decreases b.len(),
{
    if b.len() == 0 {
        (Seq::empty(), Seq::empty())
    } else {
        let (done, cur) = z_acc(b.drop_last());
        if b.last() == 0 {
            (if cur.len() > 0 { done.push(cur) } else { done }, Seq::empty())
        } else {
            (done, cur.push(b.last()))
        }
    }
}

/// The non-empty NUL-separated pieces of a byte string.
pub open spec fn z_pieces(b: Seq<u8>) -> Seq<Seq<u8>> {
    let (done, cur) = z_acc(b);
    if cur.len() > 0 { done.push(cur) } else { done }
}

/// The paths of a NUL-separated list, read as (lossy) UTF-8.
pub open spec fn parse_z_spec(b: Seq<u8>) -> Seq<Seq<char>> {
    z_pieces(b).map_values(|p: Seq<u8>| lossy_text(p))
}

/// Parse a NUL-separated path list, skipping empty entries.
pub fn parse_z(bytes: &Vec<u8>) -> (r: Vec<String>)
    ensures
        strings_view(r@) == parse_z_spec(bytes@),
{
    let mut done: Vec<Vec<u8>> = Vec::new();
    let mut cur: Vec<u8> = Vec::new();
    let n = bytes.len();
    for i in 0..n
        invariant
            n == bytes@.len(),
            (done@.map_values(|v: Vec<u8>| v@), cur@) == z_acc(bytes@.take(i as int)),
    {
        assert(bytes@.take(i + 1).drop_last() =~= bytes@.take(i as int));
        if bytes[i] == 0 {
            if cur.len() > 0 {
                let ghost before = done@.map_values(|v: Vec<u8>| v@);
                done.push(cur);
                assert(done@.map_values(|v: Vec<u8>| v@) =~= before.push(done@.last()@));
            }
            cur = Vec::new();
        } else {
            cur.push(bytes[i]);
        }
    }
    assert(bytes@.take(n as int) =~= bytes@);
    if cur.len() > 0 {
        let ghost before = done@.map_values(|v: Vec<u8>| v@);
        done.push(cur);
        assert(done@.map_values(|v: Vec<u8>| v@) =~= before.push(done@.last()@));
    }
    let ghost pieces = done@.map_values(|v: Vec<u8>| v@);
    let mut out: Vec<String> = Vec::new();
    let m = done.len();
    for j in 0..m
        invariant
            m == done@.len(),
            pieces == done@.map_values(|v: Vec<u8>| v@),
            strings_view(out@) == pieces.take(j as int).map_values(|p: Seq<u8>| lossy_text(p)),
    {
        let ghost before = strings_view(out@);
        out.push(utf8_lossy(done[j].as_slice()));
        assert(strings_view(out@) =~= before.push(lossy_text(pieces[j as int])));
        assert(pieces.take(j + 1).map_values(|p: Seq<u8>| lossy_text(p))
            =~= pieces.take(j as int).map_values(|p: Seq<u8>| lossy_text(p)).push(lossy_text(pieces[j as int])));
    }
    assert(pieces.take(m as int) =~= pieces);
    out
}

/// The components of a `/`-separated relative path (empty pieces, from
/// repeated separators, do not count).
pub open spec fn components(s: Seq<char>) -> Seq<Seq<char>> {
    crate::linker::split_on(s, '/').filter(|c: Seq<char>| c.len() > 0)
}

/// Lexicographic order on component lists.
pub open spec fn comps_lt(a: Seq<Seq<char>>, b: Seq<Seq<char>>) -> bool
    decreases a.len(),
{
    if a.len() == 0 {
        b.len() > 0
    } else if b.len() == 0 {
        false
    } else if a[0] != b[0] {
        text_lt(a[0], b[0])
    } else {
        comps_lt(a.drop_first(), b.drop_first())
    }
}

/// Path order: component by component (`Path`'s order).
pub open spec fn path_lt(a: Seq<char>, b: Seq<char>) -> bool {
    comps_lt(components(a), components(b))
}

fn path_components(s: &String) -> (r: Vec<Vec<char>>)
    ensures
        crate::paths::char_vecs_view(r@) == components(s@),
{
    let cs = chars_of(s.as_str());
    let parts = crate::linker::split_chars(&cs, '/');
    let ghost pv = crate::paths::char_vecs_view(parts@);
    let ghost keep = |c: Seq<char>| c.len() > 0;
    let mut out: Vec<Vec<char>> = Vec::new();
    let n = parts.len();
    let mut rest = parts;
    let mut rev: Vec<Vec<char>> = Vec::new();
    let mut k = n;
    while k > 0
        invariant
            k <= n,
            n == pv.len(),
            crate::paths::char_vecs_view(rest@) == pv.take(k as int),
            rev@.len() == n - k,
            forall|j: int| 0 <= j < rev@.len() ==> (#[trigger] rev@[j])@ == pv[n - 1 - j],
        decreases k,
    {
        let ghost rv = crate::paths::char_vecs_view(rest@);
        assert(rv.len() == rest@.len());
        let p = rest.pop().unwrap();
        assert(rv.last() == p@);
        rev.push(p);
        assert(crate::paths::char_vecs_view(rest@) =~= rv.drop_last());
        assert(pv.take(k as int).drop_last() =~= pv.take(k - 1));
        k -= 1;
    }
    let mut i: usize = 0;
    while i < n
        invariant
            i <= n,
            n == pv.len(),
            rev@.len() == n - i,
            forall|j: int| 0 <= j < rev@.len() ==> (#[trigger] rev@[j])@ == pv[n - 1 - j],
            keep == (|c: Seq<char>| c.len() > 0),
            crate::paths::char_vecs_view(out@) == pv.take(i as int).filter(keep),
        decreases n - i,
    {
        let p = rev.pop().unwrap();
        assert(p@ == pv[i as int]);
        proof { pv.take(i as int).lemma_filter_push(pv[i as int], keep); }
        assert(pv.take(i + 1) =~= pv.take(i as int).push(pv[i as int]));
        if p.len() > 0 {
            let ghost before = crate::paths::char_vecs_view(out@);
            out.push(p);
            assert(crate::paths::char_vecs_view(out@) =~= before.push(pv[i as int]));
        }
        i += 1;
    }
    assert(pv.take(n as int) =~= pv);
    out
}

/// Compare two paths component by component.
pub fn path_less(a: &String, b: &String) -> (r: bool)
    ensures
        r == path_lt(a@, b@),
{
    let x = path_components(a);
    let y = path_components(b);
    let ghost xv = crate::paths::char_vecs_view(x@);
    let ghost yv = crate::paths::char_vecs_view(y@);
    let mut i: usize = 0;
    assert(xv.skip(0) =~= xv);
    assert(yv.skip(0) =~= yv);
    while i < x.len() && i < y.len() && chars_eq(x[i].as_slice(), y[i].as_slice())
        invariant
            i <= x@.len(),
            i <= y@.len(),
            xv == crate::paths::char_vecs_view(x@),
            yv == crate::paths::char_vecs_view(y@),
            path_lt(a@, b@) == comps_lt(xv.skip(i as int), yv.skip(i as int)),
        decreases x@.len() - i,
    {
        assert(xv.skip(i as int)[0] == xv[i as int]);
        assert(yv.skip(i as int)[0] == yv[i as int]);
        assert(xv.skip(i as int).drop_first() =~= xv.skip(i + 1));
        assert(yv.skip(i as int).drop_first() =~= yv.skip(i + 1));
        i += 1;
    }
    if i == x.len() {
        i < y.len()
    } else if i == y.len() {
        false
    } else {
        assert(xv.skip(i as int)[0] == xv[i as int]);
        assert(yv.skip(i as int)[0] == yv[i as int]);
        let sx = crate::text::string_of(x[i].as_slice());
        let sy = crate::text::string_of(y[i].as_slice());
        text_less(sx.as_str(), sy.as_str())
    }
}

/// Drop each path equal (component by component) to the one before it.
pub open spec fn dedup_paths(s: Seq<Seq<char>>) -> Seq<Seq<char>>
    decreases s.len(),
{
    if s.len() <= 1 {
        s
    } else if components(s.last()) == components(s.drop_last().last()) {
        dedup_paths(s.drop_last())
    } else {
        dedup_paths(s.drop_last()).push(s.last())
    }
}

proof fn lemma_dedup_last(s: Seq<Seq<char>>)
    requires
        s.len() > 0,
    ensures
        dedup_paths(s).len() > 0,
        components(dedup_paths(s).last()) == components(s.last()),
    decreases s.len(),
{
    if s.len() > 1 {
        lemma_dedup_last(s.drop_last());
    }
}

fn same_path(a: &String, b: &String) -> (r: bool)
    ensures
        r == (components(a@) == components(b@)),
{
    let x = path_components(a);
    let y = path_components(b);
    if x.len() != y.len() {
        assert(crate::paths::char_vecs_view(x@).len() != crate::paths::char_vecs_view(y@).len());
        return false;
    }
    let n = x.len();
    for i in 0..n
        invariant
            n == x@.len(),
            n == y@.len(),
            crate::paths::char_vecs_view(x@) == components(a@),
            crate::paths::char_vecs_view(y@) == components(b@),
            forall|j: int| 0 <= j < i ==> (#[trigger] x@[j])@ == y@[j]@,
    {
        if !chars_eq(x[i].as_slice(), y[i].as_slice()) {
            assert(crate::paths::char_vecs_view(x@)[i as int] != crate::paths::char_vecs_view(y@)[i as int]);
            return false;
        }
    }
    assert(crate::paths::char_vecs_view(x@) =~= crate::paths::char_vecs_view(y@));
    true
}

/// The changed files: those the diff lists, then the untracked ones,
/// sorted in path order without repeats.
pub open spec fn changed_spec(diffed: Seq<u8>, untracked: Seq<u8>) -> Seq<Seq<char>> {
    dedup_paths(ssort_by(parse_z_spec(diffed) + parse_z_spec(untracked), path_order()))
}

/// Files changed in the working tree relative to a base, given git's
/// output: the paths `git diff --name-only -z` printed, then the
/// untracked ones `git ls-files --others -z` printed; sorted in path order,
/// each once.
pub fn changed_files(diff_out: &Vec<u8>, untracked_out: &Vec<u8>) -> (r: Vec<String>)
    ensures
        strings_view(r@) == changed_spec(diff_out@, untracked_out@),
{
    let mut files = parse_z(diff_out);
    let more = parse_z(untracked_out);
    let ghost a = strings_view(files@);
    let m = more.len();
    for i in 0..m
        invariant
            m == more@.len(),
            strings_view(files@) == a + strings_view(more@).take(i as int),
    {
        let ghost before = strings_view(files@);
        files.push(more[i].clone());
        assert(strings_view(files@) =~= before.push(more@[i as int]@));
        assert(strings_view(more@).take(i + 1) =~= strings_view(more@).take(i as int).push(more@[i as int]@));
    }
    assert(strings_view(more@).take(m as int) =~= strings_view(more@));
    let less = |a: &String, b: &String| -> (r: bool)
        ensures
            r == path_lt(a@, b@),
    {
        path_less(a, b)
    };
    let sorted = stable_sort_by(files, less, Ghost(path_order()));
    assert(crate::sorting::views(sorted@) =~= strings_view(sorted@));
    let ghost sv = strings_view(sorted@);
    let mut out: Vec<String> = Vec::new();
    let n = sorted.len();
    for i in 0..n
        invariant
            n == sorted@.len(),
            sv == strings_view(sorted@),
            strings_view(out@) == dedup_paths(sv.take(i as int)),
    {
        assert(sv.take(i + 1).drop_last() =~= sv.take(i as int));
        if i > 0 {
            proof { lemma_dedup_last(sv.take(i as int)); }
            let last = out.len() - 1;
            assert(sv.take(i + 1).drop_last().last() == sv[i - 1]);
            if same_path(&out[last], &sorted[i]) {
            } else {
                let ghost before = strings_view(out@);
                out.push(sorted[i].clone());
                assert(strings_view(out@) =~= before.push(sv[i as int]));
            }
        } else {
            out.push(sorted[i].clone());
            assert(strings_view(out@) =~= seq![sv[0]]);
            assert(sv.take(1) =~= seq![sv[0]]);
        }
    }
    assert(sv.take(n as int) =~= sv);
    out
}


proof fn lemma_comps_irrefl(a: Seq<Seq<char>>)
    ensures
        !comps_lt(a, a),
    decreases a.len(),
{
    if a.len() > 0 {
        lemma_comps_irrefl(a.drop_first());
    }
}

proof fn lemma_comps_asym_total(a: Seq<Seq<char>>, b: Seq<Seq<char>>)
    ensures
        comps_lt(a, b) ==> !comps_lt(b, a),
        a != b ==> comps_lt(a, b) || comps_lt(b, a),
    decreases a.len(),
{
    if a.len() > 0 && b.len() > 0 {
        lemma_comps_asym_total(a.drop_first(), b.drop_first());
        lemma_text_lt(a[0], b[0], a[0]);
        if a != b && a[0] == b[0] {
            assert(a.drop_first() != b.drop_first()) by {
                if a.drop_first() == b.drop_first() {
                    assert(a =~= seq![a[0]] + a.drop_first());
                    assert(b =~= seq![b[0]] + b.drop_first());
                }
            }
        }
    } else if a.len() == 0 && b.len() == 0 {
        assert(a =~= b);
    }
}

proof fn lemma_comps_trans(a: Seq<Seq<char>>, b: Seq<Seq<char>>, c: Seq<Seq<char>>)
    ensures
        comps_lt(a, b) && comps_lt(b, c) ==> comps_lt(a, c),
    decreases a.len(),
{
    if a.len() > 0 && b.len() > 0 && c.len() > 0 {
        lemma_comps_trans(a.drop_first(), b.drop_first(), c.drop_first());
        lemma_text_lt(a[0], b[0], c[0]);
    }
}

/// Path order is a strict total order on component lists.
proof fn lemma_path_order(a: Seq<char>, b: Seq<char>, c: Seq<char>)
    ensures
        !path_lt(a, a),
        path_lt(a, b) && path_lt(b, c) ==> path_lt(a, c),
        path_lt(a, c) ==> path_lt(a, b) || path_lt(b, c),
        components(a) != components(b) ==> path_lt(a, b) || path_lt(b, a),
        path_lt(a, b) ==> !path_lt(b, a),
{
    let (x, y, z) = (components(a), components(b), components(c));
    lemma_comps_irrefl(x);
    lemma_comps_asym_total(x, y);
    lemma_comps_asym_total(y, z);
    lemma_comps_asym_total(x, z);
    lemma_comps_trans(x, y, z);
    lemma_comps_trans(y, z, x);
    lemma_comps_trans(z, x, y);
    lemma_comps_trans(x, z, y);
    lemma_comps_trans(y, x, z);
    lemma_comps_trans(z, y, x);
}

/// Path order as a comparison.
pub open spec fn path_order() -> spec_fn(Seq<char>, Seq<char>) -> bool {
    |a: Seq<char>, b: Seq<char>| path_lt(a, b)
}

proof fn lemma_dedup_sorted(s: Seq<Seq<char>>)
    requires
        sorted_by(s, path_order()),
    ensures
        forall|i: int, j: int| 0 <= i < j < dedup_paths(s).len() ==> path_lt(#[trigger] dedup_paths(s)[i], #[trigger] dedup_paths(s)[j]),
        s.len() > 0 ==> forall|i: int| 0 <= i < dedup_paths(s).len() ==> !path_lt(s.last(), #[trigger] dedup_paths(s)[i]),
    decreases s.len(),
{
    if s.len() > 1 {
        let p = s.drop_last();
        let x = s.last();
        assert(sorted_by(p, path_order())) by {
            assert forall|i: int, j: int| 0 <= i < j < p.len() implies !path_order()(#[trigger] p[j], #[trigger] p[i]) by {
                assert(p[i] == s[i] && p[j] == s[j]);
            }
        }
        lemma_dedup_sorted(p);
        let r = dedup_paths(p);
        assert(!path_lt(x, p.last())) by {
            assert(s[s.len() - 2] == p.last());
        }
        lemma_path_order(x, p.last(), x);
        if components(x) == components(p.last()) {
            assert forall|i: int| 0 <= i < r.len() implies !path_lt(x, #[trigger] r[i]) by {
                assert(!path_lt(p.last(), r[i]));
            }
        } else {
            let r2 = r.push(x);
            assert(path_lt(p.last(), x));
            assert forall|i: int, j: int| 0 <= i < j < r2.len() implies path_lt(#[trigger] r2[i], #[trigger] r2[j]) by {
                if j < r.len() {
                    assert(r2[i] == r[i] && r2[j] == r[j]);
                } else {
                    assert(r2[i] == r[i]);
                    assert(!path_lt(p.last(), r[i]));
                    lemma_path_order(r[i], p.last(), x);
                    lemma_path_order(p.last(), r[i], x);
                }
            }
            assert forall|i: int| 0 <= i < r2.len() implies !path_lt(x, #[trigger] r2[i]) by {
                if i < r.len() {
                    assert(r2[i] == r[i]);
                    assert(!path_lt(p.last(), r[i]));
                    lemma_path_order(r[i], p.last(), x);
                    lemma_path_order(x, r[i], p.last());
                }
            }
        }
    } else if s.len() == 1 {
        lemma_path_order(s[0], s[0], s[0]);
    }
}

/// The changed files come out in strictly increasing path order: sorted,
/// and no path listed twice.
pub proof fn lemma_changed_files_ordered(diffed: Seq<u8>, untracked: Seq<u8>)
    ensures
        forall|i: int, j: int| 0 <= i < j < changed_spec(diffed, untracked).len() ==>
            path_lt(#[trigger] changed_spec(diffed, untracked)[i], #[trigger] changed_spec(diffed, untracked)[j]),
{
    let all = parse_z_spec(diffed) + parse_z_spec(untracked);
    assert(strict_weak(path_order())) by {
        assert forall|a: Seq<char>, b: Seq<char>, c: Seq<char>| #[trigger] path_lt(a, c) implies path_lt(a, b) || #[trigger] path_lt(b, c) by {
            lemma_path_order(a, b, c);
        }
        assert forall|a: Seq<char>, b: Seq<char>, c: Seq<char>| #[trigger] path_lt(a, b) && #[trigger] path_lt(b, c) implies path_lt(a, c) by {
            lemma_path_order(a, b, c);
        }
        assert forall|a: Seq<char>| !#[trigger] path_lt(a, a) by {
            lemma_path_order(a, a, a);
        }
    }
    lemma_ssort_by_sorted(all, path_order());
    lemma_dedup_sorted(ssort_by(all, path_order()));
}

} // verus!
