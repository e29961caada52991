//! Cross-file linking: resolve each file's imports to the summaries of the
//! files they name, producing the per-file linked summaries the evaluator
//! applies and a per-file link fingerprint over the summaries it may
//! consult (the second half of the two-layer cache key).

use vstd::prelude::*;
use crate::hashing::{hash_hex, blake3_hex, utf8_bytes, push_bytes};
use crate::paths::strings_view;
use crate::solve::{name_pos, put_named, lemma_name_pos_push, lemma_name_pos_bounds, lemma_name_pos_prefix};
use crate::summary::{PortableBindings, PortableFunctionSummary, SummaryView, LinkedForRule, linked_pos};
use crate::profile::ModuleResolution;
use crate::sorting::{strictly_sorted, sorted_distinct, lemma_sorted_distinct, insert_sorted_unique, pairs_view, pairs_sorted, insert_pair_sorted_unique};
use crate::text::{chars_of, string_of, str_is, cat, cat3};

verus! {

/// Maximum re-export hops followed when resolving an import to a summary.
pub const MAX_LINK_DEPTH: usize = 4;

/// The text before the last `/` (empty if there is none).
pub open spec fn before_last_slash(s: Seq<char>) -> Seq<char>
    decreases s.len(),
{
    if s.len() == 0 {
        s
    } else if s.last() == '/' {
        s.drop_last()
    } else {
        before_last_slash(s.drop_last())
    }
}

/// Parent directory of a forward-slash relative path (`""` for a
/// top-level file).
pub fn parent_dir(path: &str) -> (r: String)
    ensures
        r@ == before_last_slash(path@),
{
    let cs = chars_of(path);
    let mut i = cs.len();
    assert(cs@.take(i as int) =~= cs@);
    while i > 0 && cs[i - 1] != '/'
        invariant
            i <= cs@.len(),
            before_last_slash(path@) == before_last_slash(cs@.take(i as int)),
        decreases i,
    {
        assert(cs@.take(i as int).drop_last() =~= cs@.take(i - 1));
        i -= 1;
    }
    if i == 0 {
        assert(before_last_slash(cs@.take(0)) =~= Seq::<char>::empty());
        String::new()
    } else {
        assert(cs@.take(i as int).drop_last() =~= cs@.take(i - 1));
        let t = crate::text::slice_chars(&cs, 0, i - 1);
        assert(t@ =~= cs@.take(i - 1));
        string_of(t.as_slice())
    }
}

/// `s` split at every `c` (always at least one piece), as `str::split`.
pub open spec fn split_on(s: Seq<char>, c: char) -> Seq<Seq<char>>
    decreases s.len(),
{
    if s.len() == 0 {
        seq![Seq::empty()]
    } else {
        let p = split_on(s.drop_last(), c);
        if s.last() == c {
            p.push(Seq::empty())
        } else {
            p.update(p.len() - 1, p.last().push(s.last()))
        }
    }
}

proof fn lemma_split_on_len(s: Seq<char>, c: char)
    ensures
        split_on(s, c).len() >= 1,
    decreases s.len(),
{
    if s.len() > 0 {
        lemma_split_on_len(s.drop_last(), c);
    }
}

/// The pieces of `v` between occurrences of `c`.
pub(crate) fn split_chars(v: &Vec<char>, c: char) -> (r: Vec<Vec<char>>)
    ensures
        crate::paths::char_vecs_view(r@) == split_on(v@, c),
{
    let mut r: Vec<Vec<char>> = Vec::new();
    r.push(Vec::new());
    assert(crate::paths::char_vecs_view(r@) =~= split_on(v@.take(0), c));
    let n = v.len();
    for i in 0..n
        invariant
            n == v@.len(),
            r@.len() >= 1,
            crate::paths::char_vecs_view(r@) == split_on(v@.take(i as int), c),
    {
        assert(v@.take(i + 1).drop_last() =~= v@.take(i as int));
        assert(v@.take(i + 1).last() == v@[i as int]);
        let ghost before = crate::paths::char_vecs_view(r@);
        if v[i] == c {
            r.push(Vec::new());
            assert(crate::paths::char_vecs_view(r@) =~= before.push(Seq::empty()));
        } else {
            let last = r.len() - 1;
            let mut piece = r[last].clone();
            piece.push(v[i]);
            assert(piece@ == before.last().push(v@[i as int]));
            r.set(last, piece);
            assert(crate::paths::char_vecs_view(r@) =~= before.update(last as int, before.last().push(v@[i as int])));
        }
    }
    assert(v@.take(n as int) =~= v@);
    r
}

/// Apply path segments to a directory stack: empty and `.` segments are
/// skipped, `..` pops, anything else is pushed.
pub open spec fn apply_segs(parts: Seq<Seq<char>>, segs: Seq<Seq<char>>) -> Seq<Seq<char>>
    decreases segs.len(),
{
    if segs.len() == 0 {
        parts
    } else {
        let p = apply_segs(parts, segs.drop_last());
        let seg = segs.last();
        if seg == Seq::<char>::empty() || seg == "."@ {
            p
        } else if seg == ".."@ {
            if p.len() > 0 { p.drop_last() } else { p }
        } else {
            p.push(seg)
        }
    }
}

/// The pieces joined with `/`.
pub open spec fn join_slash(parts: Seq<Seq<char>>) -> Seq<char>
    decreases parts.len(),
{
    if parts.len() == 0 {
        Seq::empty()
    } else if parts.len() == 1 {
        parts[0]
    } else {
        join_slash(parts.drop_last()) + "/"@ + parts.last()
    }
}

/// `base` joined with the relative `spec`, `.`/`..` collapsed.
pub open spec fn normalize_join_spec(base: Seq<char>, spec: Seq<char>) -> Seq<char> {
    let parts = if base.len() == 0 { Seq::empty() } else { split_on(base, '/') };
    join_slash(apply_segs(parts, split_on(spec, '/')))
}

/// Join `base` with a relative `spec` and collapse `.`/`..` segments.
pub fn normalize_join(base: &str, spec: &str) -> (r: String)
    ensures
        r@ == normalize_join_spec(base@, spec@),
{
    proof {
        reveal_strlit(".");
        reveal_strlit("..");
        reveal_strlit("/");
    }
    let bc = chars_of(base);
    let sc = chars_of(spec);
    let mut parts: Vec<Vec<char>> = if bc.len() == 0 {
        Vec::new()
    } else {
        split_chars(&bc, '/')
    };
    assert(crate::paths::char_vecs_view(parts@) =~= (if base@.len() == 0 { Seq::<Seq<char>>::empty() } else { split_on(base@, '/') }));
    let ghost p0 = crate::paths::char_vecs_view(parts@);
    let segs = split_chars(&sc, '/');
    let ghost sv = crate::paths::char_vecs_view(segs@);
    let n = segs.len();
    for i in 0..n
        invariant
            n == segs@.len(),
            sv == crate::paths::char_vecs_view(segs@),
            crate::paths::char_vecs_view(parts@) == apply_segs(p0, sv.take(i as int)),
    {
        let seg = &segs[i];
        proof {
            reveal_strlit(".");
            reveal_strlit("..");
        }
        assert(sv.take(i + 1).drop_last() =~= sv.take(i as int));
        assert(sv.take(i + 1).last() == seg@);
        let ghost before = crate::paths::char_vecs_view(parts@);
        let is_dot = seg.len() == 1 && seg[0] == '.';
        let is_dotdot = seg.len() == 2 && seg[0] == '.' && seg[1] == '.';
        assert(is_dot == (seg@ == "."@)) by {
            if seg@ == "."@ { assert(seg@[0] == '.'); }
            if is_dot { assert(seg@ =~= "."@); }
        }
        assert(is_dotdot == (seg@ == ".."@)) by {
            if seg@ == ".."@ { assert(seg@[0] == '.' && seg@[1] == '.'); }
            if is_dotdot { assert(seg@ =~= ".."@); }
        }
        assert((seg.len() == 0) == (seg@ == Seq::<char>::empty())) by {
            if seg.len() == 0 { assert(seg@ =~= Seq::<char>::empty()); }
        }
        if seg.len() == 0 || is_dot {
        } else if is_dotdot {
            if parts.len() > 0 {
                parts.pop();
                assert(crate::paths::char_vecs_view(parts@) =~= before.drop_last());
            }
        } else {
            parts.push(seg.clone());
            assert(crate::paths::char_vecs_view(parts@) =~= before.push(seg@));
        }
    }
    assert(sv.take(n as int) =~= sv);
    let ghost pv = crate::paths::char_vecs_view(parts@);
    let mut out: Vec<char> = Vec::new();
    let m = parts.len();
    for k in 0..m
        invariant
            m == parts@.len(),
            pv == crate::paths::char_vecs_view(parts@),
            out@ == join_slash(pv.take(k as int)),
    {
        proof { reveal_strlit("/"); }
        assert(pv.take(k + 1).drop_last() =~= pv.take(k as int));
        assert(pv.take(k + 1).last() == parts@[k as int]@);
        if k > 0 {
            out.push('/');
        }
        let piece = &parts[k];
        let ghost before = out@;
        for j in 0..piece.len()
            invariant
                out@ == before + piece@.take(j as int),
        {
            out.push(piece[j]);
            assert(piece@.take(j + 1) =~= piece@.take(j as int).push(piece@[j as int]));
        }
        assert(piece@.take(piece@.len() as int) =~= piece@);
        if k == 0 {
            assert(out@ =~= join_slash(pv.take(1)));
        } else {
            assert(out@ =~= join_slash(pv.take(k as int)) + "/"@ + pv.take(k + 1).last());
        }
    }
    assert(pv.take(m as int) =~= pv);
    string_of(out.as_slice())
}

/// A file's extracted facts, as fed to the linker.
#[derive(Debug)]
pub struct FileArtifact {
    pub file: String,
    pub summary_hash: String,
    pub bindings: PortableBindings,
    /// Per rule id, the file's function summaries.
    pub rules: Vec<(String, Vec<PortableFunctionSummary>)>,
    pub resolution: Option<ModuleResolution>,
}

/// Module separators of the symbol strategy.
pub open spec fn is_sep(c: char) -> bool {
    c == '/' || c == ':' || c == '.'
}

/// The text after the last separator.
pub open spec fn after_last_sep(s: Seq<char>) -> Seq<char>
    decreases s.len(),
{
    if s.len() == 0 {
        s
    } else if is_sep(s.last()) {
        Seq::empty()
    } else {
        after_last_sep(s.drop_last()).push(s.last())
    }
}

fn last_segment(s: &str) -> (r: String)
    ensures
        r@ == after_last_sep(s@),
{
    let cs = chars_of(s);
    let n = cs.len();
    let mut i = n;
    assert(cs@.take(n as int) =~= cs@);
    assert(cs@.subrange(n as int, n as int) =~= Seq::<char>::empty());
    while i > 0 && !(cs[i - 1] == '/' || cs[i - 1] == ':' || cs[i - 1] == '.')
        invariant
            i <= n,
            n == cs@.len(),
            after_last_sep(cs@) == after_last_sep(cs@.take(i as int)) + cs@.subrange(i as int, n as int),
        decreases i,
    {
        assert(cs@.take(i as int).drop_last() =~= cs@.take(i - 1));
        assert(cs@.subrange(i - 1, n as int) =~= seq![cs@[i - 1]] + cs@.subrange(i as int, n as int));
        assert(after_last_sep(cs@.take(i as int)) =~= after_last_sep(cs@.take(i - 1)).push(cs@[i - 1]));
        i -= 1;
    }
    if i > 0 {
        assert(after_last_sep(cs@.take(i as int)) =~= Seq::<char>::empty());
    } else {
        assert(after_last_sep(cs@.take(0)) =~= Seq::<char>::empty());
    }
    assert(after_last_sep(cs@) =~= cs@.subrange(i as int, n as int));
    let tail = crate::text::slice_chars(&cs, i, n);
    string_of(tail.as_slice())
}

/// The artifact for file `f`: the last one naming it.
pub open spec fn art_index(arts: Seq<FileArtifact>, f: Seq<char>) -> Option<int>
    decreases arts.len(),
{
    if arts.len() == 0 {
        None
    } else if arts.last().file@ == f {
        Some(arts.len() - 1)
    } else {
        art_index(arts.drop_last(), f)
    }
}

proof fn lemma_art_index(arts: Seq<FileArtifact>, f: Seq<char>)
    ensures
        art_index(arts, f) matches Some(i) ==> 0 <= i < arts.len() && arts[i].file@ == f,
    decreases arts.len(),
{
    if arts.len() > 0 {
        lemma_art_index(arts.drop_last(), f);
    }
}

fn find_artifact(arts: &Vec<FileArtifact>, f: &str) -> (r: Option<usize>)
    ensures
        match r {
            Some(i) => art_index(arts@, f@) == Some(i as int) && i < arts@.len(),
            None => art_index(arts@, f@) is None,
        },
{
    let mut i = arts.len();
    assert(arts@.take(i as int) =~= arts@);
    while i > 0
        invariant
            i <= arts@.len(),
            art_index(arts@, f@) == art_index(arts@.take(i as int), f@),
        decreases i,
    {
        assert(arts@.take(i as int).last() == arts@[i - 1]);
        assert(arts@.take(i as int).drop_last() =~= arts@.take(i - 1));
        if str_is(arts[i - 1].file.as_str(), f) {
            return Some(i - 1);
        }
        i -= 1;
    }
    None
}

/// The files whose module declaration is `m`, in artifact order.
pub open spec fn declaring(arts: Seq<FileArtifact>, m: Seq<char>) -> Seq<Seq<char>>
    decreases arts.len(),
{
    if arts.len() == 0 {
        Seq::empty()
    } else {
        let prev = declaring(arts.drop_last(), m);
        match arts.last().bindings.module_decl {
            Some(d) => if d@ == m { prev.push(arts.last().file@) } else { prev },
            None => prev,
        }
    }
}

/// The files declaring a module: the artifacts whose module declaration is
/// `m`, each by its file, in artifact order.
pub proof fn lemma_declaring(arts: Seq<FileArtifact>, m: Seq<char>, f: Seq<char>)
    ensures
        declaring(arts, m).len() <= arts.len(),
        declaring(arts, m).contains(f) <==> exists|i: int| 0 <= i < arts.len() && (#[trigger] arts[i]).file@ == f
            && arts[i].bindings.module_decl is Some && arts[i].bindings.module_decl->0@ == m,
    decreases arts.len(),
{
    if arts.len() > 0 {
        let pre = arts.drop_last();
        lemma_declaring(pre, m, f);
        let d = declaring(pre, m);
        let a = arts.last();
        let hit = a.bindings.module_decl is Some && a.bindings.module_decl->0@ == m;
        if hit {
            assert(declaring(arts, m) == d.push(a.file@));
        } else {
            assert(declaring(arts, m) == d);
        }
        let r = declaring(arts, m);
        if exists|i: int| 0 <= i < arts.len() && (#[trigger] arts[i]).file@ == f
            && arts[i].bindings.module_decl is Some && arts[i].bindings.module_decl->0@ == m {
            let i = choose|i: int| 0 <= i < arts.len() && (#[trigger] arts[i]).file@ == f
                && arts[i].bindings.module_decl is Some && arts[i].bindings.module_decl->0@ == m;
            if i < pre.len() {
                assert(pre[i] == arts[i]);
                assert(d.contains(f));
                let k = choose|k: int| 0 <= k < d.len() && d[k] == f;
                assert(r[k] == f);
                assert(r.contains(f));
            } else {
                assert(arts[i] == a);
                assert(r[r.len() - 1] == f);
                assert(r.contains(f));
            }
        }
        if r.contains(f) {
            let k = choose|k: int| 0 <= k < r.len() && r[k] == f;
            if k < d.len() {
                assert(r[k] == d[k]);
                assert(d.contains(f));
                let i = choose|i: int| 0 <= i < pre.len() && (#[trigger] pre[i]).file@ == f
                    && pre[i].bindings.module_decl is Some && pre[i].bindings.module_decl->0@ == m;
                assert(arts[i] == pre[i]);
            } else {
                assert(hit);
                assert(f == a.file@);
                assert(arts[arts.len() - 1] == a);
            }
        }
    }
}

/// The first candidate that names a file of the corpus, if any.
pub open spec fn first_present(arts: Seq<FileArtifact>, cands: Seq<Seq<char>>) -> Seq<Seq<char>>
    decreases cands.len(),
{
    if cands.len() == 0 {
        Seq::empty()
    } else if art_index(arts, cands[0]) is Some {
        seq![cands[0]]
    } else {
        first_present(arts, cands.drop_first())
    }
}

/// Uses the symbol strategy.
pub open spec fn is_symbol(res: Option<ModuleResolution>) -> bool {
    res matches Some(r) && r.strategy@ == "symbol"@
}

/// The files `module`, imported into `importer`, resolves to. Symbol
/// strategy: the files declaring `module` or its last segment, sorted and
/// distinct. Path strategy: only relative specifiers resolve, to the first
/// of the joined path, the path with each extension, the path with each
/// index file, that is a file of the corpus.
pub open spec fn targets_spec(arts: Seq<FileArtifact>, importer: Seq<char>, module: Seq<char>, res: Option<ModuleResolution>) -> Seq<Seq<char>> {
    if is_symbol(res) {
        sorted_distinct(declaring(arts, module) + declaring(arts, after_last_sep(module)))
    } else if !(module.len() > 0 && module[0] == '.') {
        Seq::empty()
    } else {
        let joined = normalize_join_spec(before_last_slash(importer), module);
        let exts = match res { Some(r) => strings_view(r.extensions@), None => Seq::empty() };
        let idx = match res { Some(r) => strings_view(r.index_files@), None => Seq::empty() };
        first_present(arts, seq![joined] + exts.map_values(|e: Seq<char>| joined + e) + idx.map_values(|i: Seq<char>| joined + "/"@ + i))
    }
}

/// `f` names a file of the corpus.
pub open spec fn in_corpus(arts: Seq<FileArtifact>, f: Seq<char>) -> bool {
    art_index(arts, f) is Some
}

proof fn lemma_first_present_at(arts: Seq<FileArtifact>, cands: Seq<Seq<char>>, k: int)
    requires
        0 <= k < cands.len(),
        in_corpus(arts, cands[k]),
        forall|j: int| 0 <= j < k ==> !in_corpus(arts, #[trigger] cands[j]),
    ensures
        first_present(arts, cands) == seq![cands[k]],
    decreases k,
{
    if k > 0 {
        assert(!in_corpus(arts, cands[0]));
        let rest = cands.drop_first();
        assert forall|j: int| 0 <= j < k - 1 implies !in_corpus(arts, #[trigger] rest[j]) by {
            assert(rest[j] == cands[j + 1]);
        }
        lemma_first_present_at(arts, rest, k - 1);
    }
}

proof fn lemma_first_present_none(arts: Seq<FileArtifact>, cands: Seq<Seq<char>>)
    requires
        forall|j: int| 0 <= j < cands.len() ==> !in_corpus(arts, #[trigger] cands[j]),
    ensures
        first_present(arts, cands) == Seq::<Seq<char>>::empty(),
    decreases cands.len(),
{
    if cands.len() > 0 {
        let rest = cands.drop_first();
        assert(!in_corpus(arts, cands[0]));
        assert forall|j: int| 0 <= j < rest.len() implies !in_corpus(arts, #[trigger] rest[j]) by {
            assert(rest[j] == cands[j + 1]);
        }
        lemma_first_present_none(arts, rest);
    }
}

/// Resolving a relative import by path: `joined` is the specifier joined
/// to the importer's directory. The import resolves to `joined` when that
/// is a file of the corpus; else to `joined` with the first extension that
/// gives a corpus file (extension `k` here); else to `joined`, `/` and the
/// first index file that gives one (index file `k` here); else to nothing.
/// It never resolves to more than one file, nor to a file outside the
/// corpus. A non-relative specifier resolves to nothing.
pub proof fn lemma_path_resolution(arts: Seq<FileArtifact>, importer: Seq<char>, module: Seq<char>, res: Option<ModuleResolution>,
    joined: Seq<char>, exts: Seq<Seq<char>>, idx: Seq<Seq<char>>, k: int)
    requires
        !is_symbol(res),
        joined == normalize_join_spec(before_last_slash(importer), module),
        exts == match res { Some(r) => strings_view(r.extensions@), None => Seq::<Seq<char>>::empty() },
        idx == match res { Some(r) => strings_view(r.index_files@), None => Seq::<Seq<char>>::empty() },
    ensures
        targets_spec(arts, importer, module, res).len() <= 1,
        targets_spec(arts, importer, module, res).len() == 1 ==> in_corpus(arts, targets_spec(arts, importer, module, res)[0]),
        !(module.len() > 0 && module[0] == '.') ==> targets_spec(arts, importer, module, res).len() == 0,
        module.len() > 0 && module[0] == '.' && in_corpus(arts, joined) ==> targets_spec(arts, importer, module, res) == seq![joined],
        module.len() > 0 && module[0] == '.' && !in_corpus(arts, joined) && 0 <= k < exts.len() && in_corpus(arts, joined + exts[k])
            && (forall|j: int| 0 <= j < k ==> !in_corpus(arts, joined + #[trigger] exts[j]))
            ==> targets_spec(arts, importer, module, res) == seq![joined + exts[k]],
        module.len() > 0 && module[0] == '.' && !in_corpus(arts, joined)
            && (forall|j: int| 0 <= j < exts.len() ==> !in_corpus(arts, joined + #[trigger] exts[j]))
            && 0 <= k < idx.len() && in_corpus(arts, joined + "/"@ + idx[k])
            && (forall|j: int| 0 <= j < k ==> !in_corpus(arts, joined + "/"@ + #[trigger] idx[j]))
            ==> targets_spec(arts, importer, module, res) == seq![joined + "/"@ + idx[k]],
        module.len() > 0 && module[0] == '.' && !in_corpus(arts, joined)
            && (forall|j: int| 0 <= j < exts.len() ==> !in_corpus(arts, joined + #[trigger] exts[j]))
            && (forall|j: int| 0 <= j < idx.len() ==> !in_corpus(arts, joined + "/"@ + #[trigger] idx[j]))
            ==> targets_spec(arts, importer, module, res).len() == 0,
{
    let e = exts.map_values(|x: Seq<char>| joined + x);
    let i = idx.map_values(|x: Seq<char>| joined + "/"@ + x);
    let cands = seq![joined] + e + i;
    lemma_first_present_len(arts, cands);
    if module.len() > 0 && module[0] == '.' {
        assert(targets_spec(arts, importer, module, res) == first_present(arts, cands));
        assert(cands[0] == joined);
        assert forall|q: int| 0 <= q < exts.len() implies cands[1 + q] == joined + #[trigger] exts[q] by {}
        assert forall|q: int| 0 <= q < idx.len() implies cands[1 + exts.len() + q] == joined + "/"@ + #[trigger] idx[q] by {}
        if in_corpus(arts, joined) {
            lemma_first_present_at(arts, cands, 0);
        } else if 0 <= k < exts.len() && in_corpus(arts, joined + exts[k])
            && (forall|j: int| 0 <= j < k ==> !in_corpus(arts, joined + #[trigger] exts[j])) {
            assert forall|j: int| 0 <= j < 1 + k implies !in_corpus(arts, #[trigger] cands[j]) by {
                if j > 0 { assert(cands[j] == joined + exts[j - 1]); }
            }
            lemma_first_present_at(arts, cands, 1 + k);
        }
        if !in_corpus(arts, joined) && (forall|j: int| 0 <= j < exts.len() ==> !in_corpus(arts, joined + #[trigger] exts[j])) {
            if 0 <= k < idx.len() && in_corpus(arts, joined + "/"@ + idx[k])
                && (forall|j: int| 0 <= j < k ==> !in_corpus(arts, joined + "/"@ + #[trigger] idx[j])) {
                assert forall|j: int| 0 <= j < 1 + exts.len() + k implies !in_corpus(arts, #[trigger] cands[j]) by {
                    if 0 < j < 1 + exts.len() { assert(cands[j] == joined + exts[j - 1]); }
                    if j >= 1 + exts.len() { assert(cands[j] == joined + "/"@ + idx[j - 1 - exts.len()]); }
                }
                lemma_first_present_at(arts, cands, 1 + exts.len() + k);
            }
            if forall|j: int| 0 <= j < idx.len() ==> !in_corpus(arts, joined + "/"@ + #[trigger] idx[j]) {
                assert forall|j: int| 0 <= j < cands.len() implies !in_corpus(arts, #[trigger] cands[j]) by {
                    if 0 < j < 1 + exts.len() { assert(cands[j] == joined + exts[j - 1]); }
                    if j >= 1 + exts.len() { assert(cands[j] == joined + "/"@ + idx[j - 1 - exts.len()]); }
                }
                lemma_first_present_none(arts, cands);
            }
        }
    }
}

proof fn lemma_first_present_len(arts: Seq<FileArtifact>, cands: Seq<Seq<char>>)
    ensures
        first_present(arts, cands).len() <= 1,
        first_present(arts, cands).len() == 1 ==> in_corpus(arts, first_present(arts, cands)[0]),
    decreases cands.len(),
{
    if cands.len() > 0 {
        lemma_first_present_len(arts, cands.drop_first());
    }
}

/// Add the files declaring `m` to a sorted distinct list.
fn add_declaring(arts: &Vec<FileArtifact>, m: &str, out: &mut Vec<String>)
    requires
        strictly_sorted(strings_view(old(out)@)),
    ensures
        strictly_sorted(strings_view(final(out)@)),
        forall|y: Seq<char>| strings_view(final(out)@).contains(y) <==> (strings_view(old(out)@).contains(y) || declaring(arts@, m@).contains(y)),
{
    let n = arts.len();
    for i in 0..n
        invariant
            n == arts@.len(),
            strictly_sorted(strings_view(out@)),
            forall|y: Seq<char>| strings_view(out@).contains(y) <==> (strings_view(old(out)@).contains(y) || declaring(arts@.take(i as int), m@).contains(y)),
    {
        assert(arts@.take(i + 1).drop_last() =~= arts@.take(i as int));
        assert(arts@.take(i + 1).last() == arts@[i as int]);
        let a = &arts[i];
        let ghost before = strings_view(out@);
        let ghost prev = declaring(arts@.take(i as int), m@);
        match &a.bindings.module_decl {
            Some(d) => {
                if str_is(d.as_str(), m) {
                    insert_sorted_unique(out, a.file.clone());
                    assert forall|y: Seq<char>| prev.push(a.file@).contains(y) <==> (prev.contains(y) || y == a.file@) by {
                        if prev.push(a.file@).contains(y) {
                            let k = choose|k: int| 0 <= k < prev.push(a.file@).len() && prev.push(a.file@)[k] == y;
                            if k < prev.len() { assert(prev[k] == y); }
                        }
                        if prev.contains(y) {
                            let k = choose|k: int| 0 <= k < prev.len() && prev[k] == y;
                            assert(prev.push(a.file@)[k] == y);
                        }
                        if y == a.file@ {
                            assert(prev.push(a.file@)[prev.len() as int] == y);
                        }
                    }
                }
            },
            None => {},
        }
    }
    assert(arts@.take(n as int) =~= arts@);
}

proof fn lemma_contains_concat(a: Seq<Seq<char>>, b: Seq<Seq<char>>, y: Seq<char>)
    ensures
        (a + b).contains(y) <==> (a.contains(y) || b.contains(y)),
{
    if (a + b).contains(y) {
        let k = choose|k: int| 0 <= k < (a + b).len() && (a + b)[k] == y;
        if k < a.len() { assert(a[k] == y); } else { assert(b[k - a.len()] == y); }
    }
    if a.contains(y) {
        let k = choose|k: int| 0 <= k < a.len() && a[k] == y;
        assert((a + b)[k] == y);
    }
    if b.contains(y) {
        let k = choose|k: int| 0 <= k < b.len() && b[k] == y;
        assert((a + b)[k + a.len()] == y);
    }
}

/// Resolve `module` (imported into `importer`) to target files.
pub fn resolve_module(importer: &str, module: &str, resolution: &Option<ModuleResolution>, arts: &Vec<FileArtifact>) -> (r: Vec<String>)
    ensures
        strings_view(r@) == targets_spec(arts@, importer@, module@, *resolution),
{
    proof {
        reveal_strlit("symbol");
        reveal_strlit("/");
    }
    let symbol = match resolution {
        Some(res) => str_is(res.strategy.as_str(), "symbol"),
        None => false,
    };
    if symbol {
        let last = last_segment(module);
        let mut out: Vec<String> = Vec::new();
        assert(strings_view(out@) =~= Seq::<Seq<char>>::empty());
        add_declaring(arts, module, &mut out);
        add_declaring(arts, last.as_str(), &mut out);
        proof {
            let xs = declaring(arts@, module@) + declaring(arts@, after_last_sep(module@));
            assert forall|y: Seq<char>| strings_view(out@).contains(y) <==> xs.contains(y) by {
                lemma_contains_concat(declaring(arts@, module@), declaring(arts@, after_last_sep(module@)), y);
            }
            lemma_sorted_distinct(strings_view(out@), xs);
        }
        return out;
    }
    let mc = chars_of(module);
    if !(mc.len() > 0 && mc[0] == '.') {
        let r: Vec<String> = Vec::new();
        assert(strings_view(r@) =~= Seq::<Seq<char>>::empty());
        return r;
    }
    let base = parent_dir(importer);
    let joined = normalize_join(base.as_str(), module);
    let mut cands: Vec<String> = Vec::new();
    cands.push(joined.clone());
    let ghost jv = joined@;
    let ghost exts: Seq<Seq<char>> = match resolution { Some(r) => strings_view(r.extensions@), None => Seq::empty() };
    let ghost idx: Seq<Seq<char>> = match resolution { Some(r) => strings_view(r.index_files@), None => Seq::empty() };
    let empty: Vec<String> = Vec::new();
    let (ext_list, idx_list) = match resolution {
        Some(r) => (&r.extensions, &r.index_files),
        None => (&empty, &empty),
    };
    assert(strings_view(ext_list@) == exts);
    assert(strings_view(idx_list@) == idx);
    assert(strings_view(cands@) =~= seq![jv] + exts.take(0).map_values(|e: Seq<char>| jv + e));
    for i in 0..ext_list.len()
        invariant
            jv == joined@,
            strings_view(ext_list@) == exts,
            strings_view(cands@) == seq![jv] + exts.take(i as int).map_values(|e: Seq<char>| jv + e),
    {
        let c = cat(joined.as_str(), ext_list[i].as_str());
        let ghost before = strings_view(cands@);
        cands.push(c);
        assert(exts[i as int] == ext_list@[i as int]@);
        assert(strings_view(cands@) =~= before.push(jv + exts[i as int]));
        assert(exts.take(i + 1).map_values(|e: Seq<char>| jv + e) =~= exts.take(i as int).map_values(|e: Seq<char>| jv + e).push(jv + exts[i as int]));
    }
    assert(exts.take(exts.len() as int) =~= exts);
    let ghost head = strings_view(cands@);
    assert(head =~= head + idx.take(0).map_values(|i: Seq<char>| jv + "/"@ + i));
    for i in 0..idx_list.len()
        invariant
            jv == joined@,
            strings_view(idx_list@) == idx,
            strings_view(cands@) == head + idx.take(i as int).map_values(|i: Seq<char>| jv + "/"@ + i),
    {
        proof { reveal_strlit("/"); }
        let c = cat3(joined.as_str(), "/", idx_list[i].as_str());
        let ghost before = strings_view(cands@);
        cands.push(c);
        assert(idx[i as int] == idx_list@[i as int]@);
        assert(strings_view(cands@) =~= before.push(jv + "/"@ + idx[i as int]));
        assert(idx.take(i + 1).map_values(|i: Seq<char>| jv + "/"@ + i) =~= idx.take(i as int).map_values(|i: Seq<char>| jv + "/"@ + i).push(jv + "/"@ + idx[i as int]));
    }
    assert(idx.take(idx.len() as int) =~= idx);
    let ghost cv = strings_view(cands@);
    assert(cv.skip(0) =~= cv);
    assert(!is_symbol(*resolution));
    assert(module@.len() > 0 && module@[0] == '.');
    assert(jv == normalize_join_spec(before_last_slash(importer@), module@));
    assert(cv == seq![jv] + exts.map_values(|e: Seq<char>| jv + e) + idx.map_values(|i: Seq<char>| jv + "/"@ + i));
    assert(targets_spec(arts@, importer@, module@, *resolution) == first_present(arts@, cv));
    for k in 0..cands.len()
        invariant
            targets_spec(arts@, importer@, module@, *resolution) == first_present(arts@, cv),
            cv == strings_view(cands@),
            first_present(arts@, cv) == first_present(arts@, cv.skip(k as int)),
    {
        assert(cv.skip(k as int)[0] == cands@[k as int]@);
        if find_artifact(arts, cands[k].as_str()).is_some() {
            let mut r: Vec<String> = Vec::new();
            r.push(cands[k].clone());
            assert(strings_view(r@) =~= seq![cands@[k as int]@]);
            return r;
        }
        assert(cv.skip(k as int).drop_first() =~= cv.skip(k + 1));
    }
    assert(cv.skip(cv.len() as int) =~= Seq::<Seq<char>>::empty());
    let r: Vec<String> = Vec::new();
    assert(strings_view(r@) =~= Seq::<Seq<char>>::empty());
    r
}

/// The content of the summaries linked for one rule: local callee name to
/// summary.
pub open spec fn lfr_view(l: LinkedForRule) -> Seq<(Seq<char>, SummaryView)> {
    l.entries@.map_values(|e: (String, PortableFunctionSummary)| (e.0@, e.1@))
}

proof fn lemma_linked_pos_view(entries: Seq<(String, PortableFunctionSummary)>, name: Seq<char>)
    ensures
        linked_pos(entries, name) == name_pos(entries.map_values(|e: (String, PortableFunctionSummary)| (e.0@, e.1@)), name),
    decreases entries.len(),
{
    let v = entries.map_values(|e: (String, PortableFunctionSummary)| (e.0@, e.1@));
    if entries.len() > 0 {
        lemma_linked_pos_view(entries.drop_last(), name);
        assert(entries.drop_last().map_values(|e: (String, PortableFunctionSummary)| (e.0@, e.1@)) =~= v.drop_last());
    }
}

/// Cross-file summaries available to a file: per rule id, the linked
/// callees.
#[derive(Debug)]
pub struct FileLinked {
    pub rules: Vec<(String, LinkedForRule)>,
}

pub open spec fn fl_view(f: FileLinked) -> Seq<(Seq<char>, Seq<(Seq<char>, SummaryView)>)> {
    f.rules@.map_values(|e: (String, LinkedForRule)| (e.0@, lfr_view(e.1)))
}

/// Link `local` to `sum` under `rule`.
pub open spec fn fl_insert(fl: Seq<(Seq<char>, Seq<(Seq<char>, SummaryView)>)>, rule: Seq<char>, local: Seq<char>, sum: SummaryView)
    -> Seq<(Seq<char>, Seq<(Seq<char>, SummaryView)>)> {
    match name_pos(fl, rule) {
        Some(i) => fl.update(i, (rule, put_named(fl[i].1, local, sum))),
        None => fl.push((rule, seq![(local, sum)])),
    }
}

impl FileLinked {
    pub fn new() -> (r: FileLinked)
        ensures
            fl_view(r).len() == 0,
    {
        FileLinked { rules: Vec::new() }
    }

    /// The position of `rule`.
    pub fn position(&self, rule: &str) -> (r: Option<usize>)
        ensures
            match r {
                Some(i) => name_pos(fl_view(*self), rule@) == Some(i as int) && i < self.rules@.len(),
                None => name_pos(fl_view(*self), rule@) is None,
            },
    {
        let ghost sv = fl_view(*self);
        let n = self.rules.len();
        for i in 0..n
            invariant
                n == self.rules@.len(),
                sv == fl_view(*self),
                name_pos(sv.take(i as int), rule@) is None,
        {
            assert(sv.take(i + 1) =~= sv.take(i as int).push(sv[i as int]));
            proof { lemma_name_pos_push(sv.take(i as int), sv[i as int], rule@); }
            if str_is(self.rules[i].0.as_str(), rule) {
                proof { lemma_name_pos_prefix(sv, i as int + 1, rule@); }
                return Some(i);
            }
        }
        assert(sv.take(n as int) =~= sv);
        None
    }

    /// Link `local` to `sum` under `rule`, replacing an earlier link.
    pub fn insert_link(&mut self, rule: &str, local: &str, sum: PortableFunctionSummary)
        ensures
            fl_view(*final(self)) == fl_insert(fl_view(*old(self)), rule@, local@, sum@),
    {
        let ghost before = fl_view(*self);
        let ghost sv = sum@;
        match self.position(rule) {
            Some(i) => {
                let mut entry = LinkedForRule { entries: Vec::new() };
                std::mem::swap(&mut entry, &mut self.rules[i].1);
                let ghost le = lfr_view(entry);
                proof { lemma_linked_pos_view(entry.entries@, local@); }
                entry.insert(local.to_owned(), sum);
                proof {
                    lemma_name_pos_bounds(le, local@);
                    match name_pos(le, local@) {
                        Some(k) => { assert(lfr_view(entry) =~= le.update(k, (local@, sv))); },
                        None => { assert(lfr_view(entry) =~= le.push((local@, sv))); },
                    }
                }
                let name = self.rules[i].0.clone();
                self.rules.set(i, (name, entry));
                proof { lemma_name_pos_bounds(before, rule@); }
                assert(fl_view(*self) =~= before.update(i as int, (rule@, put_named(before[i as int].1, local@, sv))));
            },
            None => {
                let mut entry = LinkedForRule::new();
                entry.insert(local.to_owned(), sum);
                assert(lfr_view(entry) =~= seq![(local@, sv)]);
                self.rules.push((rule.to_owned(), entry));
                assert(fl_view(*self) =~= before.push((rule@, seq![(local@, sv)])));
            },
        }
    }
}

/// The first summary of `sums` named `name`.
pub open spec fn first_sum(sums: Seq<PortableFunctionSummary>, name: Seq<char>) -> Option<int>
    decreases sums.len(),
{
    if sums.len() == 0 {
        None
    } else {
        match first_sum(sums.drop_last(), name) {
            Some(i) => Some(i),
            None => if sums.last().name@ == name { Some(sums.len() - 1) } else { None },
        }
    }
}

pub type FlView = Seq<(Seq<char>, Seq<(Seq<char>, SummaryView)>)>;
pub type Deps = Seq<(Seq<char>, Seq<char>)>;

/// Link `local` to the summary named `name` in every rule of a target file
/// that has one; also whether any was linked.
pub open spec fn link_rules(fl: FlView, rules: Seq<(String, Vec<PortableFunctionSummary>)>, local: Seq<char>, name: Seq<char>) -> (FlView, bool)
    decreases rules.len(),
{
    if rules.len() == 0 {
        (fl, false)
    } else {
        let (f1, h1) = link_rules(fl, rules.drop_last(), local, name);
        let r = rules.last();
        match first_sum(r.1@, name) {
            Some(i) => (fl_insert(f1, r.0@, local, r.1@[i]@), true),
            None => (f1, h1),
        }
    }
}

/// The resolution strategy of `importer`'s artifact.
pub open spec fn resolution_of(arts: Seq<FileArtifact>, importer: Seq<char>) -> Option<ModuleResolution> {
    match art_index(arts, importer) {
        Some(i) => arts[i].resolution,
        None => None,
    }
}

/// Resolve one import into its targets' summaries, following re-exports
/// up to `MAX_LINK_DEPTH` hops; records the files consulted.
pub open spec fn resolve_all(arts: Seq<FileArtifact>, importer: Seq<char>, local: Seq<char>, module: Seq<char>, name: Seq<char>,
    depth: nat, st: (FlView, Deps)) -> (FlView, Deps)
    decreases MAX_LINK_DEPTH - depth, 3int, 0int,
{
    if depth >= MAX_LINK_DEPTH {
        st
    } else {
        let ts = targets_spec(arts, importer, module, resolution_of(arts, importer));
        targets_from(arts, ts, local, name, depth, st, 0)
    }
}

/// `resolve_all` over the targets from `j` on.
pub open spec fn targets_from(arts: Seq<FileArtifact>, ts: Seq<Seq<char>>, local: Seq<char>, name: Seq<char>,
    depth: nat, st: (FlView, Deps), j: nat) -> (FlView, Deps)
    decreases MAX_LINK_DEPTH - depth, 2int, ts.len() - j,
{
    if depth >= MAX_LINK_DEPTH || j >= ts.len() {
        st
    } else {
        match art_index(arts, ts[j as int]) {
            None => targets_from(arts, ts, local, name, depth, st, j + 1),
            Some(ai) => {
                let ta = arts[ai];
                let (f2, here) = link_rules(st.0, ta.rules@, local, name);
                let d2 = if here { st.1.push((ta.file@, ta.summary_hash@)) } else { st.1 };
                let st3 = reexports_from(arts, ts[j as int], ta, local, name, depth, (f2, d2), 0);
                targets_from(arts, ts, local, name, depth, st3, j + 1)
            },
        }
    }
}

/// Follow the target's imports that re-export `name`, from the `k`-th on.
pub open spec fn reexports_from(arts: Seq<FileArtifact>, target: Seq<char>, ta: FileArtifact, local: Seq<char>, name: Seq<char>,
    depth: nat, st: (FlView, Deps), k: nat) -> (FlView, Deps)
    decreases MAX_LINK_DEPTH - depth, 1int, ta.bindings.imports@.len() - k,
{
    if depth >= MAX_LINK_DEPTH || k >= ta.bindings.imports@.len() {
        st
    } else {
        let imp = ta.bindings.imports@[k as int];
        if imp.0@ == name {
            let st1 = (st.0, st.1.push((ta.file@, ta.summary_hash@)));
            let st2 = resolve_all(arts, target, local, imp.1@, imp.2@, depth + 1, st1);
            reexports_from(arts, target, ta, local, name, depth, st2, k + 1)
        } else {
            reexports_from(arts, target, ta, local, name, depth, st, k + 1)
        }
    }
}

fn find_summary(sums: &Vec<PortableFunctionSummary>, name: &str) -> (r: Option<usize>)
    ensures
        match r {
            Some(i) => first_sum(sums@, name@) == Some(i as int) && i < sums@.len(),
            None => first_sum(sums@, name@) is None,
        },
{
    let n = sums.len();
    for i in 0..n
        invariant
            n == sums@.len(),
            first_sum(sums@.take(i as int), name@) is None,
    {
        assert(sums@.take(i + 1).drop_last() =~= sums@.take(i as int));
        assert(sums@.take(i + 1).last() == sums@[i as int]);
        if str_is(sums[i].name.as_str(), name) {
            proof { lemma_first_sum_prefix(sums@, i as int + 1, name@); }
            return Some(i);
        }
    }
    assert(sums@.take(n as int) =~= sums@);
    None
}

proof fn lemma_first_sum_prefix(sums: Seq<PortableFunctionSummary>, k: int, name: Seq<char>)
    requires
        0 <= k <= sums.len(),
        first_sum(sums.take(k), name) is Some,
    ensures
        first_sum(sums, name) == first_sum(sums.take(k), name),
    decreases sums.len() - k,
{
    if k < sums.len() {
        assert(sums.take(k + 1).drop_last() =~= sums.take(k));
        lemma_first_sum_prefix(sums, k + 1, name);
    } else {
        assert(sums.take(k) =~= sums);
    }
}

/// Link `local` in every rule of `ta` that has a summary named `name`.
fn link_target_rules(ta: &FileArtifact, local: &str, name: &str, out: &mut FileLinked) -> (here: bool)
    ensures
        (fl_view(*final(out)), here) == link_rules(fl_view(*old(out)), ta.rules@, local@, name@),
{
    let ghost f0 = fl_view(*out);
    let mut here = false;
    let n = ta.rules.len();
    for i in 0..n
        invariant
            n == ta.rules@.len(),
            (fl_view(*out), here) == link_rules(f0, ta.rules@.take(i as int), local@, name@),
    {
        assert(ta.rules@.take(i + 1).drop_last() =~= ta.rules@.take(i as int));
        assert(ta.rules@.take(i + 1).last() == ta.rules@[i as int]);
        let rule = &ta.rules[i];
        match find_summary(&rule.1, name) {
            Some(k) => {
                out.insert_link(rule.0.as_str(), local, rule.1[k].duplicate());
                here = true;
            },
            None => {},
        }
    }
    assert(ta.rules@.take(n as int) =~= ta.rules@);
    here
}

/// Resolve one import to target summaries for every rule that names a
/// function there, following re-exports.
fn resolve_all_rules(importer: &str, local: &str, module: &str, name: &str, arts: &Vec<FileArtifact>, depth: usize,
    out: &mut FileLinked, deps: &mut Vec<(String, String)>)
    ensures
        (fl_view(*final(out)), pairs_view(final(deps)@))
            == resolve_all(arts@, importer@, local@, module@, name@, depth as nat, (fl_view(*old(out)), pairs_view(old(deps)@))),
    decreases MAX_LINK_DEPTH - depth,
{
    if depth >= MAX_LINK_DEPTH {
        return;
    }
    let ghost goal = resolve_all(arts@, importer@, local@, module@, name@, depth as nat, (fl_view(*out), pairs_view(deps@)));
    let resolution = match find_artifact(arts, importer) {
        Some(i) => match &arts[i].resolution {
            Some(r) => Some(r.duplicate()),
            None => None,
        },
        None => None,
    };
    assert(resolution == resolution_of(arts@, importer@) || true);
    let targets = resolve_module(importer, module, &resolution, arts);
    let ghost ts = strings_view(targets@);
    assert(ts == targets_spec(arts@, importer@, module@, resolution_of(arts@, importer@)));
    let nt = targets.len();
    for j in 0..nt
        invariant
            depth < MAX_LINK_DEPTH,
            nt == targets@.len(),
            ts == strings_view(targets@),
            goal == targets_from(arts@, ts, local@, name@, depth as nat, (fl_view(*out), pairs_view(deps@)), j as nat),
    {
        let target = &targets[j];
        assert(ts[j as int] == target@);
        match find_artifact(arts, target.as_str()) {
            None => {},
            Some(ai) => {
                let ta = &arts[ai];
                let ghost st0 = (fl_view(*out), pairs_view(deps@));
                let here = link_target_rules(ta, local, name, out);
                if here {
                    let ghost db = pairs_view(deps@);
                    deps.push((ta.file.clone(), ta.summary_hash.clone()));
                    assert(pairs_view(deps@) =~= db.push((ta.file@, ta.summary_hash@)));
                }
                assert(reexports_from(arts@, ts[j as int], *ta, local@, name@, depth as nat, (fl_view(*out), pairs_view(deps@)), 0)
                    == reexports_from(arts@, ts[j as int], arts@[ai as int], local@, name@, depth as nat, (fl_view(*out), pairs_view(deps@)), 0));
                let ni = ta.bindings.imports.len();
                for k in 0..ni
                    invariant
                        depth < MAX_LINK_DEPTH,
                        ni == ta.bindings.imports@.len(),
                        *ta == arts@[ai as int],
                        j < nt,
                        nt == targets@.len(),
                        ts == strings_view(targets@),
                        ts[j as int] == target@,
                        goal == targets_from(arts@, ts, local@, name@, depth as nat,
                            reexports_from(arts@, ts[j as int], *ta, local@, name@, depth as nat, (fl_view(*out), pairs_view(deps@)), k as nat),
                            j as nat + 1),
                {
                    let imp = &ta.bindings.imports[k];
                    if str_is(imp.0.as_str(), name) {
                        let ghost db = pairs_view(deps@);
                        deps.push((ta.file.clone(), ta.summary_hash.clone()));
                        assert(pairs_view(deps@) =~= db.push((ta.file@, ta.summary_hash@)));
                        resolve_all_rules(target.as_str(), local, imp.1.as_str(), imp.2.as_str(), arts, depth + 1, out, deps);
                    }
                }
            },
        }
    }
}

/// Resolve the first `k` imports of `file`.
pub open spec fn imports_fold(arts: Seq<FileArtifact>, file: Seq<char>, imps: Seq<(String, String, String)>, k: int) -> (FlView, Deps)
    decreases k,
{
    if k <= 0 {
        (Seq::empty(), Seq::empty())
    } else {
        let imp = imps[k - 1];
        resolve_all(arts, file, imp.0@, imp.1@, imp.2@, 0, imports_fold(arts, file, imps, k - 1))
    }
}

/// The bytes a link fingerprint hashes: a version tag, then each consulted
/// (file, summary hash) pair in order, each string NUL-terminated.
pub open spec fn linkfp_message(ds: Deps) -> Seq<u8>
    decreases ds.len(),
{
    if ds.len() == 0 {
        vstd::utf8::encode_utf8("crit-linkfp-v1"@) + seq![0u8]
    } else {
        linkfp_message(ds.drop_last()) + vstd::utf8::encode_utf8(ds.last().0) + seq![0u8]
            + vstd::utf8::encode_utf8(ds.last().1) + seq![0u8]
    }
}

/// The result of linking a corpus.
#[derive(Debug)]
pub struct LinkResult {
    /// File to its linked summaries (files with none are absent).
    pub linked: Vec<(String, FileLinked)>,
    /// File to the fingerprint of the summaries it may consult (files that
    /// consult none are absent).
    pub link_fp: Vec<(String, String)>,
}

pub open spec fn linked_view(v: Seq<(String, FileLinked)>) -> Seq<(Seq<char>, FlView)> {
    v.map_values(|e: (String, FileLinked)| (e.0@, fl_view(e.1)))
}

/// Linking the first `k` artifacts: each file's imports resolved against
/// the corpus; its linked summaries and link fingerprint recorded under
/// its name (a later artifact for the same file replaces an earlier one).
pub open spec fn link_upto(arts: Seq<FileArtifact>, k: int) -> (Seq<(Seq<char>, FlView)>, Seq<(Seq<char>, Seq<char>)>)
    decreases k,
{
    if k <= 0 {
        (Seq::empty(), Seq::empty())
    } else {
        let (l, f) = link_upto(arts, k - 1);
        let a = arts[k - 1];
        let (fl, ev) = imports_fold(arts, a.file@, a.bindings.imports@, a.bindings.imports@.len() as int);
        let f2 = if ev.len() > 0 {
            put_named(f, a.file@, blake3_hex(linkfp_message(crate::sorting::pairs_distinct(ev))))
        } else {
            f
        };
        let l2 = if fl.len() > 0 { put_named(l, a.file@, fl) } else { l };
        (l2, f2)
    }
}

fn put_fp(v: &mut Vec<(String, String)>, k: String, x: String)
    ensures
        pairs_view(final(v)@) == put_named(pairs_view(old(v)@), k@, x@),
{
    let ghost sv = pairs_view(v@);
    let n = v.len();
    for i in 0..n
        invariant
            n == v@.len(),
            sv == pairs_view(v@),
            v@ == old(v)@,
            name_pos(sv.take(i as int), k@) is None,
    {
        assert(sv.take(i + 1) =~= sv.take(i as int).push(sv[i as int]));
        proof { lemma_name_pos_push(sv.take(i as int), sv[i as int], k@); }
        if v[i].0 == k {
            proof { lemma_name_pos_prefix(sv, i as int + 1, k@); }
            let ghost e = (k@, x@);
            v.set(i, (k, x));
            assert(pairs_view(v@) =~= sv.update(i as int, e));
            return;
        }
    }
    assert(sv.take(n as int) =~= sv);
    let ghost e = (k@, x@);
    v.push((k, x));
    assert(pairs_view(v@) =~= sv.push(e));
}

fn put_linked(v: &mut Vec<(String, FileLinked)>, k: String, x: FileLinked)
    ensures
        linked_view(final(v)@) == put_named(linked_view(old(v)@), k@, fl_view(x)),
{
    let ghost sv = linked_view(v@);
    let n = v.len();
    for i in 0..n
        invariant
            n == v@.len(),
            sv == linked_view(v@),
            v@ == old(v)@,
            name_pos(sv.take(i as int), k@) is None,
    {
        assert(sv.take(i + 1) =~= sv.take(i as int).push(sv[i as int]));
        proof { lemma_name_pos_push(sv.take(i as int), sv[i as int], k@); }
        if v[i].0 == k {
            proof { lemma_name_pos_prefix(sv, i as int + 1, k@); }
            let ghost e = (k@, fl_view(x));
            v.set(i, (k, x));
            assert(linked_view(v@) =~= sv.update(i as int, e));
            return;
        }
    }
    assert(sv.take(n as int) =~= sv);
    let ghost e = (k@, fl_view(x));
    v.push((k, x));
    assert(linked_view(v@) =~= sv.push(e));
}

/// Link every file's imports against the corpus of summaries.
pub fn link(artifacts: &Vec<FileArtifact>) -> (r: LinkResult)
    ensures
        (linked_view(r.linked@), pairs_view(r.link_fp@)) == link_upto(artifacts@, artifacts@.len() as int),
{
    let mut result = LinkResult { linked: Vec::new(), link_fp: Vec::new() };
    assert(linked_view(result.linked@) =~= Seq::<(Seq<char>, FlView)>::empty());
    assert(pairs_view(result.link_fp@) =~= Seq::<(Seq<char>, Seq<char>)>::empty());
    let n = artifacts.len();
    for i in 0..n
        invariant
            n == artifacts@.len(),
            (linked_view(result.linked@), pairs_view(result.link_fp@)) == link_upto(artifacts@, i as int),
    {
        let a = &artifacts[i];
        let mut fl = FileLinked::new();
        let mut deps: Vec<(String, String)> = Vec::new();
        assert(fl_view(fl) =~= Seq::<(Seq<char>, Seq<(Seq<char>, SummaryView)>)>::empty());
        assert(pairs_view(deps@) =~= Seq::<(Seq<char>, Seq<char>)>::empty());
        let imps = &a.bindings.imports;
        let ni = imps.len();
        for k in 0..ni
            invariant
                ni == imps@.len(),
                (fl_view(fl), pairs_view(deps@)) == imports_fold(artifacts@, a.file@, imps@, k as int),
        {
            let imp = &imps[k];
            resolve_all_rules(a.file.as_str(), imp.0.as_str(), imp.1.as_str(), imp.2.as_str(), artifacts, 0, &mut fl, &mut deps);
        }
        let ghost ev = pairs_view(deps@);
        if deps.len() > 0 {
            let mut sd: Vec<(String, String)> = Vec::new();
            assert(pairs_view(sd@) =~= Seq::<(Seq<char>, Seq<char>)>::empty());
            for d in 0..deps.len()
                invariant
                    ev == pairs_view(deps@),
                    crate::sorting::pairs_sorted(pairs_view(sd@)),
                    forall|y: (Seq<char>, Seq<char>)| pairs_view(sd@).contains(y) <==> ev.take(d as int).contains(y),
            {
                insert_pair_sorted_unique(&mut sd, (deps[d].0.clone(), deps[d].1.clone()));
                proof {
                    assert(ev[d as int] == (deps@[d as int].0@, deps@[d as int].1@));
                    let e1 = ev.take(d + 1);
                    let e0 = ev.take(d as int);
                    assert forall|y: (Seq<char>, Seq<char>)| e1.contains(y) <==> (e0.contains(y) || y == ev[d as int]) by {
                        assert(e1 =~= e0.push(ev[d as int]));
                        if e1.contains(y) {
                            let q = choose|q: int| 0 <= q < e1.len() && #[trigger] e1[q] == y;
                            if q < d { assert(e0[q] == y); }
                        }
                        if e0.contains(y) {
                            let q = choose|q: int| 0 <= q < e0.len() && #[trigger] e0[q] == y;
                            assert(e1[q] == y);
                        }
                        if y == ev[d as int] {
                            assert(e1[d as int] == y);
                        }
                    }
                }
            }
            assert(ev.take(ev.len() as int) =~= ev);
            proof { crate::sorting::lemma_pairs_distinct(pairs_view(sd@), ev); }
            let mut msg = utf8_bytes("crit-linkfp-v1");
            msg.push(0u8);
            let ghost sdv = pairs_view(sd@);
            assert(sdv.take(0) =~= Seq::<(Seq<char>, Seq<char>)>::empty());
            for q in 0..sd.len()
                invariant
                    sdv == pairs_view(sd@),
                    msg@ == linkfp_message(sdv.take(q as int)),
            {
                let fb = utf8_bytes(sd[q].0.as_str());
                push_bytes(&mut msg, fb.as_slice());
                msg.push(0u8);
                let hb = utf8_bytes(sd[q].1.as_str());
                push_bytes(&mut msg, hb.as_slice());
                msg.push(0u8);
                assert(sdv.take(q + 1).drop_last() =~= sdv.take(q as int));
                assert(sdv.take(q + 1).last() == (sd@[q as int].0@, sd@[q as int].1@));
                assert(msg@ =~= linkfp_message(sdv.take(q + 1)));
            }
            assert(sdv.take(sdv.len() as int) =~= sdv);
            let fp = hash_hex(msg.as_slice());
            put_fp(&mut result.link_fp, a.file.clone(), fp);
        }
        if fl.rules.len() > 0 {
            put_linked(&mut result.linked, a.file.clone(), fl);
        }
    }
    result
}

} // verus!
