//! Language registry: built-in grammars compiled into the binary plus
//! grammars loaded at runtime, with extension-based detection.

use vstd::prelude::*;
use crate::profile::TaintProfileSpec;
use crate::text::{chars_of, string_of, str_is, to_ascii_lower, lower_seq, slice_chars, cat};
use crate::persist::{join_spec, join_path};

verus! {

broadcast use vstd::string::group_string_axioms;

#[verifier::external_type_specification]
#[verifier::external_body]
pub struct ExLanguage(tree_sitter::Language);

/// The index of the last occurrence of `c` in `s`, or -1.
pub open spec fn last_index_of(s: Seq<char>, c: char) -> int
    decreases s.len(),
{
    if s.len() == 0 {
        -1
    } else if s.last() == c {
        s.len() - 1
    } else {
        last_index_of(s.drop_last(), c)
    }
}

proof fn lemma_last_index_of(s: Seq<char>, c: char)
    ensures
        -1 <= last_index_of(s, c) < s.len(),
        last_index_of(s, c) >= 0 ==> s[last_index_of(s, c)] == c,
        forall|j: int| last_index_of(s, c) < j < s.len() ==> s[j] != c,
    decreases s.len(),
{
    if s.len() > 0 && s.last() != c {
        lemma_last_index_of(s.drop_last(), c);
        assert forall|j: int| last_index_of(s, c) < j < s.len() implies s[j] != c by {
            if j < s.len() - 1 {
                assert(s.drop_last()[j] == s[j]);
            }
        }
    }
}

fn last_index(cs: &Vec<char>, c: char) -> (r: Option<usize>)
    ensures
        match r {
            Some(i) => last_index_of(cs@, c) == i,
            None => last_index_of(cs@, c) == -1,
        },
{
    let mut i = cs.len();
    assert(cs@.take(i as int) =~= cs@);
    while i > 0
        invariant
            i <= cs@.len(),
            last_index_of(cs@, c) == last_index_of(cs@.take(i as int), c),
        decreases i,
    {
        assert(cs@.take(i as int).drop_last() =~= cs@.take(i - 1));
        if cs[i - 1] == c {
            return Some(i - 1);
        }
        i -= 1;
    }
    None
}

/// The last component of a `/`-separated path.
pub open spec fn file_name(p: Seq<char>) -> Seq<char> {
    p.subrange(last_index_of(p, '/') + 1, p.len() as int)
}

/// The file name of a path.
pub fn path_file_name(path: &str) -> (r: String)
    ensures
        r@ == file_name(path@),
{
    let cs = chars_of(path);
    proof { lemma_last_index_of(cs@, '/'); }
    let start = match last_index(&cs, '/') { Some(i) => i + 1, None => 0 };
    let name = slice_chars(&cs, start, cs.len());
    string_of(name.as_slice())
}

/// The text after the last `.` of the file name, provided something
/// precedes that dot; none for `..`. This is `Path::extension` for paths
/// that end in a file name (std also skips a trailing `/` or `.`
/// component, which a path to a file does not have).
pub open spec fn extension_of(p: Seq<char>) -> Option<Seq<char>> {
    let name = file_name(p);
    if name == ".."@ {
        None
    } else {
        let d = last_index_of(name, '.');
        if d <= 0 { None } else { Some(name.subrange(d + 1, name.len() as int)) }
    }
}

/// The extension of a path, if it has one.
pub fn path_extension(path: &str) -> (r: Option<String>)
    ensures
        match r {
            Some(e) => extension_of(path@) == Some(e@),
            None => extension_of(path@) is None,
        },
{
    let cs = chars_of(path);
    proof { lemma_last_index_of(cs@, '/'); }
    let start = match last_index(&cs, '/') { Some(i) => i + 1, None => 0 };
    let name = slice_chars(&cs, start, cs.len());
    assert(name@ == file_name(path@));
    if str_is(string_of(name.as_slice()).as_str(), "..") {
        proof { reveal_strlit(".."); }
        return None;
    }
    proof {
        reveal_strlit("..");
        lemma_last_index_of(name@, '.');
    }
    match last_index(&name, '.') {
        Some(d) => {
            if d == 0 {
                None
            } else {
                let e = slice_chars(&name, d + 1, name.len());
                Some(string_of(e.as_slice()))
            }
        }
        None => None,
    }
}

/// A language known to the scanner.
pub struct LanguageDef {
    /// Stable identifier used in rules and CLI flags, e.g. `objectscript`.
    pub id: String,
    pub display_name: String,
    /// File extensions (lowercase, without dot) that map to this language.
    pub extensions: Vec<String>,
    pub language: tree_sitter::Language,
    pub builtin: bool,
    /// Taint profile for this language, if any. Languages without one
    /// still support pattern rules.
    pub taint_profile: Option<TaintProfileSpec>,
}

/// The identifiers of a list of languages, in order.
pub open spec fn lang_ids(langs: Seq<LanguageDef>) -> Seq<Seq<char>> {
    langs.map_values(|d: LanguageDef| d.id@)
}

/// An extension table as plain values: extension to language index.
pub open spec fn ext_view(v: Seq<(String, usize)>) -> Seq<(Seq<char>, int)> {
    v.map_values(|e: (String, usize)| (e.0@, e.1 as int))
}

/// The first position of key `k` in a table.
pub open spec fn epos(t: Seq<(Seq<char>, int)>, k: Seq<char>) -> Option<int>
    decreases t.len(),
{
    if t.len() == 0 {
        None
    } else {
        match epos(t.drop_last(), k) {
            Some(i) => Some(i),
            None => if t.last().0 == k { Some(t.len() - 1) } else { None },
        }
    }
}

/// The value stored under `k`.
pub open spec fn eget(t: Seq<(Seq<char>, int)>, k: Seq<char>) -> Option<int> {
    match epos(t, k) {
        Some(i) => Some(t[i].1),
        None => None,
    }
}

/// Store `v` under `k`, replacing an earlier value.
pub open spec fn eput(t: Seq<(Seq<char>, int)>, k: Seq<char>, v: int) -> Seq<(Seq<char>, int)> {
    match epos(t, k) {
        Some(i) => t.update(i, (k, v)),
        None => t.push((k, v)),
    }
}

/// Store `v` under `k` unless `k` has a value already.
pub open spec fn eput_absent(t: Seq<(Seq<char>, int)>, k: Seq<char>, v: int) -> Seq<(Seq<char>, int)> {
    match epos(t, k) {
        Some(_) => t,
        None => t.push((k, v)),
    }
}

/// Map each of `keys` to `v`, first registration winning.
pub open spec fn eput_all_absent(t: Seq<(Seq<char>, int)>, keys: Seq<Seq<char>>, v: int) -> Seq<(Seq<char>, int)>
    decreases keys.len(),
{
    if keys.len() == 0 {
        t
    } else {
        eput_absent(eput_all_absent(t, keys.drop_last(), v), keys.last(), v)
    }
}

proof fn lemma_epos(t: Seq<(Seq<char>, int)>, k: Seq<char>)
    ensures
        epos(t, k) matches Some(i) ==> 0 <= i < t.len() && t[i].0 == k && forall|j: int| 0 <= j < i ==> #[trigger] t[j].0 != k,
        epos(t, k) is None ==> forall|j: int| 0 <= j < t.len() ==> #[trigger] t[j].0 != k,
    decreases t.len(),
{
    if t.len() > 0 {
        lemma_epos(t.drop_last(), k);
        assert forall|j: int| 0 <= j < t.len() - 1 implies #[trigger] t[j] == t.drop_last()[j] by {}
    }
}

proof fn lemma_epos_prefix(t: Seq<(Seq<char>, int)>, i: int, k: Seq<char>)
    requires
        0 <= i < t.len(),
        t[i].0 == k,
        forall|j: int| 0 <= j < i ==> #[trigger] t[j].0 != k,
    ensures
        epos(t, k) == Some(i),
    decreases t.len(),
{
    lemma_epos(t, k);
    if epos(t, k) is Some {
        let p = epos(t, k)->0;
        if p < i { assert(t[p].0 != k); }
        if p > i { assert(t[i].0 != k); }
    }
}

fn ext_position(tbl: &Vec<(String, usize)>, ext: &str) -> (r: Option<usize>)
    ensures
        match r {
            Some(i) => epos(ext_view(tbl@), ext@) == Some(i as int) && i < tbl@.len(),
            None => epos(ext_view(tbl@), ext@) is None,
        },
{
    let ghost t = ext_view(tbl@);
    let n = tbl.len();
    for i in 0..n
        invariant
            n == tbl@.len(),
            t == ext_view(tbl@),
            forall|j: int| 0 <= j < i ==> #[trigger] t[j].0 != ext@,
    {
        if str_is(tbl[i].0.as_str(), ext) {
            proof { lemma_epos_prefix(t, i as int, ext@); }
            return Some(i);
        }
    }
    proof {
        lemma_epos(t, ext@);
        if epos(t, ext@) is Some {
            let p = epos(t, ext@)->0;
            assert(t[p].0 != ext@);
        }
    }
    None
}

/// After an override, the overridden extension maps to the language it
/// was given, and every other extension maps where it mapped before.
pub proof fn lemma_override_then_lookup(t: Seq<(Seq<char>, int)>, k: Seq<char>, v: int)
    ensures
        eget(eput(t, k, v), k) == Some(v),
        forall|e: Seq<char>| e != k ==> #[trigger] eget(eput(t, k, v), e) == eget(t, e),
{
    lemma_epos(t, k);
    let u = eput(t, k, v);
    if epos(t, k) is Some {
        let p = epos(t, k)->0;
        assert(u == t.update(p, (k, v)));
        assert forall|j: int| 0 <= j < p implies #[trigger] u[j].0 != k by {
            assert(u[j] == t[j]);
        }
        lemma_epos_prefix(u, p, k);
        assert forall|e: Seq<char>| e != k implies #[trigger] eget(u, e) == eget(t, e) by {
            lemma_epos(t, e);
            lemma_epos(u, e);
            if epos(t, e) is Some {
                let q = epos(t, e)->0;
                assert(q != p);
                assert(u[q] == t[q]);
                assert forall|j: int| 0 <= j < q implies #[trigger] u[j].0 != e by {
                    if j != p { assert(u[j] == t[j]); }
                }
                lemma_epos_prefix(u, q, e);
            } else if epos(u, e) is Some {
                let q = epos(u, e)->0;
                if q != p { assert(u[q] == t[q]); }
            }
        }
    } else {
        assert(u == t.push((k, v)));
        assert forall|j: int| 0 <= j < t.len() implies #[trigger] u[j].0 != k by {
            assert(u[j] == t[j]);
        }
        lemma_epos_prefix(u, t.len() as int, k);
        assert forall|e: Seq<char>| e != k implies #[trigger] eget(u, e) == eget(t, e) by {
            lemma_epos(t, e);
            lemma_epos(u, e);
            if epos(t, e) is Some {
                let q = epos(t, e)->0;
                assert(u[q] == t[q]);
                assert forall|j: int| 0 <= j < q implies #[trigger] u[j].0 != e by {
                    assert(u[j] == t[j]);
                }
                lemma_epos_prefix(u, q, e);
            } else if epos(u, e) is Some {
                let q = epos(u, e)->0;
                if q < t.len() { assert(u[q] == t[q]); }
            }
        }
    }
}

/// The index of the language with identifier `id`.
pub open spec fn lang_pos(langs: Seq<LanguageDef>, id: Seq<char>) -> Option<int> {
    if exists|i: int| 0 <= i < langs.len() && (#[trigger] langs[i]).id@ == id {
        Some(choose|i: int| 0 <= i < langs.len() && (#[trigger] langs[i]).id@ == id)
    } else {
        None
    }
}

/// Registry of all available languages with extension-based detection.
pub struct Registry {
    langs: Vec<LanguageDef>,
    /// Lowercase extension to language index; first registration wins,
    /// overrides replace.
    by_ext: Vec<(String, usize)>,
}

impl Registry {
    /// Identifiers are distinct and every extension maps to a language.
    pub closed spec fn wf(&self) -> bool {
        &&& forall|i: int, j: int| 0 <= i < j < self.langs@.len() ==> (#[trigger] self.langs@[i]).id@ != (#[trigger] self.langs@[j]).id@
        &&& forall|i: int| 0 <= i < self.by_ext@.len() ==> (#[trigger] self.by_ext@[i]).1 < self.langs@.len()
    }

    pub closed spec fn languages(&self) -> Seq<LanguageDef> {
        self.langs@
    }

    /// The extension table: lowercase extension to language index.
    pub closed spec fn extensions(&self) -> Seq<(Seq<char>, int)> {
        ext_view(self.by_ext@)
    }

    /// Every extension maps to a registered language.
    pub proof fn lemma_targets(&self)
        requires
            self.wf(),
        ensures
            forall|e: Seq<char>| (#[trigger] eget(self.extensions(), e)) is Some ==> 0 <= eget(self.extensions(), e)->0 < self.languages().len(),
    {
        assert forall|e: Seq<char>| (#[trigger] eget(self.extensions(), e)) is Some implies 0 <= eget(self.extensions(), e)->0 < self.languages().len() by {
            lemma_epos(self.extensions(), e);
            let p = epos(self.extensions(), e)->0;
            assert(self.by_ext@[p].1 < self.langs@.len());
        }
    }

    pub fn new() -> (r: Registry)
        ensures
            r.wf(),
            r.languages().len() == 0,
            r.extensions().len() == 0,
    {
        let r = Registry { langs: Vec::new(), by_ext: Vec::new() };
        assert(r.extensions() =~= Seq::<(Seq<char>, int)>::empty());
        r
    }

    /// The index of a language by identifier.
    pub fn index_of(&self, id: &str) -> (r: Option<usize>)
        requires
            self.wf(),
        ensures
            match r {
                Some(i) => lang_pos(self.languages(), id@) == Some(i as int) && i < self.languages().len(),
                None => lang_pos(self.languages(), id@) is None,
            },
    {
        let n = self.langs.len();
        for i in 0..n
            invariant
                n == self.langs@.len(),
                self.wf(),
                forall|j: int| 0 <= j < i ==> (#[trigger] self.langs@[j]).id@ != id@,
        {
            if str_is(self.langs[i].id.as_str(), id) {
                proof {
                    let k = choose|k: int| 0 <= k < self.langs@.len() && (#[trigger] self.langs@[k]).id@ == id@;
                    if k != i {
                        if k < i { assert(self.langs@[k].id@ != self.langs@[i as int].id@); } else { assert(self.langs@[i as int].id@ != self.langs@[k].id@); }
                    }
                }
                return Some(i);
            }
        }
        None
    }

    /// Register a language: refused when its identifier is taken; each of
    /// its extensions (lowercased) maps to it unless already mapped.
    pub fn insert(&mut self, def: LanguageDef) -> (r: Result<(), String>)
        requires
            old(self).wf(),
        ensures
            final(self).wf(),
            r is Err <==> lang_pos(old(self).languages(), def.id@) is Some,
            r is Err ==> final(self).languages() == old(self).languages() && final(self).extensions() == old(self).extensions(),
            r matches Err(m) ==> m@ == "duplicate language id `"@ + def.id@ + "`"@,
            r is Ok ==> final(self).languages() == old(self).languages().push(def),
            r is Ok ==> final(self).extensions() == eput_all_absent(old(self).extensions(), lowered(def.extensions@), old(self).languages().len() as int),
    {
        if let Some(_) = self.index_of(def.id.as_str()) {
            let mut msg = "duplicate language id `".to_owned();
            msg.append(def.id.as_str());
            msg.append("`");
            return Err(msg);
        }
        let idx = self.langs.len();
        let ghost exts = lowered(def.extensions@);
        let n = def.extensions.len();
        for k in 0..n
            invariant
                n == def.extensions@.len(),
                idx == self.langs@.len(),
                self.langs@ == old(self).langs@,
                exts == lowered(def.extensions@),
                forall|i: int| 0 <= i < self.by_ext@.len() ==> (#[trigger] self.by_ext@[i]).1 <= idx,
                ext_view(self.by_ext@) == eput_all_absent(ext_view(old(self).by_ext@), exts.take(k as int), idx as int),
        {
            let low = string_of(to_ascii_lower(def.extensions[k].as_str()).as_slice());
            assert(exts[k as int] == low@);
            assert(exts.take(k + 1).drop_last() =~= exts.take(k as int));
            let ghost before = ext_view(self.by_ext@);
            match ext_position(&self.by_ext, low.as_str()) {
                Some(_) => {}
                None => {
                    self.by_ext.push((low, idx));
                    assert(ext_view(self.by_ext@) =~= before.push((exts[k as int], idx as int)));
                }
            }
        }
        assert(exts.take(n as int) =~= exts);
        self.langs.push(def);
        proof {
            assert forall|i: int, j: int| 0 <= i < j < self.langs@.len() implies (#[trigger] self.langs@[i]).id@ != (#[trigger] self.langs@[j]).id@ by {
                if j == idx {
                    assert(self.langs@[i] == old(self).langs@[i]);
                }
            }
        }
        Ok(())
    }

    /// Force an extension to resolve to a given language (the
    /// `[extensions]` table of the configuration). Leading dots are
    /// ignored and the extension is lowercased.
    pub fn override_extension(&mut self, ext: &str, lang_id: &str) -> (r: Result<(), String>)
        requires
            old(self).wf(),
        ensures
            final(self).wf(),
            final(self).languages() == old(self).languages(),
            r is Err <==> lang_pos(old(self).languages(), lang_id@) is None,
            r is Err ==> final(self).extensions() == old(self).extensions(),
            r is Ok ==> final(self).extensions() == eput(old(self).extensions(), lower_seq(strip_dots(ext@)), lang_pos(old(self).languages(), lang_id@)->0),
    {
        let idx = match self.index_of(lang_id) {
            Some(i) => i,
            None => {
                let mut msg = "unknown language `".to_owned();
                msg.append(lang_id);
                msg.append("` in [extensions] override");
                return Err(msg);
            }
        };
        let stripped = strip_leading_dots(ext);
        let key = string_of(to_ascii_lower(stripped.as_str()).as_slice());
        let ghost before = ext_view(self.by_ext@);
        match ext_position(&self.by_ext, key.as_str()) {
            Some(p) => {
                self.by_ext.set(p, (key, idx));
                assert(ext_view(self.by_ext@) =~= before.update(p as int, (lower_seq(strip_dots(ext@)), idx as int)));
            }
            None => {
                self.by_ext.push((key, idx));
                assert(ext_view(self.by_ext@) =~= before.push((lower_seq(strip_dots(ext@)), idx as int)));
            }
        }
        Ok(())
    }

    /// A language by identifier.
    pub fn get(&self, id: &str) -> (r: Option<&LanguageDef>)
        requires
            self.wf(),
        ensures
            match lang_pos(self.languages(), id@) {
                Some(i) => r == Some(&self.languages()[i]),
                None => r is None,
            },
    {
        match self.index_of(id) {
            Some(i) => Some(&self.langs[i]),
            None => None,
        }
    }

    /// The language of a path, from its extension (lowercased).
    pub fn detect(&self, path: &str) -> (r: Option<&LanguageDef>)
        requires
            self.wf(),
        ensures
            match extension_of(path@) {
                Some(e) => match eget(self.extensions(), lower_seq(e)) {
                    Some(i) => r == Some(&self.languages()[i]),
                    None => r is None,
                },
                None => r is None,
            },
    {
        let ext = match path_extension(path) {
            Some(e) => e,
            None => return None,
        };
        let low = string_of(to_ascii_lower(ext.as_str()).as_slice());
        match ext_position(&self.by_ext, low.as_str()) {
            Some(p) => {
                let i = self.by_ext[p].1;
                assert(i < self.langs@.len());
                Some(&self.langs[i])
            }
            None => None,
        }
    }

    /// All languages, in registration order.
    pub fn all(&self) -> (r: &Vec<LanguageDef>)
        ensures
            r@ == self.languages(),
    {
        &self.langs
    }
}

/// `s` without its leading dots (`trim_start_matches('.')`).
pub open spec fn strip_dots(s: Seq<char>) -> Seq<char>
    decreases s.len(),
{
    if s.len() > 0 && s[0] == '.' { strip_dots(s.drop_first()) } else { s }
}

fn strip_leading_dots(s: &str) -> (r: String)
    ensures
        r@ == strip_dots(s@),
{
    let cs = chars_of(s);
    let mut i: usize = 0;
    assert(cs@.skip(0) =~= cs@);
    while i < cs.len() && cs[i] == '.'
        invariant
            i <= cs@.len(),
            strip_dots(s@) == strip_dots(cs@.skip(i as int)),
            cs@ == s@,
        decreases cs@.len() - i,
    {
        assert(cs@.skip(i as int).drop_first() =~= cs@.skip(i + 1));
        i += 1;
    }
    let rest = slice_chars(&cs, i, cs.len());
    assert(rest@ =~= cs@.skip(i as int));
    string_of(rest.as_slice())
}

/// Where a configured grammar's shared library lives: its path as given
/// when absolute, else relative to the configuration's directory.
pub fn grammar_library_path(library: &str, base_dir: &str) -> (r: String)
    ensures
        r@ == join_spec(base_dir@, library@),
{
    join_path(base_dir, library)
}

/// `name` with every `-` replaced by `_`.
pub open spec fn dashes_to_underscores(s: Seq<char>) -> Seq<char> {
    Seq::new(s.len(), |i: int| if s[i] == '-' { '_' } else { s[i] })
}

/// The symbol a grammar library exports: the configured one, else
/// `tree_sitter_<name>` with dashes turned to underscores.
pub fn grammar_symbol(name: &str, symbol: &Option<String>) -> (r: String)
    ensures
        r@ == match symbol {
            Some(s) => s@,
            None => "tree_sitter_"@ + dashes_to_underscores(name@),
        },
{
    match symbol {
        Some(s) => s.clone(),
        None => {
            let cs = chars_of(name);
            let mut out: Vec<char> = Vec::new();
            let n = cs.len();
            for i in 0..n
                invariant
                    n == cs@.len(),
                    cs@ == name@,
                    out@ == dashes_to_underscores(name@).take(i as int),
            {
                out.push(if cs[i] == '-' { '_' } else { cs[i] });
                assert(out@ =~= dashes_to_underscores(name@).take(i + 1));
            }
            assert(dashes_to_underscores(name@).take(n as int) =~= dashes_to_underscores(name@));
            let tail = string_of(out.as_slice());
            let r = cat("tree_sitter_", tail.as_str());
            proof { reveal_strlit("tree_sitter_"); }
            r
        }
    }
}

/// The ABI version a grammar was generated with (`Language::abi_version`).
/// Nothing is stated of the value: it is read from the grammar's tables.
#[verifier::external_body]
fn abi_version(language: &tree_sitter::Language) -> usize {
    language.abi_version()
}

/// The oldest grammar ABI the linked tree-sitter accepts
/// (`tree_sitter::MIN_COMPATIBLE_LANGUAGE_VERSION`, 13 in this version of
/// the crate).
#[verifier::external_body]
fn min_abi() -> (r: usize)
    ensures
        r == 13,
{
    tree_sitter::MIN_COMPATIBLE_LANGUAGE_VERSION
}

/// The newest grammar ABI the linked tree-sitter accepts
/// (`tree_sitter::LANGUAGE_VERSION`, 15 in this version of the crate).
#[verifier::external_body]
fn max_abi() -> (r: usize)
    ensures
        r == 15,
{
    tree_sitter::LANGUAGE_VERSION
}

/// A grammar configured in the project configuration.
pub struct GrammarConfig {
    /// Language id, also used for the default symbol `tree_sitter_<name>`.
    pub name: String,
    pub display_name: Option<String>,
    /// Path to the compiled grammar shared library, relative to the
    /// configuration file unless absolute.
    pub library: String,
    /// Exported symbol; defaults to `tree_sitter_<name>`.
    pub symbol: Option<String>,
    /// File extensions handled by this grammar.
    pub extensions: Vec<String>,
    /// Optional taint profile path enabling taint rules for this language.
    pub profile: Option<String>,
}

/// The lowercase forms of a list of extensions.
pub open spec fn lowered(v: Seq<String>) -> Seq<Seq<char>> {
    v.map_values(|x: String| lower_seq(x@))
}

proof fn lemma_lower_char_twice(c: char)
    ensures
        crate::text::lower_char(crate::text::lower_char(c)) == crate::text::lower_char(c),
{
    if 'A' <= c && c <= 'Z' {
        let d = ((c as u32) + 32) as char;
        assert(97 <= (c as u32) + 32 <= 122);
        assert(d as u32 == (c as u32) + 32);
    }
}

/// Lowering already lowered extensions changes nothing.
proof fn lemma_lowered_twice(v: Seq<String>, w: Seq<String>)
    requires
        crate::paths::strings_view(w) == lowered(v),
    ensures
        lowered(w) == lowered(v),
{
    assert(crate::paths::strings_view(w).len() == w.len());
    assert(lowered(v).len() == v.len());
    assert forall|i: int| 0 <= i < w.len() implies #[trigger] lowered(w)[i] == lowered(v)[i] by {
        assert(crate::paths::strings_view(w)[i] == w[i]@);
        assert(lowered(v)[i] == lower_seq(v[i]@));
        assert(w[i]@ == lower_seq(v[i]@));
        assert forall|j: int| 0 <= j < w[i]@.len() implies #[trigger] lower_seq(w[i]@)[j] == lower_seq(v[i]@)[j] by {
            lemma_lower_char_twice(v[i]@[j]);
        }
        assert(lower_seq(w[i]@) =~= lower_seq(v[i]@));
    }
    assert(lowered(w) =~= lowered(v));
}

/// Grammar ABI versions the linked tree-sitter accepts.
pub open spec fn abi_supported(abi: int) -> bool {
    13 <= abi <= 15
}

/// The refusal of a grammar generated for an unsupported ABI.
pub open spec fn abi_message(name: Seq<char>, abi: int) -> Seq<char> {
    "grammar `"@ + name + "` has incompatible ABI version "@ + crate::text::dec(abi as nat)
        + " (supported: "@ + crate::text::dec(13) + "..="@ + crate::text::dec(15) + ")"@
}

/// What registering a runtime grammar with ABI version `abi` does: refused
/// (the registry unchanged) when the ABI is unsupported, else when the name
/// is taken; otherwise the grammar is appended as a non-built-in language
/// named after the configuration (display name defaulting to the name,
/// extensions lowercased, each mapped unless already mapped).
pub open spec fn grammar_outcome(pre: Registry, post: Registry, cfg: GrammarConfig, language: tree_sitter::Language,
    profile: Option<TaintProfileSpec>, abi: int, r: Result<(), String>) -> bool {
    if !abi_supported(abi) {
        &&& r matches Err(m) && m@ == abi_message(cfg.name@, abi)
        &&& post.languages() == pre.languages()
        &&& post.extensions() == pre.extensions()
    } else if lang_pos(pre.languages(), cfg.name@) is Some {
        &&& r matches Err(m) && m@ == "duplicate language id `"@ + cfg.name@ + "`"@
        &&& post.languages() == pre.languages()
        &&& post.extensions() == pre.extensions()
    } else {
        &&& r is Ok
        &&& post.languages().len() == pre.languages().len() + 1
        &&& post.languages().take(pre.languages().len() as int) == pre.languages()
        &&& post.extensions() == eput_all_absent(pre.extensions(), lowered(cfg.extensions@), pre.languages().len() as int)
        &&& ({
            let d = post.languages().last();
            &&& d.id@ == cfg.name@
            &&& d.display_name@ == match cfg.display_name { Some(n) => n@, None => cfg.name@ }
            &&& crate::paths::strings_view(d.extensions@) == lowered(cfg.extensions@)
            &&& d.language == language
            &&& !d.builtin
            &&& d.taint_profile == profile
        })
    }
}

/// Why a grammar named `name` generated with ABI version `abi` cannot be
/// used: `None` when tree-sitter supports that version, else the message.
pub fn abi_problem(name: &str, abi: usize) -> (r: Option<String>)
    ensures
        r is None <==> abi_supported(abi as int),
        r matches Some(m) ==> m@ == abi_message(name@, abi as int),
{
    let lo = min_abi();
    let hi = max_abi();
    if abi < lo || abi > hi {
        let mut msg = "grammar `".to_owned();
        msg.append(name);
        msg.append("` has incompatible ABI version ");
        msg.append(crate::text::dec_string(abi as u64).as_str());
        msg.append(" (supported: ");
        msg.append(crate::text::dec_string(lo as u64).as_str());
        msg.append("..=");
        msg.append(crate::text::dec_string(hi as u64).as_str());
        msg.append(")");
        assert(msg@ =~= abi_message(name@, abi as int));
        return Some(msg);
    }
    None
}

/// Why a grammar loaded at runtime cannot be used, judged by the ABI
/// version read from it (what `add_grammar` would refuse it for, checked
/// before its taint profile is read).
pub fn grammar_abi_problem(cfg: &GrammarConfig, language: &tree_sitter::Language) -> (r: Option<String>)
    ensures
        exists|abi: usize| {
            &&& r is None <==> abi_supported(abi as int)
            &&& r matches Some(m) ==> m@ == #[trigger] abi_message(cfg.name@, abi as int)
        },
{
    let abi = abi_version(language);
    let r = abi_problem(cfg.name.as_str(), abi);
    let ghost msg = abi_message(cfg.name@, abi as int);
    assert(r matches Some(m) ==> m@ == msg);
    r
}

impl Registry {
    /// Register a grammar loaded at runtime whose ABI version is `abi`.
    pub fn add_grammar_at_abi(&mut self, cfg: &GrammarConfig, language: tree_sitter::Language, profile: Option<TaintProfileSpec>, abi: usize) -> (r: Result<(), String>)
        requires
            old(self).wf(),
        ensures
            final(self).wf(),
            grammar_outcome(*old(self), *final(self), *cfg, language, profile, abi as int, r),
    {
        match abi_problem(cfg.name.as_str(), abi) {
            Some(msg) => return Err(msg),
            None => {}
        }
        let mut exts: Vec<String> = Vec::new();
        let n = cfg.extensions.len();
        for i in 0..n
            invariant
                n == cfg.extensions@.len(),
                crate::paths::strings_view(exts@) == lowered(cfg.extensions@).take(i as int),
        {
            let low = string_of(to_ascii_lower(cfg.extensions[i].as_str()).as_slice());
            let ghost before = crate::paths::strings_view(exts@);
            exts.push(low);
            assert(crate::paths::strings_view(exts@) =~= before.push(lowered(cfg.extensions@)[i as int]));
            assert(lowered(cfg.extensions@).take(i + 1) =~= lowered(cfg.extensions@).take(i as int).push(lowered(cfg.extensions@)[i as int]));
        }
        assert(lowered(cfg.extensions@).take(n as int) =~= lowered(cfg.extensions@));
        let display = match &cfg.display_name { Some(d) => d.clone(), None => cfg.name.clone() };
        let def = LanguageDef {
            id: cfg.name.clone(),
            display_name: display,
            extensions: exts,
            language,
            builtin: false,
            taint_profile: profile,
        };
        let ghost dv = def;
        let r = self.insert(def);
        proof {
            assert(dv.id@ == cfg.name@);
            if r is Ok {
                assert(self.languages().take(old(self).languages().len() as int) =~= old(self).languages());
                assert(self.languages().last() == dv);
                lemma_lowered_twice(cfg.extensions@, dv.extensions@);
            } else {
                assert(lang_pos(old(self).languages(), cfg.name@) is Some);
            }
        }
        r
    }

    /// Register a grammar loaded at runtime: refused when the ABI version
    /// it was generated with is outside what tree-sitter supports, or when
    /// its name is taken. The ABI version is read from the grammar; what
    /// follows from it is `add_grammar_at_abi`'s.
    pub fn add_grammar(&mut self, cfg: &GrammarConfig, language: tree_sitter::Language, profile: Option<TaintProfileSpec>) -> (r: Result<(), String>)
        requires
            old(self).wf(),
        ensures
            final(self).wf(),
            exists|abi: usize| grammar_outcome(*old(self), *final(self), *cfg, language, profile, abi as int, r),
    {
        let abi = abi_version(&language);
        self.add_grammar_at_abi(cfg, language, profile, abi)
    }
}


/// The InterSystems ObjectScript (UDL) grammar.
#[verifier::external_body]
fn objectscript_grammar() -> tree_sitter::Language {
    tree_sitter_objectscript::LANGUAGE_OBJECTSCRIPT.into()
}

/// The Pascal / Delphi grammar.
#[verifier::external_body]
fn pascal_grammar() -> tree_sitter::Language {
    tree_sitter_pascal::LANGUAGE.into()
}

/// The JavaScript grammar.
#[verifier::external_body]
fn javascript_grammar() -> tree_sitter::Language {
    tree_sitter_javascript::LANGUAGE.into()
}

/// The TypeScript grammar.
#[verifier::external_body]
fn typescript_grammar() -> tree_sitter::Language {
    tree_sitter_typescript::LANGUAGE_TYPESCRIPT.into()
}

/// The TypeScript (TSX) grammar.
#[verifier::external_body]
fn tsx_grammar() -> tree_sitter::Language {
    tree_sitter_typescript::LANGUAGE_TSX.into()
}

/// The C# grammar.
#[verifier::external_body]
fn csharp_grammar() -> tree_sitter::Language {
    tree_sitter_c_sharp::LANGUAGE.into()
}

/// The Go grammar.
#[verifier::external_body]
fn go_grammar() -> tree_sitter::Language {
    tree_sitter_go::LANGUAGE.into()
}

/// The Rust grammar.
#[verifier::external_body]
fn rust_grammar() -> tree_sitter::Language {
    tree_sitter_rust::LANGUAGE.into()
}

/// Identifiers of the built-in languages, in registration order.
pub open spec fn builtin_ids() -> Seq<Seq<char>> {
    seq!["objectscript"@, "pascal"@, "javascript"@, "typescript"@, "tsx"@, "csharp"@, "go"@, "rust"@]
}

/// Display names of the built-in languages, in registration order.
pub open spec fn builtin_names() -> Seq<Seq<char>> {
    seq![
        "InterSystems ObjectScript (UDL)"@, "Pascal / Delphi"@, "JavaScript"@, "TypeScript"@,
        "TypeScript (TSX)"@, "C#"@, "Go"@, "Rust"@,
    ]
}

/// File extensions of the built-in languages, in registration order.
/// `.cls` class definitions; `.mac`/`.int` routines and `.inc` include
/// files parse with error recovery under the UDL grammar (`.inc` can be
/// remapped to pascal through the configuration).
pub open spec fn builtin_extensions() -> Seq<Seq<Seq<char>>> {
    seq![
        seq!["cls"@, "mac"@, "int"@, "inc"@],
        seq!["pas"@, "pp"@, "dpr"@, "dpk"@, "lpr"@],
        seq!["js"@, "mjs"@, "cjs"@, "jsx"@],
        seq!["ts"@, "mts"@, "cts"@],
        seq!["tsx"@],
        seq!["cs"@],
        seq!["go"@],
        seq!["rs"@],
    ]
}

/// The extension table after registering the first `k` built-in
/// languages: each extension maps to the first language listing it.
pub open spec fn builtin_table(k: int) -> Seq<(Seq<char>, int)>
    decreases k,
{
    if k <= 0 {
        Seq::empty()
    } else {
        eput_all_absent(builtin_table(k - 1), builtin_extensions()[k - 1].map_values(|e: Seq<char>| lower_seq(e)), k - 1)
    }
}

/// The profile a language gets from a list of (language id, profile)
/// pairs: one given for its id, or none when none is.
pub open spec fn profile_given(profiles: Seq<(String, TaintProfileSpec)>, id: Seq<char>, p: Option<TaintProfileSpec>) -> bool {
    match p {
        Some(x) => exists|j: int| 0 <= j < profiles.len() && (#[trigger] profiles[j]).0@ == id && profiles[j].1 == x,
        None => forall|j: int| 0 <= j < profiles.len() ==> (#[trigger] profiles[j]).0@ != id,
    }
}

proof fn lemma_fresh(langs: Seq<LanguageDef>, id: Seq<char>)
    requires
        forall|i: int| 0 <= i < langs.len() ==> (#[trigger] langs[i]).id@ != id,
    ensures
        lang_pos(langs, id) is None,
{
}

proof fn lemma_builtin_ids_distinct()
    ensures
        forall|i: int, j: int| 0 <= i < j < 8 ==> builtin_ids()[i] != builtin_ids()[j],
{
    reveal_strlit("objectscript");
    reveal_strlit("pascal");
    reveal_strlit("javascript");
    reveal_strlit("typescript");
    reveal_strlit("tsx");
    reveal_strlit("csharp");
    reveal_strlit("go");
    reveal_strlit("rust");
    assert forall|i: int, j: int| 0 <= i < j < 8 implies builtin_ids()[i] != builtin_ids()[j] by {
        let a = builtin_ids()[i];
        let b = builtin_ids()[j];
        if a.len() == b.len() {
            assert(a[0] != b[0] || a[1] != b[1]);
        }
    }
}

/// The built-in language `k`'s identifier, display name and extensions.
fn builtin_entry(k: usize) -> (r: (&'static str, &'static str, Vec<String>))
    requires
        k < 8,
    ensures
        r.0@ == builtin_ids()[k as int],
        r.1@ == builtin_names()[k as int],
        crate::paths::strings_view(r.2@) == builtin_extensions()[k as int],
{
    let mut exts: Vec<String> = Vec::new();
    let (id, name) = if k == 0 {
        exts.push("cls".to_owned());
        exts.push("mac".to_owned());
        exts.push("int".to_owned());
        exts.push("inc".to_owned());
        ("objectscript", "InterSystems ObjectScript (UDL)")
    } else if k == 1 {
        exts.push("pas".to_owned());
        exts.push("pp".to_owned());
        exts.push("dpr".to_owned());
        exts.push("dpk".to_owned());
        exts.push("lpr".to_owned());
        ("pascal", "Pascal / Delphi")
    } else if k == 2 {
        exts.push("js".to_owned());
        exts.push("mjs".to_owned());
        exts.push("cjs".to_owned());
        exts.push("jsx".to_owned());
        ("javascript", "JavaScript")
    } else if k == 3 {
        exts.push("ts".to_owned());
        exts.push("mts".to_owned());
        exts.push("cts".to_owned());
        ("typescript", "TypeScript")
    } else if k == 4 {
        exts.push("tsx".to_owned());
        ("tsx", "TypeScript (TSX)")
    } else if k == 5 {
        exts.push("cs".to_owned());
        ("csharp", "C#")
    } else if k == 6 {
        exts.push("go".to_owned());
        ("go", "Go")
    } else {
        exts.push("rs".to_owned());
        ("rust", "Rust")
    };
    assert(crate::paths::strings_view(exts@) =~= builtin_extensions()[k as int]);
    (id, name, exts)
}

/// The grammar of built-in language `k`.
fn builtin_grammar(k: usize) -> tree_sitter::Language {
    if k == 0 {
        objectscript_grammar()
    } else if k == 1 {
        pascal_grammar()
    } else if k == 2 {
        javascript_grammar()
    } else if k == 3 {
        typescript_grammar()
    } else if k == 4 {
        tsx_grammar()
    } else if k == 5 {
        csharp_grammar()
    } else if k == 6 {
        go_grammar()
    } else {
        rust_grammar()
    }
}

/// Take the profile registered for `id` out of the list, if there is one.
fn take_profile(profiles: &mut Vec<(String, TaintProfileSpec)>, id: &str) -> (r: Option<TaintProfileSpec>)
    ensures
        profile_given(old(profiles)@, id@, r),
        forall|x: (String, TaintProfileSpec)| final(profiles)@.contains(x) ==> old(profiles)@.contains(x),
        forall|j: int| 0 <= j < old(profiles)@.len() && (#[trigger] old(profiles)@[j]).0@ != id@ ==> final(profiles)@.contains(old(profiles)@[j]),
{
    let n = profiles.len();
    for i in 0..n
        invariant
            n == profiles@.len(),
            profiles@ == old(profiles)@,
            forall|j: int| 0 <= j < i ==> (#[trigger] profiles@[j]).0@ != id@,
    {
        if str_is(profiles[i].0.as_str(), id) {
            let ghost before = profiles@;
            let (_, p) = profiles.remove(i);
            proof {
                assert(before[i as int].0@ == id@ && before[i as int].1 == p);
                assert forall|x: (String, TaintProfileSpec)| profiles@.contains(x) implies before.contains(x) by {
                    let k = choose|k: int| 0 <= k < profiles@.len() && profiles@[k] == x;
                    if k < i { assert(before[k] == x); } else { assert(before[k + 1] == x); }
                }
                assert forall|j: int| 0 <= j < before.len() && (#[trigger] before[j]).0@ != id@ implies profiles@.contains(before[j]) by {
                    if j < i { assert(profiles@[j] == before[j]); } else { assert(j != i); assert(profiles@[j - 1] == before[j]); }
                }
            }
            return Some(p);
        }
    }
    proof {
        assert forall|j: int| 0 <= j < old(profiles)@.len() && (#[trigger] old(profiles)@[j]).0@ != id@ implies profiles@.contains(old(profiles)@[j]) by {
            assert(profiles@[j] == old(profiles)@[j]);
        }
    }
    None
}

impl Registry {
    /// The registry with every built-in language, in a fixed order, each
    /// with its display name and extensions (first registration of an
    /// extension wins) and the taint profile given for its id, if any.
    pub fn with_builtins(profiles: Vec<(String, TaintProfileSpec)>) -> (r: Result<Registry, String>)
        ensures
            match r {
                Ok(reg) => {
                    &&& reg.wf()
                    &&& lang_ids(reg.languages()) == builtin_ids()
                    &&& reg.extensions() == builtin_table(8)
                    &&& forall|i: int| 0 <= i < reg.languages().len() ==> {
                        let d = #[trigger] reg.languages()[i];
                        &&& d.builtin
                        &&& d.display_name@ == builtin_names()[i]
                        &&& crate::paths::strings_view(d.extensions@) == builtin_extensions()[i]
                        &&& profile_given(profiles@, d.id@, d.taint_profile)
                    }
                },
                Err(_) => false,
            },
    {
        let ghost orig = profiles@;
        let mut profiles = profiles;
        let mut reg = Registry::new();
        proof { lemma_builtin_ids_distinct(); }
        let mut k: usize = 0;
        while k < 8
            invariant
                k <= 8,
                reg.wf(),
                reg.languages().len() == k,
                lang_ids(reg.languages()) == builtin_ids().take(k as int),
                reg.extensions() == builtin_table(k as int),
                forall|i: int, j: int| 0 <= i < j < 8 ==> builtin_ids()[i] != builtin_ids()[j],
                forall|i: int| 0 <= i < reg.languages().len() ==> {
                    let d = #[trigger] reg.languages()[i];
                    &&& d.builtin
                    &&& d.display_name@ == builtin_names()[i]
                    &&& crate::paths::strings_view(d.extensions@) == builtin_extensions()[i]
                    &&& profile_given(orig, d.id@, d.taint_profile)
                },
                forall|x: (String, TaintProfileSpec)| #[trigger] profiles@.contains(x) ==> orig.contains(x),
                forall|j: int| 0 <= j < orig.len() && !builtin_ids().take(k as int).contains((#[trigger] orig[j]).0@) ==> profiles@.contains(orig[j]),
            decreases 8 - k,
        {
            let (id, name, exts) = builtin_entry(k);
            let ghost before = profiles@;
            let profile = take_profile(&mut profiles, id);
            proof {
                if profile is Some {
                    let p = profile->0;
                    let j = choose|j: int| 0 <= j < before.len() && (#[trigger] before[j]).0@ == id@ && before[j].1 == p;
                    assert(before.contains(before[j]));
                    assert(orig.contains(before[j]));
                    let o = choose|o: int| 0 <= o < orig.len() && orig[o] == before[j];
                    assert(orig[o].0@ == id@ && orig[o].1 == p);
                } else {
                    assert forall|j: int| 0 <= j < orig.len() implies (#[trigger] orig[j]).0@ != id@ by {
                        if orig[j].0@ == id@ {
                            assert(!builtin_ids().take(k as int).contains(id@)) by {
                                if builtin_ids().take(k as int).contains(id@) {
                                    let q = choose|q: int| 0 <= q < k && builtin_ids().take(k as int)[q] == id@;
                                    assert(builtin_ids()[q] == builtin_ids()[k as int]);
                                }
                            }
                            assert(before.contains(orig[j]));
                            let q = choose|q: int| 0 <= q < before.len() && before[q] == orig[j];
                            assert(before[q].0@ == id@);
                        }
                    }
                }
            }
            let def = LanguageDef {
                id: id.to_owned(),
                display_name: name.to_owned(),
                extensions: exts,
                language: builtin_grammar(k),
                builtin: true,
                taint_profile: profile,
            };
            let ghost dv = def;
            proof {
                assert forall|i: int| 0 <= i < reg.languages().len() implies (#[trigger] reg.languages()[i]).id@ != dv.id@ by {
                    assert(lang_ids(reg.languages())[i] == builtin_ids()[i]);
                }
                lemma_fresh(reg.languages(), dv.id@);
                assert(lowered(dv.extensions@) =~= builtin_extensions()[k as int].map_values(|e: Seq<char>| lower_seq(e)));
            }
            if reg.insert(def).is_err() {
                return Err("duplicate built-in language".to_owned());
            }
            proof {
                assert(lang_ids(reg.languages()) =~= builtin_ids().take(k + 1));
                assert forall|j: int| 0 <= j < orig.len() && !builtin_ids().take(k + 1).contains((#[trigger] orig[j]).0@) implies profiles@.contains(orig[j]) by {
                    assert(!builtin_ids().take(k as int).contains(orig[j].0@)) by {
                        if builtin_ids().take(k as int).contains(orig[j].0@) {
                            let q = choose|q: int| 0 <= q < k && builtin_ids().take(k as int)[q] == orig[j].0@;
                            assert(builtin_ids().take(k + 1)[q] == orig[j].0@);
                        }
                    }
                    assert(builtin_ids().take(k + 1)[k as int] == id@);
                    assert(orig[j].0@ != id@);
                    assert(before.contains(orig[j]));
                    let q = choose|q: int| 0 <= q < before.len() && before[q] == orig[j];
                    assert(before[q].0@ != id@);
                }
            }
            k = k + 1;
        }
        assert(builtin_ids().take(8) =~= builtin_ids());
        Ok(reg)
    }
}

} // verus!
