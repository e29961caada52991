//! Persistent scan state under `.crit/` at the scan root: the incremental
//! result cache, finding baselines and the timestamps stamped into them.
//! Reading and writing the files is the caller's business; this module
//! decides what they hold.

use vstd::prelude::*;
use crate::findings::{Finding, FindingView};
use crate::paths::strings_view;
use crate::sorting::{strictly_sorted, insert_sorted_unique, sorted_distinct, lemma_sorted_distinct, views};
use crate::text::{cat, chars_of, str_is, dec, pad_left, push_padded, dec_string};

verus! {

broadcast use vstd::string::group_string_axioms;

/// Version of the engine stamped into caches, baselines and reports.
pub const ENGINE_VERSION: &'static str = "0.2.0";

/// Name of the state directory at the scan root.
pub const STATE_DIR: &'static str = ".crit";

/// `Path::join` on `/`-separated text: an absolute `rel` replaces `base`;
/// otherwise a separator is put between them unless `base` is empty or
/// already ends with one.
pub open spec fn join_spec(base: Seq<char>, rel: Seq<char>) -> Seq<char> {
    if rel.len() > 0 && rel[0] == '/' {
        rel
    } else if base.len() == 0 || base.last() == '/' {
        base + rel
    } else {
        base + seq!['/'] + rel
    }
}

/// Join a relative path onto a base path.
pub fn join_path(base: &str, rel: &str) -> (r: String)
    ensures
        r@ == join_spec(base@, rel@),
{
    let rc = chars_of(rel);
    if rc.len() > 0 && rc[0] == '/' {
        return rel.to_owned();
    }
    let bc = chars_of(base);
    if bc.len() == 0 || bc[bc.len() - 1] == '/' {
        cat(base, rel)
    } else {
        let mut s = base.to_owned();
        s.append("/");
        s.append(rel);
        proof { reveal_strlit("/"); }
        assert(s@ =~= base@ + seq!['/'] + rel@);
        s
    }
}

/// The state directory of a scan root: `<root>/.crit`.
pub fn state_dir(root: &str) -> (r: String)
    ensures
        r@ == join_spec(root@, ".crit"@),
{
    join_path(root, STATE_DIR)
}

/// The file a baseline is kept in: `<root>/.crit/baseline.json`.
pub fn baseline_path(root: &str) -> (r: String)
    ensures
        r@ == join_spec(join_spec(root@, ".crit"@), "baseline.json"@),
{
    let d = state_dir(root);
    join_path(d.as_str(), "baseline.json")
}

/// The file the findings cache is kept in: `<root>/.crit/cache.json`.
pub fn cache_path(root: &str) -> (r: String)
    ensures
        r@ == join_spec(join_spec(root@, ".crit"@), "cache.json"@),
{
    let d = state_dir(root);
    join_path(d.as_str(), "cache.json")
}

// ---------------------------------------------------------------------
// Timestamps
// ---------------------------------------------------------------------

/// The civil (proleptic Gregorian, UTC) date of a day count since
/// 1970-01-01, as (year, month, day): Howard Hinnant's civil-from-days.
pub open spec fn civil(days: int) -> (int, int, int) {
    let z = days + 719_468;
    let era = z / 146_097;
    let doe = z % 146_097;
    let yoe = (doe - doe / 1460 + doe / 36_524 - doe / 146_096) / 365;
    let y = yoe + era * 400;
    let doy = doe - (365 * yoe + yoe / 4 - yoe / 100);
    let mp = (5 * doy + 2) / 153;
    let d = doy - (153 * mp + 2) / 5 + 1;
    let mo = if mp < 10 { mp + 3 } else { mp - 9 };
    (if mo <= 2 { y + 1 } else { y }, mo, d)
}

/// The year of a timestamp given in seconds since the epoch.
pub open spec fn year_of(secs: u64) -> int {
    civil((secs / 86_400) as int).0
}

/// `n` as decimal with at least `w` digits, zero-padded (`{n:0w}`).
pub open spec fn zpad(n: int, w: int) -> Seq<char> {
    pad_left(dec(n as nat), w, '0')
}

/// RFC 3339 UTC rendering of a timestamp in seconds since the epoch:
/// `YYYY-MM-DDTHH:MM:SSZ`.
pub open spec fn rfc3339(secs: u64) -> Seq<char> {
    let (y, mo, d) = civil((secs / 86_400) as int);
    zpad(y, 4) + seq!['-'] + zpad(mo, 2) + seq!['-'] + zpad(d, 2) + seq!['T']
        + zpad(((secs / 3600) % 24) as int, 2) + seq![':'] + zpad(((secs / 60) % 60) as int, 2) + seq![':']
        + zpad((secs % 60) as int, 2) + seq!['Z']
}

proof fn lemma_civil_bounds(days: int)
    requires
        0 <= days,
    ensures
        civil(days).0 >= 0,
        1 <= civil(days).1 <= 12,
        1 <= civil(days).2 <= 31,
{
    let z = days + 719_468;
    let era = z / 146_097;
    let doe = z % 146_097;
    assert(0 <= doe < 146_097);
    assert(era >= 0);
    let yoe = (doe - doe / 1460 + doe / 36_524 - doe / 146_096) / 365;
    assert(0 <= yoe <= 399) by {
        assert(doe / 1460 <= doe);
        assert(doe / 146_096 <= doe / 36_524);
    }
    let doy = doe - (365 * yoe + yoe / 4 - yoe / 100);
    assert(0 <= doy <= 365);
    let mp = (5 * doy + 2) / 153;
    assert(0 <= mp <= 11);
    assert(153 * mp <= 5 * doy + 2 < 153 * mp + 153);
    let d = doy - (153 * mp + 2) / 5 + 1;
    assert(1 <= d <= 31);
}

proof fn lemma_zpad_len(n: int, w: int, bound: int)
    requires
        0 <= n < bound,
        (w == 2 && bound == 100) || (w == 4 && bound == 10_000),
    ensures
        zpad(n, w).len() == w,
{
    vstd::arithmetic::power::lemma_pow_positive(10, w as nat);
    assert(vstd::arithmetic::power::pow(10, w as nat) == bound) by {
        vstd::arithmetic::power::lemma_pow0(10);
        reveal_with_fuel(vstd::arithmetic::power::pow, 5);
    }
    crate::text::lemma_dec_len(n as nat, w as nat, bound);
}

fn push_zpad(s: &mut String, n: u64, w: usize)
    ensures
        final(s)@ == old(s)@ + zpad(n as int, w as int),
{
    let t = dec_string(n);
    push_padded(s, t.as_str(), w, '0');
}

/// Render a timestamp given in seconds since the epoch as RFC 3339 UTC.
/// Up to the year 9999 the result is exactly 20 characters long; it always
/// ends in `Z`.
pub fn rfc3339_from_secs(secs: u64) -> (r: String)
    ensures
        r@ == rfc3339(secs),
        r@.len() > 0 && r@.last() == 'Z',
        year_of(secs) < 10_000 ==> r@.len() == 20,
{
    let days: u64 = secs / 86_400;
    let h: u64 = (secs / 3600) % 24;
    let m: u64 = (secs / 60) % 60;
    let sec: u64 = secs % 60;
    let z: u64 = days + 719_468;
    let era: u64 = z / 146_097;
    let doe: u64 = z % 146_097;
    assert(doe / 1460 <= doe);
    assert(doe / 146_096 <= doe / 36_524);
    let yoe: u64 = (doe - doe / 1460 + doe / 36_524 - doe / 146_096) / 365;
    assert(yoe <= 399);
    assert(era <= 0xffff_ffff_ffff);
    let y: u64 = yoe + era * 400;
    let doy: u64 = doe - (365 * yoe + yoe / 4 - yoe / 100);
    let mp: u64 = (5 * doy + 2) / 153;
    assert(153 * mp <= 5 * doy + 2);
    let d: u64 = doy - (153 * mp + 2) / 5 + 1;
    let mo: u64 = if mp < 10 { mp + 3 } else { mp - 9 };
    let y: u64 = if mo <= 2 { y + 1 } else { y };
    proof {
        lemma_civil_bounds(days as int);
    }
    assert((y as int, mo as int, d as int) == civil(days as int));
    let mut s = String::new();
    push_zpad(&mut s, y, 4);
    s.append("-");
    push_zpad(&mut s, mo, 2);
    s.append("-");
    push_zpad(&mut s, d, 2);
    s.append("T");
    push_zpad(&mut s, h, 2);
    s.append(":");
    push_zpad(&mut s, m, 2);
    s.append(":");
    push_zpad(&mut s, sec, 2);
    s.append("Z");
    proof {
        reveal_strlit("-");
        reveal_strlit("T");
        reveal_strlit(":");
        reveal_strlit("Z");
        if year_of(secs) < 10_000 {
            lemma_zpad_len(y as int, 4, 10_000);
            lemma_zpad_len(mo as int, 2, 100);
            lemma_zpad_len(d as int, 2, 100);
            lemma_zpad_len(h as int, 2, 100);
            lemma_zpad_len(m as int, 2, 100);
            lemma_zpad_len(sec as int, 2, 100);
        }
    }
    assert(s@ =~= rfc3339(secs));
    s
}

/// Seconds since the Unix epoch on the system clock (`SystemTime::now`);
/// zero when the clock reads before the epoch. Nothing is promised of the
/// value: it is the time of the call.
#[verifier::external_body]
fn unix_now_secs() -> u64 {
    std::time::SystemTime::now()
        .duration_since(std::time::UNIX_EPOCH)
        .map(|d| d.as_secs())
        .unwrap_or(0)
}

/// The current time as RFC 3339 UTC, e.g. `2024-05-01T12:00:00Z`.
pub fn now_rfc3339() -> (r: String)
    ensures
        exists|secs: u64| r@ == rfc3339(secs),
        r@.len() > 0 && r@.last() == 'Z',
{
    let secs = unix_now_secs();
    rfc3339_from_secs(secs)
}

// ---------------------------------------------------------------------
// Baselines
// ---------------------------------------------------------------------

/// The fingerprints of a list of findings, in order.
pub open spec fn fingerprints_of(fs: Seq<FindingView>) -> Seq<Seq<char>> {
    fs.map_values(|f: FindingView| f.fingerprint)
}

/// A stored set of fingerprints representing accepted pre-existing
/// findings. A scan compared against it reports only findings whose
/// fingerprint it does not hold.
pub struct Baseline {
    pub engine: String,
    /// Informational: when the baseline was written (RFC 3339).
    pub created: String,
    /// Sorted, without repeats.
    pub fingerprints: Vec<String>,
}

impl Baseline {
    /// The fingerprints form a set: strictly increasing.
    pub open spec fn wf(&self) -> bool {
        strictly_sorted(strings_view(self.fingerprints@))
    }

    /// The fingerprints held, as a set.
    pub open spec fn held(&self) -> Set<Seq<char>> {
        strings_view(self.fingerprints@).to_set()
    }

    /// A baseline accepting exactly the given findings, stamped with the
    /// engine version and the current time.
    pub fn from_findings(findings: &Vec<Finding>) -> (r: Baseline)
        ensures
            r.wf(),
            r.engine@ == ENGINE_VERSION@,
            exists|secs: u64| r.created@ == rfc3339(secs),
            strings_view(r.fingerprints@) == sorted_distinct(fingerprints_of(views(findings@))),
            forall|y: Seq<char>| r.held().contains(y) <==> fingerprints_of(views(findings@)).contains(y),
    {
        let mut fps: Vec<String> = Vec::new();
        let n = findings.len();
        let ghost fv = fingerprints_of(views(findings@));
        for i in 0..n
            invariant
                n == findings@.len(),
                fv == fingerprints_of(views(findings@)),
                strictly_sorted(strings_view(fps@)),
                forall|y: Seq<char>| strings_view(fps@).contains(y) <==> fv.take(i as int).contains(y),
        {
            let ghost before = strings_view(fps@);
            insert_sorted_unique(&mut fps, findings[i].fingerprint.clone());
            assert(fv.take(i + 1) =~= fv.take(i as int).push(findings@[i as int].fingerprint@));
            assert forall|y: Seq<char>| strings_view(fps@).contains(y) <==> fv.take(i + 1).contains(y) by {
                if y == findings@[i as int].fingerprint@ {
                    assert(fv.take(i + 1)[i as int] == y);
                }
                if fv.take(i + 1).contains(y) && y != findings@[i as int].fingerprint@ {
                    let k = choose|k: int| 0 <= k < i + 1 && #[trigger] fv.take(i + 1)[k] == y;
                    assert(fv.take(i as int)[k] == y);
                }
            }
        }
        assert(fv.take(n as int) =~= fv);
        proof { lemma_sorted_distinct(strings_view(fps@), fv); }
        let r = Baseline { engine: ENGINE_VERSION.to_owned(), created: now_rfc3339(), fingerprints: fps };
        assert forall|y: Seq<char>| r.held().contains(y) <==> fv.contains(y) by {
            assert(r.held().contains(y) <==> strings_view(r.fingerprints@).contains(y));
        }
        r
    }

    /// Whether the baseline holds a fingerprint.
    pub fn contains(&self, fingerprint: &str) -> (r: bool)
        ensures
            r == self.held().contains(fingerprint@),
    {
        let n = self.fingerprints.len();
        let ghost sv = strings_view(self.fingerprints@);
        for i in 0..n
            invariant
                n == self.fingerprints@.len(),
                sv == strings_view(self.fingerprints@),
                forall|j: int| 0 <= j < i ==> #[trigger] sv[j] != fingerprint@,
        {
            if str_is(self.fingerprints[i].as_str(), fingerprint) {
                assert(sv[i as int] == fingerprint@);
                return true;
            }
        }
        assert(!sv.contains(fingerprint@));
        false
    }
}

// ---------------------------------------------------------------------
// Findings cache
// ---------------------------------------------------------------------

/// One file's cached analysis: valid while both the file content and the
/// fingerprint of the cross-file summaries it consulted are unchanged.
pub struct CacheEntry {
    /// BLAKE3 of the file contents.
    pub hash: String,
    /// Fingerprint of the cross-file summaries this file's findings depend
    /// on (empty when it consults none).
    pub link_fp: String,
    pub findings: Vec<Finding>,
}

pub struct CacheEntryView {
    pub hash: Seq<char>,
    pub link_fp: Seq<char>,
    pub findings: Seq<FindingView>,
}

impl View for CacheEntry {
    type V = CacheEntryView;

    open spec fn view(&self) -> CacheEntryView {
        CacheEntryView { hash: self.hash@, link_fp: self.link_fp@, findings: views(self.findings@) }
    }
}

impl CacheEntry {
    pub fn duplicate(&self) -> (r: CacheEntry)
        ensures
            r@ == self@,
    {
        let mut findings: Vec<Finding> = Vec::new();
        let n = self.findings.len();
        for i in 0..n
            invariant
                n == self.findings@.len(),
                views(findings@) == views(self.findings@).take(i as int),
        {
            let ghost before = views(findings@);
            findings.push(self.findings[i].duplicate());
            assert(views(findings@) =~= before.push(self.findings@[i as int]@));
            assert(views(self.findings@).take(i + 1) =~= views(self.findings@).take(i as int).push(self.findings@[i as int]@));
        }
        assert(views(self.findings@).take(n as int) =~= views(self.findings@));
        CacheEntry { hash: self.hash.clone(), link_fp: self.link_fp.clone(), findings }
    }
}

/// The keys of the cache's entries, in order.
pub open spec fn cache_keys(files: Seq<(String, CacheEntry)>) -> Seq<Seq<char>> {
    files.map_values(|e: (String, CacheEntry)| e.0@)
}

/// Where a path's entry stands in the cache, if it has one.
pub open spec fn cache_pos(files: Seq<(String, CacheEntry)>, rel: Seq<char>) -> Option<int> {
    if exists|i: int| 0 <= i < files.len() && (#[trigger] files[i]).0@ == rel {
        Some(choose|i: int| 0 <= i < files.len() && (#[trigger] files[i]).0@ == rel)
    } else {
        None
    }
}

/// The per-file findings cache, valid only for one compiled rule set.
pub struct Cache {
    /// Engine version that wrote the cache (informational).
    pub engine: String,
    /// Validity key: must equal the current compiled rule set hash.
    pub rules_hash: String,
    /// Root-relative path (forward slashes) to entry; no path twice.
    pub files: Vec<(String, CacheEntry)>,
}

impl Cache {
    /// No path has two entries.
    pub open spec fn wf(&self) -> bool {
        forall|i: int, j: int| 0 <= i < j < self.files@.len() ==> (#[trigger] self.files@[i]).0@ != (#[trigger] self.files@[j]).0@
    }

    /// The entry stored for a path, if any.
    pub open spec fn entry(&self, rel: Seq<char>) -> Option<CacheEntryView> {
        match cache_pos(self.files@, rel) {
            Some(i) => Some(self.files@[i].1@),
            None => None,
        }
    }

    /// What a lookup finds: the stored entry, provided its content hash and
    /// link fingerprint are the ones given.
    pub open spec fn valid_entry(&self, rel: Seq<char>, content_hash: Seq<char>, link_fp: Seq<char>) -> Option<CacheEntryView> {
        match self.entry(rel) {
            Some(e) => if e.hash == content_hash && e.link_fp == link_fp { Some(e) } else { None },
            None => None,
        }
    }

    /// An empty cache for a rule set.
    pub fn fresh(rules_hash: &str) -> (r: Cache)
        ensures
            r.wf(),
            r.engine@ == ENGINE_VERSION@,
            r.rules_hash@ == rules_hash@,
            r.files@.len() == 0,
    {
        Cache { engine: ENGINE_VERSION.to_owned(), rules_hash: rules_hash.to_owned(), files: Vec::new() }
    }

    /// The cache to use given what was read from disk: the stored cache
    /// when there was one for this rule set, a fresh one when it was
    /// missing, unreadable or written for other rules.
    pub fn or_fresh(stored: Option<Cache>, rules_hash: &str) -> (r: Cache)
        ensures
            match stored {
                Some(c) => if c.rules_hash@ == rules_hash@ { r == c } else { r.files@.len() == 0 && r.rules_hash@ == rules_hash@ && r.engine@ == ENGINE_VERSION@ },
                None => r.files@.len() == 0 && r.rules_hash@ == rules_hash@ && r.engine@ == ENGINE_VERSION@,
            },
    {
        match stored {
            Some(c) => {
                if str_is(c.rules_hash.as_str(), rules_hash) {
                    c
                } else {
                    Cache::fresh(rules_hash)
                }
            }
            None => Cache::fresh(rules_hash),
        }
    }

    /// Where `rel` stands in the cache.
    pub fn position(&self, rel: &str) -> (r: Option<usize>)
        requires
            self.wf(),
        ensures
            match r {
                Some(i) => cache_pos(self.files@, rel@) == Some(i as int),
                None => cache_pos(self.files@, rel@) is None,
            },
    {
        let n = self.files.len();
        for i in 0..n
            invariant
                n == self.files@.len(),
                self.wf(),
                forall|j: int| 0 <= j < i ==> (#[trigger] self.files@[j]).0@ != rel@,
        {
            if str_is(self.files[i].0.as_str(), rel) {
                proof {
                    let k = choose|k: int| 0 <= k < self.files@.len() && (#[trigger] self.files@[k]).0@ == rel@;
                    if k != i {
                        if k < i {
                            assert(self.files@[k].0@ != self.files@[i as int].0@);
                        } else {
                            assert(self.files@[i as int].0@ != self.files@[k].0@);
                        }
                    }
                }
                return Some(i);
            }
        }
        None
    }

    /// A cache entry is valid only when both the file content and the
    /// cross-file link fingerprint match.
    pub fn lookup(&self, rel_path: &str, content_hash: &str, link_fp: &str) -> (r: Option<&CacheEntry>)
        requires
            self.wf(),
        ensures
            match r {
                Some(e) => self.valid_entry(rel_path@, content_hash@, link_fp@) == Some(e@),
                None => self.valid_entry(rel_path@, content_hash@, link_fp@) is None,
            },
    {
        match self.position(rel_path) {
            Some(i) => {
                let e = &self.files[i].1;
                if str_is(e.hash.as_str(), content_hash) && str_is(e.link_fp.as_str(), link_fp) {
                    Some(e)
                } else {
                    None
                }
            }
            None => None,
        }
    }

    /// Store an entry for a path, replacing any earlier one.
    pub fn insert(&mut self, rel_path: String, entry: CacheEntry)
        requires
            old(self).wf(),
        ensures
            final(self).wf(),
            final(self).engine == old(self).engine,
            final(self).rules_hash == old(self).rules_hash,
            final(self).entry(rel_path@) == Some(entry@),
            forall|p: Seq<char>| p != rel_path@ ==> #[trigger] final(self).entry(p) == old(self).entry(p),
    {
        let ghost key = rel_path@;
        let ghost ev = entry@;
        let ghost old_files = self.files@;
        match self.position(rel_path.as_str()) {
            Some(i) => {
                self.files.set(i, (rel_path, entry));
            }
            None => {
                self.files.push((rel_path, entry));
            }
        }
        let ghost nf = self.files@;
        assert(forall|j: int| 0 <= j < nf.len() ==> (#[trigger] nf[j]).0@ == key || (j < old_files.len() && nf[j] == old_files[j]));
        assert forall|a: int, b: int| 0 <= a < b < nf.len() implies (#[trigger] nf[a]).0@ != (#[trigger] nf[b]).0@ by {
            if nf[a].0@ == key || nf[b].0@ == key {
                if cache_pos(old_files, key) is Some {
                    let i = cache_pos(old_files, key)->0;
                    if a != i && nf[a].0@ == key {
                        if a < i { assert(old_files[a].0@ != old_files[i].0@); } else { assert(old_files[i].0@ != old_files[a].0@); }
                    }
                    if b != i && nf[b].0@ == key {
                        if b < i { assert(old_files[b].0@ != old_files[i].0@); } else { assert(old_files[i].0@ != old_files[b].0@); }
                    }
                } else {
                    if a < old_files.len() && nf[a].0@ == key { assert(old_files[a].0@ == key); }
                    if b < old_files.len() && nf[b].0@ == key { assert(old_files[b].0@ == key); }
                }
            }
        }
        assert(self.wf());
        let ghost k = cache_pos(nf, key);
        assert(cache_pos(nf, key) is Some) by {
            let i = if cache_pos(old_files, key) is Some { cache_pos(old_files, key)->0 } else { old_files.len() as int };
            assert(nf[i].0@ == key);
        }
        proof {
            let j = cache_pos(nf, key)->0;
            let i = if cache_pos(old_files, key) is Some { cache_pos(old_files, key)->0 } else { old_files.len() as int };
            assert(nf[i].0@ == key);
            if j != i {
                if j < i { assert(nf[j].0@ != nf[i].0@); } else { assert(nf[i].0@ != nf[j].0@); }
            }
            assert(nf[i].1@ == ev);
        }
        assert forall|p: Seq<char>| p != key implies #[trigger] self.entry(p) == old(self).entry(p) by {
            if cache_pos(old_files, p) is Some {
                let i = cache_pos(old_files, p)->0;
                assert(nf[i] == old_files[i]) by {
                    if cache_pos(old_files, key) is Some {
                        let q = cache_pos(old_files, key)->0;
                        assert(q != i);
                    }
                }
                assert(cache_pos(nf, p) is Some);
                let j = cache_pos(nf, p)->0;
                if j != i {
                    if j < i { assert(nf[j].0@ != nf[i].0@); } else { assert(nf[i].0@ != nf[j].0@); }
                }
            } else {
                if cache_pos(nf, p) is Some {
                    let j = cache_pos(nf, p)->0;
                    assert(nf[j].0@ == p);
                    assert(j < old_files.len() && nf[j] == old_files[j]);
                }
            }
        }
    }

    /// Drop a path's entry, if it has one.
    pub fn remove(&mut self, rel_path: &str)
        requires
            old(self).wf(),
        ensures
            final(self).wf(),
            final(self).engine == old(self).engine,
            final(self).rules_hash == old(self).rules_hash,
            final(self).entry(rel_path@) is None,
            forall|p: Seq<char>| p != rel_path@ ==> #[trigger] final(self).entry(p) == old(self).entry(p),
    {
        let ghost old_files = self.files@;
        match self.position(rel_path) {
            Some(i) => {
                let _ = self.files.remove(i);
                let ghost nf = self.files@;
                assert(nf =~= old_files.remove(i as int));
                assert forall|a: int, b: int| 0 <= a < b < nf.len() implies (#[trigger] nf[a]).0@ != (#[trigger] nf[b]).0@ by {
                    let oa = if a < i { a } else { a + 1 };
                    let ob = if b < i { b } else { b + 1 };
                    assert(nf[a] == old_files[oa]);
                    assert(nf[b] == old_files[ob]);
                }
                assert(cache_pos(nf, rel_path@) is None) by {
                    if exists|j: int| 0 <= j < nf.len() && (#[trigger] nf[j]).0@ == rel_path@ {
                        let j = choose|j: int| 0 <= j < nf.len() && (#[trigger] nf[j]).0@ == rel_path@;
                        let oj = if j < i { j } else { j + 1 };
                        assert(nf[j] == old_files[oj]);
                        if oj < i { assert(old_files[oj].0@ != old_files[i as int].0@); } else { assert(old_files[i as int].0@ != old_files[oj].0@); }
                    }
                }
                assert forall|p: Seq<char>| p != rel_path@ implies #[trigger] self.entry(p) == old(self).entry(p) by {
                    if cache_pos(old_files, p) is Some {
                        let k = cache_pos(old_files, p)->0;
                        let nk = if k < i { k } else { k - 1 };
                        assert(k != i);
                        assert(nf[nk] == old_files[k]);
                        assert(cache_pos(nf, p) is Some);
                        let j = cache_pos(nf, p)->0;
                        if j != nk {
                            if j < nk { assert(nf[j].0@ != nf[nk].0@); } else { assert(nf[nk].0@ != nf[j].0@); }
                        }
                    } else {
                        if cache_pos(nf, p) is Some {
                            let j = cache_pos(nf, p)->0;
                            let oj = if j < i { j } else { j + 1 };
                            assert(nf[j] == old_files[oj]);
                        }
                    }
                }
            }
            None => {}
        }
    }
}

/// A lookup made right after an entry was stored finds it, under the
/// content hash and link fingerprint it was stored with, and under no
/// others.
pub proof fn lemma_lookup_after_insert(d: Cache, rel: Seq<char>, e: CacheEntryView)
    requires
        d.entry(rel) == Some(e),
    ensures
        d.valid_entry(rel, e.hash, e.link_fp) == Some(e),
        forall|h: Seq<char>, l: Seq<char>| (h != e.hash || l != e.link_fp) ==> #[trigger] d.valid_entry(rel, h, l) is None,
{
}

/// A lookup made right after an entry was dropped finds nothing.
pub proof fn lemma_lookup_after_remove(d: Cache, rel: Seq<char>)
    requires
        d.entry(rel) is None,
    ensures
        forall|h: Seq<char>, l: Seq<char>| #[trigger] d.valid_entry(rel, h, l) is None,
{
}

/// The findings a baseline does not hold.
pub open spec fn outside_baseline(b: Baseline, fs: Seq<FindingView>) -> Seq<FindingView> {
    fs.filter(|g: FindingView| !b.held().contains(g.fingerprint))
}

/// A baseline suppresses exactly the findings it was made from: against
/// a baseline holding the fingerprints of `accepted`, a finding of
/// `current` is kept if and only if no accepted finding has its
/// fingerprint; in particular nothing of `accepted` itself is kept.
pub proof fn lemma_baseline_suppresses(accepted: Seq<FindingView>, current: Seq<FindingView>, b: Baseline)
    requires
        forall|y: Seq<char>| b.held().contains(y) <==> fingerprints_of(accepted).contains(y),
    ensures
        forall|f: FindingView| #[trigger] outside_baseline(b, current).contains(f)
            <==> (current.contains(f) && !fingerprints_of(accepted).contains(f.fingerprint)),
        outside_baseline(b, accepted).len() == 0,
{
    let keep = |g: FindingView| !b.held().contains(g.fingerprint);
    assert(outside_baseline(b, current) == current.filter(keep));
    assert(outside_baseline(b, accepted) == accepted.filter(keep));
    assert forall|f: FindingView| #[trigger] current.filter(keep).contains(f)
        <==> (current.contains(f) && !fingerprints_of(accepted).contains(f.fingerprint)) by {
        if current.filter(keep).contains(f) {
            current.lemma_filter_contains_rev(keep, f);
            let j = choose|j: int| 0 <= j < current.filter(keep).len() && current.filter(keep)[j] == f;
            current.lemma_filter_pred(keep, j);
        }
        if current.contains(f) && keep(f) {
            let i = choose|i: int| 0 <= i < current.len() && current[i] == f;
            current.lemma_filter_contains(keep, i);
        }
    }
    if accepted.filter(keep).len() > 0 {
        let g = accepted.filter(keep)[0];
        assert(accepted.filter(keep).contains(g));
        accepted.lemma_filter_contains_rev(keep, g);
        accepted.lemma_filter_pred(keep, 0);
        assert(accepted.contains(g));
        let i = choose|i: int| 0 <= i < accepted.len() && accepted[i] == g;
        assert(fingerprints_of(accepted)[i] == g.fingerprint);
        assert(fingerprints_of(accepted).contains(g.fingerprint));
    }
}

} // verus!
