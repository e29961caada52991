//! Scan orchestration decisions: which discovered files become jobs
//! (language detection, language/glob filters, the state directory, the
//! size limit), how cached results are reused across the summarize, link
//! and evaluate phases, and how findings are collected, filtered against
//! the baseline and ordered. Walking directories, reading files, parsing
//! and running threads is the caller's part.

use vstd::prelude::*;
use crate::findings::{Finding, FindingView, Severity, sort_findings, report_order};
use crate::languages::{Registry, extension_of, eget, lang_pos};
use crate::linker::{FileArtifact, FileLinked, LinkResult};
use crate::paths::{strings_view, copy_strings};
use crate::persist::{Baseline, Cache, CacheEntry, CacheEntryView};
use crate::profile::ModuleResolution;
use crate::sorting::{views, ssort_by};
use crate::summary::{FileSummaryArtifact, RuleSummaries};
use crate::text::{chars_of, string_of, str_is, slice_chars, lower_seq};

verus! {

broadcast use vstd::string::group_string_axioms;

/// Files larger than this many bytes are skipped unless configured
/// otherwise (2 MiB).
pub const DEFAULT_MAX_FILE_SIZE: u64 = 2097152;

/// What to scan and how.
pub struct ScanOptions {
    /// Paths to scan (files or directories); empty means the whole root.
    pub paths: Vec<String>,
    /// Scan only files changed since this git ref.
    pub diff_base: Option<String>,
    /// Restrict to these language ids (empty = all).
    pub languages: Vec<String>,
    /// Restrict to these rule ids (empty = all).
    pub rule_filter: Vec<String>,
    /// Extra globs (root-relative) a path must match; if non-empty, only
    /// matches scan.
    pub only: Vec<String>,
    /// Extra exclude globs (root-relative).
    pub exclude: Vec<String>,
    pub use_cache: bool,
    /// Filter findings against the stored baseline.
    pub compare_baseline: bool,
    pub max_file_size: Option<u64>,
    /// Worker thread count (None = one per core).
    pub jobs: Option<usize>,
    /// Do not respect ignore files (scan everything).
    pub no_ignore: bool,
}

/// Counters reported with a scan.
pub struct ScanStats {
    pub files_considered: usize,
    pub files_scanned: usize,
    pub files_from_cache: usize,
    pub files_skipped_size: usize,
    pub files_with_parse_errors: usize,
    /// Files whose summaries were freshly extracted this scan.
    pub files_summarized: usize,
    /// Files whose summaries were reused from the summary store.
    pub summaries_from_cache: usize,
    /// Findings suppressed by the baseline.
    pub baseline_suppressed: usize,
    pub duration_ms: u128,
}

impl Default for ScanStats {
    fn default() -> (r: ScanStats)
        ensures
            r.files_considered == 0 && r.files_scanned == 0 && r.files_from_cache == 0
                && r.files_skipped_size == 0 && r.files_with_parse_errors == 0 && r.files_summarized == 0
                && r.summaries_from_cache == 0 && r.baseline_suppressed == 0 && r.duration_ms == 0,
    {
        ScanStats {
            files_considered: 0,
            files_scanned: 0,
            files_from_cache: 0,
            files_skipped_size: 0,
            files_with_parse_errors: 0,
            files_summarized: 0,
            summaries_from_cache: 0,
            baseline_suppressed: 0,
            duration_ms: 0,
        }
    }
}

/// The result of a scan.
pub struct ScanOutcome {
    pub findings: Vec<Finding>,
    pub stats: ScanStats,
    /// Non-fatal per-file errors (unreadable files etc).
    pub errors: Vec<String>,
}

// ---------------------------------------------------------------------
// Glob filters
// ---------------------------------------------------------------------

#[verifier::external_type_specification]
#[verifier::external_body]
pub struct ExGlobSet(globset::GlobSet);

/// What `globset` reports for a glob it cannot compile (none when it
/// compiles), with `literal_separator` off and `backslash_escape` on.
pub uninterp spec fn glob_problem(pattern: Seq<char>) -> Option<Seq<char>>;

/// What `globset` reports when it cannot assemble a set of compiled
/// globs (none when it can).
pub uninterp spec fn glob_set_problem(patterns: Seq<Seq<char>>) -> Option<Seq<char>>;

/// Whether a path matches any glob of a set (a path taken as written,
/// `/`-separated).
pub uninterp spec fn globs_match(patterns: Seq<Seq<char>>, path: Seq<char>) -> bool;

/// Compile one glob
/// (`GlobBuilder::new(p).literal_separator(false).backslash_escape(true).build()`;
/// both options set, so the outcome does not depend on the platform's
/// defaults)
/// and report its error, if any. The result is named: the crate computes
/// it from the pattern alone.
#[verifier::external_body]
fn glob_error(pattern: &str) -> (r: Option<String>)
    ensures
        match r {
            Some(e) => glob_problem(pattern@) == Some(e@),
            None => glob_problem(pattern@) is None,
        },
{
    globset::GlobBuilder::new(pattern).literal_separator(false).backslash_escape(true).build().err().map(|e| e.to_string())
}

/// Assemble a set from globs that each compile (`GlobSetBuilder::build`).
/// Its failure is named: it depends on the patterns alone.
#[verifier::external_body]
fn glob_set_build(patterns: &Vec<String>) -> (r: Result<globset::GlobSet, String>)
    requires
        forall|i: int| 0 <= i < patterns@.len() ==> glob_problem(#[trigger] patterns@[i]@) is None,
    ensures
        match r {
            Ok(_) => glob_set_problem(strings_view(patterns@)) is None,
            Err(e) => glob_set_problem(strings_view(patterns@)) == Some(e@),
        },
{
    let mut b = globset::GlobSetBuilder::new();
    for p in patterns {
        b.add(globset::GlobBuilder::new(p).literal_separator(false).backslash_escape(true).build().unwrap());
    }
    b.build().map_err(|e| e.to_string())
}

/// A compiled set of globs, kept with the patterns it was built from.
pub struct GlobFilter {
    patterns: Vec<String>,
    set: globset::GlobSet,
}

impl GlobFilter {
    /// The patterns the set was compiled from.
    pub closed spec fn patterns(&self) -> Seq<Seq<char>> {
        strings_view(self.patterns@)
    }

    /// `GlobSet::is_match`: does the path match any of the globs? The
    /// answer is named, over the patterns the set was built from.
    #[verifier::external_body]
    pub(crate) fn is_match(&self, path: &str) -> (r: bool)
        ensures
            r == globs_match(self.patterns(), path@),
    {
        self.set.is_match(path)
    }
}

/// The first pattern that does not compile, with its error.
pub open spec fn first_glob_problem(ps: Seq<Seq<char>>) -> Option<(Seq<char>, Seq<char>)>
    decreases ps.len(),
{
    if ps.len() == 0 {
        None
    } else {
        match glob_problem(ps[0]) {
            Some(e) => Some((ps[0], e)),
            None => first_glob_problem(ps.drop_first()),
        }
    }
}

proof fn lemma_first_glob_problem(ps: Seq<Seq<char>>, k: int)
    requires
        0 <= k <= ps.len(),
        forall|j: int| 0 <= j < k ==> glob_problem(#[trigger] ps[j]) is None,
    ensures
        first_glob_problem(ps) == first_glob_problem(ps.skip(k)),
    decreases k,
{
    if k == 0 {
        assert(ps.skip(0) =~= ps);
    } else {
        lemma_first_glob_problem(ps, k - 1);
        assert(ps.skip(k - 1).drop_first() =~= ps.skip(k));
        assert(ps.skip(k - 1)[0] == ps[k - 1]);
        assert(glob_problem(ps[k - 1]) is None);
        assert(ps.skip(k - 1).len() > 0);
        assert(first_glob_problem(ps.skip(k - 1)) == first_glob_problem(ps.skip(k - 1).drop_first()));
    }
}

/// The message for a glob that does not compile.
pub open spec fn invalid_glob_message(p: Seq<char>, e: Seq<char>) -> Seq<char> {
    "invalid glob `"@ + p + "`: "@ + e
}

/// Compile a list of globs: none when the list is empty; an error naming
/// the first glob that does not compile; the set's own error when it
/// cannot be assembled.
pub fn build_globset(patterns: &Vec<String>) -> (r: Result<Option<GlobFilter>, String>)
    ensures
        patterns@.len() == 0 ==> r matches Ok(None),
        patterns@.len() > 0 ==> match first_glob_problem(strings_view(patterns@)) {
            Some((p, e)) => r matches Err(m) && m@ == invalid_glob_message(p, e),
            None => match glob_set_problem(strings_view(patterns@)) {
                Some(e) => r matches Err(m) && m@ == e,
                None => r matches Ok(Some(f)) && f.patterns() == strings_view(patterns@),
            },
        },
{
    if patterns.len() == 0 {
        return Ok(None);
    }
    let ghost ps = strings_view(patterns@);
    let n = patterns.len();
    for i in 0..n
        invariant
            n == patterns@.len(),
            ps == strings_view(patterns@),
            forall|j: int| 0 <= j < i ==> glob_problem(#[trigger] ps[j]) is None,
    {
        match glob_error(patterns[i].as_str()) {
            Some(e) => {
                proof {
                    lemma_first_glob_problem(ps, i as int);
                    assert(ps.skip(i as int)[0] == ps[i as int]);
                }
                let mut msg = "invalid glob `".to_owned();
                msg.append(patterns[i].as_str());
                msg.append("`: ");
                msg.append(e.as_str());
                return Err(msg);
            }
            None => {}
        }
    }
    proof {
        lemma_first_glob_problem(ps, n as int);
        assert(ps.skip(n as int).len() == 0);
        assert forall|i: int| 0 <= i < patterns@.len() implies glob_problem(#[trigger] patterns@[i]@) is None by {
            assert(ps[i] == patterns@[i]@);
        }
    }
    match glob_set_build(patterns) {
        Ok(set) => Ok(Some(GlobFilter { patterns: copy_strings(patterns), set })),
        Err(e) => Err(e),
    }
}

// ---------------------------------------------------------------------
// Job selection
// ---------------------------------------------------------------------

/// A discovered file: its path and, when its metadata could be read, its
/// size in bytes.
pub struct Candidate {
    pub path: String,
    pub size: Option<u64>,
}

/// One file to analyze.
pub struct Job {
    pub abs: String,
    /// Root-relative path with forward slashes.
    pub rel: String,
    pub lang_id: String,
}

/// `Path::strip_prefix` on `/`-separated text: the rest of `path` after
/// the components of `root`, or `path` itself when `root` is not a prefix
/// of it component by component.
pub open spec fn strip_root(path: Seq<char>, root: Seq<char>) -> Seq<char> {
    let r = trim_slashes_end(root);
    if r.len() == 0 {
        trim_slashes_start(path)
    } else if r.len() <= path.len() && path.take(r.len() as int) == r
        && (path.len() == r.len() || path[r.len() as int] == '/') {
        trim_slashes_start(path.skip(r.len() as int))
    } else {
        path
    }
}

/// `s` without trailing slashes.
pub open spec fn trim_slashes_end(s: Seq<char>) -> Seq<char>
    decreases s.len(),
{
    if s.len() > 0 && s.last() == '/' { trim_slashes_end(s.drop_last()) } else { s }
}

/// `s` without leading slashes.
pub open spec fn trim_slashes_start(s: Seq<char>) -> Seq<char>
    decreases s.len(),
{
    if s.len() > 0 && s[0] == '/' { trim_slashes_start(s.drop_first()) } else { s }
}

fn trim_end_slashes(cs: &Vec<char>) -> (r: usize)
    ensures
        r <= cs@.len(),
        cs@.take(r as int) == trim_slashes_end(cs@),
{
    let mut k = cs.len();
    assert(cs@.take(k as int) =~= cs@);
    while k > 0 && cs[k - 1] == '/'
        invariant
            k <= cs@.len(),
            trim_slashes_end(cs@) == trim_slashes_end(cs@.take(k as int)),
        decreases k,
    {
        assert(cs@.take(k as int).drop_last() =~= cs@.take(k - 1));
        k -= 1;
    }
    k
}

fn skip_start_slashes(cs: &Vec<char>, from: usize) -> (r: usize)
    requires
        from <= cs@.len(),
    ensures
        from <= r <= cs@.len(),
        cs@.skip(r as int) == trim_slashes_start(cs@.skip(from as int)),
{
    let mut k = from;
    while k < cs.len() && cs[k] == '/'
        invariant
            from <= k <= cs@.len(),
            trim_slashes_start(cs@.skip(from as int)) == trim_slashes_start(cs@.skip(k as int)),
        decreases cs@.len() - k,
    {
        assert(cs@.skip(k as int).drop_first() =~= cs@.skip(k + 1));
        k += 1;
    }
    k
}

/// A path relative to the scan root.
pub fn relative_to(path: &str, root: &str) -> (r: String)
    ensures
        r@ == strip_root(path@, root@),
{
    let pc = chars_of(path);
    let rc = chars_of(root);
    let rl = trim_end_slashes(&rc);
    if rl == 0 {
        let k = skip_start_slashes(&pc, 0);
        assert(pc@.skip(0) =~= pc@);
        return string_of(slice_chars(&pc, k, pc.len()).as_slice());
    }
    if rl > pc.len() {
        return path.to_owned();
    }
    let mut i: usize = 0;
    while i < rl
        invariant
            i <= rl <= rc@.len(),
            rl <= pc@.len(),
            pc@ == path@,
            rc@.take(rl as int) == trim_slashes_end(root@),
            forall|j: int| 0 <= j < i ==> pc@[j] == rc@[j],
        decreases rl - i,
    {
        if pc[i] != rc[i] {
            assert(pc@.take(rl as int)[i as int] != rc@.take(rl as int)[i as int]);
            return path.to_owned();
        }
        i += 1;
    }
    assert(pc@.take(rl as int) =~= rc@.take(rl as int));
    if rl < pc.len() && pc[rl] != '/' {
        return path.to_owned();
    }
    let k = skip_start_slashes(&pc, rl);
    let out = slice_chars(&pc, k, pc.len());
    assert(out@ =~= pc@.skip(k as int));
    string_of(out.as_slice())
}

/// Does `s` start with the state directory `.crit/`?
pub open spec fn in_state_dir(s: Seq<char>) -> bool {
    s.len() >= 6 && s.take(6) == ".crit/"@
}

fn starts_with_state_dir(s: &str) -> (r: bool)
    ensures
        r == in_state_dir(s@),
{
    let cs = chars_of(s);
    proof { reveal_strlit(".crit/"); }
    if cs.len() < 6 {
        return false;
    }
    let ok = cs[0] == '.' && cs[1] == 'c' && cs[2] == 'r' && cs[3] == 'i' && cs[4] == 't' && cs[5] == '/';
    if ok {
        assert(cs@.take(6) =~= ".crit/"@);
    } else {
        assert(cs@.take(6) != ".crit/"@) by {
            if cs@.take(6) == ".crit/"@ {
                assert(cs@.take(6)[0] == cs@[0]);
                assert(cs@.take(6)[1] == cs@[1]);
                assert(cs@.take(6)[2] == cs@[2]);
                assert(cs@.take(6)[3] == cs@[3]);
                assert(cs@.take(6)[4] == cs@[4]);
                assert(cs@.take(6)[5] == cs@[5]);
            }
        }
    }
    ok
}

/// What becomes of a discovered file.
pub enum Admission {
    /// Not a scan target (unknown language, filtered out, state file).
    Skipped,
    /// Considered but over the size limit.
    Oversized,
    /// Considered and scanned as the given language.
    Scanned { rel: Seq<char>, lang_id: Seq<char> },
}

/// The decision for one discovered file: its language from its
/// extension, the language filter, the root-relative path, the state
/// directory, the globs a path must match and those it must not, then the size limit.
pub open spec fn admission(reg: Registry, root: Seq<char>, c: (Seq<char>, Option<u64>), langs: Seq<Seq<char>>,
    only: Option<Seq<Seq<char>>>, exclude: Option<Seq<Seq<char>>>, max_size: u64) -> Admission
{
    match extension_of(c.0) {
        None => Admission::Skipped,
        Some(e) => match eget(reg.extensions(), lower_seq(e)) {
            None => Admission::Skipped,
            Some(li) => {
                let id = reg.languages()[li].id@;
                let rel = strip_root(c.0, root);
                if langs.len() > 0 && !langs.contains(id) {
                    Admission::Skipped
                } else if in_state_dir(rel) {
                    Admission::Skipped
                } else if only matches Some(inc) && !globs_match(inc, rel) {
                    Admission::Skipped
                } else if exclude matches Some(exc) && globs_match(exc, rel) {
                    Admission::Skipped
                } else if c.1 matches Some(sz) && sz > max_size {
                    Admission::Oversized
                } else {
                    Admission::Scanned { rel, lang_id: id }
                }
            },
        },
    }
}

pub open spec fn candidates_view(cs: Seq<Candidate>) -> Seq<(Seq<char>, Option<u64>)> {
    cs.map_values(|c: Candidate| (c.path@, c.size))
}

pub open spec fn filter_patterns(f: Option<GlobFilter>) -> Option<Seq<Seq<char>>> {
    match f {
        Some(g) => Some(g.patterns()),
        None => None,
    }
}

/// The jobs the first `k` candidates yield, with the number considered and
/// the number skipped for size.
pub open spec fn admitted(reg: Registry, root: Seq<char>, cs: Seq<(Seq<char>, Option<u64>)>, langs: Seq<Seq<char>>,
    only: Option<Seq<Seq<char>>>, exclude: Option<Seq<Seq<char>>>, max_size: u64, k: int) -> (Seq<(Seq<char>, Seq<char>, Seq<char>)>, nat, nat)
    decreases k,
{
    if k <= 0 {
        (Seq::empty(), 0, 0)
    } else {
        let (jobs, considered, oversized) = admitted(reg, root, cs, langs, only, exclude, max_size, k - 1);
        match admission(reg, root, cs[k - 1], langs, only, exclude, max_size) {
            Admission::Skipped => (jobs, considered, oversized),
            Admission::Oversized => (jobs, considered + 1, oversized + 1),
            Admission::Scanned { rel, lang_id } => (jobs.push((cs[k - 1].0, rel, lang_id)), considered + 1, oversized),
        }
    }
}

pub open spec fn jobs_view(js: Seq<Job>) -> Seq<(Seq<char>, Seq<char>, Seq<char>)> {
    js.map_values(|j: Job| (j.abs@, j.rel@, j.lang_id@))
}

pub(crate) fn contains_str(v: &Vec<String>, s: &str) -> (r: bool)
    ensures
        r == strings_view(v@).contains(s@),
{
    let n = v.len();
    for i in 0..n
        invariant
            n == v@.len(),
            forall|j: int| 0 <= j < i ==> #[trigger] strings_view(v@)[j] != s@,
    {
        if str_is(v[i].as_str(), s) {
            assert(strings_view(v@)[i as int] == s@);
            return true;
        }
    }
    false
}

/// The decision for one file, as computed.
pub enum Decision {
    Skip,
    Oversize,
    Take(String, String),
}

fn decide(root: &str, c: &Candidate, registry: &Registry, languages: &Vec<String>,
    only: &Option<GlobFilter>, exclude: &Option<GlobFilter>, max_size: u64) -> (r: Decision)
    requires
        registry.wf(),
    ensures
        match admission(*registry, root@, (c.path@, c.size), strings_view(languages@), filter_patterns(*only), filter_patterns(*exclude), max_size) {
            Admission::Skipped => r is Skip,
            Admission::Oversized => r is Oversize,
            Admission::Scanned { rel, lang_id } => r matches Decision::Take(x, y) && x@ == rel && y@ == lang_id,
        },
{
    let lang = match registry.detect(c.path.as_str()) {
        Some(l) => l,
        None => { return Decision::Skip; }
    };
    proof { registry.lemma_targets(); }
    if languages.len() > 0 && !contains_str(languages, lang.id.as_str()) {
        return Decision::Skip;
    }
    let rel = relative_to(c.path.as_str(), root);
    if starts_with_state_dir(rel.as_str()) {
        return Decision::Skip;
    }
    match only {
        Some(f) => {
            if !f.is_match(rel.as_str()) {
                return Decision::Skip;
            }
        }
        None => {}
    }
    match exclude {
        Some(f) => {
            if f.is_match(rel.as_str()) {
                return Decision::Skip;
            }
        }
        None => {}
    }
    match c.size {
        Some(sz) => {
            if sz > max_size {
                return Decision::Oversize;
            }
        }
        None => {}
    }
    Decision::Take(rel, lang.id.clone())
}

/// Turn discovered files into jobs, counting the files considered and
/// those skipped for size.
pub fn select_jobs(root: &str, candidates: &Vec<Candidate>, registry: &Registry, languages: &Vec<String>,
    only: &Option<GlobFilter>, exclude: &Option<GlobFilter>, max_size: u64, stats: &mut ScanStats) -> (r: Vec<Job>)
    requires
        registry.wf(),
        old(stats).files_considered + candidates@.len() <= usize::MAX,
        old(stats).files_skipped_size + candidates@.len() <= usize::MAX,
    ensures
        ({
            let (jobs, considered, oversized) = admitted(*registry, root@, candidates_view(candidates@), strings_view(languages@),
                filter_patterns(*only), filter_patterns(*exclude), max_size, candidates@.len() as int);
            &&& jobs_view(r@) == jobs
            &&& final(stats).files_considered == old(stats).files_considered + considered
            &&& final(stats).files_skipped_size == old(stats).files_skipped_size + oversized
        }),
        final(stats).files_scanned == old(stats).files_scanned,
        final(stats).files_from_cache == old(stats).files_from_cache,
        final(stats).files_with_parse_errors == old(stats).files_with_parse_errors,
        final(stats).files_summarized == old(stats).files_summarized,
        final(stats).summaries_from_cache == old(stats).summaries_from_cache,
        final(stats).baseline_suppressed == old(stats).baseline_suppressed,
        final(stats).duration_ms == old(stats).duration_ms,
{
    let ghost cv = candidates_view(candidates@);
    let ghost langs = strings_view(languages@);
    let ghost inc = filter_patterns(*only);
    let ghost exc = filter_patterns(*exclude);
    let mut jobs: Vec<Job> = Vec::new();
    let n = candidates.len();
    for i in 0..n
        invariant
            n == candidates@.len(),
            cv == candidates_view(candidates@),
            langs == strings_view(languages@),
            inc == filter_patterns(*only),
            exc == filter_patterns(*exclude),
            registry.wf(),
            old(stats).files_considered + n <= usize::MAX,
            old(stats).files_skipped_size + n <= usize::MAX,
            ({
                let (js, considered, oversized) = admitted(*registry, root@, cv, langs, inc, exc, max_size, i as int);
                &&& jobs_view(jobs@) == js
                &&& stats.files_considered == old(stats).files_considered + considered
                &&& stats.files_skipped_size == old(stats).files_skipped_size + oversized
                &&& considered <= i
                &&& oversized <= i
            }),
            stats.files_scanned == old(stats).files_scanned,
            stats.files_from_cache == old(stats).files_from_cache,
            stats.files_with_parse_errors == old(stats).files_with_parse_errors,
            stats.files_summarized == old(stats).files_summarized,
            stats.summaries_from_cache == old(stats).summaries_from_cache,
            stats.baseline_suppressed == old(stats).baseline_suppressed,
            stats.duration_ms == old(stats).duration_ms,
    {
        let c = &candidates[i];
        assert(cv[i as int] == (c.path@, c.size));
        let ghost js_before = jobs_view(jobs@);
        match decide(root, c, registry, languages, only, exclude, max_size) {
            Decision::Skip => {}
            Decision::Oversize => {
                stats.files_considered = stats.files_considered + 1;
                stats.files_skipped_size = stats.files_skipped_size + 1;
            }
            Decision::Take(rel, lang_id) => {
                stats.files_considered = stats.files_considered + 1;
                jobs.push(Job { abs: c.path.clone(), rel, lang_id });
                assert(jobs_view(jobs@) =~= js_before.push((cv[i as int].0, jobs@.last().rel@, jobs@.last().lang_id@)));
            }
        }
    }
    jobs
}

/// The size limit in force: the scan's own, else the configuration's,
/// else the default.
pub fn effective_max_size(option: Option<u64>, configured: Option<u64>) -> (r: u64)
    ensures
        r == match option { Some(m) => m, None => match configured { Some(m) => m, None => DEFAULT_MAX_FILE_SIZE } },
{
    match option {
        Some(m) => m,
        None => match configured {
            Some(m) => m,
            None => DEFAULT_MAX_FILE_SIZE,
        },
    }
}

/// Configured globs followed by the scan's own.
pub fn merged_globs(configured: &Vec<String>, extra: &Vec<String>) -> (r: Vec<String>)
    ensures
        strings_view(r@) == strings_view(configured@) + strings_view(extra@),
{
    let mut v = copy_strings(configured);
    let n = extra.len();
    for i in 0..n
        invariant
            n == extra@.len(),
            strings_view(v@) == strings_view(configured@) + strings_view(extra@).take(i as int),
    {
        let ghost before = strings_view(v@);
        v.push(extra[i].clone());
        assert(strings_view(v@) =~= before.push(extra@[i as int]@));
        assert(strings_view(extra@).take(i + 1) =~= strings_view(extra@).take(i as int).push(extra@[i as int]@));
    }
    assert(strings_view(extra@).take(n as int) =~= strings_view(extra@));
    v
}

// ---------------------------------------------------------------------
// The summarize, link and evaluate phases
// ---------------------------------------------------------------------

/// One file after the summarize phase.
pub struct Prepared {
    pub rel: String,
    pub lang_id: String,
    pub content_hash: String,
    /// The file's summary artifact (absent when `error` is set).
    pub artifact: Option<FileSummaryArtifact>,
    /// The artifact came from the summary store.
    pub from_summary_cache: bool,
    /// Why the file could not be read or summarized.
    pub error: Option<String>,
}

/// Files summarized afresh, and files whose summaries were reused.
pub open spec fn summary_counts(ps: Seq<Prepared>) -> (nat, nat)
    decreases ps.len(),
{
    if ps.len() == 0 {
        (0, 0)
    } else {
        let (a, b) = summary_counts(ps.drop_last());
        let p = ps.last();
        (a + if p.error is None && !p.from_summary_cache { 1nat } else { 0nat },
         b + if p.from_summary_cache { 1nat } else { 0nat })
    }
}

/// Count the files summarized afresh and those reused from the store.
pub fn count_summaries(prepared: &Vec<Prepared>) -> (r: (usize, usize))
    ensures
        (r.0 as nat, r.1 as nat) == summary_counts(prepared@),
{
    let mut a: usize = 0;
    let mut b: usize = 0;
    let n = prepared.len();
    for i in 0..n
        invariant
            n == prepared@.len(),
            (a as nat, b as nat) == summary_counts(prepared@.take(i as int)),
            a <= i && b <= i,
    {
        assert(prepared@.take(i + 1).drop_last() =~= prepared@.take(i as int));
        if prepared[i].error.is_none() && !prepared[i].from_summary_cache {
            a = a + 1;
        }
        if prepared[i].from_summary_cache {
            b = b + 1;
        }
    }
    assert(prepared@.take(n as int) =~= prepared@);
    (a, b)
}

/// The per-file errors of the summarize phase, as `path: error`.
pub open spec fn phase_errors(ps: Seq<Prepared>) -> Seq<Seq<char>>
    decreases ps.len(),
{
    if ps.len() == 0 {
        Seq::empty()
    } else {
        let rest = phase_errors(ps.drop_last());
        match ps.last().error {
            Some(e) => rest.push(ps.last().rel@ + ": "@ + e@),
            None => rest,
        }
    }
}

/// The summarize phase's errors, in file order.
pub fn pipeline_errors(prepared: &Vec<Prepared>) -> (r: Vec<String>)
    ensures
        strings_view(r@) == phase_errors(prepared@),
{
    let mut out: Vec<String> = Vec::new();
    let n = prepared.len();
    for i in 0..n
        invariant
            n == prepared@.len(),
            strings_view(out@) == phase_errors(prepared@.take(i as int)),
    {
        assert(prepared@.take(i + 1).drop_last() =~= prepared@.take(i as int));
        let ghost before = strings_view(out@);
        match &prepared[i].error {
            Some(e) => {
                let mut m = prepared[i].rel.clone();
                m.append(": ");
                m.append(e.as_str());
                out.push(m);
                assert(strings_view(out@) =~= before.push(prepared@[i as int].rel@ + ": "@ + e@));
            }
            None => {}
        }
    }
    assert(prepared@.take(n as int) =~= prepared@);
    out
}

/// The module resolution configured for a language, if any.
pub open spec fn resolution_for(rs: Seq<(String, ModuleResolution)>, lang: Seq<char>) -> Option<ModuleResolution>
    decreases rs.len(),
{
    if rs.len() == 0 {
        None
    } else if rs[0].0@ == lang {
        Some(rs[0].1)
    } else {
        resolution_for(rs.drop_first(), lang)
    }
}

fn find_resolution(rs: &Vec<(String, ModuleResolution)>, lang: &str) -> (r: Option<ModuleResolution>)
    ensures
        match resolution_for(rs@, lang@) {
            Some(m) => r matches Some(x) && x.strategy@ == m.strategy@
                && strings_view(x.extensions@) == strings_view(m.extensions@)
                && strings_view(x.index_files@) == strings_view(m.index_files@),
            None => r is None,
        },
{
    let n = rs.len();
    let mut i: usize = 0;
    assert(rs@.skip(0) =~= rs@);
    while i < n
        invariant
            i <= n,
            n == rs@.len(),
            resolution_for(rs@, lang@) == resolution_for(rs@.skip(i as int), lang@),
        decreases n - i,
    {
        assert(rs@.skip(i as int)[0] == rs@[i as int]);
        if str_is(rs[i].0.as_str(), lang) {
            return Some(rs[i].1.duplicate());
        }
        assert(rs@.skip(i as int).drop_first() =~= rs@.skip(i + 1));
        i += 1;
    }
    None
}

/// The link-phase artifact of a summarized file: its path, summary hash,
/// bindings and per-rule summaries, and its language's module resolution.
pub open spec fn link_artifact_of(rel: Seq<char>, a: FileSummaryArtifact, res: Option<ModuleResolution>, f: FileArtifact) -> bool {
    &&& f.file@ == rel
    &&& f.summary_hash@ == a.summary_hash@
    &&& f.bindings == a.bindings
    &&& f.rules@.len() == a.rules@.len()
    &&& forall|k: int| 0 <= k < f.rules@.len() ==> (#[trigger] f.rules@[k]).0 == a.rules@[k].rule && f.rules@[k].1 == a.rules@[k].functions
    &&& match res {
        Some(m) => f.resolution matches Some(x) && x.strategy@ == m.strategy@
            && strings_view(x.extensions@) == strings_view(m.extensions@)
            && strings_view(x.index_files@) == strings_view(m.index_files@),
        None => f.resolution is None,
    }
}

/// The files that reach the link phase: those summarized without error.
pub open spec fn linkable(ps: Seq<Prepared>) -> Seq<Prepared>
    decreases ps.len(),
{
    if ps.len() == 0 {
        Seq::empty()
    } else {
        let rest = linkable(ps.drop_last());
        if ps.last().error is None && ps.last().artifact is Some { rest.push(ps.last()) } else { rest }
    }
}

/// Build the link phase's input from the summarized files, in order,
/// skipping those that failed.
pub fn link_artifacts(prepared: Vec<Prepared>, resolutions: &Vec<(String, ModuleResolution)>) -> (r: Vec<FileArtifact>)
    ensures
        r@.len() == linkable(prepared@).len(),
        forall|k: int| 0 <= k < r@.len() ==> {
            let p = #[trigger] linkable(prepared@)[k];
            link_artifact_of(p.rel@, p.artifact->0, resolution_for(resolutions@, p.lang_id@), r@[k])
        },
{
    let ghost ps = prepared@;
    let mut out: Vec<FileArtifact> = Vec::new();
    let mut rest = prepared;
    let mut taken: Vec<Prepared> = Vec::new();
    let n = rest.len();
    // Walk the list front to back by reversing it once.
    let mut rev: Vec<Prepared> = Vec::new();
    let mut k = n;
    while k > 0
        invariant
            k <= n,
            n == ps.len(),
            rest@ == ps.take(k as int),
            rev@.len() == n - k,
            forall|j: int| 0 <= j < rev@.len() ==> #[trigger] rev@[j] == ps[n - 1 - j],
        decreases k,
    {
        let p = rest.pop().unwrap();
        assert(ps.take(k as int).last() == ps[k - 1]);
        rev.push(p);
        assert(ps.take(k as int).drop_last() =~= ps.take(k - 1));
        k -= 1;
    }
    let mut i: usize = 0;
    while i < n
        invariant
            i <= n,
            n == ps.len(),
            rev@.len() == n - i,
            forall|j: int| 0 <= j < rev@.len() ==> #[trigger] rev@[j] == ps[n - 1 - j],
            out@.len() == linkable(ps.take(i as int)).len(),
            forall|j: int| 0 <= j < out@.len() ==> {
                let p = #[trigger] linkable(ps.take(i as int))[j];
                link_artifact_of(p.rel@, p.artifact->0, resolution_for(resolutions@, p.lang_id@), out@[j])
            },
        decreases n - i,
    {
        let p = rev.pop().unwrap();
        assert(p == ps[i as int]);
        assert(ps.take(i + 1).drop_last() =~= ps.take(i as int));
        assert(ps.take(i + 1).last() == ps[i as int]);
        let ghost prev = linkable(ps.take(i as int));
        if p.error.is_none() {
            match p.artifact {
                Some(a) => {
                    let ghost av = a;
                    let resolution = find_resolution(resolutions, p.lang_id.as_str());
                    let mut rules: Vec<(String, Vec<crate::summary::PortableFunctionSummary>)> = Vec::new();
                    let mut rs = a.rules;
                    let m = rs.len();
                    let mut rrev: Vec<RuleSummaries> = Vec::new();
                    let mut q = m;
                    while q > 0
                        invariant
                            q <= m,
                            m == av.rules@.len(),
                            rs@ == av.rules@.take(q as int),
                            rrev@.len() == m - q,
                            forall|j: int| 0 <= j < rrev@.len() ==> #[trigger] rrev@[j] == av.rules@[m - 1 - j],
                        decreases q,
                    {
                        let x = rs.pop().unwrap();
                        assert(av.rules@.take(q as int).last() == av.rules@[q - 1]);
                        rrev.push(x);
                        assert(av.rules@.take(q as int).drop_last() =~= av.rules@.take(q - 1));
                        q -= 1;
                    }
                    let mut t: usize = 0;
                    while t < m
                        invariant
                            t <= m,
                            m == av.rules@.len(),
                            rrev@.len() == m - t,
                            forall|j: int| 0 <= j < rrev@.len() ==> #[trigger] rrev@[j] == av.rules@[m - 1 - j],
                            rules@.len() == t,
                            forall|j: int| 0 <= j < t ==> (#[trigger] rules@[j]).0 == av.rules@[j].rule && rules@[j].1 == av.rules@[j].functions,
                        decreases m - t,
                    {
                        let x = rrev.pop().unwrap();
                        assert(x == av.rules@[t as int]);
                        rules.push((x.rule, x.functions));
                        t += 1;
                    }
                    let f = FileArtifact {
                        file: p.rel,
                        summary_hash: a.summary_hash,
                        bindings: a.bindings,
                        rules,
                        resolution,
                    };
                    out.push(f);
                    assert(linkable(ps.take(i + 1)) == prev.push(ps[i as int]));
                    assert forall|j: int| 0 <= j < out@.len() implies {
                        let pp = #[trigger] linkable(ps.take(i + 1))[j];
                        link_artifact_of(pp.rel@, pp.artifact->0, resolution_for(resolutions@, pp.lang_id@), out@[j])
                    } by {
                        if j < prev.len() {
                            assert(linkable(ps.take(i + 1))[j] == prev[j]);
                        }
                    }
                }
                None => {
                    assert(linkable(ps.take(i + 1)) == prev);
                }
            }
        } else {
            assert(linkable(ps.take(i + 1)) == prev);
        }
        i += 1;
    }
    assert(ps.take(n as int) =~= ps);
    out
}

/// A file's link fingerprint: the one the link recorded, or empty.
pub open spec fn link_fp_of(fps: Seq<(String, String)>, rel: Seq<char>) -> Seq<char>
    decreases fps.len(),
{
    if fps.len() == 0 {
        Seq::empty()
    } else if fps[0].0@ == rel {
        fps[0].1@
    } else {
        link_fp_of(fps.drop_first(), rel)
    }
}

/// Look up a file's link fingerprint (empty when it consults no other
/// file's summaries).
pub fn file_link_fp(link: &LinkResult, rel: &str) -> (r: String)
    ensures
        r@ == link_fp_of(link.link_fp@, rel@),
{
    let n = link.link_fp.len();
    let mut i: usize = 0;
    assert(link.link_fp@.skip(0) =~= link.link_fp@);
    while i < n
        invariant
            i <= n,
            n == link.link_fp@.len(),
            link_fp_of(link.link_fp@, rel@) == link_fp_of(link.link_fp@.skip(i as int), rel@),
        decreases n - i,
    {
        assert(link.link_fp@.skip(i as int)[0] == link.link_fp@[i as int]);
        if str_is(link.link_fp[i].0.as_str(), rel) {
            return link.link_fp[i].1.clone();
        }
        assert(link.link_fp@.skip(i as int).drop_first() =~= link.link_fp@.skip(i + 1));
        i += 1;
    }
    String::new()
}

/// A file's linked summaries, if the link gave it any.
pub open spec fn linked_of(ls: Seq<(String, FileLinked)>, rel: Seq<char>) -> Option<FileLinked>
    decreases ls.len(),
{
    if ls.len() == 0 {
        None
    } else if ls[0].0@ == rel {
        Some(ls[0].1)
    } else {
        linked_of(ls.drop_first(), rel)
    }
}

/// Look up a file's linked summaries.
pub fn file_linked<'a>(link: &'a LinkResult, rel: &str) -> (r: Option<&'a FileLinked>)
    ensures
        match linked_of(link.linked@, rel@) {
            Some(f) => r == Some(&f),
            None => r is None,
        },
{
    let n = link.linked.len();
    let mut i: usize = 0;
    assert(link.linked@.skip(0) =~= link.linked@);
    while i < n
        invariant
            i <= n,
            n == link.linked@.len(),
            linked_of(link.linked@, rel@) == linked_of(link.linked@.skip(i as int), rel@),
        decreases n - i,
    {
        assert(link.linked@.skip(i as int)[0] == link.linked@[i as int]);
        if str_is(link.linked[i].0.as_str(), rel) {
            return Some(&link.linked[i].1);
        }
        assert(link.linked@.skip(i as int).drop_first() =~= link.linked@.skip(i + 1));
        i += 1;
    }
    None
}

/// What the evaluate phase does with a summarized file.
pub enum Plan {
    /// Reuse the cached entry.
    Cached(CacheEntry),
    /// Evaluate afresh; the entry will carry this link fingerprint.
    Evaluate(String),
}

/// Reuse the cached findings when the cache holds an entry for the file
/// under its content hash and link fingerprint; evaluate otherwise.
pub fn plan_file(cache: &Cache, link: &LinkResult, rel: &str, content_hash: &str) -> (r: Plan)
    requires
        cache.wf(),
    ensures
        match cache.valid_entry(rel@, content_hash@, link_fp_of(link.link_fp@, rel@)) {
            Some(e) => r matches Plan::Cached(c) && c@ == e,
            None => r matches Plan::Evaluate(fp) && fp@ == link_fp_of(link.link_fp@, rel@),
        },
{
    let fp = file_link_fp(link, rel);
    match cache.lookup(rel, content_hash, fp.as_str()) {
        Some(e) => Plan::Cached(e.duplicate()),
        None => Plan::Evaluate(fp),
    }
}

/// How a file's entry was obtained.
pub enum EvalKind {
    Cached,
    Fresh,
}

/// Record the evaluate phase's entries: count cached and fresh files (and
/// fresh files with parse errors) and store each entry in the cache.
pub fn record_entries(entries: Vec<(String, CacheEntry, EvalKind, bool)>, cache: &mut Cache, stats: &mut ScanStats)
    requires
        old(cache).wf(),
        old(stats).files_from_cache + entries@.len() <= usize::MAX,
        old(stats).files_scanned + entries@.len() <= usize::MAX,
        old(stats).files_with_parse_errors + entries@.len() <= usize::MAX,
    ensures
        final(cache).wf(),
        final(cache).rules_hash == old(cache).rules_hash,
        final(stats).files_from_cache == old(stats).files_from_cache + entries@.filter(|e: (String, CacheEntry, EvalKind, bool)| e.2 is Cached).len(),
        final(stats).files_scanned == old(stats).files_scanned + entries@.filter(|e: (String, CacheEntry, EvalKind, bool)| e.2 is Fresh).len(),
        final(stats).files_with_parse_errors == old(stats).files_with_parse_errors
            + entries@.filter(|e: (String, CacheEntry, EvalKind, bool)| e.2 is Fresh && e.3).len(),
        forall|k: int| 0 <= k < entries@.len() && (forall|j: int| k < j < entries@.len() ==> #[trigger] entries@[j].0@ != entries@[k].0@)
            ==> #[trigger] final(cache).entry(entries@[k].0@) == Some(entries@[k].1@),
        forall|p: Seq<char>| (forall|k: int| 0 <= k < entries@.len() ==> #[trigger] entries@[k].0@ != p)
            ==> #[trigger] final(cache).entry(p) == old(cache).entry(p),
        final(stats).files_considered == old(stats).files_considered,
        final(stats).files_skipped_size == old(stats).files_skipped_size,
        final(stats).files_summarized == old(stats).files_summarized,
        final(stats).summaries_from_cache == old(stats).summaries_from_cache,
        final(stats).baseline_suppressed == old(stats).baseline_suppressed,
        final(stats).duration_ms == old(stats).duration_ms,
{
    let ghost es = entries@;
    let ghost fc = |e: (String, CacheEntry, EvalKind, bool)| e.2 is Cached;
    let ghost ff = |e: (String, CacheEntry, EvalKind, bool)| e.2 is Fresh;
    let ghost fe = |e: (String, CacheEntry, EvalKind, bool)| e.2 is Fresh && e.3;
    let n = entries.len();
    let mut rest = entries;
    let mut rev: Vec<(String, CacheEntry, EvalKind, bool)> = Vec::new();
    let mut k = n;
    while k > 0
        invariant
            k <= n,
            n == es.len(),
            rest@ == es.take(k as int),
            rev@.len() == n - k,
            forall|j: int| 0 <= j < rev@.len() ==> #[trigger] rev@[j] == es[n - 1 - j],
        decreases k,
    {
        let e = rest.pop().unwrap();
        assert(es.take(k as int).last() == es[k - 1]);
        rev.push(e);
        assert(es.take(k as int).drop_last() =~= es.take(k - 1));
        k -= 1;
    }
    let mut i: usize = 0;
    while i < n
        invariant
            i <= n,
            n == es.len(),
            rev@.len() == n - i,
            forall|j: int| 0 <= j < rev@.len() ==> #[trigger] rev@[j] == es[n - 1 - j],
            cache.wf(),
            cache.rules_hash == old(cache).rules_hash,
            old(stats).files_from_cache + n <= usize::MAX,
            old(stats).files_scanned + n <= usize::MAX,
            old(stats).files_with_parse_errors + n <= usize::MAX,
            stats.files_from_cache == old(stats).files_from_cache + es.take(i as int).filter(fc).len(),
            stats.files_scanned == old(stats).files_scanned + es.take(i as int).filter(ff).len(),
            stats.files_with_parse_errors == old(stats).files_with_parse_errors + es.take(i as int).filter(fe).len(),
            es.take(i as int).filter(fc).len() <= i,
            fc == (|e: (String, CacheEntry, EvalKind, bool)| e.2 is Cached),
            ff == (|e: (String, CacheEntry, EvalKind, bool)| e.2 is Fresh),
            fe == (|e: (String, CacheEntry, EvalKind, bool)| e.2 is Fresh && e.3),
            es.take(i as int).filter(ff).len() <= i,
            es.take(i as int).filter(fe).len() <= i,
            forall|q: int| 0 <= q < i && (forall|j: int| q < j < i ==> #[trigger] es[j].0@ != es[q].0@)
                ==> #[trigger] cache.entry(es[q].0@) == Some(es[q].1@),
            forall|p: Seq<char>| (forall|q: int| 0 <= q < i ==> #[trigger] es[q].0@ != p)
                ==> #[trigger] cache.entry(p) == old(cache).entry(p),
            stats.files_considered == old(stats).files_considered,
            stats.files_skipped_size == old(stats).files_skipped_size,
            stats.files_summarized == old(stats).files_summarized,
            stats.summaries_from_cache == old(stats).summaries_from_cache,
            stats.baseline_suppressed == old(stats).baseline_suppressed,
            stats.duration_ms == old(stats).duration_ms,
        decreases n - i,
    {
        let (rel, entry, kind, had_errors) = rev.pop().unwrap();
        let ghost e = es[i as int];
        assert(es.take(i + 1).drop_last() =~= es.take(i as int));
        assert(es.take(i + 1).last() == e);
        proof {
            es.take(i + 1).lemma_filter_len(fc);
            es.take(i + 1).lemma_filter_len(ff);
            es.take(i + 1).lemma_filter_len(fe);
            es.take(i as int).lemma_filter_push(e, fc);
            es.take(i as int).lemma_filter_push(e, ff);
            es.take(i as int).lemma_filter_push(e, fe);
        }
        assert(es.take(i as int).push(e) =~= es.take(i + 1));
        match kind {
            EvalKind::Cached => {
                stats.files_from_cache = stats.files_from_cache + 1;
            }
            EvalKind::Fresh => {
                stats.files_scanned = stats.files_scanned + 1;
                if had_errors {
                    stats.files_with_parse_errors = stats.files_with_parse_errors + 1;
                }
            }
        }
        let ghost before = *cache;
        let ghost key = rel@;
        cache.insert(rel, entry);
        assert forall|q: int| 0 <= q < i + 1 && (forall|j: int| q < j < i + 1 ==> #[trigger] es[j].0@ != es[q].0@)
            implies #[trigger] cache.entry(es[q].0@) == Some(es[q].1@) by {
            if q < i {
                assert(es[i as int].0@ != es[q].0@);
            }
        }
        assert forall|p: Seq<char>| (forall|q: int| 0 <= q < i + 1 ==> #[trigger] es[q].0@ != p)
            implies #[trigger] cache.entry(p) == old(cache).entry(p) by {
            assert(es[i as int].0@ != p);
        }
        i += 1;
    }
    assert(es.take(n as int) =~= es);
}

// ---------------------------------------------------------------------
// Collecting findings
// ---------------------------------------------------------------------

/// The findings a scan reports before the baseline: those cached for the
/// files scanned this time, in cache order, restricted to the rule filter
/// when one is given.
pub open spec fn collected(files: Seq<(String, CacheEntry)>, scanned: Seq<Seq<char>>, rules: Seq<Seq<char>>) -> Seq<FindingView>
    decreases files.len(),
{
    if files.len() == 0 {
        Seq::empty()
    } else {
        let rest = collected(files.drop_last(), scanned, rules);
        let e = files.last();
        if scanned.contains(e.0@) {
            rest + views(e.1.findings@).filter(|f: FindingView| rules.len() == 0 || rules.contains(f.rule_id))
        } else {
            rest
        }
    }
}

pub open spec fn job_rels(js: Seq<Job>) -> Seq<Seq<char>> {
    js.map_values(|j: Job| j.rel@)
}

/// Gather the cached findings of the files scanned, keeping the rules
/// asked for.
pub fn collect_findings(cache: &Cache, jobs: &Vec<Job>, rule_filter: &Vec<String>) -> (r: Vec<Finding>)
    ensures
        views(r@) == collected(cache.files@, job_rels(jobs@), strings_view(rule_filter@)),
{
    let ghost rules = strings_view(rule_filter@);
    let ghost keep = |f: FindingView| rules.len() == 0 || rules.contains(f.rule_id);
    let mut rels: Vec<String> = Vec::new();
    let m = jobs.len();
    for j in 0..m
        invariant
            m == jobs@.len(),
            strings_view(rels@) == job_rels(jobs@).take(j as int),
    {
        let ghost before = strings_view(rels@);
        rels.push(jobs[j].rel.clone());
        assert(strings_view(rels@) =~= before.push(jobs@[j as int].rel@));
        assert(job_rels(jobs@).take(j + 1) =~= job_rels(jobs@).take(j as int).push(jobs@[j as int].rel@));
    }
    assert(job_rels(jobs@).take(m as int) =~= job_rels(jobs@));
    let mut out: Vec<Finding> = Vec::new();
    let n = cache.files.len();
    for i in 0..n
        invariant
            n == cache.files@.len(),
            strings_view(rels@) == job_rels(jobs@),
            rules == strings_view(rule_filter@),
            keep == (|f: FindingView| rules.len() == 0 || rules.contains(f.rule_id)),
            views(out@) == collected(cache.files@.take(i as int), job_rels(jobs@), rules),
    {
        assert(cache.files@.take(i + 1).drop_last() =~= cache.files@.take(i as int));
        let e = &cache.files[i];
        if contains_str(&rels, e.0.as_str()) {
            let fs = &e.1.findings;
            let ghost fv = views(fs@);
            let ghost base = views(out@);
            let k = fs.len();
            for t in 0..k
                invariant
                    k == fs@.len(),
                    fv == views(fs@),
                    keep == (|f: FindingView| rules.len() == 0 || rules.contains(f.rule_id)),
                    rules == strings_view(rule_filter@),
                    views(out@) == base + fv.take(t as int).filter(keep),
            {
                proof { fv.take(t as int).lemma_filter_push(fv[t as int], keep); }
                assert(fv.take(t + 1) =~= fv.take(t as int).push(fv[t as int]));
                let f = &fs[t];
                let wanted = rule_filter.len() == 0 || contains_str(rule_filter, f.rule_id.as_str());
                if wanted {
                    let ghost b2 = views(out@);
                    out.push(f.duplicate());
                    assert(views(out@) =~= b2.push(fv[t as int]));
                    assert(views(out@) =~= base + fv.take(t + 1).filter(keep));
                } else {
                    assert(views(out@) =~= base + fv.take(t + 1).filter(keep));
                }
            }
            assert(fv.take(k as int) =~= fv);
        }
    }
    assert(cache.files@.take(n as int) =~= cache.files@);
    out
}

/// Drop the findings the baseline holds, returning the rest and how many
/// were dropped.
pub fn apply_baseline(findings: Vec<Finding>, baseline: &Baseline) -> (r: (Vec<Finding>, usize))
    ensures
        views(r.0@) == views(findings@).filter(|f: FindingView| !baseline.held().contains(f.fingerprint)),
        r.1 == findings@.len() - r.0@.len(),
{
    let ghost fv = views(findings@);
    let ghost keep = |f: FindingView| !baseline.held().contains(f.fingerprint);
    let mut out: Vec<Finding> = Vec::new();
    let n = findings.len();
    for i in 0..n
        invariant
            n == findings@.len(),
            fv == views(findings@),
            keep == (|f: FindingView| !baseline.held().contains(f.fingerprint)),
            views(out@) == fv.take(i as int).filter(keep),
            out@.len() <= i,
    {
        proof { fv.take(i as int).lemma_filter_push(fv[i as int], keep); }
        assert(fv.take(i + 1) =~= fv.take(i as int).push(fv[i as int]));
        if !baseline.contains(findings[i].fingerprint.as_str()) {
            let ghost b = views(out@);
            out.push(findings[i].duplicate());
            assert(views(out@) =~= b.push(fv[i as int]));
        }
        proof { fv.take(i + 1).lemma_filter_len(keep); }
    }
    assert(fv.take(n as int) =~= fv);
    let suppressed = n - out.len();
    (out, suppressed)
}

/// The findings of a scan in report order: collected for the scanned
/// files and rule filter, without those in the baseline (when one is
/// compared), most severe first.
pub fn finish_findings(cache: &Cache, jobs: &Vec<Job>, rule_filter: &Vec<String>, baseline: Option<&Baseline>, stats: &mut ScanStats) -> (r: Vec<Finding>)
    ensures
        match baseline {
            Some(b) => views(r@) == ssort_by(collected(cache.files@, job_rels(jobs@), strings_view(rule_filter@))
                    .filter(|f: FindingView| !b.held().contains(f.fingerprint)), report_order())
                && final(stats).baseline_suppressed == collected(cache.files@, job_rels(jobs@), strings_view(rule_filter@)).len()
                    - collected(cache.files@, job_rels(jobs@), strings_view(rule_filter@)).filter(|f: FindingView| !b.held().contains(f.fingerprint)).len(),
            None => views(r@) == ssort_by(collected(cache.files@, job_rels(jobs@), strings_view(rule_filter@)), report_order())
                && final(stats).baseline_suppressed == old(stats).baseline_suppressed,
        },
        final(stats).files_considered == old(stats).files_considered,
        final(stats).files_scanned == old(stats).files_scanned,
        final(stats).files_from_cache == old(stats).files_from_cache,
        final(stats).files_skipped_size == old(stats).files_skipped_size,
        final(stats).files_with_parse_errors == old(stats).files_with_parse_errors,
        final(stats).files_summarized == old(stats).files_summarized,
        final(stats).summaries_from_cache == old(stats).summaries_from_cache,
        final(stats).duration_ms == old(stats).duration_ms,
{
    let findings = collect_findings(cache, jobs, rule_filter);
    let kept = match baseline {
        Some(b) => {
            let (kept, suppressed) = apply_baseline(findings, b);
            proof { views(findings@).lemma_filter_len(|f: FindingView| !b.held().contains(f.fingerprint)); }
            stats.baseline_suppressed = suppressed;
            kept
        }
        None => findings,
    };
    sort_findings(kept)
}

/// Should the process exit non-zero, given a threshold? Only when some
/// finding is at least as severe as the threshold.
pub fn exceeds_threshold(findings: &Vec<Finding>, fail_on: Option<Severity>) -> (r: bool)
    ensures
        r == match fail_on {
            Some(t) => exists|i: int| 0 <= i < findings@.len() && (#[trigger] findings@[i]).severity.level() >= t.level(),
            None => false,
        },
{
    match fail_on {
        Some(t) => {
            let n = findings.len();
            for i in 0..n
                invariant
                    n == findings@.len(),
                    fail_on == Some(t),
                    forall|j: int| 0 <= j < i ==> (#[trigger] findings@[j]).severity.level() < t.level(),
            {
                if findings[i].severity.at_least(&t) {
                    assert(findings@[i as int].severity.level() >= t.level());
                    return true;
                }
            }
            false
        }
        None => false,
    }
}

} // verus!
