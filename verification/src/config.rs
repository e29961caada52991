//! Project configuration (`crit.toml` at the scan root, or given
//! explicitly): everything is optional and command-line flags take
//! precedence. Reading and parsing the file is the caller's part.

use vstd::prelude::*;
use crate::languages::GrammarConfig;
use crate::paths::strings_view;

verus! {

/// The `[scan]` table.
pub struct ScanConfig {
    /// Additional rule directories (relative to the configuration file).
    pub rules: Vec<String>,
    /// Disable the built-in rule packs entirely.
    pub no_default_rules: bool,
    /// Globs to exclude, in addition to the ignore files.
    pub exclude: Vec<String>,
    /// If non-empty, only paths matching one of these globs are scanned
    /// (the table's `include` key).
    pub only: Vec<String>,
    /// Severity threshold for a non-zero exit code (`never` to disable).
    pub fail_on: Option<String>,
    /// Maximum file size in bytes (larger files are skipped).
    pub max_file_size: Option<u64>,
    /// Rule ids to disable.
    pub disable_rules: Vec<String>,
}

impl Default for ScanConfig {
    fn default() -> (r: ScanConfig)
        ensures
            r.rules@.len() == 0 && !r.no_default_rules && r.exclude@.len() == 0 && r.only@.len() == 0
                && r.fail_on is None && r.max_file_size is None && r.disable_rules@.len() == 0,
    {
        ScanConfig {
            rules: Vec::new(),
            no_default_rules: false,
            exclude: Vec::new(),
            only: Vec::new(),
            fail_on: None,
            max_file_size: None,
            disable_rules: Vec::new(),
        }
    }
}

/// The whole configuration.
pub struct Config {
    pub scan: ScanConfig,
    /// Externally loaded tree-sitter grammars.
    pub grammars: Vec<GrammarConfig>,
    /// Extension to language id overrides, e.g. `inc = "pascal"`, in key
    /// order.
    pub extensions: Vec<(String, String)>,
}

impl Default for Config {
    fn default() -> (r: Config)
        ensures
            r.scan.rules@.len() == 0 && !r.scan.no_default_rules && r.scan.exclude@.len() == 0 && r.scan.only@.len() == 0
                && r.scan.fail_on is None && r.scan.max_file_size is None && r.scan.disable_rules@.len() == 0,
            r.grammars@.len() == 0,
            r.extensions@.len() == 0,
    {
        Config { scan: ScanConfig::default(), grammars: Vec::new(), extensions: Vec::new() }
    }
}

/// The severity threshold asked for: the flag's, else the
/// configuration's, else `high`.
pub open spec fn fail_on_text(flag: Option<Seq<char>>, configured: Option<Seq<char>>) -> Seq<char> {
    match flag {
        Some(f) => f,
        None => match configured { Some(c) => c, None => "high"@ },
    }
}

/// Parse a failure threshold: `never` (any case) disables it; otherwise a
/// severity name (any case) is required.
pub fn parse_fail_on(flag: &Option<String>, configured: &Option<String>) -> (r: Result<Option<crate::findings::Severity>, String>)
    ensures
        ({
            let v = fail_on_text(crate::state::opt_view(*flag), crate::state::opt_view(*configured));
            if crate::text::lower_seq(v) == "never"@ {
                r == Ok::<Option<crate::findings::Severity>, String>(None)
            } else {
                match crate::findings::Severity::from_lower(crate::text::lower_seq(v)) {
                    Some(s) => r == Ok::<Option<crate::findings::Severity>, String>(Some(s)),
                    None => r matches Err(m) && m@ == "invalid --fail-on `"@ + v + "`"@,
                }
            }
        }),
{
    let v: &str = match flag {
        Some(f) => f.as_str(),
        None => match configured {
            Some(c) => c.as_str(),
            None => "high",
        },
    };
    let low = crate::text::string_of(crate::text::to_ascii_lower(v).as_slice());
    if crate::text::str_is(low.as_str(), "never") {
        return Ok(None);
    }
    match crate::findings::Severity::parse(v) {
        Some(s) => Ok(Some(s)),
        None => {
            let mut m = "invalid --fail-on `".to_owned();
            m.append(v);
            m.append("`");
            Err(m)
        }
    }
}

} // verus!
