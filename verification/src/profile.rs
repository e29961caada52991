//! Taint profiles: per-language mappings from grammar node kinds to the
//! syntax concepts the taint engine needs (assignments, functions,
//! parameters, calls, returns, identifiers), and how module references map
//! to files.

use vstd::prelude::*;

verus! {

/// A tree-sitter query with expected captures, uncompiled.
#[derive(Debug)]
pub struct ProfileQuery {
    pub query: String,
}

/// Uncompiled taint profile as authored.
///
/// Capture conventions: `assignments` use `@lhs`/`@rhs`; `functions`
/// `@function` and optionally `@name`; `params` `@param`; `calls` `@call`,
/// `@callee`, `@args`; `returns` `@value`. The optional binding sections:
/// `member_access` `@access`; `method_calls` `@call`, `@receiver`,
/// `@method`, `@args`; `imports` `@module`, `@name`, optional `@alias`;
/// `exports` `@name`.
#[derive(Debug)]
pub struct TaintProfileSpec {
    /// Node kinds that represent variable references.
    pub identifiers: Vec<String>,
    pub assignments: Vec<ProfileQuery>,
    pub functions: Vec<ProfileQuery>,
    pub params: Vec<ProfileQuery>,
    pub calls: Vec<ProfileQuery>,
    pub returns: Vec<ProfileQuery>,
    pub member_access: Vec<ProfileQuery>,
    pub method_calls: Vec<ProfileQuery>,
    pub imports: Vec<ProfileQuery>,
    pub exports: Vec<ProfileQuery>,
    pub module_resolution: Option<ModuleResolution>,
}

/// How a module reference maps to files: `path` resolves relative file
/// paths; `symbol` matches a declared module or namespace name.
#[derive(Debug)]
pub struct ModuleResolution {
    pub strategy: String,
    pub extensions: Vec<String>,
    pub index_files: Vec<String>,
}

impl ModuleResolution {
    pub fn duplicate(&self) -> (r: ModuleResolution)
        ensures
            r.strategy@ == self.strategy@,
            crate::paths::strings_view(r.extensions@) == crate::paths::strings_view(self.extensions@),
            crate::paths::strings_view(r.index_files@) == crate::paths::strings_view(self.index_files@),
    {
        ModuleResolution {
            strategy: self.strategy.clone(),
            extensions: crate::paths::copy_strings(&self.extensions),
            index_files: crate::paths::copy_strings(&self.index_files),
        }
    }
}

} // verus!
