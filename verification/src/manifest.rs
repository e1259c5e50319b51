//! The project files `ogham.mod.yaml` and `ogham.gen.yaml`, as data.
//!
//! Reading and decoding the YAML happens at the program's edge; the library
//! holds what the files say.

use vstd::prelude::*;
use std::collections::HashMap;

verus! {

// ── ogham.mod.yaml ─────────────────────────────────────────────────────

/// Module manifest: who the module is, its dependencies, and how its plugin is built.
#[derive(Debug)]
pub struct ModFile {
    pub module: String,
    pub version: String,
    pub ogham: String,
    pub description: String,
    pub license: String,
    pub require: HashMap<String, RequireEntry>,
    pub replace: HashMap<String, ReplaceEntry>,
    pub plugin: Option<PluginSection>,
    pub breaking: Option<BreakingSection>,
}

impl Default for ModFile {
    fn default() -> (r: Self)
        ensures
            r.module@.len() == 0,
            r.version@.len() == 0,
            r.ogham@.len() == 0,
            r.description@.len() == 0,
            r.license@.len() == 0,
            r.require@.len() == 0,
            r.replace@.len() == 0,
            r.plugin is None,
            r.breaking is None,
    {
        ModFile {
            module: String::new(),
            version: String::new(),
            ogham: String::new(),
            description: String::new(),
            license: String::new(),
            require: HashMap::new(),
            replace: HashMap::new(),
            plugin: None,
            breaking: None,
        }
    }
}

/// Breaking-change detection settings.
#[derive(Debug, Clone)]
pub struct BreakingSection {
    /// What to compare against: `git:main`, `git:v1.0.0`, `./path/`.
    pub against: String,
    /// `off`, `warn` or `error`; `warn` where the file says nothing.
    pub policy: String,
}

/// The policy used where the file names none.
pub fn default_breaking_policy() -> (r: String)
    ensures
        r@ == "warn"@,
{
    "warn".to_owned()
}

/// A dependency: a version requirement, or a detailed source.
#[derive(Debug, Clone)]
pub enum RequireEntry {
    /// A version range such as `^1.0.0`.
    Version(String),
    /// A git dependency.
    Git { git: String, tag: Option<String>, branch: Option<String>, rev: Option<String> },
    /// A local path dependency.
    Path { path: String },
}

/// An override of a dependency by a local path or a git fork.
#[derive(Debug, Clone)]
pub enum ReplaceEntry {
    Path { path: String },
    Git { git: String, branch: Option<String> },
}

/// How a module's plugin is built.
#[derive(Debug, Clone)]
pub struct PluginSection {
    pub build: String,
}

// ── ogham.gen.yaml ─────────────────────────────────────────────────────

/// Generation settings: which plugins to run, and where their output goes.
#[derive(Debug)]
pub struct GenFile {
    pub generate: GenerateSection,
}

impl Default for GenFile {
    fn default() -> (r: Self)
        ensures
            r.generate.plugins@.len() == 0,
    {
        GenFile { generate: GenerateSection::default() }
    }
}

#[derive(Debug)]
pub struct GenerateSection {
    pub plugins: Vec<PluginEntry>,
}

impl Default for GenerateSection {
    fn default() -> (r: Self)
        ensures
            r.plugins@.len() == 0,
    {
        GenerateSection { plugins: Vec::new() }
    }
}

/// One plugin to run.
#[derive(Debug, Clone)]
pub struct PluginEntry {
    /// Module path from `require`, such as `github.com/org/go`.
    pub name: Option<String>,
    /// Path of a plugin binary.
    pub path: Option<String>,
    /// gRPC address, in place of standard input and output.
    pub grpc: Option<String>,
    /// Output directory of the generated files.
    pub out: String,
    /// Options handed to the plugin.
    pub opts: HashMap<String, String>,
}

} // verus!
