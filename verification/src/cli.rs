//! The command line of the toolchain, as plain values: what each command
//! is asked to do.

use vstd::prelude::*;

verus! {

/// The command line: one command.
pub struct Cli {
    pub command: Commands,
}

/// The commands of the toolchain.
pub enum Commands {
    /// Generate code from schemas with the plugins of `ogham.gen.yaml`.
    Generate(GenerateArgs),
    /// Validate schemas: compile without running plugins.
    Check(CheckArgs),
    /// Detect breaking changes against a reference.
    Breaking(BreakingArgs),
    /// Dump the compiled IR as JSON.
    Dump(DumpArgs),
    /// Add a dependency to `ogham.mod.yaml`.
    Get(GetArgs),
    /// Install all dependencies of the project.
    Install,
    /// Update dependency versions.
    Update,
    /// Copy dependencies into `vendor/`.
    Vendor,
}

pub struct CheckArgs {
    /// The project root directory.
    pub dir: String,
}

pub struct GenerateArgs {
    /// Run only this plugin.
    pub plugin: Option<String>,
    /// The project root directory.
    pub dir: String,
    /// Skip the breaking-change check even where `ogham.mod.yaml` asks for it.
    pub skip_breaking: bool,
}

pub struct BreakingArgs {
    /// The reference to compare against: `git:<ref>` or a path.
    pub against: String,
    /// Only errors block; warnings and infos are logged.
    pub allow: bool,
    /// Nothing blocks; everything is logged.
    pub force: bool,
}

pub struct DumpArgs {
    /// The project root directory.
    pub dir: String,
    /// The output file; standard output where absent.
    pub output: Option<String>,
}

pub struct GetArgs {
    /// The dependency to add, such as `github.com/org/database@2.1.0`.
    pub dependency: String,
}

} // verus!
