//! What a command's completions are made of: its subcommands and options, each with a line
//! that says what it does. A command's spec is data, written once, and the completer walks it.

use vstd::prelude::*;

verus! {

/// An option, under every name it is spelled with.
#[derive(Debug, Clone)]
pub struct OptionSpec {
    pub names: Vec<&'static str>,
    pub description: &'static str,
}

/// A subcommand, with its own subcommands and options.
#[derive(Debug)]
pub struct SubcommandSpec {
    pub name: &'static str,
    pub description: &'static str,
    pub subcommands: Vec<SubcommandSpec>,
    pub options: Vec<OptionSpec>,
}

/// A command's completion spec.
#[derive(Debug)]
pub struct CommandSpec {
    pub name: &'static str,
    pub description: &'static str,
    pub subcommands: Vec<SubcommandSpec>,
    pub options: Vec<OptionSpec>,
}

/// An option as its names and its description.
#[verifier::ext_equal]
pub struct OptionView {
    pub names: Seq<Seq<char>>,
    pub description: Seq<char>,
}

/// A subcommand as text, one level deep: the specs written here nest no further.
#[verifier::ext_equal]
pub struct SubcommandView {
    pub name: Seq<char>,
    pub description: Seq<char>,
    pub subcommands: Seq<Seq<char>>,
    pub options: Seq<OptionView>,
}

/// A command as text.
#[verifier::ext_equal]
pub struct CommandView {
    pub name: Seq<char>,
    pub description: Seq<char>,
    pub subcommands: Seq<SubcommandView>,
    pub options: Seq<OptionView>,
}

pub open spec fn option_view(o: OptionSpec) -> OptionView {
    OptionView { names: o.names@.map_values(|n: &str| n@), description: o.description@ }
}

pub open spec fn subcommand_view(s: SubcommandSpec) -> SubcommandView {
    SubcommandView {
        name: s.name@,
        description: s.description@,
        subcommands: s.subcommands@.map_values(|c: SubcommandSpec| c.name@),
        options: s.options@.map_values(|o: OptionSpec| option_view(o)),
    }
}

pub open spec fn command_view(c: CommandSpec) -> CommandView {
    CommandView {
        name: c.name@,
        description: c.description@,
        subcommands: c.subcommands@.map_values(|s: SubcommandSpec| subcommand_view(s)),
        options: c.options@.map_values(|o: OptionSpec| option_view(o)),
    }
}

/// `cargo`: the commands of the Rust build tool that are run daily, and its two global options.
pub open spec fn cargo_view() -> CommandView {
    CommandView {
        name: "cargo"@,
        description: "Rust package manager and build tool"@,
        subcommands: seq![
        SubcommandView { name: "build"@, description: "Compile the current package"@, subcommands: seq![], options: seq![OptionView { names: seq!["--release"@], description: "Build artifacts in release mode, with optimizations"@ }, OptionView { names: seq!["--target"@], description: "Build for the target architecture"@ }, OptionView { names: seq!["--bin"@], description: "Build only the specified binary"@ }, OptionView { names: seq!["--example"@], description: "Build only the specified example"@ }, OptionView { names: seq!["--tests"@], description: "Build all tests"@ }] },
        SubcommandView { name: "run"@, description: "Run a binary or example of the local package"@, subcommands: seq![], options: seq![OptionView { names: seq!["--release"@], description: "Build artifacts in release mode"@ }, OptionView { names: seq!["--bin"@], description: "Run the specified binary"@ }, OptionView { names: seq!["--example"@], description: "Run the specified example"@ }] },
        SubcommandView { name: "test"@, description: "Execute all unit and integration tests"@, subcommands: seq![], options: seq![OptionView { names: seq!["--release"@], description: "Build artifacts in release mode"@ }, OptionView { names: seq!["--test"@], description: "Test only the specified test target"@ }, OptionView { names: seq!["--doc"@], description: "Test only this library's documentation"@ }, OptionView { names: seq!["--nocapture"@], description: "Do not capture stdout during test execution"@ }] },
        SubcommandView { name: "check"@, description: "Analyze the current package and report errors"@, subcommands: seq![], options: seq![OptionView { names: seq!["--release"@], description: "Check artifacts in release mode"@ }, OptionView { names: seq!["--all-targets"@], description: "Check all targets"@ }] },
        SubcommandView { name: "clean"@, description: "Remove artifacts that cargo has generated"@, subcommands: seq![], options: seq![OptionView { names: seq!["-p"@, "--package"@], description: "Package to clean artifacts for"@ }] },
        SubcommandView { name: "update"@, description: "Update dependencies listed in Cargo.lock"@, subcommands: seq![], options: seq![OptionView { names: seq!["-p"@, "--package"@], description: "Package to update"@ }, OptionView { names: seq!["--dry-run"@], description: "Don't actually write Cargo.lock"@ }] },
        SubcommandView { name: "fmt"@, description: "Format all binaries and libraries of the project"@, subcommands: seq![], options: seq![OptionView { names: seq!["--check"@], description: "Run in check mode, exiting with 1 if unformatted"@ }, OptionView { names: seq!["--all"@], description: "Format all packages in the workspace"@ }] },
        SubcommandView { name: "clippy"@, description: "Lint the codebase using rust-clippy"@, subcommands: seq![], options: seq![OptionView { names: seq!["--all-targets"@], description: "Lint all targets"@ }, OptionView { names: seq!["--fix"@], description: "Automatically apply clippy suggestions"@ }] }
        ],
        options: seq![OptionView { names: seq!["--version"@], description: "Show version info"@ }, OptionView { names: seq!["--help"@], description: "Show help manual"@ }],
    }
}

/// The completion spec for `cargo`.
pub fn cargo() -> (s: CommandSpec)
    ensures
        command_view(s) =~~= cargo_view(),
{
    CommandSpec {
        name: "cargo",
        description: "Rust package manager and build tool",
        subcommands: vec![
            SubcommandSpec { name: "build", description: "Compile the current package", subcommands: vec![], options: vec![OptionSpec { names: vec!["--release"], description: "Build artifacts in release mode, with optimizations" }, OptionSpec { names: vec!["--target"], description: "Build for the target architecture" }, OptionSpec { names: vec!["--bin"], description: "Build only the specified binary" }, OptionSpec { names: vec!["--example"], description: "Build only the specified example" }, OptionSpec { names: vec!["--tests"], description: "Build all tests" }] },
            SubcommandSpec { name: "run", description: "Run a binary or example of the local package", subcommands: vec![], options: vec![OptionSpec { names: vec!["--release"], description: "Build artifacts in release mode" }, OptionSpec { names: vec!["--bin"], description: "Run the specified binary" }, OptionSpec { names: vec!["--example"], description: "Run the specified example" }] },
            SubcommandSpec { name: "test", description: "Execute all unit and integration tests", subcommands: vec![], options: vec![OptionSpec { names: vec!["--release"], description: "Build artifacts in release mode" }, OptionSpec { names: vec!["--test"], description: "Test only the specified test target" }, OptionSpec { names: vec!["--doc"], description: "Test only this library's documentation" }, OptionSpec { names: vec!["--nocapture"], description: "Do not capture stdout during test execution" }] },
            SubcommandSpec { name: "check", description: "Analyze the current package and report errors", subcommands: vec![], options: vec![OptionSpec { names: vec!["--release"], description: "Check artifacts in release mode" }, OptionSpec { names: vec!["--all-targets"], description: "Check all targets" }] },
            SubcommandSpec { name: "clean", description: "Remove artifacts that cargo has generated", subcommands: vec![], options: vec![OptionSpec { names: vec!["-p", "--package"], description: "Package to clean artifacts for" }] },
            SubcommandSpec { name: "update", description: "Update dependencies listed in Cargo.lock", subcommands: vec![], options: vec![OptionSpec { names: vec!["-p", "--package"], description: "Package to update" }, OptionSpec { names: vec!["--dry-run"], description: "Don't actually write Cargo.lock" }] },
            SubcommandSpec { name: "fmt", description: "Format all binaries and libraries of the project", subcommands: vec![], options: vec![OptionSpec { names: vec!["--check"], description: "Run in check mode, exiting with 1 if unformatted" }, OptionSpec { names: vec!["--all"], description: "Format all packages in the workspace" }] },
            SubcommandSpec { name: "clippy", description: "Lint the codebase using rust-clippy", subcommands: vec![], options: vec![OptionSpec { names: vec!["--all-targets"], description: "Lint all targets" }, OptionSpec { names: vec!["--fix"], description: "Automatically apply clippy suggestions" }] }
        ],
        options: vec![OptionSpec { names: vec!["--version"], description: "Show version info" }, OptionSpec { names: vec!["--help"], description: "Show help manual" }],
    }
}

} // verus!
