//! The options of the `cargo lock-fetch` command and the rule that they must obey.
use vstd::prelude::*;

verus! {

/// The command line: cargo passes the name of its subcommand first.
#[derive(Debug, PartialEq, Eq)]
pub struct Cli {
    pub subcommand: CargoLockFetch,
}

/// The subcommands.
#[derive(Debug, PartialEq, Eq)]
pub enum CargoLockFetch {
    LockFetch(CargoLockFetchCli),
}

/// The options of `cargo lock-fetch`.
#[derive(Debug, PartialEq, Eq)]
pub struct CargoLockFetchCli {
    /// The lockfile to read.
    pub lockfile_path: String,
    /// Where to vendor the packages; they are only fetched where this is absent.
    pub vendor_dir: Option<String>,
    /// Print nothing, not even errors.
    pub quiet: bool,
    /// Keep the scratch directory and print its name.
    pub keep_tmp: bool,
    /// Build the scratch projects in this directory, which is kept.
    pub tmp_dir: Option<String>,
    /// Arguments passed on to cargo's fetch or vendor.
    pub cargo_args: Vec<String>,
}

/// The kinds of command-line errors.
#[derive(Debug, PartialEq, Eq)]
pub enum CliErrorKind {
    /// Two options that exclude each other were both given.
    ArgumentConflict,
}

/// Whether the options exclude each other: `--keep-tmp` together with `--tmp-dir`.
pub open spec fn options_conflict(cli: CargoLockFetchCli) -> bool {
    cli.keep_tmp && cli.tmp_dir is Some
}

impl CargoLockFetchCli {
    /// The options unchanged, or an argument conflict where `--keep-tmp` and `--tmp-dir` are both
    /// given.
    pub fn verify(self) -> (r: Result<Self, (CliErrorKind, String)>)
        ensures
            r is Err <==> options_conflict(self),
            r matches Ok(s) ==> s == self,
            r matches Err((kind, message)) ==> kind is ArgumentConflict
                && message@ == "arguments --keep-tmp and --tmp-dir are mutually exclusive"@,
    {
        if self.keep_tmp && self.tmp_dir.is_some() {
            return Err(
                (
                    CliErrorKind::ArgumentConflict,
                    String::from_str("arguments --keep-tmp and --tmp-dir are mutually exclusive"),
                ),
            );
        }
        Ok(self)
    }
}

} // verus!
