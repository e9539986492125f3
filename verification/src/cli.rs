//! What the command line says.

use vstd::prelude::*;

use crate::config::{ConfigOverrides, Overrides};
use crate::number::{parse_unsigned, read_unsigned};
use crate::text::{chars_of, copy_string, push_all, string_of};

verus! {

/// The command line.
#[derive(Clone, Debug)]
pub struct Cli {
    /// A PDF, or a directory with PDFs.
    pub input: Option<String>,
    /// The directory for the output.
    pub output: String,
    /// The configuration file to use.
    pub config: Option<String>,
    /// The file with the API key.
    pub env_file: Option<String>,
    pub timeout: Option<u64>,
    pub max_download_bytes: Option<u64>,
    pub workers: Option<usize>,
    pub ocr_workers: Option<usize>,
    pub quiet: bool,
    pub verbose: bool,
    pub overwrite: bool,
    pub normalize_tables: bool,
    pub okf: bool,
    pub command: Option<CliCommand>,
}

/// A command in place of processing.
#[derive(Clone, Debug)]
pub enum CliCommand {
    /// Configuration management.
    Config(ConfigArgs),
    /// Diagnosis.
    Doctor(DoctorArgs),
}

#[derive(Clone, Debug)]
pub struct ConfigArgs {
    pub command: ConfigCommand,
}

#[derive(Clone, Debug)]
pub enum ConfigCommand {
    /// Write a configuration file.
    Init(ConfigInitArgs),
    /// Check a configuration file.
    Check(ConfigCheckArgs),
}

#[derive(Clone, Debug)]
pub struct ConfigInitArgs {
    /// Whether a file that exists is replaced.
    pub force: bool,
}

#[derive(Clone, Debug)]
pub struct ConfigCheckArgs {
    /// The file to check; the global one if none is named.
    pub config: Option<String>,
}

#[derive(Clone, Debug)]
pub struct DoctorArgs {
    pub command: Option<DoctorCommand>,
}

#[derive(Clone, Copy, Debug, PartialEq, Eq, Structural)]
pub enum DoctorCommand {
    Help,
}

/// What a pair of flags sets: nothing if none or both are given.
pub open spec fn flag(enable: bool, disable: bool) -> Option<bool> {
    if enable == disable {
        None
    } else {
        Some(enable)
    }
}

/// What a pair of flags sets.
pub fn bool_override(enable: bool, disable: bool) -> (r: Option<bool>)
    ensures
        r == flag(enable, disable),
{
    match (enable, disable) {
        (true, false) => Some(true),
        (false, true) => Some(false),
        _ => None,
    }
}

impl Cli {
    /// What the command line sets of the settings: a flag that is not given sets nothing.
    pub open spec fn overrides(self) -> Overrides {
        Overrides {
            env_file: match self.env_file {
                Some(path) => Some(path@),
                None => None,
            },
            timeout: self.timeout,
            max_download_bytes: self.max_download_bytes,
            workers: self.workers,
            ocr_workers: self.ocr_workers,
            verbose: flag(self.verbose, self.quiet),
            overwrite: flag(self.overwrite, false),
            normalize_tables: flag(self.normalize_tables, false),
            okf: flag(self.okf, false),
        }
    }

    /// What the command line sets of the settings.
    pub fn config_overrides(&self) -> (r: ConfigOverrides)
        ensures
            r@ == self.overrides(),
    {
        ConfigOverrides {
            env_file: match &self.env_file {
                Some(path) => Some(copy_string(path)),
                None => None,
            },
            timeout: self.timeout,
            max_download_bytes: self.max_download_bytes,
            workers: self.workers,
            ocr_workers: self.ocr_workers,
            verbose: bool_override(self.verbose, self.quiet),
            overwrite: bool_override(self.overwrite, false),
            normalize_tables: bool_override(self.normalize_tables, false),
            okf: bool_override(self.okf, false),
        }
    }
}

/// The number that `value` writes, if it is greater than 0.
pub fn parse_positive_usize(value: &str) -> (r: Result<usize, String>)
    ensures
        match parse_unsigned(value@, 10, usize::MAX as nat) {
            Some(n) => if n > 0 {
                r is Ok && r->Ok_0 == n
            } else {
                r is Err && r->Err_0@ == "must be greater than 0"@
            },
            None => r is Err && r->Err_0@ == "invalid integer: "@ + value@,
        },
{
    let chars = chars_of(value);
    match read_unsigned(&chars, 10, usize::MAX as u64) {
        Some(n) => if n > 0 {
            Ok(n as usize)
        } else {
            let out = chars_of("must be greater than 0");
            Err(string_of(&out))
        },
        None => {
            let mut out = chars_of("invalid integer: ");
            push_all(&mut out, &chars);
            Err(string_of(&out))
        },
    }
}

/// A flag that is given alone sets what it says; two that contradict each other set nothing.
pub proof fn law_flags_set_what_they_say(cli: Cli)
    ensures
        cli.verbose && !cli.quiet ==> cli.overrides().verbose == Some(true),
        !cli.verbose && cli.quiet ==> cli.overrides().verbose == Some(false),
        cli.verbose == cli.quiet ==> cli.overrides().verbose is None,
        cli.overwrite ==> cli.overrides().overwrite == Some(true),
        !cli.overwrite ==> cli.overrides().overwrite is None,
        cli.normalize_tables ==> cli.overrides().normalize_tables == Some(true),
        !cli.normalize_tables ==> cli.overrides().normalize_tables is None,
        cli.okf ==> cli.overrides().okf == Some(true),
        !cli.okf ==> cli.overrides().okf is None,
        cli.overrides().timeout == cli.timeout,
        cli.overrides().max_download_bytes == cli.max_download_bytes,
        cli.overrides().workers == cli.workers,
        cli.overrides().ocr_workers == cli.ocr_workers,
        cli.env_file is Some ==> cli.overrides().env_file == Some(cli.env_file->0@),
        cli.env_file is None ==> cli.overrides().env_file is None,
{
}

} // verus!
