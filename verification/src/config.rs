//! Settings: built-in defaults, what configuration files say, and what the command line says.

use vstd::prelude::*;

use crate::paths::{
    absolute, ancestors, ancestors_of, find_parent, is_absolute, join_name, join_path, joined_path,
    parent, PathStyle,
};
use crate::pieces::texts;
use crate::text::{
    chars_of, copy_string, has_prefix, has_suffix, lemma_parts_at_the_ends, push_str, string_of,
};

verus! {

/// The name of the program, and of the directory that holds its global configuration.
pub const APP_NAME: &'static str = "paperdown";

/// The name of a configuration file.
pub const CONFIG_FILE_NAME: &'static str = "paperdown.toml";

/// The file with the API key, unless set otherwise.
pub const DEFAULT_ENV_FILE: &'static str = ".env";

/// The time limit of a request in seconds, unless set otherwise.
pub const DEFAULT_TIMEOUT: u64 = 180;

/// The size limit of a figure in bytes, unless set otherwise.
pub const DEFAULT_MAX_DOWNLOAD_BYTES: u64 = 20_971_520;

/// The number of papers processed at a time, unless set otherwise.
pub const DEFAULT_WORKERS: usize = 32;

/// The number of recognition requests at a time, unless set otherwise.
pub const DEFAULT_OCR_WORKERS: usize = 2;

/// A configuration file that says what is built in.
pub const DEFAULT_CONFIG_TEMPLATE: &'static str =
    "env-file = \".env\"\ntimeout = 180\nmax-download-bytes = 20971520\nworkers = 32\nocr-workers = 2\nverbose = false\noverwrite = false\nnormalize-tables = false\n";

// ---- Settings ----

/// What a configuration file or the command line sets; the rest is left as it is.
#[derive(Clone, Debug, PartialEq, Eq)]
pub struct ConfigOverrides {
    pub env_file: Option<String>,
    pub timeout: Option<u64>,
    pub max_download_bytes: Option<u64>,
    pub workers: Option<usize>,
    pub ocr_workers: Option<usize>,
    pub verbose: Option<bool>,
    pub overwrite: Option<bool>,
    pub normalize_tables: Option<bool>,
    pub okf: Option<bool>,
}

/// The settings that `ConfigOverrides` stands for.
pub struct Overrides {
    pub env_file: Option<Seq<char>>,
    pub timeout: Option<u64>,
    pub max_download_bytes: Option<u64>,
    pub workers: Option<usize>,
    pub ocr_workers: Option<usize>,
    pub verbose: Option<bool>,
    pub overwrite: Option<bool>,
    pub normalize_tables: Option<bool>,
    pub okf: Option<bool>,
}

impl View for ConfigOverrides {
    type V = Overrides;

    open spec fn view(&self) -> Overrides {
        Overrides {
            env_file: match self.env_file {
                Some(path) => Some(path@),
                None => None,
            },
            timeout: self.timeout,
            max_download_bytes: self.max_download_bytes,
            workers: self.workers,
            ocr_workers: self.ocr_workers,
            verbose: self.verbose,
            overwrite: self.overwrite,
            normalize_tables: self.normalize_tables,
            okf: self.okf,
        }
    }
}

/// All settings.
#[derive(Clone, Debug, PartialEq, Eq)]
pub struct ResolvedConfig {
    pub env_file: String,
    pub timeout: u64,
    pub max_download_bytes: u64,
    pub workers: usize,
    pub ocr_workers: usize,
    pub verbose: bool,
    pub overwrite: bool,
    pub normalize_tables: bool,
    pub okf: bool,
}

/// The settings that `ResolvedConfig` stands for.
pub struct Settings {
    pub env_file: Seq<char>,
    pub timeout: u64,
    pub max_download_bytes: u64,
    pub workers: usize,
    pub ocr_workers: usize,
    pub verbose: bool,
    pub overwrite: bool,
    pub normalize_tables: bool,
    pub okf: bool,
}

impl View for ResolvedConfig {
    type V = Settings;

    open spec fn view(&self) -> Settings {
        Settings {
            env_file: self.env_file@,
            timeout: self.timeout,
            max_download_bytes: self.max_download_bytes,
            workers: self.workers,
            ocr_workers: self.ocr_workers,
            verbose: self.verbose,
            overwrite: self.overwrite,
            normalize_tables: self.normalize_tables,
            okf: self.okf,
        }
    }
}

/// Nothing set.
pub open spec fn no_overrides() -> Overrides {
    Overrides {
        env_file: None,
        timeout: None,
        max_download_bytes: None,
        workers: None,
        ocr_workers: None,
        verbose: None,
        overwrite: None,
        normalize_tables: None,
        okf: None,
    }
}

/// The built-in settings.
pub open spec fn default_settings() -> Settings {
    Settings {
        env_file: DEFAULT_ENV_FILE@,
        timeout: DEFAULT_TIMEOUT,
        max_download_bytes: DEFAULT_MAX_DOWNLOAD_BYTES,
        workers: DEFAULT_WORKERS,
        ocr_workers: DEFAULT_OCR_WORKERS,
        verbose: false,
        overwrite: false,
        normalize_tables: false,
        okf: false,
    }
}

/// What `higher` sets, else what `lower` sets.
pub open spec fn either<T>(higher: Option<T>, lower: Option<T>) -> Option<T> {
    match higher {
        Some(_) => higher,
        None => lower,
    }
}

/// What is set, else `value`.
pub open spec fn set_or<T>(set: Option<T>, value: T) -> T {
    match set {
        Some(v) => v,
        None => value,
    }
}

/// What `higher` sets, and what `lower` sets besides.
pub open spec fn merged(lower: Overrides, higher: Overrides) -> Overrides {
    Overrides {
        env_file: either(higher.env_file, lower.env_file),
        timeout: either(higher.timeout, lower.timeout),
        max_download_bytes: either(higher.max_download_bytes, lower.max_download_bytes),
        workers: either(higher.workers, lower.workers),
        ocr_workers: either(higher.ocr_workers, lower.ocr_workers),
        verbose: either(higher.verbose, lower.verbose),
        overwrite: either(higher.overwrite, lower.overwrite),
        normalize_tables: either(higher.normalize_tables, lower.normalize_tables),
        okf: either(higher.okf, lower.okf),
    }
}

/// The settings `s` with what `o` sets.
pub open spec fn applied(s: Settings, o: Overrides) -> Settings {
    Settings {
        env_file: set_or(o.env_file, s.env_file),
        timeout: set_or(o.timeout, s.timeout),
        max_download_bytes: set_or(o.max_download_bytes, s.max_download_bytes),
        workers: set_or(o.workers, s.workers),
        ocr_workers: set_or(o.ocr_workers, s.ocr_workers),
        verbose: set_or(o.verbose, s.verbose),
        overwrite: set_or(o.overwrite, s.overwrite),
        normalize_tables: set_or(o.normalize_tables, s.normalize_tables),
        okf: set_or(o.okf, s.okf),
    }
}

/// Applying one after the other is applying both merged.
pub proof fn law_apply_after_apply_is_merge(s: Settings, lower: Overrides, higher: Overrides)
    ensures
        applied(applied(s, lower), higher) == applied(s, merged(lower, higher)),
{
}

/// It does not matter which of three are merged first.
pub proof fn law_merge_is_associative(a: Overrides, b: Overrides, c: Overrides)
    ensures
        merged(merged(a, b), c) == merged(a, merged(b, c)),
{
}

/// What sets nothing changes nothing.
pub proof fn law_nothing_set_changes_nothing(o: Overrides, s: Settings)
    ensures
        merged(no_overrides(), o) == o,
        merged(o, no_overrides()) == o,
        applied(s, no_overrides()) == s,
{
}

/// The command line counts before the local file, the local before the global file, and that
/// before what is built in.
pub proof fn law_precedence(global: Overrides, local: Overrides, cli: Overrides)
    ensures
        ({
            let file = merged(merged(no_overrides(), global), local);
            let s = applied(applied(default_settings(), file), cli);
            let d = default_settings();
            &&& s.env_file == set_or(
                either(cli.env_file, either(local.env_file, global.env_file)),
                d.env_file,
            )
            &&& s.timeout == set_or(
                either(cli.timeout, either(local.timeout, global.timeout)),
                d.timeout,
            )
            &&& s.max_download_bytes == set_or(
                either(
                    cli.max_download_bytes,
                    either(local.max_download_bytes, global.max_download_bytes),
                ),
                d.max_download_bytes,
            )
            &&& s.workers == set_or(
                either(cli.workers, either(local.workers, global.workers)),
                d.workers,
            )
            &&& s.ocr_workers == set_or(
                either(cli.ocr_workers, either(local.ocr_workers, global.ocr_workers)),
                d.ocr_workers,
            )
            &&& s.verbose == set_or(
                either(cli.verbose, either(local.verbose, global.verbose)),
                d.verbose,
            )
            &&& s.overwrite == set_or(
                either(cli.overwrite, either(local.overwrite, global.overwrite)),
                d.overwrite,
            )
            &&& s.normalize_tables == set_or(
                either(
                    cli.normalize_tables,
                    either(local.normalize_tables, global.normalize_tables),
                ),
                d.normalize_tables,
            )
            &&& s.okf == set_or(either(cli.okf, either(local.okf, global.okf)), d.okf)
        }),
{
}

impl Default for ConfigOverrides {
    fn default() -> (r: ConfigOverrides)
        ensures
            r@ == no_overrides(),
    {
        ConfigOverrides {
            env_file: None,
            timeout: None,
            max_download_bytes: None,
            workers: None,
            ocr_workers: None,
            verbose: None,
            overwrite: None,
            normalize_tables: None,
            okf: None,
        }
    }
}

impl Default for ResolvedConfig {
    fn default() -> (r: ResolvedConfig)
        ensures
            r@ == default_settings(),
    {
        let env_file = chars_of(DEFAULT_ENV_FILE);
        ResolvedConfig {
            env_file: string_of(&env_file),
            timeout: DEFAULT_TIMEOUT,
            max_download_bytes: DEFAULT_MAX_DOWNLOAD_BYTES,
            workers: DEFAULT_WORKERS,
            ocr_workers: DEFAULT_OCR_WORKERS,
            verbose: false,
            overwrite: false,
            normalize_tables: false,
            okf: false,
        }
    }
}

fn first_of<T>(higher: Option<T>, lower: Option<T>) -> (r: Option<T>)
    ensures
        r == either(higher, lower),
{
    match higher {
        Some(v) => Some(v),
        None => lower,
    }
}

fn value_or<T>(set: Option<T>, value: T) -> (r: T)
    ensures
        r == set_or(set, value),
{
    match set {
        Some(v) => v,
        None => value,
    }
}

impl ResolvedConfig {
    /// These settings with what `overrides` sets.
    pub fn apply(self, overrides: ConfigOverrides) -> (r: ResolvedConfig)
        ensures
            r@ == applied(self@, overrides@),
    {
        ResolvedConfig {
            env_file: value_or(overrides.env_file, self.env_file),
            timeout: value_or(overrides.timeout, self.timeout),
            max_download_bytes: value_or(overrides.max_download_bytes, self.max_download_bytes),
            workers: value_or(overrides.workers, self.workers),
            ocr_workers: value_or(overrides.ocr_workers, self.ocr_workers),
            verbose: value_or(overrides.verbose, self.verbose),
            overwrite: value_or(overrides.overwrite, self.overwrite),
            normalize_tables: value_or(overrides.normalize_tables, self.normalize_tables),
            okf: value_or(overrides.okf, self.okf),
        }
    }
}

/// Why a configuration file is not used.
#[derive(Debug)]
pub enum ConfigLoadError {
    /// It cannot be read, for the reason given.
    Read { reason: String, path: String },
    /// It is no valid configuration, for the reason given.
    Parse { reason: String, path: String },
    /// A number in it is 0 and must not be.
    InvalidPositive { field: &'static str, path: String },
}

/// An error in words.
pub open spec fn load_error_text(e: ConfigLoadError) -> Seq<char> {
    match e {
        ConfigLoadError::Read { reason, path } => "Failed to read config file "@ + path@ + ": "@
            + reason@,
        ConfigLoadError::Parse { reason, path } => "Failed to parse config file "@ + path@ + ": "@
            + reason@,
        ConfigLoadError::InvalidPositive { field, path } => "config field `"@ + field@ + "` in "@
            + path@ + " must be greater than 0"@,
    }
}

impl ConfigLoadError {
    /// The error in words.
    pub fn message(&self) -> (r: String)
        ensures
            r@ == load_error_text(*self),
    {
        match self {
            ConfigLoadError::Read { reason, path } => {
                let mut out = chars_of("Failed to read config file ");
                push_str(&mut out, path.as_str());
                push_str(&mut out, ": ");
                push_str(&mut out, reason.as_str());
                string_of(&out)
            },
            ConfigLoadError::Parse { reason, path } => {
                let mut out = chars_of("Failed to parse config file ");
                push_str(&mut out, path.as_str());
                push_str(&mut out, ": ");
                push_str(&mut out, reason.as_str());
                string_of(&out)
            },
            ConfigLoadError::InvalidPositive { field, path } => {
                let mut out = chars_of("config field `");
                push_str(&mut out, field);
                push_str(&mut out, "` in ");
                push_str(&mut out, path.as_str());
                push_str(&mut out, " must be greater than 0");
                string_of(&out)
            },
        }
    }
}

/// The first field that is 0 and must not be.
pub open spec fn zero_field(o: Overrides) -> Option<Seq<char>> {
    if o.timeout == Some(0u64) {
        Some("timeout"@)
    } else if o.max_download_bytes == Some(0u64) {
        Some("max-download-bytes"@)
    } else if o.workers == Some(0usize) {
        Some("workers"@)
    } else if o.ocr_workers == Some(0usize) {
        Some("ocr-workers"@)
    } else {
        None
    }
}

/// `o` with a relative path of the file with the API key taken as seen from the directory of
/// the configuration file `path`.
pub open spec fn rebased(style: PathStyle, o: Overrides, path: Seq<char>) -> Overrides {
    match o.env_file {
        Some(env_file) => if absolute(style, env_file) {
            o
        } else {
            Overrides {
                env_file: Some(
                    joined_path(
                        style,
                        match parent(style, path) {
                            Some(dir) => dir,
                            None => Seq::empty(),
                        },
                        env_file,
                    ),
                ),
                ..o
            }
        },
        None => o,
    }
}

fn is_zero_u64(v: Option<u64>) -> (r: bool)
    ensures
        r == (v == Some(0u64)),
{
    match v {
        Some(n) => n == 0,
        None => false,
    }
}

fn is_zero_usize(v: Option<usize>) -> (r: bool)
    ensures
        r == (v == Some(0usize)),
{
    match v {
        Some(n) => n == 0,
        None => false,
    }
}

impl ConfigOverrides {
    /// What `higher` sets, and what this sets besides.
    pub fn merge(self, higher: ConfigOverrides) -> (r: ConfigOverrides)
        ensures
            r@ == merged(self@, higher@),
    {
        ConfigOverrides {
            env_file: first_of(higher.env_file, self.env_file),
            timeout: first_of(higher.timeout, self.timeout),
            max_download_bytes: first_of(higher.max_download_bytes, self.max_download_bytes),
            workers: first_of(higher.workers, self.workers),
            ocr_workers: first_of(higher.ocr_workers, self.ocr_workers),
            verbose: first_of(higher.verbose, self.verbose),
            overwrite: first_of(higher.overwrite, self.overwrite),
            normalize_tables: first_of(higher.normalize_tables, self.normalize_tables),
            okf: first_of(higher.okf, self.okf),
        }
    }

    /// Whether all numbers are greater than 0; else the first that is not.
    pub fn validate(&self, path: &str) -> (r: Result<(), ConfigLoadError>)
        ensures
            match zero_field(self@) {
                Some(name) => r matches Err(ConfigLoadError::InvalidPositive { field, path: p })
                    && field@ == name && p@ == path@,
                None => r is Ok,
            },
    {
        let field = if is_zero_u64(self.timeout) {
            "timeout"
        } else if is_zero_u64(self.max_download_bytes) {
            "max-download-bytes"
        } else if is_zero_usize(self.workers) {
            "workers"
        } else if is_zero_usize(self.ocr_workers) {
            "ocr-workers"
        } else {
            return Ok(());
        };
        let chars = chars_of(path);
        Err(ConfigLoadError::InvalidPositive { field, path: string_of(&chars) })
    }

    /// This with a relative path of the file with the API key taken as seen from the directory
    /// of the configuration file `path`.
    pub fn rebase_env_file(self, style: PathStyle, path: &str) -> (r: ConfigOverrides)
        ensures
            r@ == rebased(style, self@, path@),
    {
        let rebased_file = match &self.env_file {
            Some(env_file) => {
                let file = chars_of(env_file.as_str());
                if is_absolute(style, &file) {
                    Some(copy_string(env_file))
                } else {
                    let chars = chars_of(path);
                    let out = match find_parent(style, &chars) {
                        Some(dir) => join_path(style, dir, &file),
                        None => {
                            let here: Vec<char> = Vec::new();
                            assert(here@ =~= Seq::empty());
                            join_path(style, &here, &file)
                        },
                    };
                    Some(string_of(&out))
                }
            },
            None => None,
        };
        ConfigOverrides {
            env_file: rebased_file,
            timeout: self.timeout,
            max_download_bytes: self.max_download_bytes,
            workers: self.workers,
            ocr_workers: self.ocr_workers,
            verbose: self.verbose,
            overwrite: self.overwrite,
            normalize_tables: self.normalize_tables,
            okf: self.okf,
        }
    }
}

/// What the configuration file `path` sets, once its text was read as `parsed`.
pub fn load_config_from_path(
    style: PathStyle,
    parsed: ConfigOverrides,
    path: &str,
) -> (r: Result<ConfigOverrides, ConfigLoadError>)
    ensures
        match zero_field(parsed@) {
            Some(name) => r matches Err(ConfigLoadError::InvalidPositive { field, path: p })
                && field@ == name && p@ == path@,
            None => r is Ok && r->Ok_0@ == rebased(style, parsed@, path@),
        },
{
    match parsed.validate(path) {
        Ok(_) => Ok(parsed.rebase_env_file(style, path)),
        Err(e) => Err(e),
    }
}

/// Numbers that were accepted are greater than 0, and so are the settings made from them.
pub proof fn law_accepted_numbers_are_positive(file: Overrides, cli: Overrides)
    requires
        zero_field(file) is None,
        zero_field(cli) is None,
    ensures
        applied(applied(default_settings(), file), cli).timeout > 0,
        applied(applied(default_settings(), file), cli).max_download_bytes > 0,
        applied(applied(default_settings(), file), cli).workers > 0,
        applied(applied(default_settings(), file), cli).ocr_workers > 0,
{
}

// ---- Where configuration files are ----

/// The global configuration file in a directory for configuration.
pub open spec fn file_in_config_dir(style: PathStyle, dir: Seq<char>) -> Seq<char> {
    joined_path(style, joined_path(style, dir, APP_NAME@), CONFIG_FILE_NAME@)
}

/// The global configuration file in a directory for configuration.
pub fn config_file_path(style: PathStyle, config_dir: &str) -> (r: String)
    ensures
        r@ == file_in_config_dir(style, config_dir@),
{
    let dir = chars_of(config_dir);
    let dir = join_name(style, &dir, APP_NAME);
    let path = join_name(style, &dir, CONFIG_FILE_NAME);
    string_of(&path)
}

/// The directory for configuration: on Windows the one that `APPDATA` names, elsewhere the one
/// that `XDG_CONFIG_HOME` names if that is absolute, else `.config` in the home directory.
pub open spec fn user_config_dir(
    style: PathStyle,
    appdata: Option<Seq<char>>,
    xdg: Option<Seq<char>>,
    home: Option<Seq<char>>,
) -> Option<Seq<char>> {
    if style == PathStyle::Windows {
        appdata
    } else if xdg is Some && absolute(style, xdg->0) {
        xdg
    } else {
        match home {
            Some(dir) => Some(joined_path(style, dir, ".config"@)),
            None => None,
        }
    }
}

/// The text in `s`, if there is any.
pub open spec fn str_text(s: Option<&str>) -> Option<Seq<char>> {
    match s {
        Some(text) => Some(text@),
        None => None,
    }
}

/// The directory for configuration.
pub fn config_dir(
    style: PathStyle,
    appdata: Option<&str>,
    xdg_config_home: Option<&str>,
    home: Option<&str>,
) -> (r: Option<String>)
    ensures
        match user_config_dir(
            style,
            str_text(appdata),
            str_text(xdg_config_home),
            str_text(home),
        ) {
            Some(dir) => r is Some && r->0@ == dir,
            None => r is None,
        },
{
    if style == PathStyle::Windows {
        return match appdata {
            Some(dir) => {
                let chars = chars_of(dir);
                Some(string_of(&chars))
            },
            None => None,
        };
    }
    if let Some(dir) = xdg_config_home {
        let chars = chars_of(dir);
        if is_absolute(style, &chars) {
            return Some(string_of(&chars));
        }
    }
    match home {
        Some(dir) => {
            let chars = chars_of(dir);
            let path = join_name(style, &chars, ".config");
            Some(string_of(&path))
        },
        None => None,
    }
}

/// The global configuration file: in the directory that `PAPERDOWN_CONFIG_DIR` names if that is
/// absolute, else in the program's own directory under the one for configuration.
pub open spec fn global_file(
    style: PathStyle,
    own: Option<Seq<char>>,
    dir: Option<Seq<char>>,
) -> Option<Seq<char>> {
    if own is Some && absolute(style, own->0) {
        Some(joined_path(style, own->0, CONFIG_FILE_NAME@))
    } else {
        match dir {
            Some(dir) => Some(file_in_config_dir(style, dir)),
            None => None,
        }
    }
}

/// The global configuration file.
pub fn global_config_file_path(
    style: PathStyle,
    own_dir: Option<&str>,
    config_dir: Option<&str>,
) -> (r: Option<String>)
    ensures
        match global_file(style, str_text(own_dir), str_text(config_dir)) {
            Some(path) => r is Some && r->0@ == path,
            None => r is None,
        },
{
    if let Some(dir) = own_dir {
        let chars = chars_of(dir);
        if is_absolute(style, &chars) {
            let path = join_name(style, &chars, CONFIG_FILE_NAME);
            return Some(string_of(&path));
        }
    }
    match config_dir {
        Some(dir) => Some(config_file_path(style, dir)),
        None => None,
    }
}

/// Where a local configuration file may be: in `start_dir` and the directories above it, the
/// nearest first.
pub fn local_config_candidates(style: PathStyle, start_dir: &str) -> (out: Vec<String>)
    ensures
        texts(out@) == Seq::new(
            ancestors(style, start_dir@).len(),
            |i: int| joined_path(style, ancestors(style, start_dir@)[i], CONFIG_FILE_NAME@),
        ),
{
    let chars = chars_of(start_dir);
    let dirs = ancestors_of(style, &chars);
    let ghost all = ancestors(style, start_dir@);
    let mut out: Vec<String> = Vec::new();
    let mut i: usize = 0;
    while i < dirs.len()
        invariant
            i <= dirs@.len(),
            texts(dirs@) == all,
            out@.len() == i,
            forall|k: int|
                0 <= k < i ==> (#[trigger] out@[k])@ == joined_path(
                    style,
                    all[k],
                    CONFIG_FILE_NAME@,
                ),
        decreases dirs.len() - i,
    {
        assert(all[i as int] == dirs@[i as int]@);
        let path = join_name(style, &dirs[i], CONFIG_FILE_NAME);
        out.push(string_of(&path));
        i += 1;
    }
    assert(texts(out@) =~= Seq::new(
        all.len(),
        |i: int| joined_path(style, all[i], CONFIG_FILE_NAME@),
    ));
    out
}

/// The first of `candidates` from `i` on that is there.
pub open spec fn first_present(candidates: Seq<Seq<char>>, present: Seq<bool>, i: int) -> Option<
    Seq<char>,
>
    decreases candidates.len() - i,
{
    if i < 0 || i >= candidates.len() || i >= present.len() {
        None
    } else if present[i] {
        Some(candidates[i])
    } else {
        first_present(candidates, present, i + 1)
    }
}

/// The local configuration file: the first candidate that is there.
pub fn find_local_config(candidates: &Vec<String>, present: &Vec<bool>) -> (r: Option<String>)
    ensures
        match first_present(texts(candidates@), present@, 0) {
            Some(path) => r is Some && r->0@ == path,
            None => r is None,
        },
{
    let ghost all = texts(candidates@);
    let mut i: usize = 0;
    while i < candidates.len() && i < present.len()
        invariant
            i <= candidates@.len(),
            all == texts(candidates@),
            first_present(all, present@, 0) == first_present(all, present@, i as int),
        decreases candidates.len() - i,
    {
        if present[i] {
            return Some(copy_string(&candidates[i]));
        }
        i += 1;
    }
    None
}

// ---- All of it ----

/// What the files that were found set, the local one before the global one.
pub fn load_discovered_configs(
    global: Option<ConfigOverrides>,
    local: Option<ConfigOverrides>,
) -> (r: ConfigOverrides)
    ensures
        r@ == merged(
            match global {
                Some(o) => o@,
                None => no_overrides(),
            },
            match local {
                Some(o) => o@,
                None => no_overrides(),
            },
        ),
{
    let mut config = ConfigOverrides::default();
    if let Some(o) = global {
        config = config.merge(o);
    }
    if let Some(o) = local {
        config = config.merge(o);
    }
    config
}

/// The settings of a run, and the files that they come from.
#[derive(Clone, Debug, PartialEq, Eq)]
pub struct EffectiveConfig {
    pub settings: ResolvedConfig,
    pub config_files: Vec<String>,
}

/// The settings of a run: the built-in ones, with what the files set, with what the command line
/// sets.
pub fn load_effective_config(file_config: ConfigOverrides, cli: ConfigOverrides) -> (r:
    ResolvedConfig)
    ensures
        r@ == applied(applied(default_settings(), file_config@), cli@),
{
    ResolvedConfig::default().apply(file_config).apply(cli)
}

/// The settings of a run, and the files that they come from: the one that was named, else the
/// global and the local one as far as they were found.
pub fn load_effective_config_with_sources(
    explicit: Option<(String, ConfigOverrides)>,
    global: Option<(String, ConfigOverrides)>,
    local: Option<(String, ConfigOverrides)>,
    cli: ConfigOverrides,
) -> (r: EffectiveConfig)
    ensures
        match explicit {
            Some((path, o)) => r.settings@ == applied(applied(default_settings(), o@), cli@)
                && r.config_files@ == seq![path],
            None => {
                &&& r.settings@ == applied(
                    applied(
                        default_settings(),
                        merged(
                            match global {
                                Some((_, o)) => o@,
                                None => no_overrides(),
                            },
                            match local {
                                Some((_, o)) => o@,
                                None => no_overrides(),
                            },
                        ),
                    ),
                    cli@,
                )
                &&& r.config_files@ == (match global {
                    Some((path, _)) => seq![path],
                    None => Seq::empty(),
                }) + (match local {
                    Some((path, _)) => seq![path],
                    None => Seq::empty(),
                })
            },
        },
{
    let mut config_files: Vec<String> = Vec::new();
    if let Some((path, o)) = explicit {
        config_files.push(path);
        assert(config_files@ =~= seq![path]);
        return EffectiveConfig { settings: load_effective_config(o, cli), config_files };
    }
    let global_config = match global {
        Some((path, o)) => {
            config_files.push(path);
            Some(o)
        },
        None => None,
    };
    let local_config = match local {
        Some((path, o)) => {
            config_files.push(path);
            Some(o)
        },
        None => None,
    };
    let file_config = load_discovered_configs(global_config, local_config);
    assert(config_files@ =~= (match global {
        Some((path, _)) => seq![path],
        None => Seq::empty(),
    }) + (match local {
        Some((path, _)) => seq![path],
        None => Seq::empty(),
    }));
    EffectiveConfig { settings: load_effective_config(file_config, cli), config_files }
}

// ---- Checking a configuration file ----

/// The configuration file that is checked: the one that was named, else the global one.
pub fn config_to_check(explicit: Option<String>, global: Option<String>) -> (r: Result<
    String,
    ConfigInitError,
>)
    ensures
        match (explicit, global) {
            (Some(path), _) => r == Ok::<_, ConfigInitError>(path),
            (None, Some(path)) => r == Ok::<_, ConfigInitError>(path),
            (None, None) => r matches Err(e) && e is Unavailable,
        },
{
    match explicit {
        Some(path) => Ok(path),
        None => match global {
            Some(path) => Ok(path),
            None => Err(ConfigInitError::Unavailable),
        },
    }
}

/// The configuration file `path`, once its text was read as `parsed`, if it can be used.
pub fn check_config_file(style: PathStyle, parsed: ConfigOverrides, path: String) -> (r: Result<
    String,
    ConfigLoadError,
>)
    ensures
        match zero_field(parsed@) {
            Some(name) => r matches Err(ConfigLoadError::InvalidPositive { field, path: p })
                && field@ == name && p@ == path@,
            None => r == Ok::<_, ConfigLoadError>(path),
        },
{
    match load_config_from_path(style, parsed, path.as_str()) {
        Ok(_) => Ok(path),
        Err(e) => Err(e),
    }
}

// ---- Writing a configuration file ----

/// Why no configuration file is written.
#[derive(Debug)]
pub enum ConfigInitError {
    /// There is no place for it.
    Unavailable,
    /// It exists.
    Exists { path: String },
    /// Its directory cannot be made, for the reason given.
    CreateDir { path: String, reason: String },
    /// It cannot be written, for the reason given.
    Write { path: String, reason: String },
}

/// An error in words.
pub open spec fn init_error_text(e: ConfigInitError) -> Seq<char> {
    match e {
        ConfigInitError::Unavailable => "could not determine XDG config directory"@,
        ConfigInitError::Exists { path } => "config file already exists: "@ + path@,
        ConfigInitError::CreateDir { path, reason } => "failed to create config directory "@ + path@
            + ": "@ + reason@,
        ConfigInitError::Write { path, reason } => "failed to write config file "@ + path@ + ": "@
            + reason@,
    }
}

impl ConfigInitError {
    /// The error in words.
    pub fn message(&self) -> (r: String)
        ensures
            r@ == init_error_text(*self),
    {
        match self {
            ConfigInitError::Unavailable => {
                let out = chars_of("could not determine XDG config directory");
                string_of(&out)
            },
            ConfigInitError::Exists { path } => {
                let mut out = chars_of("config file already exists: ");
                push_str(&mut out, path.as_str());
                string_of(&out)
            },
            ConfigInitError::CreateDir { path, reason } => {
                let mut out = chars_of("failed to create config directory ");
                push_str(&mut out, path.as_str());
                push_str(&mut out, ": ");
                push_str(&mut out, reason.as_str());
                string_of(&out)
            },
            ConfigInitError::Write { path, reason } => {
                let mut out = chars_of("failed to write config file ");
                push_str(&mut out, path.as_str());
                push_str(&mut out, ": ");
                push_str(&mut out, reason.as_str());
                string_of(&out)
            },
        }
    }
}

/// How a configuration file is written.
#[derive(Clone, Copy, Debug, PartialEq, Eq, Structural)]
pub enum WriteMode {
    /// In place of one that exists.
    Replace,
    /// Only where none exists.
    CreateNew,
}

/// What came of making a directory or writing a file; where it failed, with the reason.
pub enum FileOutcome {
    Done,
    /// Something is in its place.
    AlreadyExists(String),
    Failed(String),
}

/// How a configuration file is made.
pub struct ConfigFilePlan {
    /// The directory to make for it.
    pub dir: String,
    /// How it is written.
    pub mode: WriteMode,
    /// What it holds.
    pub text: String,
}

/// How the configuration file `path` is made.
pub fn plan_config_file(style: PathStyle, path: &str, force: bool) -> (r: Result<
    ConfigFilePlan,
    ConfigInitError,
>)
    ensures
        match parent(style, path@) {
            Some(dir) => {
                &&& r is Ok
                &&& r->Ok_0.dir@ == dir
                &&& r->Ok_0.mode == if force {
                    WriteMode::Replace
                } else {
                    WriteMode::CreateNew
                }
                &&& r->Ok_0.text@ == DEFAULT_CONFIG_TEMPLATE@
            },
            None => r matches Err(e) && e is Unavailable,
        },
{
    let chars = chars_of(path);
    match find_parent(style, &chars) {
        Some(dir) => {
            let text = chars_of(DEFAULT_CONFIG_TEMPLATE);
            Ok(
                ConfigFilePlan {
                    dir: string_of(dir),
                    mode: if force {
                        WriteMode::Replace
                    } else {
                        WriteMode::CreateNew
                    },
                    text: string_of(&text),
                },
            )
        },
        None => Err(ConfigInitError::Unavailable),
    }
}

/// What came of writing the configuration file `path`: with `made` as the outcome for its
/// directory, and `written` for itself.
pub fn init_config_at(
    path: String,
    dir: String,
    mode: WriteMode,
    made: FileOutcome,
    written: FileOutcome,
) -> (r: Result<String, ConfigInitError>)
    ensures
        match made {
            FileOutcome::AlreadyExists(reason) => r == Err::<String, _>(
                ConfigInitError::CreateDir { path: dir, reason },
            ),
            FileOutcome::Failed(reason) => r == Err::<String, _>(
                ConfigInitError::CreateDir { path: dir, reason },
            ),
            FileOutcome::Done => match written {
                FileOutcome::Failed(reason) => r == Err::<String, _>(
                    ConfigInitError::Write { path, reason },
                ),
                FileOutcome::AlreadyExists(reason) => r == Err::<String, _>(
                    if mode == WriteMode::CreateNew {
                        ConfigInitError::Exists { path }
                    } else {
                        ConfigInitError::Write { path, reason }
                    },
                ),
                FileOutcome::Done => r == Ok::<_, ConfigInitError>(path),
            },
        },
{
    match made {
        FileOutcome::AlreadyExists(reason) => {
            return Err(ConfigInitError::CreateDir { path: dir, reason });
        },
        FileOutcome::Failed(reason) => {
            return Err(ConfigInitError::CreateDir { path: dir, reason });
        },
        FileOutcome::Done => {},
    }
    match written {
        FileOutcome::Failed(reason) => Err(ConfigInitError::Write { path, reason }),
        FileOutcome::AlreadyExists(reason) => if mode == WriteMode::CreateNew {
            Err(ConfigInitError::Exists { path })
        } else {
            Err(ConfigInitError::Write { path, reason })
        },
        FileOutcome::Done => Ok(path),
    }
}

// ---- Which setting counts ----

/// Whether `value` is what the first of `a`, `b` and `c` that is set says, else `built_in`.
pub open spec fn first_set<T>(
    a: Option<T>,
    b: Option<T>,
    c: Option<T>,
    built_in: T,
    value: T,
) -> bool {
    &&& a is Some ==> value == a->0
    &&& a is None && b is Some ==> value == b->0
    &&& a is None && b is None && c is Some ==> value == c->0
    &&& a is None && b is None && c is None ==> value == built_in
}

/// What the command line sets counts; else what the local file sets, else what the global file
/// sets, else what is built in. This is so of each setting by itself.
pub proof fn law_nearest_setting_counts(global: Overrides, local: Overrides, cli: Overrides)
    ensures
        ({
            let s = applied(applied(default_settings(), merged(global, local)), cli);
            &&& first_set(cli.env_file, local.env_file, global.env_file, ".env"@, s.env_file)
            &&& first_set(cli.timeout, local.timeout, global.timeout, 180u64, s.timeout)
            &&& first_set(cli.max_download_bytes, local.max_download_bytes, global.max_download_bytes, 20971520u64, s.max_download_bytes)
            &&& first_set(cli.workers, local.workers, global.workers, 32usize, s.workers)
            &&& first_set(cli.ocr_workers, local.ocr_workers, global.ocr_workers, 2usize, s.ocr_workers)
            &&& first_set(cli.verbose, local.verbose, global.verbose, false, s.verbose)
            &&& first_set(cli.overwrite, local.overwrite, global.overwrite, false, s.overwrite)
            &&& first_set(cli.normalize_tables, local.normalize_tables, global.normalize_tables, false, s.normalize_tables)
            &&& first_set(cli.okf, local.okf, global.okf, false, s.okf)
        }),
{
}

/// A number that is 0 is refused, and the first of them is named, in the order of the settings;
/// without one all are accepted.
pub proof fn law_zero_is_refused(o: Overrides)
    ensures
        zero_field(o) is None <==> o.timeout != Some(0u64) && o.max_download_bytes != Some(0u64)
            && o.workers != Some(0usize) && o.ocr_workers != Some(0usize),
        o.timeout == Some(0u64) ==> zero_field(o) == Some("timeout"@),
        o.timeout != Some(0u64) && o.max_download_bytes == Some(0u64) ==> zero_field(o) == Some(
            "max-download-bytes"@,
        ),
        o.timeout != Some(0u64) && o.max_download_bytes != Some(0u64) && o.workers == Some(0usize)
            ==> zero_field(o) == Some("workers"@),
        o.timeout != Some(0u64) && o.max_download_bytes != Some(0u64) && o.workers != Some(0usize)
            && o.ocr_workers == Some(0usize) ==> zero_field(o) == Some("ocr-workers"@),
{
}

/// In a configuration file a relative path of the file with the API key is taken from the directory
/// of the configuration file; an absolute one stays, and nothing else changes.
pub proof fn law_only_a_relative_env_file_is_rebased(
    style: PathStyle,
    o: Overrides,
    path: Seq<char>,
)
    ensures
        ({
            let r = rebased(style, o, path);
            &&& o.env_file is None || absolute(style, o.env_file->0) ==> r == o
            &&& o.env_file is Some && !absolute(style, o.env_file->0) && parent(style, path) is Some
                ==> r.env_file == Some(joined_path(style, parent(style, path)->0, o.env_file->0))
            &&& r.timeout == o.timeout
            &&& r.max_download_bytes == o.max_download_bytes
            &&& r.workers == o.workers
            &&& r.ocr_workers == o.ocr_workers
            &&& r.verbose == o.verbose
            &&& r.overwrite == o.overwrite
            &&& r.normalize_tables == o.normalize_tables
            &&& r.okf == o.okf
        }),
{
}

/// The local configuration file is the first of the candidates that is there.
pub proof fn law_first_file_that_is_there_counts(
    candidates: Seq<Seq<char>>,
    present: Seq<bool>,
    k: int,
)
    requires
        candidates.len() == present.len(),
        0 <= k <= candidates.len(),
        forall|j: int| 0 <= j < k ==> !(#[trigger] present[j]),
        k < candidates.len() ==> present[k],
    ensures
        k < candidates.len() ==> first_present(candidates, present, 0) == Some(candidates[k]),
        k == candidates.len() ==> first_present(candidates, present, 0) is None,
{
    lemma_first_present(candidates, present, 0, k);
}

proof fn lemma_first_present(candidates: Seq<Seq<char>>, present: Seq<bool>, i: int, k: int)
    requires
        candidates.len() == present.len(),
        0 <= i <= k <= candidates.len(),
        forall|j: int| i <= j < k ==> !(#[trigger] present[j]),
        k < candidates.len() ==> present[k],
    ensures
        first_present(candidates, present, i) == if k < candidates.len() {
            Some(candidates[k])
        } else {
            None
        },
    decreases k - i,
{
    if i < k {
        assert(!present[i]);
        lemma_first_present(candidates, present, i + 1, k);
    }
}

/// A directory for configuration that the environment names counts only if it is absolute: the
/// program's own first, then that of the system, then the one in the home directory.
pub proof fn law_global_file_is_in_the_first_directory_named(
    own: Option<Seq<char>>,
    xdg: Option<Seq<char>>,
    home: Option<Seq<char>>,
    appdata: Option<Seq<char>>,
)
    ensures
        ({
            let posix = PathStyle::Posix;
            let dir = user_config_dir(posix, appdata, xdg, home);
            let file = global_file(posix, own, dir);
            let own_counts = own is Some && absolute(posix, own->0);
            let xdg_counts = xdg is Some && absolute(posix, xdg->0);
            let under = |d: Seq<char>|
                joined_path(posix, joined_path(posix, d, "paperdown"@), "paperdown.toml"@);
            &&& own_counts ==> file == Some(joined_path(posix, own->0, "paperdown.toml"@))
            &&& !own_counts && xdg_counts ==> file == Some(under(xdg->0))
            &&& !own_counts && !xdg_counts && home is Some ==> file == Some(
                under(joined_path(posix, home->0, ".config"@)),
            )
            &&& !own_counts && !xdg_counts && home is None ==> file is None
            &&& user_config_dir(PathStyle::Windows, appdata, xdg, home) == appdata
        }),
{
}

/// An error of a configuration file names the file, and ends with the reason, if there is one.
pub proof fn law_load_errors_name_the_file(path: String, reason: String, field: &'static str)
    ensures
        ({
            let text = load_error_text(ConfigLoadError::Read { reason, path });
            has_prefix(text, "Failed to read config file "@ + path@ + ": "@) && has_suffix(
                text,
                reason@,
            )
        }),
        ({
            let text = load_error_text(ConfigLoadError::Parse { reason, path });
            has_prefix(text, "Failed to parse config file "@ + path@ + ": "@) && has_suffix(
                text,
                reason@,
            )
        }),
        ({
            let text = load_error_text(ConfigLoadError::InvalidPositive { field, path });
            has_prefix(text, "config field `"@ + field@ + "`"@) && has_suffix(
                text,
                path@ + " must be greater than 0"@,
            )
        }),
{
    lemma_parts_at_the_ends("Failed to read config file "@ + path@, ": "@, reason@);
    lemma_parts_at_the_ends("Failed to parse config file "@ + path@, ": "@, reason@);
    let a = "config field `"@ + field@;
    let c = path@ + " must be greater than 0"@;
    reveal_strlit("` in ");
    reveal_strlit("`");
    reveal_strlit(" in ");
    assert("` in "@ =~= "`"@ + " in "@);
    lemma_parts_at_the_ends(a + "`"@, " in "@, c);
    assert(a + "` in "@ + path@ + " must be greater than 0"@ =~= a + "`"@ + " in "@ + c);
}

/// An error while a configuration file is made names what could not be made, and ends with the
/// reason, if there is one.
pub proof fn law_init_errors_name_the_place(path: String, reason: String)
    ensures
        has_suffix(init_error_text(ConfigInitError::Exists { path }), path@),
        ({
            let text = init_error_text(ConfigInitError::CreateDir { path, reason });
            has_prefix(text, "failed to create config directory "@ + path@ + ": "@) && has_suffix(
                text,
                reason@,
            )
        }),
        ({
            let text = init_error_text(ConfigInitError::Write { path, reason });
            has_prefix(text, "failed to write config file "@ + path@ + ": "@) && has_suffix(
                text,
                reason@,
            )
        }),
{
    let e = "config file already exists: "@;
    lemma_parts_at_the_ends(e, Seq::empty(), path@);
    assert(e + Seq::empty() + path@ =~= e + path@);
    lemma_parts_at_the_ends("failed to create config directory "@ + path@, ": "@, reason@);
    lemma_parts_at_the_ends("failed to write config file "@ + path@, ": "@, reason@);
}

} // verus!
