use paperdown::config::{
    check_config_file, config_dir, config_file_path, config_to_check, find_local_config,
    global_config_file_path, init_config_at, load_config_from_path, load_discovered_configs,
    load_effective_config, load_effective_config_with_sources, local_config_candidates,
    plan_config_file, ConfigInitError, ConfigLoadError, ConfigOverrides, FileOutcome,
    ResolvedConfig, WriteMode, CONFIG_FILE_NAME, DEFAULT_CONFIG_TEMPLATE,
    DEFAULT_MAX_DOWNLOAD_BYTES, DEFAULT_OCR_WORKERS, DEFAULT_TIMEOUT, DEFAULT_WORKERS,
};
use paperdown::paths::PathStyle;
use toml::{Table, Value};

const POSIX: PathStyle = PathStyle::Posix;

fn number(table: &Table, name: &str) -> Option<u64> {
    table.get(name).and_then(Value::as_integer).map(|n| u64::try_from(n).expect("not negative"))
}

fn size(table: &Table, name: &str) -> Option<usize> {
    number(table, name).map(|n| usize::try_from(n).expect("fits"))
}

fn parsed(text: &str) -> ConfigOverrides {
    let table: Table = text.parse().expect("valid TOML");
    let flag = |name: &str| table.get(name).and_then(Value::as_bool);
    ConfigOverrides {
        env_file: table.get("env-file").and_then(Value::as_str).map(str::to_string),
        timeout: number(&table, "timeout"),
        max_download_bytes: number(&table, "max-download-bytes"),
        workers: size(&table, "workers"),
        ocr_workers: size(&table, "ocr-workers"),
        verbose: flag("verbose"),
        overwrite: flag("overwrite"),
        normalize_tables: flag("normalize-tables"),
        okf: flag("okf"),
    }
}

#[test]
fn default_config_template_is_valid() {
    let config = load_config_from_path(POSIX, parsed(DEFAULT_CONFIG_TEMPLATE),
        &format!("/temp/{CONFIG_FILE_NAME}"),
    )
    .expect("load default config");

    assert_eq!(
        config,
        ConfigOverrides {
            env_file: Some("/temp/.env".to_string()),
            timeout: Some(DEFAULT_TIMEOUT),
            max_download_bytes: Some(DEFAULT_MAX_DOWNLOAD_BYTES),
            workers: Some(DEFAULT_WORKERS),
            ocr_workers: Some(DEFAULT_OCR_WORKERS),
            verbose: Some(false),
            overwrite: Some(false),
            normalize_tables: Some(false),
            okf: None,
        }
    );
}

#[test]
fn init_default_config_refuses_existing_without_force() {
    let path = config_file_path(POSIX, "/temp/config");
    let plan = plan_config_file(POSIX, &path, false).ok().expect("place for the file");
    assert_eq!(plan.dir, "/temp/config/paperdown");
    assert_eq!(plan.mode, WriteMode::CreateNew);
    let exists = FileOutcome::AlreadyExists("File exists".to_string());
    let err = init_config_at(path.clone(), plan.dir, plan.mode, FileOutcome::Done, exists)
        .expect_err("existing config is refused");
    match err {
        ConfigInitError::Exists { path: err_path } => assert_eq!(err_path, path),
        other => panic!("expected exists error, got {other:?}"),
    }
}

#[test]
fn init_default_config_overwrites_with_force() {
    let path = config_file_path(POSIX, "/temp/config");
    let plan = plan_config_file(POSIX, &path, true).ok().expect("place for the file");
    assert_eq!(plan.mode, WriteMode::Replace);
    assert_eq!(plan.text, DEFAULT_CONFIG_TEMPLATE);
    let done = FileOutcome::Done;
    let created = init_config_at(path.clone(), plan.dir, plan.mode, FileOutcome::Done, done)
        .expect("force overwrite config");
    assert_eq!(created, path);
}

#[test]
fn failures_to_write_a_configuration_are_told() {
    let attempt_in = |mode: WriteMode, made: FileOutcome, written: FileOutcome| {
        init_config_at("/c/f".to_string(), "/c".to_string(), mode, made, written)
            .map_err(|e| e.message())
    };
    let attempt = |made, written| attempt_in(WriteMode::CreateNew, made, written);
    let failed = || FileOutcome::Failed("why".to_string());
    let exists = || FileOutcome::AlreadyExists("there".to_string());
    assert_eq!(
        attempt(failed(), FileOutcome::Done),
        Err("failed to create config directory /c: why".to_string())
    );
    assert_eq!(
        attempt(FileOutcome::Done, failed()),
        Err("failed to write config file /c/f: why".to_string())
    );
    assert_eq!(
        attempt(FileOutcome::Done, exists()),
        Err("config file already exists: /c/f".to_string())
    );
    for mode in [WriteMode::CreateNew, WriteMode::Replace] {
        assert_eq!(
            attempt_in(mode, exists(), FileOutcome::Done),
            Err("failed to create config directory /c: there".to_string())
        );
    }
    assert_eq!(
        attempt_in(WriteMode::Replace, FileOutcome::Done, exists()),
        Err("failed to write config file /c/f: there".to_string())
    );
    assert_eq!(
        plan_config_file(POSIX, "/", false).err().expect("no place").message(),
        "could not determine XDG config directory"
    );
}

#[test]
fn check_config_file_validates_explicit_path() {
    let checked = |explicit: &str, text: &str| {
        let path = config_to_check(Some(explicit.to_string()), Some("/global".to_string()))
            .expect("a file to check");
        check_config_file(POSIX, parsed(text), path)
    };
    assert_eq!(
        checked("/temp/valid.toml", "timeout = 9\n").expect("valid config"),
        "/temp/valid.toml"
    );
    let err = checked("/temp/invalid.toml", "timeout = 0\n").expect_err("invalid config rejected");
    assert!(matches!(err, ConfigLoadError::InvalidPositive { .. }));
    assert_eq!(
        err.message(),
        "config field `timeout` in /temp/invalid.toml must be greater than 0"
    );
}

#[test]
fn the_global_file_is_checked_if_none_is_named() {
    assert_eq!(config_to_check(None, Some("/g".to_string())).expect("global"), "/g");
    assert_eq!(
        config_to_check(None, None).expect_err("no file").message(),
        "could not determine XDG config directory"
    );
}

#[test]
fn other_failures_to_load_are_told() {
    let read = ConfigLoadError::Read { reason: "gone".to_string(), path: "p".to_string() };
    assert_eq!(read.message(), "Failed to read config file p: gone");
    let parse = ConfigLoadError::Parse { reason: "odd".to_string(), path: "p".to_string() };
    assert_eq!(parse.message(), "Failed to parse config file p: odd");
}

#[test]
fn merge_preserves_explicit_false_override() {
    let lower = ConfigOverrides {
        verbose: Some(true),
        overwrite: Some(true),
        normalize_tables: Some(true),
        ..ConfigOverrides::default()
    };
    let higher = ConfigOverrides {
        verbose: Some(false),
        overwrite: Some(false),
        normalize_tables: Some(false),
        ..ConfigOverrides::default()
    };

    let merged = lower.merge(higher);

    assert_eq!(merged.verbose, Some(false));
    assert_eq!(merged.overwrite, Some(false));
    assert_eq!(merged.normalize_tables, Some(false));
}

#[test]
fn rejects_zero_numeric_values_with_field_and_path() {
    for field in ["timeout", "max-download-bytes", "workers", "ocr-workers"] {
        let path = format!("/temp/{field}.toml");
        let err = load_config_from_path(POSIX, parsed(&format!("{field} = 0\n")), &path)
            .expect_err("zero numeric field is invalid");

        match err {
            ConfigLoadError::InvalidPositive { field: err_field, path: err_path } => {
                assert_eq!(err_field, field);
                assert_eq!(err_path, path);
            }
            other => panic!("expected invalid-positive error for {field}, got {other:?}"),
        }
    }
}

#[test]
fn rebases_relative_env_file_to_config_parent() {
    let config = load_config_from_path(POSIX, parsed(r#"env-file = ".env""#),
        &format!("/temp/sub/{CONFIG_FILE_NAME}"),
    )
    .expect("load config");
    assert_eq!(config.env_file.as_deref(), Some("/temp/sub/.env"));
    let here = load_config_from_path(POSIX, parsed(r#"env-file = "k.env""#), CONFIG_FILE_NAME);
    assert_eq!(here.expect("load config").env_file.as_deref(), Some("k.env"));
    let absolute = load_config_from_path(POSIX, parsed(r#"env-file = "/k.env""#), "/temp/c.toml");
    assert_eq!(absolute.expect("load config").env_file.as_deref(), Some("/k.env"));
}

#[test]
fn load_effective_config_merges_global_then_local_then_cli() {
    let global = load_config_from_path(POSIX, parsed(
            r#"
env-file = "global.env"
timeout = 9
max-download-bytes = 900
workers = 4
ocr-workers = 5
verbose = true
overwrite = true
normalize-tables = true
"#,
        ),
        &config_file_path(POSIX, "/temp/config"),
    )
    .expect("global config");
    let local = load_config_from_path(POSIX, parsed(
            r#"
env-file = "local.env"
workers = 2
ocr-workers = 3
overwrite = false
"#,
        ),
        "/temp/project/paperdown.toml",
    )
    .expect("local config");
    let cli = ConfigOverrides {
        timeout: Some(11),
        max_download_bytes: Some(1_100),
        verbose: Some(false),
        normalize_tables: Some(false),
        ..ConfigOverrides::default()
    };

    let file_config = load_discovered_configs(Some(global), Some(local));
    let config = ResolvedConfig::default().apply(file_config).apply(cli);

    assert_eq!(
        config,
        ResolvedConfig {
            env_file: "/temp/project/local.env".to_string(),
            timeout: 11,
            max_download_bytes: 1_100,
            workers: 2,
            ocr_workers: 3,
            verbose: false,
            overwrite: false,
            normalize_tables: false,
            okf: false,
        }
    );
}

#[test]
fn load_effective_config_with_sources_reports_loaded_files() {
    let global = config_file_path(POSIX, "/temp/config");
    let candidates = local_config_candidates(POSIX, "/temp/project/nested");
    assert_eq!(
        candidates,
        vec![
            "/temp/project/nested/paperdown.toml",
            "/temp/project/paperdown.toml",
            "/temp/paperdown.toml",
            "/paperdown.toml",
        ]
    );
    let local =
        find_local_config(&candidates, &vec![false, true, false, true]).expect("local config");
    assert_eq!(local, "/temp/project/paperdown.toml");

    let effective = load_effective_config_with_sources(
        None,
        Some((global.clone(), parsed("timeout = 9\n"))),
        Some((local.clone(), parsed("workers = 2\n"))),
        ConfigOverrides::default(),
    );

    assert_eq!(effective.config_files, vec![global, local]);
    assert_eq!(effective.settings.timeout, 9);
    assert_eq!(effective.settings.workers, 2);
}

#[test]
fn explicit_config_disables_local_discovery_and_still_yields_to_cli() {
    let explicit = load_config_from_path(POSIX, parsed(
            r#"
env-file = "explicit.env"
timeout = 7
max-download-bytes = 700
workers = 6
ocr-workers = 4
verbose = true
overwrite = true
normalize-tables = true
"#,
        ),
        "/temp/configs/chosen.toml",
    )
    .expect("explicit config");
    let cli = ConfigOverrides {
        max_download_bytes: Some(99),
        verbose: Some(false),
        overwrite: Some(false),
        ..ConfigOverrides::default()
    };
    let config = load_effective_config_with_sources(
        Some(("/temp/configs/chosen.toml".to_string(), explicit)),
        Some(("/g".to_string(), parsed("okf = true"))),
        Some(("/l".to_string(), parsed("workers = 0"))),
        cli,
    );
    assert_eq!(config.config_files, vec!["/temp/configs/chosen.toml"]);
    assert_eq!(
        config.settings,
        ResolvedConfig {
            env_file: "/temp/configs/explicit.env".to_string(),
            timeout: 7,
            max_download_bytes: 99,
            workers: 6,
            ocr_workers: 4,
            verbose: false,
            overwrite: false,
            normalize_tables: true,
            okf: false,
        }
    );
}

#[test]
fn what_is_built_in_is_used_unless_set() {
    let config = load_effective_config(ConfigOverrides::default(), ConfigOverrides::default());
    assert_eq!(config, ResolvedConfig::default());
    assert_eq!(config.env_file, ".env");
    assert_eq!(config.timeout, 180);
    assert_eq!(config.max_download_bytes, 20_971_520);
    assert_eq!((config.workers, config.ocr_workers), (32, 2));
    assert!(!config.okf);
}

#[test]
fn merging_and_applying_agree() {
    let a = ConfigOverrides { timeout: Some(1), okf: Some(true), ..ConfigOverrides::default() };
    let b = ConfigOverrides { timeout: Some(2), workers: Some(3), ..ConfigOverrides::default() };
    let c = ConfigOverrides { workers: Some(4), ..ConfigOverrides::default() };
    let one = ResolvedConfig::default().apply(a.clone()).apply(b.clone());
    assert_eq!(one, ResolvedConfig::default().apply(a.clone().merge(b.clone())));
    assert_eq!(
        a.clone().merge(b.clone()).merge(c.clone()),
        a.clone().merge(b.merge(c))
    );
    assert_eq!(a.clone().merge(ConfigOverrides::default()), a);
    assert_eq!(ConfigOverrides::default().merge(a.clone()), a);
}

#[test]
fn the_global_file_is_where_the_environment_says() {
    assert_eq!(
        global_config_file_path(POSIX, Some("/own"), Some("/conf")).as_deref(),
        Some("/own/paperdown.toml")
    );
    assert_eq!(
        global_config_file_path(POSIX, Some("own"), Some("/conf")).as_deref(),
        Some("/conf/paperdown/paperdown.toml")
    );
    assert_eq!(global_config_file_path(POSIX, None, None), None);
    assert_eq!(config_dir(POSIX, None, Some("/xdg"), Some("/home/u")).as_deref(), Some("/xdg"));
    assert_eq!(
        config_dir(POSIX, None, Some("xdg"), Some("/home/u")).as_deref(),
        Some("/home/u/.config")
    );
    assert_eq!(config_dir(POSIX, Some("/appdata"), None, None), None);
}

#[test]
fn on_windows_the_global_file_is_in_the_application_data() {
    let windows = PathStyle::Windows;
    let dir = config_dir(windows, Some(r"C:\Users\u\AppData\Roaming"), Some("/xdg"), Some("/h"));
    assert_eq!(dir.as_deref(), Some(r"C:\Users\u\AppData\Roaming"));
    assert_eq!(
        global_config_file_path(windows, None, dir.as_deref()).as_deref(),
        Some(r"C:\Users\u\AppData\Roaming\paperdown\paperdown.toml")
    );
    assert_eq!(
        global_config_file_path(windows, Some(r"D:\own"), dir.as_deref()).as_deref(),
        Some(r"D:\own\paperdown.toml")
    );
    for own in ["D:own", r"\own", "own", "/own"] {
        assert_eq!(global_config_file_path(windows, Some(own), None), None, "{own:?}");
    }
    assert_eq!(config_dir(windows, None, Some("/xdg"), Some("/h")), None);
    assert_eq!(
        local_config_candidates(windows, r"C:\a\b"),
        vec![r"C:\a\b\paperdown.toml", r"C:\a\paperdown.toml", r"C:\paperdown.toml"]
    );
}
