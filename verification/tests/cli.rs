use clap::builder::RangedU64ValueParser;
use clap::{Arg, ArgAction, ArgMatches, Command};
use paperdown::cli::{bool_override, parse_positive_usize, Cli};
use paperdown::config::ConfigOverrides;

fn path(name: &'static str, short: char, long: &'static str) -> Arg {
    Arg::new(name).short(short).long(long)
}

fn command() -> Command {
    Command::new("paperdown")
        .arg(path("input", 'i', "input"))
        .arg(path("output", 'o', "output").default_value("md"))
        .arg(path("config", 'c', "config"))
        .arg(path("env_file", 'e', "env"))
        .arg(
            Arg::new("timeout")
                .long("timeout")
                .value_parser(RangedU64ValueParser::<u64>::new().range(1..)),
        )
        .arg(
            Arg::new("max_download_bytes")
                .long("max-download-bytes")
                .value_parser(RangedU64ValueParser::<u64>::new().range(1..)),
        )
        .arg(Arg::new("workers").long("workers").value_parser(parse_positive_usize))
        .arg(Arg::new("ocr_workers").long("ocr-workers").value_parser(parse_positive_usize))
        .arg(
            Arg::new("quiet")
                .short('q')
                .long("quiet")
                .action(ArgAction::SetTrue)
                .conflicts_with("verbose"),
        )
        .arg(Arg::new("verbose").short('v').long("verbose").action(ArgAction::SetTrue))
        .arg(Arg::new("overwrite").long("overwrite").action(ArgAction::SetTrue))
        .arg(
            Arg::new("normalize_tables")
                .short('n')
                .long("normalize-tables")
                .action(ArgAction::SetTrue),
        )
        .arg(Arg::new("okf").long("okf").action(ArgAction::SetTrue))
}

fn cli_of(m: &ArgMatches) -> Cli {
    let text = |name: &str| m.get_one::<String>(name).cloned();
    Cli {
        input: text("input"),
        output: text("output").expect("default"),
        config: text("config"),
        env_file: text("env_file"),
        timeout: m.get_one::<u64>("timeout").copied(),
        max_download_bytes: m.get_one::<u64>("max_download_bytes").copied(),
        workers: m.get_one::<usize>("workers").copied(),
        ocr_workers: m.get_one::<usize>("ocr_workers").copied(),
        quiet: m.get_flag("quiet"),
        verbose: m.get_flag("verbose"),
        overwrite: m.get_flag("overwrite"),
        normalize_tables: m.get_flag("normalize_tables"),
        okf: m.get_flag("okf"),
        command: None,
    }
}

fn try_parse(args: &[&str]) -> Option<Cli> {
    command().try_get_matches_from(args).ok().map(|m| cli_of(&m))
}

fn parse(args: &[&str]) -> Cli {
    try_parse(args).expect("arguments are accepted")
}

#[test]
fn config_overrides_capture_only_explicit_cli_values() {
    let cli = parse(&[
        "paperdown",
        "--input",
        "in.pdf",
        "--env",
        "custom.env",
        "--timeout",
        "9",
        "--max-download-bytes",
        "99",
        "--workers",
        "3",
        "--ocr-workers",
        "2",
        "--verbose",
        "--overwrite",
        "--normalize-tables",
        "--okf",
    ]);

    assert_eq!(
        cli.config_overrides(),
        ConfigOverrides {
            env_file: Some("custom.env".to_string()),
            timeout: Some(9),
            max_download_bytes: Some(99),
            workers: Some(3),
            ocr_workers: Some(2),
            verbose: Some(true),
            overwrite: Some(true),
            normalize_tables: Some(true),
            okf: Some(true),
        }
    );
}

#[test]
fn quiet_disables_verbose_config_override() {
    let cli = parse(&["paperdown", "--input", "in.pdf", "--quiet"]);

    assert_eq!(
        cli.config_overrides(),
        ConfigOverrides { verbose: Some(false), ..ConfigOverrides::default() }
    );
}

#[test]
fn rejects_zero_positive_fields() {
    assert!(try_parse(&["paperdown", "--input", "in.pdf", "--timeout", "0"]).is_none());
    assert!(try_parse(&["paperdown", "--input", "in.pdf", "--max-download-bytes", "0"]).is_none());
    assert!(try_parse(&["paperdown", "--input", "in.pdf", "--workers", "0"]).is_none());
    assert!(try_parse(&["paperdown", "--input", "in.pdf", "--ocr-workers", "0"]).is_none());
    assert!(try_parse(&["paperdown", "-i", "in.pdf", "-e", ".env", "-n"]).is_some());
}

#[test]
fn cli_parses_okf_flag() {
    let cli = parse(&["paperdown", "--input", "in.pdf", "--okf"]);

    assert_eq!(cli.config_overrides().okf, Some(true));
    assert_eq!(cli.config_overrides().normalize_tables, None);
}

#[test]
fn positive_numbers_are_read_and_others_refused() {
    assert_eq!(parse_positive_usize("12"), Ok(12));
    assert_eq!(parse_positive_usize("+7"), Ok(7));
    assert_eq!(parse_positive_usize("0"), Err("must be greater than 0".to_string()));
    assert_eq!(parse_positive_usize("x1"), Err("invalid integer: x1".to_string()));
    assert_eq!(parse_positive_usize(""), Err("invalid integer: ".to_string()));
    assert_eq!(parse_positive_usize(&usize::MAX.to_string()), Ok(usize::MAX));
    assert!(parse_positive_usize("99999999999999999999999").is_err());
}

#[test]
fn a_pair_of_flags_sets_one_value_or_none() {
    assert_eq!(bool_override(true, false), Some(true));
    assert_eq!(bool_override(false, true), Some(false));
    assert_eq!(bool_override(false, false), None);
    assert_eq!(bool_override(true, true), None);
}
