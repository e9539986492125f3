use paperdown::input::{
    check_pdf, collect_pdfs, load_api_key, ApiKeyProblem, DirEntry, EnvFile, InputError, InputPath,
};
use paperdown::paths::PathStyle;

const POSIX: PathStyle = PathStyle::Posix;

fn error(input: InputPath) -> InputError {
    match collect_pdfs(POSIX, &input) {
        Ok(_) => panic!("expected an error"),
        Err(e) => e,
    }
}

#[test]
fn cli_reports_missing_input_path() {
    let e = error(InputPath::Missing { given: "/definitely/missing/path.pdf".to_string() });
    assert!(e.message().contains("Input path does not exist"));
    assert_eq!(e.message(), "Input path does not exist: /definitely/missing/path.pdf");
}

#[test]
fn a_file_must_be_a_pdf() {
    let file = InputPath::File { path: "/in/a.PDF".to_string() };
    let pdfs = collect_pdfs(POSIX, &file).ok().expect("pdf");
    assert_eq!(pdfs, vec!["/in/a.PDF"]);
    let e = error(InputPath::File { path: "/in/a.txt".to_string() });
    assert_eq!(e.message(), "Input must be a PDF: /in/a.txt");
    assert!(matches!(error(InputPath::Other { path: "/dev".to_string() }), InputError::Missing { .. }));
    assert!(check_pdf(POSIX, "/in/a.pdf", true).is_ok());
    assert!(check_pdf(POSIX, "/in/a.pdf", false).is_err());
    assert!(check_pdf(POSIX, "/in/pdf", true).is_err());
}

#[test]
fn the_pdfs_of_a_directory_are_sorted() {
    let entry = |path: &str, is_file: bool| DirEntry { path: path.to_string(), is_file };
    let entries = vec![
        entry("/in/b.pdf", true),
        entry("/in/a.txt", true),
        entry("/in/B.pdf", true),
        entry("/in/dir.pdf", false),
        entry("/in/a.pdf", true),
        entry("/in/a b.pdf", true),
    ];
    let pdfs = collect_pdfs(POSIX, &InputPath::Directory { path: "/in".to_string(), entries });
    assert_eq!(
        pdfs.ok().expect("pdfs"),
        vec!["/in/B.pdf", "/in/a b.pdf", "/in/a.pdf", "/in/b.pdf"]
    );
    let e = error(InputPath::Directory { path: "/in".to_string(), entries: Vec::new() });
    assert_eq!(e.message(), "No PDF files found in: /in");
}

fn entries(items: &[(&str, &str)]) -> EnvFile {
    EnvFile::Entries(items.iter().map(|(a, b)| (a.to_string(), b.to_string())).collect())
}

#[test]
fn the_key_in_the_file_comes_before_the_environment() {
    let file = entries(&[("OTHER", "x"), ("ZAI_API_KEY", "one"), ("ZAI_API_KEY", "two")]);
    assert_eq!(load_api_key("e", &file, Some("env")).ok().as_deref(), Some("two"));
    let blank = entries(&[("ZAI_API_KEY", "one"), ("ZAI_API_KEY", "  ")]);
    assert_eq!(load_api_key("e", &blank, Some("env")).ok().as_deref(), Some("env"));
    assert_eq!(load_api_key("e", &EnvFile::Missing, Some(" k ")).ok().as_deref(), Some(" k "));
}

#[test]
fn without_a_key_it_is_said_why() {
    let why = |file: EnvFile, environment: Option<&str>| {
        load_api_key("dir/.env", &file, environment).expect_err("no key")
    };
    let e = why(EnvFile::Missing, Some(" "));
    assert_eq!(e.problem, ApiKeyProblem::FileMissing);
    assert_eq!(e.message(), "ZAI_API_KEY is not set and env file was not found: dir/.env");
    let e = why(entries(&[("ZAI_API_KEY", "")]), None);
    assert_eq!(e.problem, ApiKeyProblem::NotFound);
    assert_eq!(e.message(), "ZAI_API_KEY was not found in dir/.env");
    let e = why(EnvFile::Inaccessible, Some("k"));
    assert_eq!(e.message(), "Failed to access env file metadata: dir/.env");
    let e = why(EnvFile::Unreadable, Some("k"));
    assert_eq!(e.message(), "Failed to read or parse env file: dir/.env");
}
