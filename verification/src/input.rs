//! Which PDFs are processed, and with which API key.

use vstd::prelude::*;

use crate::order::{before, keyed, law_sorted_is_in_order, sort_by_key, sorted};
use crate::paths::{is_pdf_path, pdf_path, PathStyle};
use crate::pieces::texts;
use crate::text::{
    chars_of, copy_string, has_suffix, is_white_space, law_trimming_takes_only_the_ends,
    lemma_parts_at_the_ends, push_str, spells, string_of, trim, trimmed, CharClass,
};

verus! {

// ---- PDFs ----

/// An entry of a directory.
pub struct DirEntry {
    pub path: String,
    pub is_file: bool,
}

/// What an input path leads to.
pub enum InputPath {
    /// Nothing.
    Missing { given: String },
    /// A file.
    File { path: String },
    /// A directory.
    Directory { path: String, entries: Vec<DirEntry> },
    /// Something else.
    Other { path: String },
}

/// Why there is nothing to process.
pub enum InputError {
    /// There is nothing at the path.
    Missing { path: String },
    /// The file is no PDF.
    NotPdf { path: String },
    /// The directory holds no PDF.
    NoPdfs { path: String },
}

/// An error in words.
pub open spec fn input_error_text(e: InputError) -> Seq<char> {
    match e {
        InputError::Missing { path } => "Input path does not exist: "@ + path@,
        InputError::NotPdf { path } => "Input must be a PDF: "@ + path@,
        InputError::NoPdfs { path } => "No PDF files found in: "@ + path@,
    }
}

impl InputError {
    /// The error in words.
    pub fn message(&self) -> (r: String)
        ensures
            r@ == input_error_text(*self),
    {
        let mut out = match self {
            InputError::Missing { .. } => chars_of("Input path does not exist: "),
            InputError::NotPdf { .. } => chars_of("Input must be a PDF: "),
            InputError::NoPdfs { .. } => chars_of("No PDF files found in: "),
        };
        match self {
            InputError::Missing { path } => push_str(&mut out, path.as_str()),
            InputError::NotPdf { path } => push_str(&mut out, path.as_str()),
            InputError::NoPdfs { path } => push_str(&mut out, path.as_str()),
        }
        string_of(&out)
    }
}

/// The PDFs among the entries of a directory.
pub open spec fn pdfs_among(style: PathStyle, entries: Seq<DirEntry>) -> Seq<(Seq<char>, ())>
    decreases entries.len(),
{
    if entries.len() == 0 {
        Seq::empty()
    } else {
        let e = entries.last();
        let before = pdfs_among(style, entries.drop_last());
        if e.is_file && pdf_path(style, e.path@) {
            before.push((e.path@, ()))
        } else {
            before
        }
    }
}

/// The keys of a list.
pub open spec fn keys(s: Seq<(Seq<char>, ())>) -> Seq<Seq<char>> {
    Seq::new(s.len(), |i: int| s[i].0)
}

/// Whether the text `p` has the extension of a PDF.
pub fn has_pdf_extension(style: PathStyle, p: &str) -> (r: bool)
    ensures
        r == pdf_path(style, p@),
{
    let chars = chars_of(p);
    is_pdf_path(style, &chars)
}

fn pdfs_of(style: PathStyle, entries: &Vec<DirEntry>) -> (out: Vec<(String, ())>)
    ensures
        keyed(out@) == pdfs_among(style, entries@),
{
    let mut out: Vec<(String, ())> = Vec::new();
    let mut i: usize = 0;
    assert(entries@.take(0) =~= Seq::empty());
    assert(keyed(out@) =~= pdfs_among(style, entries@.take(0)));
    while i < entries.len()
        invariant
            i <= entries@.len(),
            keyed(out@) == pdfs_among(style, entries@.take(i as int)),
        decreases entries.len() - i,
    {
        let ghost before = keyed(out@);
        assert(entries@.take(i + 1).drop_last() =~= entries@.take(i as int));
        assert(entries@.take(i + 1).last() == entries@[i as int]);
        if entries[i].is_file && has_pdf_extension(style, entries[i].path.as_str()) {
            out.push((copy_string(&entries[i].path), ()));
            assert(keyed(out@) =~= before.push((entries@[i as int].path@, ())));
        }
        i += 1;
    }
    assert(entries@.take(i as int) =~= entries@);
    out
}

/// The PDFs to process: the file itself, or those in the directory in the order of their names.
pub fn collect_pdfs(style: PathStyle, input: &InputPath) -> (r: Result<Vec<String>, InputError>)
    ensures
        match *input {
            InputPath::Missing { given } => r matches Err(InputError::Missing { path }) && path@
                == given@,
            InputPath::File { path: p } => if pdf_path(style, p@) {
                r is Ok && texts(r->Ok_0@) == seq![p@]
            } else {
                r matches Err(InputError::NotPdf { path }) && path@ == p@
            },
            InputPath::Directory { path: p, entries } => if pdfs_among(style, entries@).len() == 0 {
                r matches Err(InputError::NoPdfs { path }) && path@ == p@
            } else {
                r is Ok && texts(r->Ok_0@) == keys(sorted(pdfs_among(style, entries@)))
            },
            InputPath::Other { path: p } => r matches Err(InputError::Missing { path }) && path@
                == p@,
        },
{
    match input {
        InputPath::Missing { given } => Err(InputError::Missing { path: copy_string(given) }),
        InputPath::File { path } => {
            if !has_pdf_extension(style, path.as_str()) {
                return Err(InputError::NotPdf { path: copy_string(path) });
            }
            let mut out: Vec<String> = Vec::new();
            out.push(copy_string(path));
            assert(texts(out@) =~= seq![path@]);
            Ok(out)
        },
        InputPath::Directory { path, entries } => {
            let pdfs = pdfs_of(style, entries);
            if pdfs.len() == 0 {
                assert(pdfs_among(style, entries@).len() == 0);
                return Err(InputError::NoPdfs { path: copy_string(path) });
            }
            let pdfs = sort_by_key(pdfs);
            let ghost all = keyed(pdfs@);
            proof {
                law_sorted_is_in_order(pdfs_among(style, entries@));
            }
            let mut out: Vec<String> = Vec::new();
            let mut i: usize = 0;
            while i < pdfs.len()
                invariant
                    i <= pdfs@.len(),
                    all == keyed(pdfs@),
                    out@.len() == i,
                    forall|k: int| 0 <= k < i ==> (#[trigger] out@[k])@ == all[k].0,
                decreases pdfs.len() - i,
            {
                out.push(copy_string(&pdfs[i].0));
                i += 1;
            }
            assert(texts(out@) =~= keys(all));
            Ok(out)
        },
        InputPath::Other { path } => Err(InputError::Missing { path: copy_string(path) }),
    }
}

/// The file to process, if it is a PDF.
pub fn check_pdf(style: PathStyle, path: &str, is_file: bool) -> (r: Result<(), InputError>)
    ensures
        r is Ok <==> is_file && pdf_path(style, path@),
        r is Err ==> (r matches Err(InputError::NotPdf { path: p }) && p@ == path@),
{
    if is_file && has_pdf_extension(style, path) {
        Ok(())
    } else {
        let chars = chars_of(path);
        Err(InputError::NotPdf { path: string_of(&chars) })
    }
}

// ---- The API key ----

/// The name of the API key in the environment and in the file for it.
pub const API_KEY_NAME: &'static str = "ZAI_API_KEY";

/// What the file for the API key holds.
pub enum EnvFile {
    /// It is not known whether it exists.
    Inaccessible,
    /// It does not exist.
    Missing,
    /// It cannot be read.
    Unreadable,
    /// Names and values, in order.
    Entries(Vec<(String, String)>),
}

/// Why there is no API key.
#[derive(Clone, Copy, Debug, PartialEq, Eq, Structural)]
pub enum ApiKeyProblem {
    /// It is not known whether the file exists.
    Inaccessible,
    /// The file cannot be read.
    Unreadable,
    /// The file does not exist, and the environment has no key.
    FileMissing,
    /// Neither the file nor the environment has a key.
    NotFound,
}

/// Why there is no API key, and in which file it was looked for.
#[derive(Debug)]
pub struct ApiKeyError {
    pub problem: ApiKeyProblem,
    pub env_file: String,
}

/// An error in words.
pub open spec fn key_error_text(problem: ApiKeyProblem, env_file: Seq<char>) -> Seq<char> {
    (match problem {
        ApiKeyProblem::Inaccessible => "Failed to access env file metadata: "@,
        ApiKeyProblem::Unreadable => "Failed to read or parse env file: "@,
        ApiKeyProblem::FileMissing => "ZAI_API_KEY is not set and env file was not found: "@,
        ApiKeyProblem::NotFound => "ZAI_API_KEY was not found in "@,
    }) + env_file
}

impl ApiKeyError {
    /// The error in words.
    pub fn message(&self) -> (r: String)
        ensures
            r@ == key_error_text(self.problem, self.env_file@),
    {
        let mut out = match self.problem {
            ApiKeyProblem::Inaccessible => chars_of("Failed to access env file metadata: "),
            ApiKeyProblem::Unreadable => chars_of("Failed to read or parse env file: "),
            ApiKeyProblem::FileMissing => chars_of(
                "ZAI_API_KEY is not set and env file was not found: ",
            ),
            ApiKeyProblem::NotFound => chars_of("ZAI_API_KEY was not found in "),
        };
        push_str(&mut out, self.env_file.as_str());
        string_of(&out)
    }
}

/// Whether `s` is more than white space.
pub open spec fn not_blank(s: Seq<char>) -> bool {
    trim(s, CharClass::Space).len() > 0
}

/// The key among the entries of a file: the last one counts, and none if that is blank.
pub open spec fn key_among(entries: Seq<(String, String)>) -> Option<Seq<char>>
    decreases entries.len(),
{
    if entries.len() == 0 {
        None
    } else if entries.last().0@ == API_KEY_NAME@ {
        if not_blank(entries.last().1@) {
            Some(entries.last().1@)
        } else {
            None
        }
    } else {
        key_among(entries.drop_last())
    }
}

/// The API key: from the file, else from the environment.
pub open spec fn api_key(file: EnvFile, environment: Option<Seq<char>>) -> Result<
    Seq<char>,
    ApiKeyProblem,
> {
    let in_file = match file {
        EnvFile::Entries(entries) => key_among(entries@),
        _ => None,
    };
    match file {
        EnvFile::Inaccessible => Err(ApiKeyProblem::Inaccessible),
        EnvFile::Unreadable => Err(ApiKeyProblem::Unreadable),
        _ => if in_file is Some {
            Ok(in_file->0)
        } else if environment is Some && not_blank(environment->0) {
            Ok(environment->0)
        } else if file is Missing {
            Err(ApiKeyProblem::FileMissing)
        } else {
            Err(ApiKeyProblem::NotFound)
        },
    }
}

fn is_not_blank(s: &str) -> (r: bool)
    ensures
        r == not_blank(s@),
{
    let chars = chars_of(s);
    trimmed(&chars, CharClass::Space).len() > 0
}

fn find_key(entries: &Vec<(String, String)>) -> (r: Option<String>)
    ensures
        match key_among(entries@) {
            Some(key) => r is Some && r->0@ == key,
            None => r is None,
        },
{
    let mut i: usize = entries.len();
    assert(entries@.take(i as int) =~= entries@);
    while i > 0
        invariant
            i <= entries@.len(),
            key_among(entries@) == key_among(entries@.take(i as int)),
        decreases i,
    {
        assert(entries@.take(i as int).last() == entries@[i - 1]);
        assert(entries@.take(i as int).drop_last() =~= entries@.take(i - 1));
        let name = chars_of(entries[i - 1].0.as_str());
        if spells(&name, API_KEY_NAME) {
            return if is_not_blank(entries[i - 1].1.as_str()) {
                Some(copy_string(&entries[i - 1].1))
            } else {
                None
            };
        }
        i -= 1;
    }
    None
}

/// The API key: from the file `env_file`, which holds what `file` says, else from the
/// environment.
pub fn load_api_key(env_file: &str, file: &EnvFile, environment: Option<&str>) -> (r: Result<
    String,
    ApiKeyError,
>)
    ensures
        match api_key(
            *file,
            match environment {
                Some(key) => Some(key@),
                None => None,
            },
        ) {
            Ok(key) => r is Ok && r->Ok_0@ == key,
            Err(problem) => r matches Err(e) && e.problem == problem && e.env_file@ == env_file@,
        },
{
    let path = chars_of(env_file);
    let problem = match file {
        EnvFile::Inaccessible => ApiKeyProblem::Inaccessible,
        EnvFile::Unreadable => ApiKeyProblem::Unreadable,
        _ => {
            let in_file = match file {
                EnvFile::Entries(entries) => find_key(entries),
                _ => None,
            };
            if let Some(key) = in_file {
                return Ok(key);
            }
            if let Some(key) = environment {
                if is_not_blank(key) {
                    let key = chars_of(key);
                    return Ok(string_of(&key));
                }
            }
            match file {
                EnvFile::Missing => ApiKeyProblem::FileMissing,
                _ => ApiKeyProblem::NotFound,
            }
        },
    };
    Err(ApiKeyError { problem, env_file: string_of(&path) })
}

/// A key that is found is not blank.
pub proof fn law_keys_are_not_blank(file: EnvFile, environment: Option<Seq<char>>)
    ensures
        api_key(file, environment) matches Ok(key) ==> not_blank(key),
{
    if file is Entries {
        lemma_key_among((file->Entries_0)@);
    }
}

proof fn lemma_key_among(entries: Seq<(String, String)>)
    ensures
        key_among(entries) matches Some(key) ==> not_blank(key),
    decreases entries.len(),
{
    if entries.len() > 0 {
        lemma_key_among(entries.drop_last());
    }
}

/// Whether there is more than white space in `s`.
pub open spec fn has_more_than_space(s: Seq<char>) -> bool {
    exists|j: int| 0 <= j < s.len() && !is_white_space(#[trigger] s[j])
}

proof fn lemma_not_blank(s: Seq<char>)
    ensures
        not_blank(s) == has_more_than_space(s),
{
    let class = CharClass::Space;
    law_trimming_takes_only_the_ends(s, class);
    let (a, b) = choose|a: int, b: int|
        0 <= a <= b <= s.len() && trim(s, class) == #[trigger] s.subrange(a, b) && (forall|j: int|
            0 <= j < a || b <= j < s.len() ==> class.has(#[trigger] s[j])) && (a < b ==> !class.has(
            s[a],
        ) && !class.has(s[b - 1]));
    if has_more_than_space(s) {
        let j = choose|j: int| 0 <= j < s.len() && !is_white_space(#[trigger] s[j]);
        assert(!class.has(s[j]));
        assert(a <= j < b);
    }
    if a < b {
        assert(!is_white_space(s[a]));
    }
}

proof fn lemma_last_key(entries: Seq<(String, String)>, k: int)
    requires
        -1 <= k < entries.len(),
        k >= 0 ==> entries[k].0@ == API_KEY_NAME@,
        forall|j: int| k < j < entries.len() ==> (#[trigger] entries[j]).0@ != API_KEY_NAME@,
    ensures
        key_among(entries) == if k >= 0 && not_blank(entries[k].1@) {
            Some(entries[k].1@)
        } else {
            None
        },
    decreases entries.len(),
{
    if entries.len() > 0 && k < entries.len() - 1 {
        assert(entries[entries.len() - 1].0@ != API_KEY_NAME@);
        let init = entries.drop_last();
        assert forall|j: int| k < j < init.len() implies (#[trigger] init[j]).0@
            != API_KEY_NAME@ by {
            assert(init[j] == entries[j]);
        }
        lemma_last_key(init, k);
    }
}

/// The key is the last in the file if that is more than white space; else the one in the
/// environment if that is; else there is none, and it is told whether the file was there. `k` is
/// the place of the last key in the file, or -1.
pub proof fn law_key_comes_from_the_file_first(
    entries: Vec<(String, String)>,
    environment: Option<Seq<char>>,
    k: int,
)
    requires
        -1 <= k < entries@.len(),
        k >= 0 ==> entries@[k].0@ == "ZAI_API_KEY"@,
        forall|j: int| k < j < entries@.len() ==> (#[trigger] entries@[j]).0@ != "ZAI_API_KEY"@,
    ensures
        ({
            let in_file = k >= 0 && has_more_than_space(entries@[k].1@);
            let outside = environment is Some && has_more_than_space(environment->0);
            let found = api_key(EnvFile::Entries(entries), environment);
            let alone = api_key(EnvFile::Missing, environment);
            &&& in_file ==> found == Ok::<_, ApiKeyProblem>(entries@[k].1@)
            &&& !in_file && outside ==> found == Ok::<_, ApiKeyProblem>(environment->0)
            &&& !in_file && !outside ==> found == Err::<Seq<char>, _>(ApiKeyProblem::NotFound)
            &&& outside ==> alone == Ok::<_, ApiKeyProblem>(environment->0)
            &&& !outside ==> alone == Err::<Seq<char>, _>(ApiKeyProblem::FileMissing)
            &&& api_key(EnvFile::Unreadable, environment) == Err::<Seq<char>, _>(
                ApiKeyProblem::Unreadable,
            )
            &&& api_key(EnvFile::Inaccessible, environment) == Err::<Seq<char>, _>(
                ApiKeyProblem::Inaccessible,
            )
        }),
{
    lemma_last_key(entries@, k);
    if k >= 0 {
        lemma_not_blank(entries@[k].1@);
    }
    if environment is Some {
        lemma_not_blank(environment->0);
    }
}

proof fn lemma_pdfs_among(style: PathStyle, entries: Seq<DirEntry>)
    ensures
        pdfs_among(style, entries) == entries.filter(
            |e: DirEntry| e.is_file && pdf_path(style, e.path@),
        ).map_values(|e: DirEntry| (e.path@, ())),
    decreases entries.len(),
{
    let p = |e: DirEntry| e.is_file && pdf_path(style, e.path@);
    let f = |e: DirEntry| (e.path@, ());
    reveal(Seq::filter);
    if entries.len() == 0 {
        assert(entries.filter(p).map_values(f) =~= Seq::empty());
    } else {
        let init = entries.drop_last();
        lemma_pdfs_among(style, init);
        let e = entries.last();
        if p(e) {
            assert(entries.filter(p) =~= init.filter(p).push(e));
            assert(entries.filter(p).map_values(f) =~= init.filter(p).map_values(f).push(f(e)));
        } else {
            assert(entries.filter(p) =~= init.filter(p));
        }
    }
}

/// The papers in a directory are its files with the extension `pdf`, each once, and nothing else,
/// sorted by path.
pub proof fn law_papers_in_a_directory_are_its_pdfs(style: PathStyle, entries: Seq<DirEntry>)
    ensures
        ({
            let found = entries.filter(|e: DirEntry| e.is_file && pdf_path(style, e.path@));
            let papers = sorted(pdfs_among(style, entries));
            &&& papers.to_multiset() == found.map_values(|e: DirEntry| (e.path@, ())).to_multiset()
            &&& papers.len() == found.len()
            &&& forall|i: int, j: int|
                0 <= i < j < papers.len() ==> !before(
                    (#[trigger] papers[j]).0,
                    (#[trigger] papers[i]).0,
                )
        }),
{
    lemma_pdfs_among(style, entries);
    law_sorted_is_in_order(pdfs_among(style, entries));
}

/// An error of the input ends with the path, and tells what is wrong with it; one of the key ends
/// with the file in which it was looked for.
pub proof fn law_input_errors_name_the_path(path: String, problem: ApiKeyProblem)
    ensures
        has_suffix(input_error_text(InputError::Missing { path }), "does not exist: "@ + path@),
        has_suffix(input_error_text(InputError::NotPdf { path }), "must be a PDF: "@ + path@),
        has_suffix(input_error_text(InputError::NoPdfs { path }), "No PDF files found in: "@ + path@),
        has_suffix(key_error_text(problem, path@), path@),
        problem is FileMissing ==> has_suffix(
            key_error_text(problem, path@),
            "env file was not found: "@ + path@,
        ),
        problem is NotFound ==> has_suffix(
            key_error_text(problem, path@),
            "was not found in "@ + path@,
        ),
{
    reveal_strlit("Input path does not exist: ");
    reveal_strlit("Input path ");
    reveal_strlit("does not exist: ");
    reveal_strlit("Input must be a PDF: ");
    reveal_strlit("Input ");
    reveal_strlit("must be a PDF: ");
    reveal_strlit("ZAI_API_KEY is not set and env file was not found: ");
    reveal_strlit("ZAI_API_KEY is not set and ");
    reveal_strlit("env file was not found: ");
    reveal_strlit("ZAI_API_KEY was not found in ");
    reveal_strlit("ZAI_API_KEY ");
    reveal_strlit("was not found in ");
    let p = path@;
    assert("Input path does not exist: "@ =~= "Input path "@ + "does not exist: "@);
    lemma_parts_at_the_ends("Input path "@, "does not exist: "@, p);
    assert("Input must be a PDF: "@ =~= "Input "@ + "must be a PDF: "@);
    lemma_parts_at_the_ends("Input "@, "must be a PDF: "@, p);
    let none = input_error_text(InputError::NoPdfs { path });
    assert(none.skip(0) =~= none);
    let first = "ZAI_API_KEY is not set and "@;
    assert("ZAI_API_KEY is not set and env file was not found: "@ =~= first
        + "env file was not found: "@);
    lemma_parts_at_the_ends(first, "env file was not found: "@, p);
    assert("ZAI_API_KEY was not found in "@ =~= "ZAI_API_KEY "@ + "was not found in "@);
    lemma_parts_at_the_ends("ZAI_API_KEY "@, "was not found in "@, p);
    let text = key_error_text(problem, p);
    assert(text.skip(text.len() - p.len()) =~= p);
}

} // verus!
