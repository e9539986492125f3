use paperdown::okf::index::{
    parse_frontmatter_summary, regenerate_root_index, render_paper_index, render_root_index,
    source_relative_to_output, PaperDir, PaperSummary,
};
use paperdown::okf::log::{append_root_log, RootLogEntry};
use paperdown::okf::metadata::{
    extract_abstract, extract_keywords, extract_metadata, extract_title, PaperMetadata,
};
use paperdown::paths::PathStyle;

const POSIX: PathStyle = PathStyle::Posix;

// ---- Title ----

#[test]
fn extract_title_from_h1_heading() {
    let md = "# The Real Title\n\nSome body text.\n";
    assert_eq!(extract_title(md), Some("The Real Title".to_string()));
}

#[test]
fn extract_title_falls_back_to_first_plain_line() {
    let md = "![an image](x.png)\n<table>\n</table>\n| col |\n| --- |\nA Plaintext Lead Line\n";
    assert_eq!(extract_title(md), Some("A Plaintext Lead Line".to_string()));
}

#[test]
fn extract_title_truncates_overlong_fallback_to_300_chars() {
    let long = "x".repeat(500);
    let got = extract_title(&long).expect("fallback title");
    assert_eq!(got.chars().count(), 300);
    assert!(got.chars().all(|c| c == 'x'));
}

#[test]
fn extract_title_none_when_only_images_html_and_tables() {
    let md = "![img](a.png)\n<table>\n</table>\n| a | b |\n| --- | --- |\n";
    assert_eq!(extract_title(md), None);
}

#[test]
fn an_empty_heading_gives_no_title() {
    assert_eq!(extract_title("# \n## Sub\n"), Some("#".to_string()));
    assert_eq!(extract_title("#\u{a0}x\n# Later \r\n"), Some("Later".to_string()));
}

// ---- Abstract ----

#[test]
fn extract_abstract_from_heading_section() {
    let md = "# Paper\n\n## Abstract\n\nThis is the abstract.\nIt spans two lines.\n\n## Introduction\n\nBody.\n";
    assert_eq!(
        extract_abstract(md),
        Some("This is the abstract. It spans two lines.".to_string())
    );
}

#[test]
fn extract_abstract_from_emphasized_inline_label() {
    let md = "# Paper\n\n**Abstract:** This is the abstract text.\n\nBody.\n";
    assert_eq!(
        extract_abstract(md),
        Some("This is the abstract text.".to_string())
    );
}

#[test]
fn extract_abstract_none_when_absent() {
    let md = "# Paper\n\nNo abstract here.\n\n## Introduction\n\nBody.\n";
    assert_eq!(extract_abstract(md), None);
}

#[test]
fn an_abstract_section_ends_before_the_keywords() {
    let md = "## **Abstract:**\nOne  two.\n*Key words:* a, b\nThree.\n";
    assert_eq!(extract_abstract(md), Some("One two.".to_string()));
    assert_eq!(extract_abstract("Abstract.\nFirst.\nSecond.\n\nThird.\n"), Some("First. Second.".to_string()));
    assert_eq!(extract_abstract("## Abstract\n\n## Next\nabstract: here\n"), Some("here".to_string()));
}

// ---- Keywords ----

#[test]
fn extract_keywords_from_plain_label() {
    let md = "Keywords: remote sensing, GIS; hydrology.\n";
    assert_eq!(
        extract_keywords(md),
        vec![
            "remote sensing".to_string(),
            "GIS".to_string(),
            "hydrology".to_string(),
        ]
    );
}

#[test]
fn extract_keywords_from_emphasized_label() {
    let md = "# Paper\n\n**Keywords:** glaciers, permafrost\n";
    assert_eq!(
        extract_keywords(md),
        vec!["glaciers".to_string(), "permafrost".to_string()]
    );
}

#[test]
fn extract_keywords_empty_when_absent() {
    let md = "# Paper\n\nNo keywords here.\n";
    assert!(extract_keywords(md).is_empty());
}

#[test]
fn blank_keywords_are_left_out() {
    assert_eq!(extract_keywords("KEY WORDS: a,, . ;b...\nKeywords: c\n"), vec!["a", "b"]);
    assert!(extract_keywords("Keywords:\nKeywords: late\n").is_empty());
}

// ---- All of it ----

#[test]
fn extract_metadata_pulls_title_abstract_and_keywords() {
    let md = "# My Paper Title\n\n## Abstract\n\nFirst sentence. Second sentence.\n\n**Keywords:** alpha, beta\n";
    let meta = extract_metadata(md);
    assert_eq!(meta.title.as_deref(), Some("My Paper Title"));
    assert_eq!(
        meta.abstract_text.as_deref(),
        Some("First sentence. Second sentence.")
    );
    assert_eq!(meta.keywords, vec!["alpha".to_string(), "beta".to_string()]);
}

#[test]
fn extract_metadata_empty_input_has_no_fields() {
    let meta = extract_metadata("");
    assert!(meta.title.is_none());
    assert!(meta.abstract_text.is_none());
    assert!(meta.keywords.is_empty());
}

// ---- The index of a paper ----

#[test]
fn render_paper_index_with_full_metadata() {
    let meta = PaperMetadata {
        title: Some("My Title".to_string()),
        abstract_text: Some("First sentence. Second sentence.".to_string()),
        keywords: vec!["alpha".to_string(), "beta".to_string()],
    };
    let rendered =
        render_paper_index(&meta, "stem", "papers/foo.pdf", "2024-01-01T00:00:00Z", 3, 1);
    let expected = "\
---
type: Article
title: \"My Title\"
description: \"First sentence.\"
abstract: \"First sentence. Second sentence.\"
keywords: [alpha, beta]
source: \"papers/foo.pdf\"
timestamp: 2024-01-01T00:00:00Z
---

# Contents

* [Manuscript](manuscript.md) - Full parsed text of the manuscript.
* [figures/](figures/) - 3 downloaded figure file(s).
* [tables/](tables/) - 1 extracted table artifact(s).
";
    assert_eq!(rendered, expected);
}

#[test]
fn render_paper_index_with_empty_metadata_falls_back_to_stem() {
    let meta = PaperMetadata::default();
    let rendered = render_paper_index(
        &meta,
        "fallback-stem",
        "/abs/papers/foo.pdf",
        "2024-01-01T00:00:00Z",
        0,
        0,
    );
    let expected = "\
---
type: Article
title: \"fallback-stem\"
source: \"/abs/papers/foo.pdf\"
timestamp: 2024-01-01T00:00:00Z
---

# Contents

* [Manuscript](manuscript.md) - Full parsed text of the manuscript.
* [figures/](figures/) - 0 downloaded figure file(s).
* [tables/](tables/) - 0 extracted table artifact(s).
";
    assert_eq!(rendered, expected);
}

#[test]
fn keywords_with_marks_are_quoted() {
    let meta = PaperMetadata {
        title: None,
        abstract_text: None,
        keywords: vec!["a:b".to_string(), "plain".to_string(), "say \"x\"".to_string()],
    };
    let rendered = render_paper_index(&meta, "s", "p", "t", 0, 0);
    assert!(rendered.contains("keywords: [\"a:b\", plain, \"say \\\"x\\\"\"]\n"));
}

#[test]
fn a_description_is_cut_off_at_200_characters() {
    let meta = PaperMetadata {
        title: None,
        abstract_text: Some(format!("{} e.g.x and. Rest", "y".repeat(300))),
        keywords: Vec::new(),
    };
    let rendered = render_paper_index(&meta, "s", "p", "t", 0, 0);
    assert!(rendered.contains(&format!("description: \"{}\"\n", "y".repeat(200))));
}

// ---- Reading it back ----

#[test]
fn parse_frontmatter_round_trips_escaped_title_and_description() {
    let meta = PaperMetadata {
        title: Some("Title with \"quotes\" and \\ backslash".to_string()),
        abstract_text: Some("First sentence here. More text follows.".to_string()),
        keywords: Vec::new(),
    };
    let rendered =
        render_paper_index(&meta, "stem", "papers/foo.pdf", "2024-01-01T00:00:00Z", 0, 0);
    let parsed = parse_frontmatter_summary(&rendered).expect("frontmatter parses");
    assert_eq!(parsed.0, "Title with \"quotes\" and \\ backslash");
    assert_eq!(parsed.1, "First sentence here.");
}

#[test]
fn parse_frontmatter_summary_none_without_marker() {
    assert!(parse_frontmatter_summary("no frontmatter here").is_none());
}

#[test]
fn front_matter_is_read_as_far_as_its_end() {
    assert_eq!(parse_frontmatter_summary(""), None);
    assert_eq!(parse_frontmatter_summary("---\ndescription: x\n---\ntitle: y\n"), None);
    assert_eq!(
        parse_frontmatter_summary("---\ntitle: plain \ntitle: \"a\\nb\\\\\"\n"),
        Some(("a\\nb\\".to_string(), String::new()))
    );
    assert_eq!(
        parse_frontmatter_summary("---\r\ntitle: \"\n---\r\n"),
        Some(("\"".to_string(), String::new()))
    );
}

// ---- The index of all papers ----

fn dir(dirname: &str, index_text: Option<String>) -> PaperDir {
    PaperDir { dirname: dirname.to_string(), has_index: true, has_manuscript: true, index_text }
}

#[test]
fn okf_skip_path_regenerates_root_index_from_existing_paper_dirs() {
    let mut dirs = Vec::new();
    for (stem, title, description) in [
        ("b", "Paper Beta", "Second study."),
        ("a", "Paper Alpha", "First study."),
    ] {
        dirs.push(dir(
            stem,
            Some(format!(
                "---\n\
                 type: Article\n\
                 title: \"{title}\"\n\
                 description: \"{description}\"\n\
                 source: \"{stem}.pdf\"\n\
                 timestamp: 2026-01-01T00:00:00Z\n\
                 ---\n\n\
                 # Contents\n\n\
                 * [Manuscript](manuscript.md)\n"
            )),
        ));
    }
    let root_index = regenerate_root_index(&dirs);
    assert!(root_index.contains("okf_version: \"0.1\""));
    assert!(root_index.contains("* [Paper Alpha](a/index.md) - First study."));
    assert!(root_index.contains("* [Paper Beta](b/index.md) - Second study."));
    assert!(root_index.find("Paper Alpha").unwrap() < root_index.find("Paper Beta").unwrap());
}

#[test]
fn directories_without_a_paper_are_left_out() {
    let mut hidden = dir(".git", None);
    hidden.index_text = Some("---\ntitle: x\n".to_string());
    let mut no_index = dir("x", None);
    no_index.has_index = false;
    let mut no_manuscript = dir("y", None);
    no_manuscript.has_manuscript = false;
    let unreadable = dir("z", None);
    let odd = dir("q", Some("text".to_string()));
    let got = regenerate_root_index(&vec![hidden, unreadable, no_index, no_manuscript, odd]);
    assert_eq!(
        got,
        "---\nokf_version: \"0.1\"\n---\n\n# Papers\n\n* [q](q/index.md)\n* [z](z/index.md)\n"
    );
    assert_eq!(
        regenerate_root_index(&Vec::new()),
        "---\nokf_version: \"0.1\"\n---\n\n# Papers\n"
    );
}

#[test]
fn papers_are_rendered_in_the_order_given() {
    let papers = vec![
        ("b".to_string(), PaperSummary { title: "B".to_string(), description: "d".to_string() }),
        ("a".to_string(), PaperSummary { title: "A".to_string(), description: String::new() }),
    ];
    assert_eq!(
        render_root_index(&papers),
        "---\nokf_version: \"0.1\"\n---\n\n# Papers\n\n* [B](b/index.md) - d\n* [A](a/index.md)\n"
    );
}

#[test]
fn title_and_description_are_read_back_whatever_the_keywords_are() {
    for keywords in [
        vec!["a\ntitle", "x: y", "b\n"],
        vec!["---", "\n---\n"],
        vec!["a\ndescription", "title: no"],
        vec!["title: no\ntitle: no"],
        vec![],
    ] {
        let meta = PaperMetadata {
            title: Some("A \"T\"\n of  two".to_string()),
            abstract_text: Some("One\\two. Three.".to_string()),
            keywords: keywords.iter().map(|s| s.to_string()).collect(),
        };
        let rendered = render_paper_index(&meta, "s", "p", "t", 0, 0);
        assert_eq!(
            parse_frontmatter_summary(&rendered),
            Some(("A \"T\" of two".to_string(), "One\\two.".to_string())),
            "{keywords:?}"
        );
    }
}

#[test]
fn a_source_in_the_output_root_is_shown_from_there() {
    assert_eq!(source_relative_to_output(POSIX, "/out/pdf/a.pdf", "/out"), "pdf/a.pdf");
    assert_eq!(source_relative_to_output(POSIX, "/output/a.pdf", "/out"), "/output/a.pdf");
}

// ---- The log ----

fn entry(stem: &str, title: &str) -> RootLogEntry {
    RootLogEntry { stem: stem.to_string(), title: title.to_string() }
}

#[test]
fn append_root_log_merges_into_existing_today_section() {
    let today = "## 2026-01-02";
    let seed = format!("# Update Log\n\n{today}\n\n* **Creation**: Parsed [Old](/old/index.md).\n");
    let content =
        append_root_log(Some(&seed), "2026-01-02", &vec![entry("new", "New")]).expect("append ok");
    assert_eq!(
        content.matches(today).count(),
        1,
        "today heading must not be duplicated"
    );
    let heading_pos = content.find(today).expect("heading present");
    let new_pos = content
        .find("* **Creation**: Parsed [New](/new/index.md).")
        .expect("new bullet");
    let old_pos = content
        .find("* **Creation**: Parsed [Old](/old/index.md).")
        .expect("old bullet");
    assert!(heading_pos < new_pos, "new bullet sits under the heading");
    assert!(
        new_pos < old_pos,
        "new bullet precedes the preserved old bullet"
    );
}

#[test]
fn append_root_log_creates_today_section_when_missing() {
    let today = "## 2026-01-02";
    let seed = "# Update Log\n\n## 1999-01-01\n\n* **Creation**: Parsed [Old](/old/index.md).\n";
    let content =
        append_root_log(Some(seed), "2026-01-02", &vec![entry("new", "New")]).expect("append ok");
    assert_eq!(
        content.matches(today).count(),
        1,
        "today section created exactly once"
    );
    assert!(content.contains("* **Creation**: Parsed [New](/new/index.md)."));
    assert!(content.contains("## 1999-01-01"));
    assert!(content.contains("* **Creation**: Parsed [Old](/old/index.md)."));
    let today_pos = content.find(today).expect("today section");
    let old_section_pos = content.find("## 1999-01-01").expect("old section");
    assert!(
        today_pos < old_section_pos,
        "newest date section is inserted before older ones"
    );
}

#[test]
fn append_root_log_empty_entries_is_a_noop() {
    assert!(
        append_root_log(None, "2026-01-02", &Vec::new()).is_none(),
        "no log written when there are no entries"
    );
}

#[test]
fn a_log_is_begun_with_its_title() {
    let two = vec![entry("a", "A"), entry("b", "B")];
    let expected = "# Update Log\n\n## 2026-01-02\n* **Creation**: Parsed [A](/a/index.md).\n* **Creation**: Parsed [B](/b/index.md).\n";
    assert_eq!(append_root_log(None, "2026-01-02", &two).as_deref(), Some(expected));
    assert_eq!(append_root_log(Some(""), "2026-01-02", &two).as_deref(), Some(expected));
    assert_eq!(
        append_root_log(Some("# L"), "d", &vec![entry("a", "A")]).as_deref(),
        Some("# L\n\n## d\n* **Creation**: Parsed [A](/a/index.md).\n")
    );
}
