//! A paper, from what the recognition returned to what is written.

use vstd::prelude::*;

use crate::assets::{downloads, local_figures, localize_figures};
use crate::images::{alt_stripped, image_urls_replaced, strip_html_img_alt_attributes};
use crate::json::{json_pretty, values, writable, Json};
use crate::layout::{layout_document, render_layout_json};
use crate::okf::index::{paper_index, render_paper_index, shown_title};
use crate::okf::metadata::{extract_metadata, metadata_of};
use crate::output::{layout_path, text_path, text_place, PreparedOutputPaths};
use crate::paths::{join_name, joined_path, PathStyle};
use crate::tables::normalize::{
    artifact_texts, artifacts, extracted, no_counts, normalized, shown_text, tables_of_paper,
    TableArtifact, TableStats,
};
use crate::text::{chars_of, copy_string, string_of};

verus! {

/// What is written besides the text for a bundle.
pub struct Bundle {
    /// The index of the paper.
    pub index: String,
    /// Its layout document, as it is written.
    pub layout: String,
    /// Its title, or its stem if it has none.
    pub title: String,
}

/// What is written for a paper.
pub struct PaperOutput {
    /// Its text.
    pub markdown: String,
    /// Its tables.
    pub artifacts: Vec<TableArtifact>,
    /// What became of them.
    pub stats: TableStats,
    /// How many figures were downloaded.
    pub downloaded_figures: usize,
    /// What is written besides for a bundle.
    pub bundle: Option<Bundle>,
}

/// The text of a paper with local figures and without alternative texts, before its tables are
/// looked at.
pub open spec fn localized_text(
    markdown: Seq<char>,
    results: Seq<(Seq<char>, Option<Seq<char>>)>,
) -> Seq<char> {
    alt_stripped(image_urls_replaced(markdown, local_figures(results)), 0)
}

/// Why there is nothing to write for a paper.
#[derive(Clone, Copy, Debug, PartialEq, Eq, Structural)]
pub enum PaperError {
    /// Cells of a table that is to be rewritten ask for more rows or columns than a machine can
    /// count.
    UncountableCells,
    /// A number in the layout is no number of JSON.
    UnwritableLayout,
}

impl PaperError {
    /// The error in words.
    pub fn message(&self) -> (r: String)
        ensures
            r@ == match *self {
                PaperError::UncountableCells => "cells of a table span too many rows or columns"@,
                PaperError::UnwritableLayout => "a number in the layout cannot be written"@,
            },
    {
        let text = match self {
            PaperError::UncountableCells => chars_of(
                "cells of a table span too many rows or columns",
            ),
            PaperError::UnwritableLayout => chars_of("a number in the layout cannot be written"),
        };
        string_of(&text)
    }
}

/// What is written for a paper: `results` tells which figures were downloaded. With
/// `normalize_tables` its tables are rewritten; with `okf` it becomes a bundle, for which they
/// are kept too.
pub fn assemble_paper(
    markdown: &str,
    layout: &Vec<Json>,
    results: &Vec<(String, Option<String>)>,
    normalize_tables: bool,
    okf: bool,
    stem: &str,
    source_rel: &str,
    timestamp: &str,
) -> (r: Result<PaperOutput, PaperError>)
    ensures
        ({
            let text = localized_text(markdown@, downloads(results@));
            let done = if normalize_tables {
                normalized(text)
            } else {
                Some(extracted(text))
            };
            let document = layout_document(
                values(layout@),
                local_figures(downloads(results@)),
                done->0.counts.raw_written,
                source_rel@,
            );
            &&& r is Ok <==> done is Some && (okf ==> writable(document))
            &&& r matches Err(e) ==> e == if done is None {
                PaperError::UncountableCells
            } else {
                PaperError::UnwritableLayout
            }
            &&& r matches Ok(out) ==> {
                &&& out.markdown@ == if normalize_tables {
                    shown_text(done->0.pieces)
                } else {
                    text
                }
                &&& if normalize_tables || okf {
                    &&& out.stats@ == done->0.counts
                    &&& artifact_texts(out.artifacts@) == artifacts(done->0.pieces)
                } else {
                    &&& out.stats@ == no_counts()
                    &&& out.artifacts@.len() == 0
                }
                &&& out.downloaded_figures == local_figures(downloads(results@)).len()
                &&& out.bundle is Some <==> okf
                &&& out.bundle matches Some(b) ==> {
                    &&& b.index@ == paper_index(
                        metadata_of(out.markdown@),
                        stem@,
                        source_rel@,
                        timestamp@,
                        out.downloaded_figures as nat,
                        out.artifacts@.len(),
                    )
                    &&& json_pretty(document) is Some
                    &&& b.layout@ == json_pretty(document)->0 + seq!['\n']
                    &&& b.title@ == shown_title(metadata_of(out.markdown@), stem@)
                }
            }
        }),
        r matches Err(PaperError::UnwritableLayout) ==> exists|i: int|
            0 <= i < layout@.len() && !writable(#[trigger] layout@[i]@),
{
    let localized = localize_figures(markdown, results);
    let text = strip_html_img_alt_attributes(localized.markdown.as_str());
    let tables = match tables_of_paper(text.as_str(), normalize_tables, okf) {
        Some(tables) => tables,
        None => {
            return Err(PaperError::UncountableCells);
        },
    };
    let bundle = if okf {
        let meta = extract_metadata(tables.markdown.as_str());
        let index = render_paper_index(
            &meta,
            stem,
            source_rel,
            timestamp,
            localized.downloaded_figures,
            tables.artifacts.len(),
        );
        let layout = match render_layout_json(
            layout,
            &localized.replacements,
            tables.stats.tables_raw_written,
            source_rel,
        ) {
            Some(text) => text,
            None => {
                return Err(PaperError::UnwritableLayout);
            },
        };
        let title = match &meta.title {
            Some(title) => copy_string(title),
            None => {
                let chars = chars_of(stem);
                string_of(&chars)
            },
        };
        Some(Bundle { index, layout, title })
    } else {
        None
    };
    Ok(
        PaperOutput {
            markdown: tables.markdown,
            artifacts: tables.artifacts,
            stats: tables.stats,
            downloaded_figures: localized.downloaded_figures,
            bundle,
        },
    )
}

/// Where the index and the layout of a bundle go.
pub struct BundleFiles {
    pub index: String,
    pub layout: String,
}

/// Where the parts of a paper go.
pub struct PaperFiles {
    /// Where each table goes, and its HTML.
    pub tables: Vec<(String, String)>,
    /// Where its text goes.
    pub text: String,
    /// Where the rest of a bundle goes.
    pub bundle: Option<BundleFiles>,
}

/// Where each table goes, and its HTML, where they are kept in `dir`.
pub open spec fn placed_tables(
    style: PathStyle,
    dir: Option<String>,
    tables: Seq<(Seq<char>, Seq<char>)>,
) -> Seq<(Seq<char>, Seq<char>)> {
    match dir {
        Some(dir) => Seq::new(
            tables.len(),
            |i: int| (joined_path(style, dir@, tables[i].0), tables[i].1),
        ),
        None => Seq::empty(),
    }
}

/// The pairs of text in `v`.
pub open spec fn text_pairs(v: Seq<(String, String)>) -> Seq<(Seq<char>, Seq<char>)> {
    Seq::new(v.len(), |i: int| (v[i].0@, v[i].1@))
}

/// Where the parts of a paper go: each table in the directory for tables, the text, and, in a
/// bundle, the index and the layout.
pub fn place_paper(style: PathStyle, paths: &PreparedOutputPaths, paper: &PaperOutput) -> (r:
    PaperFiles)
    ensures
        text_pairs(r.tables@) == placed_tables(
            style,
            paths.tables_dir,
            artifact_texts(paper.artifacts@),
        ),
        r.text@ == text_place(style, *paths, paper.bundle is Some),
        r.bundle is Some <==> paper.bundle is Some,
        r.bundle matches Some(b) ==> b.index@ == paths.markdown_path@ && b.layout@ == joined_path(
            style,
            paths.output_dir@,
            "layout.json"@,
        ),
{
    let mut tables: Vec<(String, String)> = Vec::new();
    if let Some(dir) = &paths.tables_dir {
        let dir = chars_of(dir.as_str());
        let mut i: usize = 0;
        while i < paper.artifacts.len()
            invariant
                i <= paper.artifacts@.len(),
                tables@.len() == i,
                forall|k: int|
                    0 <= k < i ==> (#[trigger] tables@[k]).0@ == joined_path(
                        style,
                        dir@,
                        paper.artifacts@[k].name@,
                    ) && tables@[k].1@ == paper.artifacts@[k].html@,
            decreases paper.artifacts.len() - i,
        {
            let artifact = &paper.artifacts[i];
            let path = join_name(style, &dir, artifact.name.as_str());
            tables.push((string_of(&path), copy_string(&artifact.html)));
            i += 1;
        }
    }
    assert(text_pairs(tables@) =~= placed_tables(
        style,
        paths.tables_dir,
        artifact_texts(paper.artifacts@),
    ));
    let bundle = match &paper.bundle {
        Some(_) => Some(
            BundleFiles {
                index: copy_string(&paths.markdown_path),
                layout: layout_path(style, paths),
            },
        ),
        None => None,
    };
    PaperFiles { tables, text: text_path(style, paths, paper.bundle.is_some()), bundle }
}

/// The text of a paper is made by pointing it at the local figures first, and leaving out
/// alternative texts then; each part of it goes to a place of its own.
pub proof fn law_text_is_localized_then_stripped(
    markdown: Seq<char>,
    results: Seq<(Seq<char>, Option<Seq<char>>)>,
)
    ensures
        localized_text(markdown, results) == alt_stripped(
            image_urls_replaced(markdown, local_figures(results)),
            0,
        ),
        (forall|i: int| 0 <= i < results.len() ==> (#[trigger] results[i]).1 is None)
            ==> local_figures(results).len() == 0,
{
    lemma_nothing_local(results);
}

proof fn lemma_nothing_local(results: Seq<(Seq<char>, Option<Seq<char>>)>)
    ensures
        (forall|i: int| 0 <= i < results.len() ==> (#[trigger] results[i]).1 is None)
            ==> local_figures(results).len() == 0,
    decreases results.len(),
{
    if results.len() > 0 {
        let init = results.drop_last();
        lemma_nothing_local(init);
        if forall|i: int| 0 <= i < results.len() ==> (#[trigger] results[i]).1 is None {
            assert(results[results.len() - 1].1 is None);
            assert forall|i: int| 0 <= i < init.len() implies (#[trigger] init[i]).1 is None by {
                assert(init[i] == results[i]);
            }
        }
    }
}

/// Each table is written in the directory of tables under its own name, as it was found; without
/// that directory none is.
pub proof fn law_each_table_has_its_file(
    style: PathStyle,
    dir: Option<String>,
    tables: Seq<(Seq<char>, Seq<char>)>,
)
    ensures
        dir is None ==> placed_tables(style, dir, tables).len() == 0,
        dir is Some ==> placed_tables(style, dir, tables).len() == tables.len(),
        dir is Some ==> forall|i: int|
            0 <= i < tables.len() ==> (#[trigger] placed_tables(style, dir, tables)[i]).1
                == tables[i].1 && placed_tables(style, dir, tables)[i].0 == joined_path(
                style,
                dir->0@,
                tables[i].0,
            ),
{
}

} // verus!
