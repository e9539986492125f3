//! The layout of a paper as a JSON document: what stands where on each page, and which artifact
//! belongs to it.

use vstd::prelude::*;

use crate::assets::{extract_image_url, image_url};
use crate::images::{find_replacement, law_last_replacement_counts, lookup, pairs_of};
use crate::json::{
    json_pretty, lemma_array_value, lemma_plain_decimal, lemma_writable_field, named_values, values,
    writable, Json, JsonValue,
};
use crate::number::decimal;
use crate::tables::normalize::{artifact_path, path_of_artifact};
use crate::text::{chars_of, copy_string, spells, string_of};

verus! {

/// The name and version of the document's form.
pub const SCHEMA: &'static str = "paperdown.layout.v1";

/// The label of a block.
pub open spec fn label_of(block: JsonValue) -> Option<Seq<char>> {
    block.text_field("label"@)
}

/// How many of the first `n` blocks are tables.
pub open spec fn tables_on_page(blocks: Seq<JsonValue>, n: nat) -> nat
    decreases n,
{
    if n == 0 {
        0
    } else {
        tables_on_page(blocks, (n - 1) as nat) + (if label_of(blocks[n - 1]) == Some("table"@) {
            1nat
        } else {
            0nat
        })
    }
}

/// The blocks of a page: none if it is no list.
pub open spec fn blocks_of(page: JsonValue) -> Seq<JsonValue> {
    match page.elements() {
        Some(blocks) => blocks,
        None => Seq::empty(),
    }
}

/// How many blocks on the first `n` pages are tables.
pub open spec fn tables_on_pages(pages: Seq<JsonValue>, n: nat) -> nat
    decreases n,
{
    if n == 0 {
        0
    } else {
        tables_on_pages(pages, (n - 1) as nat) + tables_on_page(
            blocks_of(pages[n - 1]),
            blocks_of(pages[n - 1]).len(),
        )
    }
}

/// Whether tables are linked to artifacts: if there are as many of them as were kept.
pub open spec fn tables_linked(pages: Seq<JsonValue>, tables_raw_written: nat) -> bool {
    tables_on_pages(pages, pages.len()) > 0 && tables_on_pages(pages, pages.len())
        == tables_raw_written
}

/// The artifact of a block: the downloaded file of an image, or the file of the table number
/// `ordinal` if tables are linked.
pub open spec fn artifact_of(
    block: JsonValue,
    pairs: Seq<(Seq<char>, Seq<char>)>,
    linked: bool,
    ordinal: nat,
) -> JsonValue {
    if label_of(block) == Some("image"@) {
        let local = match image_url(block) {
            Some(url) => lookup(pairs, url),
            None => None,
        };
        match local {
            Some(path) => JsonValue::Text(path),
            None => JsonValue::Null,
        }
    } else if label_of(block) == Some("table"@) && linked {
        JsonValue::Text(artifact_path(ordinal))
    } else {
        JsonValue::Null
    }
}

/// A field of a block, or nothing.
pub open spec fn field_or_null(block: JsonValue, name: Seq<char>) -> JsonValue {
    match block.field(name) {
        Some(v) => v,
        None => JsonValue::Null,
    }
}

/// The bounding box of a block.
pub open spec fn bbox_of(block: JsonValue) -> JsonValue {
    match block.field("bbox_2d"@) {
        Some(v) => v,
        None => field_or_null(block, "bbox"@),
    }
}

/// The label of a block as a value.
pub open spec fn label_value(block: JsonValue) -> JsonValue {
    match label_of(block) {
        Some(label) => JsonValue::Text(label),
        None => JsonValue::Null,
    }
}

/// The region that stands for the block number `index`.
pub open spec fn region(
    block: JsonValue,
    index: nat,
    pairs: Seq<(Seq<char>, Seq<char>)>,
    linked: bool,
    ordinal: nat,
) -> JsonValue {
    JsonValue::Object(
        seq![
            ("artifact"@, artifact_of(block, pairs, linked, ordinal)),
            ("bbox"@, bbox_of(block)),
            ("content"@, field_or_null(block, "content"@)),
            ("index"@, JsonValue::Number(decimal(index))),
            ("label"@, label_value(block)),
        ],
    )
}

/// The regions for the first `n` blocks of a page before which `before` tables stand.
pub open spec fn regions(
    blocks: Seq<JsonValue>,
    n: nat,
    pairs: Seq<(Seq<char>, Seq<char>)>,
    linked: bool,
    before: nat,
) -> Seq<JsonValue>
    decreases n,
{
    if n == 0 {
        Seq::empty()
    } else {
        regions(blocks, (n - 1) as nat, pairs, linked, before).push(
            region(
                blocks[n - 1],
                (n - 1) as nat,
                pairs,
                linked,
                before + tables_on_page(blocks, n),
            ),
        )
    }
}

/// The first `n` pages.
pub open spec fn page_values(
    pages: Seq<JsonValue>,
    n: nat,
    pairs: Seq<(Seq<char>, Seq<char>)>,
    linked: bool,
) -> Seq<JsonValue>
    decreases n,
{
    if n == 0 {
        Seq::empty()
    } else {
        let blocks = blocks_of(pages[n - 1]);
        page_values(pages, (n - 1) as nat, pairs, linked).push(
            JsonValue::Object(
                seq![
                    ("page"@, JsonValue::Number(decimal(n))),
                    (
                        "regions"@,
                        JsonValue::Array(
                            regions(
                                blocks,
                                blocks.len(),
                                pairs,
                                linked,
                                tables_on_pages(pages, (n - 1) as nat),
                            ),
                        ),
                    ),
                ],
            ),
        )
    }
}

/// How tables are matched to artifacts.
pub open spec fn match_name(linked: bool) -> Seq<char> {
    if linked {
        "order"@
    } else {
        "none"@
    }
}

/// The layout document.
pub open spec fn layout_document(
    pages: Seq<JsonValue>,
    pairs: Seq<(Seq<char>, Seq<char>)>,
    tables_raw_written: nat,
    source: Seq<char>,
) -> JsonValue {
    let linked = tables_linked(pages, tables_raw_written);
    JsonValue::Object(
        seq![
            (
                "bbox_format"@,
                JsonValue::Object(
                    seq![
                        ("order"@, JsonValue::Text("x1,y1,x2,y2"@)),
                        ("origin"@, JsonValue::Text("top-left"@)),
                    ],
                ),
            ),
            ("ocr_model"@, JsonValue::Text("glm-ocr"@)),
            ("pages"@, JsonValue::Array(page_values(pages, pages.len(), pairs, linked))),
            ("schema"@, JsonValue::Text(SCHEMA@)),
            ("source_pdf"@, JsonValue::Text(source)),
            ("table_artifact_match"@, JsonValue::Text(match_name(linked))),
        ],
    )
}

// ---- Laws ----

proof fn lemma_writable_region(
    block: JsonValue,
    index: usize,
    pairs: Seq<(Seq<char>, Seq<char>)>,
    linked: bool,
    ordinal: nat,
)
    requires
        writable(block),
    ensures
        writable(region(block, index as nat, pairs, linked, ordinal)),
{
    lemma_writable_field(block, "bbox_2d"@);
    lemma_writable_field(block, "bbox"@);
    lemma_writable_field(block, "content"@);
    lemma_plain_decimal(index);
    let fields = region(block, index as nat, pairs, linked, ordinal)->Object_0;
    assert(writable(fields[0].1));
    assert(writable(fields[1].1));
    assert(writable(fields[2].1));
    assert(writable(fields[3].1));
    assert(writable(fields[4].1));
}

proof fn lemma_writable_regions(
    blocks: Seq<JsonValue>,
    n: nat,
    pairs: Seq<(Seq<char>, Seq<char>)>,
    linked: bool,
    before: nat,
)
    requires
        n <= blocks.len() <= usize::MAX,
        forall|i: int| 0 <= i < blocks.len() ==> writable(#[trigger] blocks[i]),
    ensures
        forall|i: int|
            0 <= i < n ==> writable(#[trigger] regions(blocks, n, pairs, linked, before)[i]),
        regions(blocks, n, pairs, linked, before).len() == n,
    decreases n,
{
    if n > 0 {
        lemma_writable_regions(blocks, (n - 1) as nat, pairs, linked, before);
        lemma_writable_region(
            blocks[n - 1],
            (n - 1) as usize,
            pairs,
            linked,
            before + tables_on_page(blocks, n),
        );
    }
}

proof fn lemma_writable_pages(
    layout: Vec<Json>,
    n: nat,
    pairs: Seq<(Seq<char>, Seq<char>)>,
    linked: bool,
)
    requires
        n <= layout@.len(),
        forall|i: int| 0 <= i < layout@.len() ==> writable(#[trigger] layout@[i]@),
    ensures
        forall|i: int|
            0 <= i < n ==> writable(
                #[trigger] page_values(values(layout@), n, pairs, linked)[i],
            ),
        page_values(values(layout@), n, pairs, linked).len() == n,
    decreases n,
{
    if n > 0 {
        let pages = values(layout@);
        let page = layout@[n - 1];
        let blocks = blocks_of(page@);
        let before = tables_on_pages(pages, (n - 1) as nat);
        lemma_writable_pages(layout, (n - 1) as nat, pairs, linked);
        assert(pages[n - 1] == page@);
        if page is Array {
            lemma_array_value(page->Array_0);
            assert(blocks.len() == page->Array_0.len());
        }
        lemma_writable_regions(blocks, blocks.len(), pairs, linked, before);
        assert(layout.len() >= n);
        lemma_plain_decimal(n as usize);
        let last = page_values(pages, n, pairs, linked)[n - 1];
        let all = regions(blocks, blocks.len(), pairs, linked, before);
        assert(writable(JsonValue::Array(all)));
        assert(last->Object_0[0].1 == JsonValue::Number(decimal(n)));
        assert(last->Object_0[1].1 == JsonValue::Array(all));
        assert(writable(last->Object_0[0].1));
        assert(writable(last));
    }
}

/// If the pages of a layout can be written, so can the layout document.
pub proof fn law_document_is_writable(
    layout: Vec<Json>,
    pairs: Seq<(Seq<char>, Seq<char>)>,
    tables_raw_written: nat,
    source: Seq<char>,
)
    requires
        forall|i: int| 0 <= i < layout@.len() ==> writable(#[trigger] layout@[i]@),
    ensures
        writable(layout_document(values(layout@), pairs, tables_raw_written, source)),
{
    let pages = values(layout@);
    let linked = tables_linked(pages, tables_raw_written);
    lemma_writable_pages(layout, pages.len(), pairs, linked);
    let fields = layout_document(pages, pairs, tables_raw_written, source)->Object_0;
    assert(writable(fields[0].1->Object_0[0].1));
    assert(writable(fields[0].1->Object_0[1].1));
    assert(writable(fields[0].1));
    assert(writable(fields[1].1));
    assert(writable(fields[2].1));
    assert(writable(fields[3].1));
    assert(writable(fields[4].1));
    assert(writable(fields[5].1));
}

/// The content of a block stands in its region as it is; so does its label.
pub proof fn law_content_is_kept(
    block: JsonValue,
    index: nat,
    pairs: Seq<(Seq<char>, Seq<char>)>,
    linked: bool,
    ordinal: nat,
)
    ensures
        region(block, index, pairs, linked, ordinal).field("content"@) == Some(
            field_or_null(block, "content"@),
        ),
        region(block, index, pairs, linked, ordinal).text_field("label"@) == label_of(block),
{
    reveal_strlit("artifact");
    reveal_strlit("bbox");
    reveal_strlit("content");
    reveal_strlit("index");
    reveal_strlit("label");
    reveal_with_fuel(crate::json::field_from, 6);
    let r = region(block, index, pairs, linked, ordinal);
    assert("artifact"@[0] != "content"@[0]);
    assert("bbox"@[0] != "content"@[0]);
    assert(r.field("content"@) == Some(field_or_null(block, "content"@)));
    assert("artifact"@[0] != "label"@[0]);
    assert("bbox"@[0] != "label"@[0]);
    assert("content"@[0] != "label"@[0]);
    assert("index"@[0] != "label"@[0]);
    assert(r.field("label"@) == Some(label_value(block)));
}

/// Where the number of tables in the layout is not the number that was kept, no table has an
/// artifact; where it is, each has the one with its own number.
pub proof fn law_tables_are_linked_by_order_or_not_at_all(
    block: JsonValue,
    pages: Seq<JsonValue>,
    tables_raw_written: nat,
    pairs: Seq<(Seq<char>, Seq<char>)>,
    ordinal: nat,
)
    requires
        label_of(block) == Some("table"@),
    ensures
        artifact_of(block, pairs, tables_linked(pages, tables_raw_written), ordinal) == if
            tables_on_pages(pages, pages.len()) == tables_raw_written && tables_raw_written > 0 {
            JsonValue::Text(artifact_path(ordinal))
        } else {
            JsonValue::Null
        },
{
    reveal_strlit("image");
    reveal_strlit("table");
    assert("image"@[0] != "table"@[0]);
}

/// The number of a table is never greater than the number of tables.
proof fn lemma_tables_before(blocks: Seq<JsonValue>, i: nat, n: nat)
    requires
        i <= n,
    ensures
        tables_on_page(blocks, i) <= tables_on_page(blocks, n) <= n,
    decreases n,
{
    if n > 0 {
        if i < n {
            lemma_tables_before(blocks, i, (n - 1) as nat);
        } else {
            lemma_tables_before(blocks, (n - 1) as nat, (n - 1) as nat);
        }
    }
}

proof fn lemma_tables_on_pages(pages: Seq<JsonValue>, i: nat, n: nat)
    requires
        i <= n,
    ensures
        tables_on_pages(pages, i) <= tables_on_pages(pages, n),
    decreases n,
{
    if i < n {
        lemma_tables_on_pages(pages, i, (n - 1) as nat);
    }
}

/// The elements of the field `name`: none if there is no such field or it is no list.
pub open spec fn listed(v: JsonValue, name: Seq<char>) -> Seq<JsonValue> {
    match v.field(name) {
        Some(JsonValue::Array(items)) => items,
        _ => Seq::empty(),
    }
}

/// The region of the block number `b` on the page number `p`, both counted from 0.
pub open spec fn region_at(document: JsonValue, p: int, b: int) -> JsonValue {
    listed(listed(document, "pages"@)[p], "regions"@)[b]
}

/// Whether there is a block number `b` on the page number `p`, and it is `block`.
pub open spec fn has_block(pages: Seq<JsonValue>, p: int, b: int, block: JsonValue) -> bool {
    &&& 0 <= p < pages.len()
    &&& pages[p] matches JsonValue::Array(blocks) && 0 <= b < blocks.len() && blocks[b] == block
}

/// Whether the block number `b` on the page number `p` is a table.
pub open spec fn table_at(pages: Seq<JsonValue>, p: int, b: int) -> bool {
    exists|block: JsonValue| #[trigger]
        has_block(pages, p, b, block) && block.text_field("label"@) == Some("table"@)
}

/// Whether the place `x` is before the place `y` in reading order.
pub open spec fn reads_before(x: (int, int), y: (int, int)) -> bool {
    x.0 < y.0 || x.0 == y.0 && x.1 < y.1
}

/// Whether `places` are the places of all tables, in reading order.
pub open spec fn lists_tables(pages: Seq<JsonValue>, places: Seq<(int, int)>) -> bool {
    &&& forall|k: int|
        0 <= k < places.len() ==> table_at(pages, (#[trigger] places[k]).0, places[k].1)
    &&& forall|p: int, b: int| #[trigger] table_at(pages, p, b) ==> places.contains((p, b))
    &&& forall|k: int, l: int|
        0 <= k < l < places.len() ==> reads_before(#[trigger] places[k], #[trigger] places[l])
}

spec fn places_before(pages: Seq<JsonValue>, p: nat) -> Seq<(int, int)>
    decreases p,
{
    if p == 0 {
        Seq::empty()
    } else {
        places_before(pages, (p - 1) as nat) + places_on_page(
            blocks_of(pages[p - 1]),
            p - 1,
            blocks_of(pages[p - 1]).len(),
        )
    }
}

spec fn places_on_page(blocks: Seq<JsonValue>, p: int, n: nat) -> Seq<(int, int)>
    decreases n,
{
    if n == 0 {
        Seq::empty()
    } else if label_of(blocks[n - 1]) == Some("table"@) {
        places_on_page(blocks, p, (n - 1) as nat).push((p, n - 1))
    } else {
        places_on_page(blocks, p, (n - 1) as nat)
    }
}

proof fn lemma_places_on_page(blocks: Seq<JsonValue>, p: int, n: nat)
    requires
        n <= blocks.len(),
    ensures
        ({
            let places = places_on_page(blocks, p, n);
            &&& places.len() == tables_on_page(blocks, n)
            &&& forall|k: int|
                0 <= k < places.len() ==> (#[trigger] places[k]).0 == p && 0 <= places[k].1 < n
                    && label_of(blocks[places[k].1]) == Some("table"@) && tables_on_page(
                    blocks,
                    (places[k].1 + 1) as nat,
                ) == k + 1
            &&& forall|b: int|
                0 <= b < n && label_of(#[trigger] blocks[b]) == Some("table"@) ==> places.contains(
                    (p, b),
                )
            &&& forall|k: int, l: int|
                0 <= k < l < places.len() ==> (#[trigger] places[k]).1 < (#[trigger] places[l]).1
        }),
    decreases n,
{
    if n > 0 {
        lemma_places_on_page(blocks, p, (n - 1) as nat);
        let before = places_on_page(blocks, p, (n - 1) as nat);
        let places = places_on_page(blocks, p, n);
        assert forall|b: int|
            0 <= b < n && label_of(#[trigger] blocks[b]) == Some("table"@) implies places.contains(
            (p, b),
        ) by {
            if b < n - 1 {
                assert(before.contains((p, b)));
                let k = choose|k: int| 0 <= k < before.len() && before[k] == (p, b);
                assert(places[k] == (p, b));
            } else {
                assert(places[before.len() as int] == (p, b));
            }
        }
    }
}

proof fn lemma_places_before(pages: Seq<JsonValue>, n: nat)
    requires
        n <= pages.len(),
    ensures
        ({
            let places = places_before(pages, n);
            &&& places.len() == tables_on_pages(pages, n)
            &&& forall|k: int|
                0 <= k < places.len() ==> {
                    let (p, b) = #[trigger] places[k];
                    let blocks = blocks_of(pages[p]);
                    &&& 0 <= p < n
                    &&& 0 <= b < blocks.len()
                    &&& label_of(blocks[b]) == Some("table"@)
                    &&& tables_on_pages(pages, p as nat) + tables_on_page(blocks, (b + 1) as nat)
                        == k + 1
                }
            &&& forall|p: int, b: int|
                0 <= p < n && 0 <= b < blocks_of(pages[p]).len() && label_of(
                    #[trigger] blocks_of(pages[p])[b],
                ) == Some("table"@) ==> places.contains((p, b))
            &&& forall|k: int, l: int|
                0 <= k < l < places.len() ==> reads_before(
                    #[trigger] places[k],
                    #[trigger] places[l],
                )
        }),
    decreases n,
{
    if n > 0 {
        let before = places_before(pages, (n - 1) as nat);
        let blocks = blocks_of(pages[n - 1]);
        let here = places_on_page(blocks, n - 1, blocks.len());
        let places = places_before(pages, n);
        lemma_places_before(pages, (n - 1) as nat);
        lemma_places_on_page(blocks, n - 1, blocks.len());
        assert forall|k: int| 0 <= k < places.len() implies ({
            let (p, b) = #[trigger] places[k];
            let blocks = blocks_of(pages[p]);
            &&& 0 <= p < n
            &&& 0 <= b < blocks.len()
            &&& label_of(blocks[b]) == Some("table"@)
            &&& tables_on_pages(pages, p as nat) + tables_on_page(blocks, (b + 1) as nat) == k + 1
        }) by {
            if k < before.len() {
                assert(places[k] == before[k]);
            } else {
                assert(places[k] == here[k - before.len()]);
            }
        }
        assert forall|p: int, b: int|
            0 <= p < n && 0 <= b < blocks_of(pages[p]).len() && label_of(
                #[trigger] blocks_of(pages[p])[b],
            ) == Some("table"@) implies places.contains((p, b)) by {
            if p < n - 1 {
                assert(before.contains((p, b)));
                let k = choose|k: int| 0 <= k < before.len() && before[k] == (p, b);
                assert(places[k] == (p, b));
            } else {
                assert(here.contains((p, b)));
                let k = choose|k: int| 0 <= k < here.len() && here[k] == (p, b);
                assert(places[before.len() + k] == (p, b));
            }
        }
        assert forall|k: int, l: int| 0 <= k < l < places.len() implies reads_before(
            #[trigger] places[k],
            #[trigger] places[l],
        ) by {
            if l < before.len() {
                assert(places[k] == before[k] && places[l] == before[l]);
            } else if k < before.len() {
                assert(places[k] == before[k] && places[l] == here[l - before.len()]);
            } else {
                assert(places[k] == here[k - before.len()] && places[l] == here[l - before.len()]);
            }
        }
    }
}

proof fn lemma_regions_at(
    blocks: Seq<JsonValue>,
    n: nat,
    pairs: Seq<(Seq<char>, Seq<char>)>,
    linked: bool,
    before: nat,
)
    ensures
        regions(blocks, n, pairs, linked, before).len() == n,
        forall|b: int|
            0 <= b < n ==> #[trigger] regions(blocks, n, pairs, linked, before)[b] == region(
                blocks[b],
                b as nat,
                pairs,
                linked,
                before + tables_on_page(blocks, (b + 1) as nat),
            ),
    decreases n,
{
    if n > 0 {
        lemma_regions_at(blocks, (n - 1) as nat, pairs, linked, before);
    }
}

proof fn lemma_page_fields(page: JsonValue, number: nat, all: Seq<JsonValue>)
    requires
        page == JsonValue::Object(
            seq![
                ("page"@, JsonValue::Number(decimal(number))),
                ("regions"@, JsonValue::Array(all)),
            ],
        ),
    ensures
        page.field("page"@) == Some(JsonValue::Number(decimal(number))),
        listed(page, "regions"@) == all,
{
    reveal_strlit("page");
    reveal_strlit("regions");
    reveal_with_fuel(crate::json::field_from, 3);
    assert("page"@[0] != "regions"@[0]);
}

proof fn lemma_pages_at(
    pages: Seq<JsonValue>,
    n: nat,
    pairs: Seq<(Seq<char>, Seq<char>)>,
    linked: bool,
)
    requires
        n <= pages.len(),
    ensures
        page_values(pages, n, pairs, linked).len() == n,
        forall|p: int|
            0 <= p < n ==> {
                let page = #[trigger] page_values(pages, n, pairs, linked)[p];
                let blocks = blocks_of(pages[p]);
                &&& page.field("page"@) == Some(JsonValue::Number(decimal((p + 1) as nat)))
                &&& listed(page, "regions"@) == regions(
                    blocks,
                    blocks.len(),
                    pairs,
                    linked,
                    tables_on_pages(pages, p as nat),
                )
            },
    decreases n,
{
    if n > 0 {
        lemma_pages_at(pages, (n - 1) as nat, pairs, linked);
        let blocks = blocks_of(pages[n - 1]);
        let all = regions(
            blocks,
            blocks.len(),
            pairs,
            linked,
            tables_on_pages(pages, (n - 1) as nat),
        );
        lemma_page_fields(page_values(pages, n, pairs, linked)[n - 1], n, all);
    }
}

proof fn lemma_document_pages(
    pages: Seq<JsonValue>,
    pairs: Seq<(Seq<char>, Seq<char>)>,
    tables_raw_written: nat,
    source: Seq<char>,
)
    ensures
        listed(layout_document(pages, pairs, tables_raw_written, source), "pages"@) == page_values(
            pages,
            pages.len(),
            pairs,
            tables_linked(pages, tables_raw_written),
        ),
        layout_document(pages, pairs, tables_raw_written, source).text_field("source_pdf"@) == Some(
            source,
        ),
        layout_document(pages, pairs, tables_raw_written, source).text_field(
            "table_artifact_match"@,
        ) == Some(match_name(tables_linked(pages, tables_raw_written))),
{
    reveal_strlit("bbox_format");
    reveal_strlit("ocr_model");
    reveal_strlit("pages");
    reveal_strlit("schema");
    reveal_strlit("source_pdf");
    reveal_strlit("table_artifact_match");
    reveal_with_fuel(crate::json::field_from, 7);
    assert("bbox_format"@[0] != "pages"@[0]);
    assert("ocr_model"@[0] != "pages"@[0]);
    assert("bbox_format"@[0] != "source_pdf"@[0]);
    assert("ocr_model"@[0] != "source_pdf"@[0]);
    assert("pages"@[0] != "source_pdf"@[0]);
    assert("schema"@[1] != "source_pdf"@[1]);
    assert("bbox_format"@[0] != "table_artifact_match"@[0]);
    assert("ocr_model"@[0] != "table_artifact_match"@[0]);
    assert("pages"@[0] != "table_artifact_match"@[0]);
    assert("schema"@[0] != "table_artifact_match"@[0]);
    assert("source_pdf"@[0] != "table_artifact_match"@[0]);
}

proof fn lemma_region_fields(
    block: JsonValue,
    index: nat,
    pairs: Seq<(Seq<char>, Seq<char>)>,
    linked: bool,
    ordinal: nat,
)
    ensures
        ({
            let r = region(block, index, pairs, linked, ordinal);
            &&& r.field("artifact"@) == Some(artifact_of(block, pairs, linked, ordinal))
            &&& r.field("bbox"@) == Some(bbox_of(block))
            &&& r.field("content"@) == Some(field_or_null(block, "content"@))
            &&& r.field("index"@) == Some(JsonValue::Number(decimal(index)))
            &&& r.field("label"@) == Some(label_value(block))
        }),
{
    reveal_strlit("artifact");
    reveal_strlit("bbox");
    reveal_strlit("content");
    reveal_strlit("index");
    reveal_strlit("label");
    reveal_with_fuel(crate::json::field_from, 6);
    let r = region(block, index, pairs, linked, ordinal);
    assert("artifact"@[0] != "bbox"@[0]);
    assert("artifact"@[0] != "content"@[0]);
    assert("bbox"@[0] != "content"@[0]);
    assert("artifact"@[0] != "index"@[0]);
    assert("bbox"@[0] != "index"@[0]);
    assert("content"@[0] != "index"@[0]);
    assert("artifact"@[0] != "label"@[0]);
    assert("bbox"@[0] != "label"@[0]);
    assert("content"@[0] != "label"@[0]);
    assert("index"@[0] != "label"@[0]);
    assert(r.field("artifact"@) == Some(artifact_of(block, pairs, linked, ordinal)));
    assert(r.field("bbox"@) == Some(bbox_of(block)));
    assert(r.field("content"@) == Some(field_or_null(block, "content"@)));
    assert(r.field("index"@) == Some(JsonValue::Number(decimal(index))));
    assert(r.field("label"@) == Some(label_value(block)));
}

/// Tables are linked by their order. If there are as many tables in the layout as were kept, the
/// first of them, in reading order over all pages, is linked to the first artifact, the second to
/// the second, and so on to the last; if not, none is linked to any. The document says which.
pub proof fn law_tables_are_numbered_in_reading_order(
    pages: Seq<JsonValue>,
    pairs: Seq<(Seq<char>, Seq<char>)>,
    tables_raw_written: nat,
    source: Seq<char>,
)
    ensures
        ({
            let document = layout_document(pages, pairs, tables_raw_written, source);
            exists|places: Seq<(int, int)>| #[trigger]
                lists_tables(pages, places) && forall|k: int|
                    0 <= k < places.len() ==> region_at(
                        document,
                        (#[trigger] places[k]).0,
                        places[k].1,
                    ).field("artifact"@) == Some(
                        if places.len() == tables_raw_written {
                            JsonValue::Text(artifact_path((k + 1) as nat))
                        } else {
                            JsonValue::Null
                        },
                    ) && document.text_field("table_artifact_match"@) == Some(
                        if places.len() == tables_raw_written {
                            "order"@
                        } else {
                            "none"@
                        },
                    )
        }),
{
    let document = layout_document(pages, pairs, tables_raw_written, source);
    let linked = tables_linked(pages, tables_raw_written);
    let places = places_before(pages, pages.len());
    lemma_places_before(pages, pages.len());
    lemma_document_pages(pages, pairs, tables_raw_written, source);
    lemma_pages_at(pages, pages.len(), pairs, linked);
    assert forall|k: int| 0 <= k < places.len() implies table_at(
        pages,
        (#[trigger] places[k]).0,
        places[k].1,
    ) by {
        let (p, b) = places[k];
        assert(has_block(pages, p, b, blocks_of(pages[p])[b]));
    }
    assert forall|p: int, b: int| #[trigger] table_at(pages, p, b) implies places.contains(
        (p, b),
    ) by {
        assert(label_of(blocks_of(pages[p])[b]) == Some("table"@));
    }
    assert(lists_tables(pages, places));
    assert forall|k: int| 0 <= k < places.len() implies region_at(
        document,
        (#[trigger] places[k]).0,
        places[k].1,
    ).field("artifact"@) == Some(
        if places.len() == tables_raw_written {
            JsonValue::Text(artifact_path((k + 1) as nat))
        } else {
            JsonValue::Null
        },
    ) by {
        let (p, b) = places[k];
        let blocks = blocks_of(pages[p]);
        let before = tables_on_pages(pages, p as nat);
        lemma_regions_at(blocks, blocks.len(), pairs, linked, before);
        let ordinal = before + tables_on_page(blocks, (b + 1) as nat);
        assert(region_at(document, p, b) == region(blocks[b], b as nat, pairs, linked, ordinal));
        lemma_region_fields(blocks[b], b as nat, pairs, linked, ordinal);
        law_tables_are_linked_by_order_or_not_at_all(
            blocks[b],
            pages,
            tables_raw_written,
            pairs,
            ordinal,
        );
    }
}

/// The document has a page for each page, numbered from 1, and a region for each block, numbered
/// from 0 on its page, with the label and the content of the block, and its bounding box, which
/// stands in `bbox_2d` or else in `bbox`. What a block does not have, or a label that is no text,
/// is nothing.
pub proof fn law_each_block_has_its_region(
    pages: Seq<JsonValue>,
    pairs: Seq<(Seq<char>, Seq<char>)>,
    tables_raw_written: nat,
    source: Seq<char>,
)
    ensures
        ({
            let document = layout_document(pages, pairs, tables_raw_written, source);
            let shown = listed(document, "pages"@);
            &&& document.text_field("source_pdf"@) == Some(source)
            &&& shown.len() == pages.len()
            &&& forall|p: int|
                0 <= p < pages.len() ==> (#[trigger] shown[p]).field("page"@) == Some(
                    JsonValue::Number(decimal((p + 1) as nat)),
                ) && listed(shown[p], "regions"@).len() == match pages[p] {
                    JsonValue::Array(blocks) => blocks.len(),
                    _ => 0,
                }
            &&& forall|p: int, b: int, block: JsonValue| #[trigger]
                has_block(pages, p, b, block) ==> {
                    let r = region_at(document, p, b);
                    &&& r.field("index"@) == Some(JsonValue::Number(decimal(b as nat)))
                    &&& r.field("label"@) == Some(
                        match block.text_field("label"@) {
                            Some(label) => JsonValue::Text(label),
                            None => JsonValue::Null,
                        },
                    )
                    &&& block.field("content"@) is Some ==> r.field("content"@) == block.field(
                        "content"@,
                    )
                    &&& block.field("content"@) is None ==> r.field("content"@) == Some(
                        JsonValue::Null,
                    )
                    &&& block.field("bbox_2d"@) is Some ==> r.field("bbox"@) == block.field(
                        "bbox_2d"@,
                    )
                    &&& block.field("bbox_2d"@) is None && block.field("bbox"@) is Some
                        ==> r.field("bbox"@) == block.field("bbox"@)
                    &&& block.field("bbox_2d"@) is None && block.field("bbox"@) is None
                        ==> r.field("bbox"@) == Some(JsonValue::Null)
                }
        }),
{
    let document = layout_document(pages, pairs, tables_raw_written, source);
    let shown = listed(document, "pages"@);
    let linked = tables_linked(pages, tables_raw_written);
    lemma_document_pages(pages, pairs, tables_raw_written, source);
    lemma_pages_at(pages, pages.len(), pairs, linked);
    assert forall|p: int| 0 <= p < pages.len() implies (#[trigger] shown[p]).field("page"@) == Some(
        JsonValue::Number(decimal((p + 1) as nat)),
    ) && listed(shown[p], "regions"@).len() == match pages[p] {
        JsonValue::Array(blocks) => blocks.len(),
        _ => 0,
    } by {
        let blocks = blocks_of(pages[p]);
        lemma_regions_at(
            blocks,
            blocks.len(),
            pairs,
            linked,
            tables_on_pages(pages, p as nat),
        );
    }
    assert forall|p: int, b: int, block: JsonValue| #[trigger]
        has_block(pages, p, b, block) implies ({
        let r = region_at(document, p, b);
        &&& r.field("index"@) == Some(JsonValue::Number(decimal(b as nat)))
        &&& r.field("label"@) == Some(label_value(block))
        &&& r.field("content"@) == Some(field_or_null(block, "content"@))
        &&& r.field("bbox"@) == Some(bbox_of(block))
    }) by {
        let blocks = blocks_of(pages[p]);
        let before = tables_on_pages(pages, p as nat);
        lemma_regions_at(blocks, blocks.len(), pairs, linked, before);
        lemma_region_fields(
            block,
            b as nat,
            pairs,
            linked,
            before + tables_on_page(blocks, (b + 1) as nat),
        );
    }
}

/// An image is linked to the file that its address was replaced by: the last replacement for
/// the address counts. Without one, or without an address, it is linked to nothing; nor is a
/// block that is neither an image nor a table.
pub proof fn law_images_are_linked_by_address(
    pages: Seq<JsonValue>,
    pairs: Seq<(Seq<char>, Seq<char>)>,
    tables_raw_written: nat,
    source: Seq<char>,
    p: int,
    b: int,
    block: JsonValue,
)
    requires
        has_block(pages, p, b, block),
        block.text_field("label"@) != Some("table"@),
    ensures
        ({
            let document = layout_document(pages, pairs, tables_raw_written, source);
            let artifact = region_at(document, p, b).field("artifact"@);
            let is_image = block.text_field("label"@) == Some("image"@);
            &&& artifact is Some
            &&& forall|i: int|
                is_image && image_url(block) is Some && 0 <= i < pairs.len()
                    && (#[trigger] pairs[i]).0 == image_url(block)->0 && (forall|j: int|
                    i < j < pairs.len() ==> (#[trigger] pairs[j]).0 != image_url(block)->0) ==> artifact
                    == Some(JsonValue::Text(pairs[i].1))
            &&& !is_image || image_url(block) is None || (forall|i: int|
                0 <= i < pairs.len() ==> (#[trigger] pairs[i]).0 != image_url(block)->0)
                ==> artifact == Some(JsonValue::Null)
        }),
{
    let document = layout_document(pages, pairs, tables_raw_written, source);
    let linked = tables_linked(pages, tables_raw_written);
    let blocks = blocks_of(pages[p]);
    let before = tables_on_pages(pages, p as nat);
    let ordinal = before + tables_on_page(blocks, (b + 1) as nat);
    lemma_document_pages(pages, pairs, tables_raw_written, source);
    lemma_pages_at(pages, pages.len(), pairs, linked);
    lemma_regions_at(blocks, blocks.len(), pairs, linked, before);
    lemma_region_fields(block, b as nat, pairs, linked, ordinal);
    if image_url(block) is Some {
        law_last_replacement_counts(pairs, image_url(block)->0);
    }
}

// ---- Rendering ----

fn has_label(block: &Json, label: &str) -> (r: bool)
    ensures
        r == (label_of(block@) == Some(label@)),
{
    match block.get_text("label") {
        Some(text) => {
            let chars = chars_of(text.as_str());
            spells(&chars, label)
        },
        None => false,
    }
}

/// How many blocks are tables.
pub fn count_table_regions(layout: &Vec<Json>) -> (count: u128)
    ensures
        count == tables_on_pages(values(layout@), layout@.len()),
{
    let ghost pages = values(layout@);
    assert(layout.len() <= usize::MAX);
    let mut count: u128 = 0;
    let mut i: usize = 0;
    while i < layout.len()
        invariant
            i <= layout@.len(),
            layout@.len() <= usize::MAX,
            pages == values(layout@),
            count == tables_on_pages(pages, i as nat),
            count <= i * 0x1_0000_0000_0000_0000,
        decreases layout.len() - i,
    {
        assert(pages[i as int] == layout@[i as int]@);
        let ghost before = tables_on_pages(pages, i as nat);
        if let Some(blocks) = layout[i].as_array() {
            let ghost all = values(blocks@);
            let mut j: usize = 0;
            assert(all.len() == blocks.len());
            while j < blocks.len()
                invariant
                    j <= blocks@.len(),
                    all == values(blocks@),
                    blocks@.len() <= usize::MAX,
                    i < usize::MAX,
                    count == before + tables_on_page(all, j as nat),
                    count <= i * 0x1_0000_0000_0000_0000 + j,
                decreases blocks.len() - j,
            {
                assert(all[j as int] == blocks@[j as int]@);
                if has_label(&blocks[j], "table") {
                    count += 1;
                }
                j += 1;
            }
        }
        i += 1;
    }
    count
}

fn text_or_null(s: Option<&String>) -> (r: Json)
    ensures
        match s {
            Some(text) => r@ == JsonValue::Text(text@),
            None => r@ == JsonValue::Null,
        },
{
    match s {
        Some(text) => Json::Text(copy_string(text)),
        None => Json::Null,
    }
}

fn copy_or_null(v: Option<&Json>) -> (r: Json)
    ensures
        match v {
            Some(v) => r@ == v@,
            None => r@ == JsonValue::Null,
        },
{
    match v {
        Some(v) => v.copy(),
        None => Json::Null,
    }
}

/// The bounding box of a block.
fn bbox(block: &Json) -> (r: Json)
    ensures
        r@ == bbox_of(block@),
{
    match block.get("bbox_2d") {
        Some(v) => v.copy(),
        None => copy_or_null(block.get("bbox")),
    }
}

fn named(name: &str, value: Json) -> (r: (String, Json))
    ensures
        r.0@ == name@,
        r.1 == value,
{
    let chars = chars_of(name);
    (string_of(&chars), value)
}

/// The region that stands for the block number `index`.
pub fn render_region(
    block: &Json,
    index: usize,
    replacements: &Vec<(String, String)>,
    linked: bool,
    ordinal: usize,
) -> (r: Json)
    ensures
        r@ == region(block@, index as nat, pairs_of(replacements@), linked, ordinal as nat),
{
    let artifact = if has_label(block, "image") {
        match extract_image_url(block) {
            Some(url) => {
                let chars = chars_of(url.as_str());
                text_or_null(find_replacement(replacements, &chars))
            },
            None => Json::Null,
        }
    } else if has_label(block, "table") && linked {
        let path = path_of_artifact(ordinal);
        Json::Text(string_of(&path))
    } else {
        Json::Null
    };
    let mut fields: Vec<(String, Json)> = Vec::new();
    fields.push(named("artifact", artifact));
    fields.push(named("bbox", bbox(block)));
    fields.push(named("content", copy_or_null(block.get("content"))));
    fields.push(named("index", Json::of_number(index)));
    fields.push(named("label", text_or_null(block.get_text("label"))));
    let r = Json::object(fields);
    proof {
        let expected = region(
            block@,
            index as nat,
            pairs_of(replacements@),
            linked,
            ordinal as nat,
        );
        assert(r@->Object_0 =~= expected->Object_0);
    }
    r
}

fn render_regions(
    blocks: &Vec<Json>,
    replacements: &Vec<(String, String)>,
    linked: bool,
    before: usize,
) -> (out: Vec<Json>)
    requires
        linked ==> before + tables_on_page(values(blocks@), blocks@.len()) <= usize::MAX,
    ensures
        linked ==> values(out@) == regions(
            values(blocks@),
            blocks@.len(),
            pairs_of(replacements@),
            linked,
            before as nat,
        ),
        !linked ==> forall|b: nat|
            values(out@) == #[trigger] regions(
                values(blocks@),
                blocks@.len(),
                pairs_of(replacements@),
                linked,
                b,
            ),
{
    let ghost all = values(blocks@);
    let ghost pairs = pairs_of(replacements@);
    let mut out: Vec<Json> = Vec::new();
    let mut ordinal: usize = before;
    let mut i: usize = 0;
    assert(values(out@) =~= Seq::empty());
    while i < blocks.len()
        invariant
            i <= blocks@.len(),
            all == values(blocks@),
            pairs == pairs_of(replacements@),
            linked ==> before + tables_on_page(all, blocks@.len()) <= usize::MAX,
            linked ==> ordinal == before + tables_on_page(all, i as nat),
            linked ==> values(out@) == regions(all, i as nat, pairs, linked, before as nat),
            !linked ==> forall|b: nat|
                values(out@) == #[trigger] regions(all, i as nat, pairs, linked, b),
        decreases blocks.len() - i,
    {
        assert(all[i as int] == blocks@[i as int]@);
        let ghost done = values(out@);
        proof {
            lemma_tables_before(all, (i + 1) as nat, blocks@.len());
        }
        if linked && has_label(&blocks[i], "table") {
            ordinal += 1;
        }
        let r = render_region(&blocks[i], i, replacements, linked, ordinal);
        out.push(r);
        assert(values(out@) =~= done.push(r@));
        assert(!linked ==> forall|b: nat|
            values(out@) == #[trigger] regions(all, (i + 1) as nat, pairs, linked, b)) by {
            if !linked {
                assert forall|b: nat|
                    values(out@) == #[trigger] regions(all, (i + 1) as nat, pairs, linked, b) by {
                    assert(values(out@) == regions(all, i as nat, pairs, linked, b).push(r@));
                }
            }
        }
        i += 1;
    }
    out
}

/// The layout document of a paper, given what the recognition returned, the figures that were
/// downloaded, and the number of tables that were kept, as it is written: on several lines, with
/// a line feed at the end. None if a number in it is no number of JSON.
pub fn render_layout_json(
    layout: &Vec<Json>,
    replacements: &Vec<(String, String)>,
    tables_raw_written: usize,
    source_rel: &str,
) -> (r: Option<String>)
    ensures
        ({
            let document = layout_document(
                values(layout@),
                pairs_of(replacements@),
                tables_raw_written as nat,
                source_rel@,
            );
            &&& match json_pretty(document) {
                Some(text) => r is Some && r->0@ == text + seq!['\n'],
                None => r is None,
            }
            &&& r is Some <==> writable(document)
        }),
        (forall|i: int| 0 <= i < layout@.len() ==> writable(#[trigger] layout@[i]@)) ==> r is Some,
{
    proof {
        if forall|i: int| 0 <= i < layout@.len() ==> writable(#[trigger] layout@[i]@) {
            law_document_is_writable(
                *layout,
                pairs_of(replacements@),
                tables_raw_written as nat,
                source_rel@,
            );
        }
    }
    match layout_json(layout, replacements, tables_raw_written, source_rel).pretty() {
        Some(text) => {
            let mut out = chars_of(text.as_str());
            out.push('\n');
            assert(out@ =~= text@ + seq!['\n']);
            Some(string_of(&out))
        },
        None => None,
    }
}

/// The layout document of a paper as a value.
pub fn layout_json(
    layout: &Vec<Json>,
    replacements: &Vec<(String, String)>,
    tables_raw_written: usize,
    source_rel: &str,
) -> (r: Json)
    ensures
        r@ == layout_document(
            values(layout@),
            pairs_of(replacements@),
            tables_raw_written as nat,
            source_rel@,
        ),
{
    let ghost pages = values(layout@);
    let ghost pairs = pairs_of(replacements@);
    assert(layout.len() <= usize::MAX);
    let count = count_table_regions(layout);
    let linked = count > 0 && count == tables_raw_written as u128;
    assert(linked == tables_linked(pages, tables_raw_written as nat));
    let mut out: Vec<Json> = Vec::new();
    let mut ordinal: usize = 0;
    let mut i: usize = 0;
    assert(values(out@) =~= page_values(pages, 0, pairs, linked));
    while i < layout.len()
        invariant
            i <= layout@.len(),
            layout@.len() <= usize::MAX,
            pages == values(layout@),
            pairs == pairs_of(replacements@),
            linked ==> tables_on_pages(pages, layout@.len()) <= usize::MAX,
            linked ==> ordinal == tables_on_pages(pages, i as nat),
            values(out@) == page_values(pages, i as nat, pairs, linked),
        decreases layout.len() - i,
    {
        assert(pages[i as int] == layout@[i as int]@);
        let ghost done = values(out@);
        let ghost blocks = blocks_of(pages[i as int]);
        proof {
            lemma_tables_on_pages(pages, (i + 1) as nat, layout@.len());
        }
        let rendered = match layout[i].as_array() {
            Some(list) => {
                let rendered = render_regions(list, replacements, linked, ordinal);
                if linked {
                    ordinal += count_tables(list);
                }
                rendered
            },
            None => Vec::new(),
        };
        let ghost before = tables_on_pages(pages, i as nat);
        assert(values(rendered@) =~= regions(blocks, blocks.len(), pairs, linked, before));
        let mut fields: Vec<(String, Json)> = Vec::new();
        fields.push(named("page", Json::of_number(i + 1)));
        fields.push(named("regions", Json::array(rendered)));
        let page = Json::object(fields);
        assert(named_values(fields@) =~= seq![
            ("page"@, JsonValue::Number(decimal((i + 1) as nat))),
            (
                "regions"@,
                JsonValue::Array(regions(blocks, blocks.len(), pairs, linked, before)),
            ),
        ]);
        out.push(page);
        assert(values(out@) =~= done.push(page@));
        i += 1;
    }
    let mut form: Vec<(String, Json)> = Vec::new();
    form.push(named("order", Json::of_text("x1,y1,x2,y2")));
    form.push(named("origin", Json::of_text("top-left")));
    let form = Json::object(form);
    let mut fields: Vec<(String, Json)> = Vec::new();
    fields.push(named("bbox_format", form));
    fields.push(named("ocr_model", Json::of_text("glm-ocr")));
    fields.push(named("pages", Json::array(out)));
    fields.push(named("schema", Json::of_text(SCHEMA)));
    fields.push(named("source_pdf", Json::of_text(source_rel)));
    fields.push(
        named(
            "table_artifact_match",
            Json::of_text(
                if linked {
                    "order"
                } else {
                    "none"
                },
            ),
        ),
    );
    let r = Json::object(fields);
    proof {
        let expected = layout_document(pages, pairs, tables_raw_written as nat, source_rel@);
        assert(form@->Object_0 =~= (expected->Object_0)[0].1->Object_0);
        assert(r@->Object_0 =~= expected->Object_0);
    }
    r
}

/// How many of the blocks of a page are tables.
fn count_tables(blocks: &Vec<Json>) -> (count: usize)
    ensures
        count == tables_on_page(values(blocks@), blocks@.len()),
{
    let ghost all = values(blocks@);
    let mut count: usize = 0;
    let mut i: usize = 0;
    while i < blocks.len()
        invariant
            i <= blocks@.len(),
            count <= i,
            all == values(blocks@),
            count == tables_on_page(all, i as nat),
        decreases blocks.len() - i,
    {
        assert(all[i as int] == blocks@[i as int]@);
        if has_label(&blocks[i], "table") {
            count += 1;
        }
        i += 1;
    }
    count
}

} // verus!
