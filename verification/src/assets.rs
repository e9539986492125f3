//! Figures of a paper: where their addresses stand in the layout, which are downloaded, and
//! under which names they are kept.

use vstd::prelude::*;

use crate::images::{image_urls_replaced, pairs_of, replace_image_urls};
use crate::json::{
    lemma_array_value, lemma_element_is_smaller, lemma_field_is_smaller, lemma_object_value,
    named_values, values, Json, JsonValue,
};
use crate::number::{decimal3, decimal3_of, parse_unsigned, read_unsigned};
use crate::paths::{
    extension, find_extension, law_extension_is_behind_the_last_full_stop, law_last_name_counts,
    posix_rule, PathStyle,
};
use crate::text::{
    ascii_lower, chars_of, copy_string, has_prefix, is_white_space,
    law_lower_case_changes_only_capitals, law_trimmed_text_is_found, lead, lead_len, lemma_lead_is,
    lower, lowered, push_all, push_str, same_text, spells, starts_with, string_of, trim, trimmed,
    CharClass,
};

verus! {

// ---- Addresses ----

/// Whether `s` is an address on the web.
pub open spec fn http_url(s: Seq<char>) -> bool {
    has_prefix(s, "http://"@) || has_prefix(s, "https://"@)
}

/// Whether `value` is an address on the web.
pub fn is_http_url(value: &str) -> (r: bool)
    ensures
        r == http_url(value@),
{
    let chars = chars_of(value);
    starts_with(&chars, "http://") || starts_with(&chars, "https://")
}

/// The first address on the web in a value: the text itself, or one in an element or a field,
/// in order.
pub open spec fn url_in(v: JsonValue) -> Option<Seq<char>>
    decreases v, 0nat,
{
    match v {
        JsonValue::Text(s) => if http_url(s) {
            Some(s)
        } else {
            None
        },
        JsonValue::Array(items) => url_in_items(items, 0),
        JsonValue::Object(fields) => url_in_fields(fields, 0),
        _ => None,
    }
}

/// The first address in `items` from `i` on.
pub open spec fn url_in_items(items: Seq<JsonValue>, i: nat) -> Option<Seq<char>>
    decreases items, items.len() - i,
{
    if i >= items.len() {
        None
    } else if url_in(items[i as int]) is Some {
        url_in(items[i as int])
    } else {
        url_in_items(items, i + 1)
    }
}

/// The first address in `fields` from `i` on.
pub open spec fn url_in_fields(fields: Seq<(Seq<char>, JsonValue)>, i: nat) -> Option<Seq<char>>
    decreases fields, fields.len() - i,
{
    if i >= fields.len() {
        None
    } else if url_in(fields[i as int].1) is Some {
        url_in(fields[i as int].1)
    } else {
        url_in_fields(fields, i + 1)
    }
}

/// The first address on the web in a value.
pub fn find_http_url(value: &Json) -> (r: Option<String>)
    ensures
        match url_in(value@) {
            Some(url) => r is Some && r->0@ == url,
            None => r is None,
        },
    decreases value,
{
    match value {
        Json::Text(s) => if is_http_url(s.as_str()) {
            Some(copy_string(s))
        } else {
            None
        },
        Json::Array(items) => {
            let ghost all = values(items@);
            proof {
                lemma_array_value(*items);
            }
            let mut i: usize = 0;
            while i < items.len()
                invariant
                    i <= items@.len(),
                    *value == Json::Array(*items),
                    all == values(items@),
                    url_in(value@) == url_in_items(all, i as nat),
                decreases items.len() - i,
            {
                proof {
                    lemma_element_is_smaller(*value, i as int);
                }
                let found = find_http_url(&items[i]);
                assert(all[i as int] == items@[i as int]@);
                if found.is_some() {
                    return found;
                }
                i += 1;
            }
            None
        },
        Json::Object(fields) => {
            let ghost all = named_values(fields@);
            proof {
                lemma_object_value(*fields);
            }
            let mut i: usize = 0;
            while i < fields.len()
                invariant
                    i <= fields@.len(),
                    *value == Json::Object(*fields),
                    all == named_values(fields@),
                    url_in(value@) == url_in_fields(all, i as nat),
                decreases fields.len() - i,
            {
                proof {
                    lemma_field_is_smaller(*value, i as int);
                }
                let found = find_http_url(&fields[i].1);
                assert(all[i as int].1 == fields@[i as int].1@);
                if found.is_some() {
                    return found;
                }
                i += 1;
            }
            None
        },
        _ => None,
    }
}

/// The address in the field `name`, if there is one.
pub open spec fn url_in_field(block: JsonValue, name: Seq<char>) -> Option<Seq<char>> {
    match block.field(name) {
        Some(v) => url_in(v),
        None => None,
    }
}

/// The address of a block: of the first of five fields that holds one.
pub open spec fn image_url(block: JsonValue) -> Option<Seq<char>> {
    if url_in_field(block, "content"@) is Some {
        url_in_field(block, "content"@)
    } else if url_in_field(block, "image_url"@) is Some {
        url_in_field(block, "image_url"@)
    } else if url_in_field(block, "crop_image_url"@) is Some {
        url_in_field(block, "crop_image_url"@)
    } else if url_in_field(block, "url"@) is Some {
        url_in_field(block, "url"@)
    } else {
        url_in_field(block, "file_url"@)
    }
}

/// The names of the fields in which the address of a block is looked for, in this order.
pub open spec fn url_field_names() -> Seq<Seq<char>> {
    seq!["content"@, "image_url"@, "crop_image_url"@, "url"@, "file_url"@]
}

/// Whether the field `name` of `block` holds an address on the web.
pub open spec fn holds_url(block: JsonValue, name: Seq<char>) -> bool {
    block.field(name) matches Some(v) && url_in(v) is Some
}

/// The address of a block is the one in the first of the five fields that holds one; a block
/// without one in any of them has none.
pub proof fn law_first_field_with_an_address_counts(block: JsonValue)
    ensures
        url_field_names().len() == 5,
        forall|k: int|
            0 <= k < 5 && holds_url(block, #[trigger] url_field_names()[k]) && (forall|j: int|
                0 <= j < k ==> !holds_url(block, #[trigger] url_field_names()[j])) ==> image_url(
                block,
            ) == url_in(block.field(url_field_names()[k])->0),
        image_url(block) is Some <==> exists|k: int|
            0 <= k < 5 && holds_url(block, #[trigger] url_field_names()[k]),
{
    let names = url_field_names();
    assert(names[0] == "content"@);
    assert(names[1] == "image_url"@);
    assert(names[2] == "crop_image_url"@);
    assert(names[3] == "url"@);
    assert(names[4] == "file_url"@);
    assert forall|k: int|
        0 <= k < 5 && holds_url(block, #[trigger] names[k]) && (forall|j: int|
            0 <= j < k ==> !holds_url(block, #[trigger] names[j])) implies image_url(block)
        == url_in(block.field(names[k])->0) by {
        if k > 0 {
            assert(!holds_url(block, names[0]));
        }
        if k > 1 {
            assert(!holds_url(block, names[1]));
        }
        if k > 2 {
            assert(!holds_url(block, names[2]));
        }
        if k > 3 {
            assert(!holds_url(block, names[3]));
        }
    }
    if image_url(block) is Some {
        if url_in_field(block, names[0]) is Some {
            assert(holds_url(block, names[0]));
        } else if url_in_field(block, names[1]) is Some {
            assert(holds_url(block, names[1]));
        } else if url_in_field(block, names[2]) is Some {
            assert(holds_url(block, names[2]));
        } else if url_in_field(block, names[3]) is Some {
            assert(holds_url(block, names[3]));
        } else {
            assert(holds_url(block, names[4]));
        }
    }
}

proof fn lemma_url_in_items(items: Seq<JsonValue>, i: nat)
    ensures
        forall|k: int|
            i <= k < items.len() && url_in(#[trigger] items[k]) is Some && (forall|j: int|
                i <= j < k ==> url_in(#[trigger] items[j]) is None) ==> url_in_items(items, i)
                == url_in(items[k]),
        (forall|k: int| i <= k < items.len() ==> url_in(#[trigger] items[k]) is None)
            ==> url_in_items(items, i) is None,
    decreases items.len() - i,
{
    if i < items.len() && url_in(items[i as int]) is None {
        lemma_url_in_items(items, i + 1);
    }
}

proof fn lemma_url_in_fields(fields: Seq<(Seq<char>, JsonValue)>, i: nat)
    ensures
        forall|k: int|
            i <= k < fields.len() && url_in((#[trigger] fields[k]).1) is Some && (forall|j: int|
                i <= j < k ==> url_in((#[trigger] fields[j]).1) is None) ==> url_in_fields(
                fields,
                i,
            ) == url_in(fields[k].1),
        (forall|k: int| i <= k < fields.len() ==> url_in((#[trigger] fields[k]).1) is None)
            ==> url_in_fields(fields, i) is None,
    decreases fields.len() - i,
{
    if i < fields.len() && url_in(fields[i as int].1) is None {
        lemma_url_in_fields(fields, i + 1);
    }
}

/// A text is an address if it begins with `http://` or `https://`; in a list or an object the
/// first element or field with an address counts; nothing else has one.
pub proof fn law_first_address_counts(v: JsonValue)
    ensures
        v matches JsonValue::Text(s) ==> url_in(v) == if (s.len() >= 7 && s.take(7) == "http://"@)
            || (s.len() >= 8 && s.take(8) == "https://"@) {
            Some(s)
        } else {
            None
        },
        v matches JsonValue::Array(items) ==> {
            &&& forall|k: int|
                0 <= k < items.len() && url_in(#[trigger] items[k]) is Some && (forall|j: int|
                    0 <= j < k ==> url_in(#[trigger] items[j]) is None) ==> url_in(v) == url_in(
                    items[k],
                )
            &&& (forall|k: int| 0 <= k < items.len() ==> url_in(#[trigger] items[k]) is None)
                ==> url_in(v) is None
        },
        v matches JsonValue::Object(fields) ==> {
            &&& forall|k: int|
                0 <= k < fields.len() && url_in((#[trigger] fields[k]).1) is Some && (forall|
                    j: int,
                |
                    0 <= j < k ==> url_in((#[trigger] fields[j]).1) is None) ==> url_in(v)
                    == url_in(fields[k].1)
            &&& (forall|k: int| 0 <= k < fields.len() ==> url_in((#[trigger] fields[k]).1) is None)
                ==> url_in(v) is None
        },
        v is Null || v is Bool || v is Number ==> url_in(v) is None,
{
    reveal_strlit("http://");
    reveal_strlit("https://");
    match v {
        JsonValue::Array(items) => {
            lemma_url_in_items(items, 0);
        },
        JsonValue::Object(fields) => {
            lemma_url_in_fields(fields, 0);
        },
        _ => {},
    }
}

fn find_url_in_field(block: &Json, name: &str) -> (r: Option<String>)
    ensures
        match url_in_field(block@, name@) {
            Some(url) => r is Some && r->0@ == url,
            None => r is None,
        },
{
    match block.get(name) {
        Some(v) => find_http_url(v),
        None => None,
    }
}

/// The address of a block.
pub fn extract_image_url(block: &Json) -> (r: Option<String>)
    ensures
        match image_url(block@) {
            Some(url) => r is Some && r->0@ == url,
            None => r is None,
        },
{
    let found = find_url_in_field(block, "content");
    if found.is_some() {
        return found;
    }
    let found = find_url_in_field(block, "image_url");
    if found.is_some() {
        return found;
    }
    let found = find_url_in_field(block, "crop_image_url");
    if found.is_some() {
        return found;
    }
    let found = find_url_in_field(block, "url");
    if found.is_some() {
        return found;
    }
    find_url_in_field(block, "file_url")
}

// ---- Suffixes ----

/// The media type in a content type: in lower case, and without parameters.
pub open spec fn media_type(content_type: Seq<char>) -> Seq<char> {
    lower(
        trim(
            content_type.take(lead(content_type, CharClass::Except(';')) as int),
            CharClass::Space,
        ),
    )
}

/// The suffix of files of a media type.
pub open spec fn media_suffix(media: Seq<char>) -> Option<Seq<char>> {
    if media == "image/jpeg"@ || media == "image/jpg"@ {
        Some(".jpg"@)
    } else if media == "image/png"@ {
        Some(".png"@)
    } else if media == "image/webp"@ {
        Some(".webp"@)
    } else if media == "image/gif"@ {
        Some(".gif"@)
    } else if media == "image/svg+xml"@ {
        Some(".svg"@)
    } else if media == "image/bmp"@ {
        Some(".bmp"@)
    } else if media == "image/tiff"@ {
        Some(".tif"@)
    } else {
        None
    }
}

/// The suffix that a content type gives.
pub open spec fn type_suffix(content_type: Option<Seq<char>>) -> Option<Seq<char>> {
    match content_type {
        Some(s) => media_suffix(media_type(s)),
        None => None,
    }
}

/// The text in `s`, if there is any.
pub open spec fn option_str(s: Option<&str>) -> Option<Seq<char>> {
    match s {
        Some(text) => Some(text@),
        None => None,
    }
}

fn owned(s: &str) -> (r: String)
    ensures
        r@ == s@,
{
    let chars = chars_of(s);
    string_of(&chars)
}

/// The suffix that a content type gives.
pub fn content_type_to_suffix(content_type: Option<&str>) -> (r: Option<String>)
    ensures
        match type_suffix(option_str(content_type)) {
            Some(suffix) => r is Some && r->0@ == suffix,
            None => r is None,
        },
{
    match content_type {
        None => None,
        Some(text) => {
            let chars = chars_of(text);
            assert(chars@.skip(0) =~= chars@);
            let n = lead_len(&chars, 0, CharClass::Except(';'));
            let part = vstd::slice::slice_subrange(chars.as_slice(), 0, n);
            assert(part@ =~= text@.take(n as int));
            let media = lowered(trimmed(part, CharClass::Space));
            if spells(&media, "image/jpeg") || spells(&media, "image/jpg") {
                Some(owned(".jpg"))
            } else if spells(&media, "image/png") {
                Some(owned(".png"))
            } else if spells(&media, "image/webp") {
                Some(owned(".webp"))
            } else if spells(&media, "image/gif") {
                Some(owned(".gif"))
            } else if spells(&media, "image/svg+xml") {
                Some(owned(".svg"))
            } else if spells(&media, "image/bmp") {
                Some(owned(".bmp"))
            } else if spells(&media, "image/tiff") {
                Some(owned(".tif"))
            } else {
                None
            }
        },
    }
}

/// The path that `url::Url::parse` and `url::Url::path` find in an address; none where the
/// address does not parse.
pub uninterp spec fn url_path(url: Seq<char>) -> Option<Seq<char>>;

/// The path of an address, by `url::Url::parse` and `url::Url::path`. Claimed is the name of
/// the result.
#[verifier::external_body]
fn path_of_url(url: &str) -> (r: Option<String>)
    ensures
        match r {
            Some(path) => url_path(url@) == Some(path@),
            None => url_path(url@) is None,
        },
{
    url::Url::parse(url).ok().map(|parsed| parsed.path().to_string())
}

/// The suffix that the path of a URL, with `/` between its names, gives: its extension with the
/// full stop, if that is not empty.
pub open spec fn path_suffix(path: Seq<char>) -> Option<Seq<char>> {
    match extension(PathStyle::Posix, path) {
        Some(ext) => if ext.len() > 0 {
            Some(seq!['.'] + ext)
        } else {
            None
        },
        None => None,
    }
}

/// The suffix that the path of a URL gives.
pub fn suffix_of_path(path: &str) -> (r: Option<String>)
    ensures
        match path_suffix(path@) {
            Some(suffix) => r is Some && r->0@ == suffix,
            None => r is None,
        },
{
    let chars = chars_of(path);
    match find_extension(PathStyle::Posix, &chars) {
        None => None,
        Some(ext) => {
            if ext.len() == 0 {
                return None;
            }
            let mut out: Vec<char> = Vec::new();
            out.push('.');
            push_all(&mut out, &ext);
            assert(out@ =~= seq!['.'] + ext@);
            Some(string_of(&out))
        },
    }
}

/// The suffix that an address gives.
pub open spec fn address_suffix(url: Seq<char>) -> Option<Seq<char>> {
    match url_path(url) {
        Some(path) => path_suffix(path),
        None => None,
    }
}

/// The suffix that an address gives.
pub fn url_suffix(url: &str) -> (r: Option<String>)
    ensures
        match address_suffix(url@) {
            Some(suffix) => r is Some && r->0@ == suffix,
            None => r is None,
        },
{
    match path_of_url(url) {
        Some(path) => suffix_of_path(path.as_str()),
        None => None,
    }
}

// ---- Which figures ----

/// An image block: the page and the place on it, counted from 0, and the address.
pub struct Image {
    pub page: nat,
    pub block: nat,
    pub url: Option<Seq<char>>,
}

/// The image blocks among the first `n` of `blocks`.
pub open spec fn images_on_page(blocks: Seq<JsonValue>, page: nat, n: nat) -> Seq<Image>
    decreases n,
{
    if n == 0 {
        Seq::empty()
    } else {
        let block = blocks[n - 1];
        let before = images_on_page(blocks, page, (n - 1) as nat);
        if block.text_field("label"@) == Some("image"@) {
            before.push(Image { page, block: (n - 1) as nat, url: image_url(block) })
        } else {
            before
        }
    }
}

/// The image blocks on the first `n` pages; a page that is no list has none.
pub open spec fn images_on_pages(pages: Seq<JsonValue>, n: nat) -> Seq<Image>
    decreases n,
{
    if n == 0 {
        Seq::empty()
    } else {
        images_on_pages(pages, (n - 1) as nat) + (match pages[n - 1].elements() {
            Some(blocks) => images_on_page(blocks, (n - 1) as nat, blocks.len()),
            None => Seq::empty(),
        })
    }
}

/// All image blocks.
pub open spec fn all_images(pages: Seq<JsonValue>) -> Seq<Image> {
    images_on_pages(pages, pages.len())
}

/// How many of `images` have an address.
pub open spec fn link_count(images: Seq<Image>) -> nat
    decreases images.len(),
{
    if images.len() == 0 {
        0
    } else {
        link_count(images.drop_last()) + (if images.last().url is Some {
            1nat
        } else {
            0nat
        })
    }
}

/// The name of the file that keeps a figure, without its suffix.
pub open spec fn figure_base(page: nat, block: nat) -> Seq<char> {
    "fig-"@ + decimal3(page + 1) + "-"@ + decimal3(block + 1)
}

/// Whether `url` is among the addresses of `figures`.
pub open spec fn has_url(figures: Seq<(Seq<char>, Seq<char>)>, url: Seq<char>) -> bool {
    exists|i: int| 0 <= i < figures.len() && (#[trigger] figures[i]).0 == url
}

/// The figures to download, by address and name: each address once, named by its first use.
pub open spec fn figures(images: Seq<Image>) -> Seq<(Seq<char>, Seq<char>)>
    decreases images.len(),
{
    if images.len() == 0 {
        Seq::empty()
    } else {
        let before = figures(images.drop_last());
        match images.last().url {
            Some(url) => if has_url(before, url) {
                before
            } else {
                before.push((url, figure_base(images.last().page, images.last().block)))
            },
            None => before,
        }
    }
}

/// What is to be done about the figures of a paper.
pub struct FigurePlan {
    /// The addresses to download, and the names of the files without suffix.
    pub figures: Vec<(String, String)>,
    /// How many image blocks have an address.
    pub remote_figure_links: usize,
    /// How many image blocks there are.
    pub image_blocks: usize,
}

/// An image block as it was found.
struct FoundImage {
    page: usize,
    block: usize,
    url: Option<String>,
}

impl View for FoundImage {
    type V = Image;

    closed spec fn view(&self) -> Image {
        Image {
            page: self.page as nat,
            block: self.block as nat,
            url: match self.url {
                Some(url) => Some(url@),
                None => None,
            },
        }
    }
}

spec fn found(v: Seq<FoundImage>) -> Seq<Image> {
    Seq::new(v.len(), |i: int| v[i]@)
}

/// Whether the places of the images can be counted from 1.
spec fn places_fit(v: Seq<FoundImage>) -> bool {
    forall|i: int|
        0 <= i < v.len() ==> (#[trigger] v[i]).page < usize::MAX && v[i].block < usize::MAX
}

fn is_image(block: &Json) -> (r: bool)
    ensures
        r == (block@.text_field("label"@) == Some("image"@)),
{
    match block.get_text("label") {
        Some(label) => {
            let chars = chars_of(label.as_str());
            spells(&chars, "image")
        },
        None => false,
    }
}

fn push_images(out: &mut Vec<FoundImage>, blocks: &Vec<Json>, page: usize)
    requires
        page < usize::MAX,
        places_fit(old(out)@),
    ensures
        places_fit(final(out)@),
        found(final(out)@) == found(old(out)@) + images_on_page(
            values(blocks@),
            page as nat,
            blocks@.len(),
        ),
{
    let ghost start = found(out@);
    let ghost all = values(blocks@);
    let mut i: usize = 0;
    assert(found(out@) =~= start + images_on_page(all, page as nat, 0));
    while i < blocks.len()
        invariant
            i <= blocks@.len(),
            all == values(blocks@),
            page < usize::MAX,
            places_fit(out@),
            found(out@) == start + images_on_page(all, page as nat, i as nat),
        decreases blocks.len() - i,
    {
        let ghost before = found(out@);
        let ghost more = images_on_page(all, page as nat, i as nat);
        assert(all[i as int] == blocks@[i as int]@);
        if is_image(&blocks[i]) {
            let image = FoundImage { page, block: i, url: extract_image_url(&blocks[i]) };
            out.push(image);
            assert(found(out@) =~= before.push(image@));
            assert(found(out@) =~= start + more.push(image@));
        }
        i += 1;
    }
}

fn find_images(layout: &Vec<Json>) -> (out: Vec<FoundImage>)
    ensures
        found(out@) == all_images(values(layout@)),
        places_fit(out@),
{
    let ghost pages = values(layout@);
    let mut out: Vec<FoundImage> = Vec::new();
    let mut i: usize = 0;
    assert(found(out@) =~= images_on_pages(pages, 0));
    while i < layout.len()
        invariant
            i <= layout@.len(),
            pages == values(layout@),
            found(out@) == images_on_pages(pages, i as nat),
            places_fit(out@),
        decreases layout.len() - i,
    {
        assert(pages[i as int] == layout@[i as int]@);
        let ghost before = found(out@);
        match layout[i].as_array() {
            Some(blocks) => push_images(&mut out, blocks, i),
            None => {
                assert(before + Seq::<Image>::empty() =~= before);
            },
        }
        i += 1;
    }
    out
}

fn name_figure(page: usize, block: usize) -> (out: String)
    requires
        page < usize::MAX,
        block < usize::MAX,
    ensures
        out@ == figure_base(page as nat, block as nat),
{
    let mut out = chars_of("fig-");
    let digits = decimal3_of(page + 1);
    push_all(&mut out, &digits);
    push_str(&mut out, "-");
    let digits = decimal3_of(block + 1);
    push_all(&mut out, &digits);
    string_of(&out)
}

fn knows_url(figures: &Vec<(String, String)>, url: &String) -> (r: bool)
    ensures
        r == has_url(pairs_of(figures@), url@),
{
    let ghost ps = pairs_of(figures@);
    let wanted = chars_of(url.as_str());
    let mut i: usize = 0;
    while i < figures.len()
        invariant
            i <= figures@.len(),
            ps == pairs_of(figures@),
            wanted@ == url@,
            forall|k: int| 0 <= k < i ==> (#[trigger] ps[k]).0 != url@,
        decreases figures.len() - i,
    {
        let known = chars_of(figures[i].0.as_str());
        assert(ps[i as int].0 == known@);
        if same_text(&known, &wanted) {
            return true;
        }
        i += 1;
    }
    false
}

/// What is to be done about the figures of a paper with the given layout.
pub fn plan_figures(layout: &Vec<Json>) -> (r: FigurePlan)
    ensures
        pairs_of(r.figures@) == figures(all_images(values(layout@))),
        r.remote_figure_links == link_count(all_images(values(layout@))),
        r.image_blocks == all_images(values(layout@)).len(),
{
    let images = find_images(layout);
    let ghost all = found(images@);
    let mut planned: Vec<(String, String)> = Vec::new();
    let mut links: usize = 0;
    let mut i: usize = 0;
    assert(pairs_of(planned@) =~= figures(all.take(0)));
    while i < images.len()
        invariant
            i <= images@.len(),
            all == found(images@),
            places_fit(images@),
            links <= i,
            links == link_count(all.take(i as int)),
            pairs_of(planned@) == figures(all.take(i as int)),
        decreases images.len() - i,
    {
        let ghost before = pairs_of(planned@);
        let image = &images[i];
        assert(all.take(i + 1).drop_last() =~= all.take(i as int));
        assert(all.take(i + 1).last() == image@);
        if let Some(url) = &image.url {
            links += 1;
            if !knows_url(&planned, url) {
                let base = name_figure(image.page, image.block);
                planned.push((copy_string(url), base));
                assert(pairs_of(planned@) =~= before.push((url@, base@)));
            }
        }
        i += 1;
    }
    assert(all.take(i as int) =~= all);
    FigurePlan { figures: planned, remote_figure_links: links, image_blocks: images.len() }
}

proof fn lemma_figures(images: Seq<Image>)
    ensures
        forall|i: int, j: int|
            0 <= i < j < figures(images).len() ==> (#[trigger] figures(images)[i]).0 != (
            #[trigger] figures(images)[j]).0,
        figures(images).len() <= link_count(images) <= images.len(),
        forall|k: int|
            0 <= k < images.len() ==> ((#[trigger] images[k]).url matches Some(url) ==> has_url(
                figures(images),
                url,
            )),
    decreases images.len(),
{
    if images.len() > 0 {
        let init = images.drop_last();
        let before = figures(init);
        let now = figures(images);
        lemma_figures(init);
        assert forall|i: int, j: int| 0 <= i < j < now.len() implies (#[trigger] now[i]).0 != (
        #[trigger] now[j]).0 by {
            assert(now[i] == before[i]);
            if j < before.len() {
                assert(now[j] == before[j]);
            } else {
                assert(!has_url(before, now[j].0));
            }
        }
        assert forall|k: int| 0 <= k < images.len() implies ((#[trigger] images[k]).url matches Some(
            url,
        ) ==> has_url(now, url)) by {
            if images[k].url is Some {
                let url = images[k].url->0;
                if k < init.len() {
                    assert(init[k] == images[k]);
                    let w = choose|w: int| 0 <= w < before.len() && (#[trigger] before[w]).0 == url;
                    assert(now[w] == before[w]);
                } else if has_url(before, url) {
                } else {
                    assert(now[before.len() as int].0 == url);
                }
            }
        }
    }
}

/// Whether the block number `b` on the page number `p`, both counted from 0, is an image, and
/// `url` its address.
pub open spec fn image_at(
    pages: Seq<JsonValue>,
    p: int,
    b: int,
    url: Option<Seq<char>>,
) -> bool {
    &&& 0 <= p < pages.len()
    &&& pages[p] matches JsonValue::Array(blocks) && 0 <= b < blocks.len()
        && blocks[b].text_field("label"@) == Some("image"@) && image_url(blocks[b]) == url
}

/// Whether `images` are all image blocks, in reading order.
pub open spec fn lists_images(pages: Seq<JsonValue>, images: Seq<Image>) -> bool {
    &&& forall|k: int|
        0 <= k < images.len() ==> {
            let image = #[trigger] images[k];
            image_at(pages, image.page as int, image.block as int, image.url)
        }
    &&& forall|p: int, b: int, url: Option<Seq<char>>| #[trigger]
        image_at(pages, p, b, url) ==> images.contains(
            Image { page: p as nat, block: b as nat, url },
        )
    &&& forall|k: int, l: int|
        0 <= k < l < images.len() ==> (#[trigger] images[k]).page < (#[trigger] images[l]).page
            || images[k].page == images[l].page && images[k].block < images[l].block
}

proof fn lemma_images_on_page(blocks: Seq<JsonValue>, page: nat, n: nat)
    requires
        n <= blocks.len(),
    ensures
        ({
            let images = images_on_page(blocks, page, n);
            &&& forall|k: int|
                0 <= k < images.len() ==> (#[trigger] images[k]).page == page && images[k].block < n
                    && blocks[images[k].block as int].text_field("label"@) == Some("image"@)
                    && images[k].url == image_url(blocks[images[k].block as int])
            &&& forall|b: int|
                0 <= b < n && (#[trigger] blocks[b]).text_field("label"@) == Some("image"@)
                    ==> images.contains(
                    Image { page, block: b as nat, url: image_url(blocks[b]) },
                )
            &&& forall|k: int, l: int|
                0 <= k < l < images.len() ==> (#[trigger] images[k]).block < (
                #[trigger] images[l]).block
        }),
    decreases n,
{
    if n > 0 {
        lemma_images_on_page(blocks, page, (n - 1) as nat);
        let before = images_on_page(blocks, page, (n - 1) as nat);
        let images = images_on_page(blocks, page, n);
        assert forall|b: int|
            0 <= b < n && (#[trigger] blocks[b]).text_field("label"@) == Some(
                "image"@,
            ) implies images.contains(
            Image { page, block: b as nat, url: image_url(blocks[b]) },
        ) by {
            let image = Image { page, block: b as nat, url: image_url(blocks[b]) };
            if b < n - 1 {
                assert(before.contains(image));
                let k = choose|k: int| 0 <= k < before.len() && before[k] == image;
                assert(images[k] == image);
            } else {
                assert(images[before.len() as int] == image);
            }
        }
    }
}

proof fn lemma_images_on_pages(pages: Seq<JsonValue>, n: nat)
    requires
        n <= pages.len(),
    ensures
        lists_images(pages.take(n as int), images_on_pages(pages, n)),
    decreases n,
{
    let now = pages.take(n as int);
    let images = images_on_pages(pages, n);
    if n > 0 {
        lemma_images_on_pages(pages, (n - 1) as nat);
        let init = pages.take(n - 1);
        let before = images_on_pages(pages, (n - 1) as nat);
        let here = match pages[n - 1].elements() {
            Some(blocks) => images_on_page(blocks, (n - 1) as nat, blocks.len()),
            None => Seq::empty(),
        };
        if pages[n - 1] is Array {
            let blocks = pages[n - 1]->Array_0;
            lemma_images_on_page(blocks, (n - 1) as nat, blocks.len());
        }
        assert(images == before + here);
        assert forall|k: int| 0 <= k < images.len() implies ({
            let image = #[trigger] images[k];
            image_at(now, image.page as int, image.block as int, image.url)
        }) by {
            if k < before.len() {
                assert(images[k] == before[k]);
            } else {
                assert(images[k] == here[k - before.len()]);
            }
        }
        assert forall|p: int, b: int, url: Option<Seq<char>>| #[trigger]
            image_at(now, p, b, url) implies images.contains(
            Image { page: p as nat, block: b as nat, url },
        ) by {
            let image = Image { page: p as nat, block: b as nat, url };
            if p < n - 1 {
                assert(image_at(init, p, b, url));
                let k = choose|k: int| 0 <= k < before.len() && before[k] == image;
                assert(images[k] == image);
            } else {
                let blocks = pages[n - 1]->Array_0;
                assert(blocks[b].text_field("label"@) == Some("image"@));
                assert(here.contains(image));
                let k = choose|k: int| 0 <= k < here.len() && here[k] == image;
                assert(images[before.len() + k] == image);
            }
        }
        assert forall|k: int, l: int| 0 <= k < l < images.len() implies (#[trigger] images[k]).page
            < (#[trigger] images[l]).page || images[k].page == images[l].page && images[k].block
            < images[l].block by {
            if l < before.len() {
                assert(images[k] == before[k] && images[l] == before[l]);
            } else if k < before.len() {
                assert(images[k] == before[k] && images[l] == here[l - before.len()]);
            } else {
                assert(images[k] == here[k - before.len()] && images[l] == here[l - before.len()]);
            }
        }
    }
}

/// The image blocks of a layout are found: all blocks with the label `image` on pages that are
/// lists, in reading order, and no others.
pub proof fn law_all_images_are_found(pages: Seq<JsonValue>)
    ensures
        lists_images(pages, all_images(pages)),
{
    lemma_images_on_pages(pages, pages.len());
    assert(pages.take(pages.len() as int) =~= pages);
}

/// Whether `image` is the first of `images` with its address.
pub open spec fn first_use(images: Seq<Image>, k: int) -> bool {
    &&& images[k].url is Some
    &&& forall|j: int| 0 <= j < k ==> (#[trigger] images[j]).url != images[k].url
}

/// Whether `figure` has the address of one of `images`, and the name of the first of them with
/// it.
pub open spec fn comes_from(figure: (Seq<char>, Seq<char>), images: Seq<Image>) -> bool {
    exists|k: int|
        0 <= k < images.len() && #[trigger] first_use(images, k) && figure == (
            images[k].url->0,
            "fig-"@ + decimal3(images[k].page + 1) + "-"@ + decimal3(images[k].block + 1),
        )
}

proof fn lemma_named_by_first_use(images: Seq<Image>)
    ensures
        forall|k: int|
            0 <= k < images.len() && #[trigger] first_use(images, k) ==> figures(images).contains(
                (images[k].url->0, figure_base(images[k].page, images[k].block)),
            ),
        forall|i: int|
            0 <= i < figures(images).len() ==> comes_from(#[trigger] figures(images)[i], images),
    decreases images.len(),
{
    if images.len() > 0 {
        let init = images.drop_last();
        let before = figures(init);
        let now = figures(images);
        let last = images.len() - 1;
        lemma_named_by_first_use(init);
        lemma_figures(init);
        assert forall|k: int| 0 <= k < last implies first_use(init, k) == #[trigger] first_use(
            images,
            k,
        ) by {
            if first_use(init, k) {
                assert forall|j: int| 0 <= j < k implies (#[trigger] images[j]).url
                    != images[k].url by {
                    assert(init[j] == images[j]);
                }
            }
            if first_use(images, k) {
                assert forall|j: int| 0 <= j < k implies (#[trigger] init[j]).url
                    != init[k].url by {
                    assert(init[j] == images[j]);
                }
            }
        }
        if images[last].url is Some {
            let url = images[last].url->0;
            if has_url(before, url) {
                let w = choose|w: int| 0 <= w < before.len() && (#[trigger] before[w]).0 == url;
                assert(comes_from(before[w], init));
                let k = choose|k: int|
                    0 <= k < init.len() && #[trigger] first_use(init, k) && before[w] == (
                        init[k].url->0,
                        "fig-"@ + decimal3(init[k].page + 1) + "-"@ + decimal3(init[k].block + 1),
                    );
                assert(images[k].url == images[last].url);
                assert(!first_use(images, last));
            } else {
                assert forall|j: int| 0 <= j < last implies (#[trigger] images[j]).url
                    != images[last].url by {
                    assert(init[j] == images[j]);
                }
                assert(first_use(images, last));
                assert(now[before.len() as int] == (
                    url,
                    figure_base(images[last].page, images[last].block),
                ));
            }
        }
        assert forall|k: int|
            0 <= k < images.len() && #[trigger] first_use(images, k) implies now.contains(
            (images[k].url->0, figure_base(images[k].page, images[k].block)),
        ) by {
            let figure = (images[k].url->0, figure_base(images[k].page, images[k].block));
            if k < last {
                assert(first_use(init, k));
                assert(before.contains(figure));
                let w = choose|w: int| 0 <= w < before.len() && before[w] == figure;
                assert(now[w] == figure);
            }
        }
        assert forall|i: int| 0 <= i < now.len() implies comes_from(#[trigger] now[i], images) by {
            if i < before.len() {
                assert(now[i] == before[i]);
                assert(comes_from(before[i], init));
                let k = choose|k: int|
                    0 <= k < init.len() && #[trigger] first_use(init, k) && before[i] == (
                        init[k].url->0,
                        "fig-"@ + decimal3(init[k].page + 1) + "-"@ + decimal3(init[k].block + 1),
                    );
                assert(first_use(images, k));
            } else {
                assert(first_use(images, last));
            }
        }
    }
}

/// A figure is named by the page and the place on it, counted from 1, where its address stands
/// first; so is each figure that is downloaded.
pub proof fn law_figures_are_named_by_first_use(pages: Seq<JsonValue>)
    ensures
        ({
            let images = all_images(pages);
            let planned = figures(images);
            &&& forall|k: int|
                0 <= k < images.len() && #[trigger] first_use(images, k) ==> planned.contains(
                    (
                        images[k].url->0,
                        "fig-"@ + decimal3(images[k].page + 1) + "-"@ + decimal3(
                            images[k].block + 1,
                        ),
                    ),
                )
            &&& forall|i: int|
                0 <= i < planned.len() ==> comes_from(#[trigger] planned[i], images)
        }),
{
    lemma_named_by_first_use(all_images(pages));
}

/// As many links are counted as image blocks have an address: each place with an address adds
/// one, and no other.
pub proof fn law_links_are_counted(images: Seq<Image>, more: Image)
    ensures
        link_count(Seq::empty()) == 0,
        more.url is Some ==> link_count(images.push(more)) == link_count(images) + 1,
        more.url is None ==> link_count(images.push(more)) == link_count(images),
{
    assert(images.push(more).drop_last() =~= images);
}

/// Every address that an image block gives is downloaded, and none of them twice.
pub proof fn law_each_url_is_downloaded_once(pages: Seq<JsonValue>)
    ensures
        forall|i: int, j: int|
            0 <= i < j < figures(all_images(pages)).len() ==> (#[trigger] figures(
                all_images(pages),
            )[i]).0 != (#[trigger] figures(all_images(pages))[j]).0,
        forall|k: int|
            0 <= k < all_images(pages).len() ==> ((#[trigger] all_images(pages)[k]).url matches Some(
                url,
            ) ==> has_url(figures(all_images(pages)), url)),
        figures(all_images(pages)).len() <= link_count(all_images(pages)) <= all_images(
            pages,
        ).len(),
{
    lemma_figures(all_images(pages));
}

// ---- Downloads ----

/// The suffix of a downloaded figure: by its content type, else by its address.
pub open spec fn figure_suffix(content_type: Option<Seq<char>>, url: Seq<char>) -> Seq<char> {
    match type_suffix(content_type) {
        Some(suffix) => suffix,
        None => match address_suffix(url) {
            Some(suffix) => suffix,
            None => ".img"@,
        },
    }
}

/// Whether a figure is not kept: the server refused it, it is announced as larger than `max`
/// bytes, or it is no image.
pub open spec fn refused(
    success: bool,
    content_length: Option<Seq<char>>,
    content_type: Option<Seq<char>>,
    max: nat,
) -> bool {
    ||| !success
    ||| content_length matches Some(s) && parse_unsigned(s, 10, u64::MAX as nat) matches Some(n)
        && n > max
    ||| content_type matches Some(s) && !has_prefix(lower(s), "image/"@)
}

/// The name of the file that keeps the figure at `url`, given what the server announced of it;
/// none if it is not kept.
pub fn figure_file_name(
    success: bool,
    content_length: Option<&str>,
    content_type: Option<&str>,
    url: &str,
    base: &str,
    max_download_bytes: u64,
) -> (r: Option<String>)
    ensures
        r is None <==> refused(
            success,
            option_str(content_length),
            option_str(content_type),
            max_download_bytes as nat,
        ),
        r is Some ==> r->0@ == base@ + figure_suffix(option_str(content_type), url@),
{
    if !success {
        return None;
    }
    if let Some(length) = content_length {
        let chars = chars_of(length);
        if let Some(n) = read_unsigned(&chars, 10, u64::MAX) {
            if n > max_download_bytes {
                return None;
            }
        }
    }
    if let Some(text) = content_type {
        let chars = chars_of(text);
        let low = lowered(&chars);
        if !starts_with(&low, "image/") {
            return None;
        }
    }
    let suffix = match content_type_to_suffix(content_type) {
        Some(suffix) => suffix,
        None => match url_suffix(url) {
            Some(suffix) => suffix,
            None => owned(".img"),
        },
    };
    let mut name = chars_of(base);
    push_str(&mut name, suffix.as_str());
    Some(string_of(&name))
}

/// The number of bytes received with one chunk more; none if that is more than `max`.
pub fn received_with(received: u64, chunk: u64, max: u64) -> (r: Option<u64>)
    ensures
        match r {
            Some(n) => n == received + chunk && n <= max,
            None => received + chunk > max,
        },
{
    match received.checked_add(chunk) {
        Some(n) => if n <= max {
            Some(n)
        } else {
            None
        },
        None => None,
    }
}

/// Downloads by address and, where they succeeded, name of the file.
pub open spec fn downloads(v: Seq<(String, Option<String>)>) -> Seq<
    (Seq<char>, Option<Seq<char>>),
> {
    Seq::new(
        v.len(),
        |i: int|
            (
                v[i].0@,
                match v[i].1 {
                    Some(name) => Some(name@),
                    None => None,
                },
            ),
    )
}

/// What replaces the addresses of the figures that were downloaded.
pub open spec fn local_figures(results: Seq<(Seq<char>, Option<Seq<char>>)>) -> Seq<
    (Seq<char>, Seq<char>),
>
    decreases results.len(),
{
    if results.len() == 0 {
        Seq::empty()
    } else {
        let before = local_figures(results.drop_last());
        match results.last().1 {
            Some(name) => before.push((results.last().0, "figures/"@ + name)),
            None => before,
        }
    }
}

/// What replaces the addresses of the figures that were downloaded; their number is the number
/// of downloaded figures.
pub fn figure_replacements(results: &Vec<(String, Option<String>)>) -> (out: Vec<(String, String)>)
    ensures
        pairs_of(out@) == local_figures(downloads(results@)),
{
    let ghost all = downloads(results@);
    let mut out: Vec<(String, String)> = Vec::new();
    let mut i: usize = 0;
    assert(pairs_of(out@) =~= local_figures(all.take(0)));
    while i < results.len()
        invariant
            i <= results@.len(),
            all == downloads(results@),
            pairs_of(out@) == local_figures(all.take(i as int)),
        decreases results.len() - i,
    {
        let ghost before = pairs_of(out@);
        assert(all.take(i + 1).drop_last() =~= all.take(i as int));
        assert(all.take(i + 1).last() == all[i as int]);
        if let Some(name) = &results[i].1 {
            let mut path = chars_of("figures/");
            push_str(&mut path, name.as_str());
            let path = string_of(&path);
            out.push((copy_string(&results[i].0), path));
            assert(pairs_of(out@) =~= before.push((results@[i as int].0@, path@)));
        }
        i += 1;
    }
    assert(all.take(i as int) =~= all);
    out
}

/// Markdown with the addresses of downloaded figures replaced.
pub struct LocalizedFigures {
    pub markdown: String,
    /// What replaces the address of each figure that was downloaded.
    pub replacements: Vec<(String, String)>,
    pub downloaded_figures: usize,
}

/// Replaces the addresses of the figures that were downloaded.
pub fn localize_figures(markdown: &str, results: &Vec<(String, Option<String>)>) -> (r:
    LocalizedFigures)
    ensures
        pairs_of(r.replacements@) == local_figures(downloads(results@)),
        r.downloaded_figures == local_figures(downloads(results@)).len(),
        r.markdown@ == image_urls_replaced(markdown@, local_figures(downloads(results@))),
{
    let replacements = figure_replacements(results);
    let markdown = replace_image_urls(markdown, &replacements);
    let downloaded_figures = replacements.len();
    assert(pairs_of(replacements@).len() == downloaded_figures);
    LocalizedFigures { markdown, replacements, downloaded_figures }
}

// ---- Names and replacements ----

/// The media types that are known.
pub open spec fn known_types() -> Seq<Seq<char>> {
    seq![
        "image/jpeg"@, "image/jpg"@, "image/png"@, "image/webp"@, "image/gif"@,
        "image/svg+xml"@, "image/bmp"@, "image/tiff"@,
    ]
}

/// The suffix of files of each of them.
pub open spec fn known_suffixes() -> Seq<Seq<char>> {
    seq![
        ".jpg"@, ".jpg"@, ".png"@, ".webp"@, ".gif"@, ".svg"@, ".bmp"@, ".tif"@,
    ]
}

/// The suffix of a figure is that of its media type if that is known, whatever the case, the
/// parameters and the white space around it; else that of its address, else `.img`.
pub proof fn law_suffix_is_by_type_then_by_address(
    before: Seq<char>,
    media: Seq<char>,
    behind: Seq<char>,
    parameters: Seq<char>,
    url: Seq<char>,
    k: int,
)
    requires
        0 <= k < 8,
        lower(media) == known_types()[k],
        !media.contains(';'),
        forall|j: int| 0 <= j < before.len() ==> is_white_space(#[trigger] before[j]),
        forall|j: int| 0 <= j < behind.len() ==> is_white_space(#[trigger] behind[j]),
    ensures
        figure_suffix(Some(before + media + behind), url) == known_suffixes()[k],
        figure_suffix(Some(before + media + behind + seq![';'] + parameters), url)
            == known_suffixes()[k],
        address_suffix(url) is Some ==> figure_suffix(None, url) == address_suffix(url)->0,
        address_suffix(url) is None ==> figure_suffix(None, url) == ".img"@,
{
    let plain = before + media + behind;
    let full = plain + seq![';'] + parameters;
    let class = CharClass::Except(';');
    assert forall|j: int| 0 <= j < plain.len() implies class.has(#[trigger] plain[j]) by {
        if j < before.len() {
            assert(plain[j] == before[j]);
        } else if j < before.len() + media.len() {
            assert(plain[j] == media[j - before.len()]);
            assert(media.contains(plain[j]));
        } else {
            assert(plain[j] == behind[j - before.len() - media.len()]);
        }
    }
    lemma_lead_is(plain, class, plain.len());
    assert(plain.take(plain.len() as int) =~= plain);
    assert forall|j: int| 0 <= j < plain.len() implies class.has(#[trigger] full[j]) by {
        assert(full[j] == plain[j]);
    }
    assert(full[plain.len() as int] == ';');
    lemma_lead_is(full, class, plain.len());
    assert(full.take(plain.len() as int) =~= plain);
    lemma_known_type(media, k);
    law_trimmed_text_is_found(before, media, behind, CharClass::Space);
}

proof fn lemma_known_type(media: Seq<char>, k: int)
    requires
        0 <= k < 8,
        lower(media) == known_types()[k],
    ensures
        media_suffix(lower(media)) == Some(known_suffixes()[k]),
        media.len() > 0,
        !is_white_space(media[0]),
        !is_white_space(media.last()),
{
    reveal_strlit("image/jpeg");
    reveal_strlit("image/jpg");
    reveal_strlit("image/png");
    reveal_strlit("image/webp");
    reveal_strlit("image/gif");
    reveal_strlit("image/svg+xml");
    reveal_strlit("image/bmp");
    reveal_strlit("image/tiff");
    let m = lower(media);
    assert(m[0] == 'i');
    assert(m.len() == media.len());
    assert(media.len() > 0);
    law_lower_case_changes_only_capitals(media);
    assert(m[0] == ascii_lower(media[0]));
    let n = m.len() - 1;
    assert(m[n] == 'g' || m[n] == 'p' || m[n] == 'f' || m[n] == 'l');
    assert(m[n] == ascii_lower(media[n]));
    assert(known_types()[k] == m);
    if k == 0 {
        assert(m[6] == 'j');
        assert(m.len() == 10);
    }
    if k == 1 {
        assert(m[6] == 'j');
        assert(m.len() == 9);
    }
    if k == 2 {
        assert(m[6] == 'p');
        assert(m.len() == 9);
    }
    if k == 3 {
        assert(m[6] == 'w');
        assert(m.len() == 10);
    }
    if k == 4 {
        assert(m[6] == 'g');
        assert(m.len() == 9);
    }
    if k == 5 {
        assert(m[6] == 's');
        assert(m.len() == 13);
    }
    if k == 6 {
        assert(m[6] == 'b');
        assert(m.len() == 9);
    }
    if k == 7 {
        assert(m[6] == 't');
        assert(m.len() == 10);
    }
}

/// A figure is kept if the server sent it, it is not announced as too large, and, as far as its
/// type is told, is an image; and only then.
pub proof fn law_only_images_within_the_limit_are_kept(
    success: bool,
    content_length: Option<Seq<char>>,
    content_type: Option<Seq<char>>,
    max: nat,
)
    ensures
        refused(success, content_length, content_type, max) <==> {
            ||| !success
            ||| content_length is Some && parse_unsigned(
                content_length->0,
                10,
                0xffff_ffff_ffff_ffff,
            ) is Some && parse_unsigned(content_length->0, 10, 0xffff_ffff_ffff_ffff)->0 > max
            ||| content_type is Some && !(content_type->0.len() >= 6 && lower(
                content_type->0,
            ).take(6) == "image/"@)
        },
{
    reveal_strlit("image/");
    if content_type is Some {
        let low = lower(content_type->0);
        if low.len() >= 6 {
            assert(low.subrange(0, 6) =~= low.take(6));
        }
    }
}

/// An address is replaced by its file among the figures if it was downloaded, and by nothing if
/// not; replacements stand in the order of the downloads.
pub proof fn law_downloaded_figures_are_local(
    results: Seq<(Seq<char>, Option<Seq<char>>)>,
    url: Seq<char>,
    name: Seq<char>,
)
    ensures
        local_figures(Seq::empty()).len() == 0,
        local_figures(results.push((url, Some(name)))) == local_figures(results).push(
            (url, "figures/"@ + name),
        ),
        local_figures(results.push((url, None))) == local_figures(results),
{
    assert(results.push((url, Some(name))).drop_last() =~= results);
    assert(results.push((url, None)).drop_last() =~= results);
}

/// An address is one of the web if it begins with `http://` or `https://`.
pub proof fn law_addresses_begin_with_their_scheme(s: Seq<char>, rest: Seq<char>)
    ensures
        http_url("http://"@ + rest),
        http_url("https://"@ + rest),
        http_url(s) ==> s.len() >= 7 && s.take(4) == seq!['h', 't', 't', 'p'] && (s[4] == ':'
            || s[4] == 's'),
{
    reveal_strlit("http://");
    reveal_strlit("https://");
    let a = "http://"@ + rest;
    let b = "https://"@ + rest;
    assert(a.subrange(0, 7) =~= "http://"@);
    assert(b.subrange(0, 8) =~= "https://"@);
    if has_prefix(s, "http://"@) {
        let t = s.subrange(0, 7);
        assert(t[0] == s[0] && t[1] == s[1] && t[2] == s[2] && t[3] == s[3] && t[4] == s[4]);
        assert(s.take(4) =~= seq!['h', 't', 't', 'p']);
    } else if has_prefix(s, "https://"@) {
        let t = s.subrange(0, 8);
        assert(t[0] == s[0] && t[1] == s[1] && t[2] == s[2] && t[3] == s[3] && t[4] == s[4]);
        assert(s.take(4) =~= seq!['h', 't', 't', 'p']);
    }
}

/// The suffix in the path of an address is the extension of its name, with the full stop; a name
/// with none has no suffix.
pub proof fn law_suffix_in_an_address_is_its_extension(
    dir: Seq<char>,
    stem: Seq<char>,
    ext: Seq<char>,
)
    requires
        stem.len() > 0,
        !stem.contains('/'),
        ext.len() > 0,
        !ext.contains('/'),
        !ext.contains('.'),
    ensures
        path_suffix(dir + seq!['/'] + (stem + seq!['.'] + ext)) == Some(seq!['.'] + ext),
        path_suffix(dir + seq!['/'] + ext) is None,
{
    reveal_strlit(".");
    reveal_strlit("..");
    let name = stem + seq!['.'] + ext;
    assert(ext.contains(ext[0]));
    assert(ext.contains(ext[ext.len() - 1]));
    assert(name.last() == ext[ext.len() - 1]);
    assert(name != "."@ && name != ".."@);
    assert forall|j: int| 0 <= j < name.len() implies !posix_rule().separates(
        #[trigger] name[j],
    ) by {
        if j < stem.len() {
            assert(stem.contains(stem[j]));
        } else if j > stem.len() {
            assert(name[j] == ext[j - stem.len() - 1]);
            assert(ext.contains(ext[j - stem.len() - 1]));
        }
    }
    assert forall|j: int| 0 <= j < ext.len() implies !posix_rule().separates(
        #[trigger] ext[j],
    ) by {
        assert(ext.contains(ext[j]));
    }
    law_last_name_counts(dir, name);
    law_last_name_counts(dir, ext);
    law_extension_is_behind_the_last_full_stop(stem, ext);
}

} // verus!
