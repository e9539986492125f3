//! The request to the recognition service, and what its reply is held to.

use vstd::prelude::*;

use crate::json::{
    json_document, lemma_field_nests, lemma_writable_field, parse_json, shallow, shallow_field,
    values, writable, Json, JsonValue,
};
use crate::number::{decimal, decimal_of};
use crate::text::{
    chars_of, copy_string, has_suffix, lemma_parts_at_the_ends, push_all, push_str, string_of,
};

verus! {

/// The address of the recognition service.
pub const API_URL: &'static str = "https://api.z.ai/api/paas/v4/layout_parsing";

// ---- The request ----

/// The character for a number of six bits.
pub open spec fn base64_digit(n: int) -> char {
    if n < 26 {
        (65 + n) as u8 as char
    } else if n < 52 {
        (71 + n) as u8 as char
    } else if n < 62 {
        (n - 4) as u8 as char
    } else if n == 62 {
        '+'
    } else {
        '/'
    }
}

/// Bytes in Base64: four characters for three bytes, filled up with `=`.
pub open spec fn base64(b: Seq<u8>) -> Seq<char>
    decreases b.len(),
{
    if b.len() == 0 {
        Seq::empty()
    } else if b.len() == 1 {
        seq![base64_digit((b[0] / 4) as int), base64_digit((b[0] % 4) * 16), '=', '=']
    } else if b.len() == 2 {
        seq![
            base64_digit((b[0] / 4) as int),
            base64_digit((b[0] % 4) * 16 + b[1] / 16),
            base64_digit((b[1] % 16) * 4),
            '=',
        ]
    } else {
        seq![
            base64_digit((b[0] / 4) as int),
            base64_digit((b[0] % 4) * 16 + b[1] / 16),
            base64_digit((b[1] % 16) * 4 + b[2] / 64),
            base64_digit((b[2] % 64) as int),
        ] + base64(b.skip(3))
    }
}

/// Bytes in Base64, by `base64::Engine::encode` of the engine
/// `base64::engine::general_purpose::STANDARD`. Claimed is the standard alphabet with padding,
/// for inputs whose encoding can be held in memory.
#[verifier::external_body]
fn encode_base64(bytes: &[u8]) -> (r: String)
    requires
        bytes@.len() <= isize::MAX / 2,
    ensures
        r@ == base64(bytes@),
{
    base64::Engine::encode(&base64::engine::general_purpose::STANDARD, bytes)
}

/// The request for a PDF with the content `bytes`.
pub open spec fn payload(bytes: Seq<u8>) -> JsonValue {
    JsonValue::Object(
        seq![
            ("file"@, JsonValue::Text("data:application/pdf;base64,"@ + base64(bytes))),
            ("model"@, JsonValue::Text("glm-ocr"@)),
            ("return_crop_images"@, JsonValue::Bool(true)),
        ],
    )
}

/// The request for a PDF with the content `bytes`.
pub fn build_payload(bytes: &[u8]) -> (r: Json)
    requires
        bytes@.len() <= isize::MAX / 2,
    ensures
        r@ == payload(bytes@),
{
    let encoded = encode_base64(bytes);
    let mut file = chars_of("data:application/pdf;base64,");
    push_str(&mut file, encoded.as_str());
    let file = Json::Text(string_of(&file));
    let mut fields: Vec<(String, Json)> = Vec::new();
    let name = chars_of("file");
    fields.push((string_of(&name), file));
    let name = chars_of("model");
    fields.push((string_of(&name), Json::of_text("glm-ocr")));
    let name = chars_of("return_crop_images");
    fields.push((string_of(&name), Json::Bool(true)));
    let r = Json::object(fields);
    assert(r@->Object_0 =~= payload(bytes@)->Object_0);
    r
}

// ---- The reply ----

/// Why recognition failed.
pub enum OcrError {
    /// The service did not answer.
    Unreachable,
    /// There were too many requests.
    RateLimited,
    /// The service refused, with a status and a text.
    Refused { status: u16, text: String },
    /// The reply is no JSON.
    InvalidJson,
    /// The reply is no object.
    UnexpectedType,
    /// The reply has no Markdown.
    MissingMarkdown,
    /// The reply has no layout.
    MissingLayout,
}

/// An error in words.
pub open spec fn error_text(e: OcrError) -> Seq<char> {
    match e {
        OcrError::Unreachable => "Could not reach Z.AI OCR API"@,
        OcrError::RateLimited => {
            "Z.AI OCR rate limit (HTTP 429). Lower --ocr-workers (e.g. 1) or reduce concurrent jobs sharing this API key."@
        },
        OcrError::Refused { status, text } => "Z.AI OCR request failed with HTTP "@ + decimal(
            status as nat,
        ) + ": "@ + text@,
        OcrError::InvalidJson => "Z.AI OCR API returned invalid JSON"@,
        OcrError::UnexpectedType => "Z.AI OCR API returned an unexpected response type"@,
        OcrError::MissingMarkdown => "Z.AI OCR response is missing string field 'md_results'"@,
        OcrError::MissingLayout => "Z.AI OCR response is missing list field 'layout_details'"@,
    }
}

impl OcrError {
    /// The error in words.
    pub fn message(&self) -> (r: String)
        ensures
            r@ == error_text(*self),
    {
        let text = match self {
            OcrError::Unreachable => chars_of("Could not reach Z.AI OCR API"),
            OcrError::RateLimited => chars_of(
                "Z.AI OCR rate limit (HTTP 429). Lower --ocr-workers (e.g. 1) or reduce concurrent jobs sharing this API key.",
            ),
            OcrError::Refused { status, text } => {
                let mut out = chars_of("Z.AI OCR request failed with HTTP ");
                let digits = decimal_of(*status as usize);
                push_all(&mut out, &digits);
                push_str(&mut out, ": ");
                push_str(&mut out, text.as_str());
                out
            },
            OcrError::InvalidJson => chars_of("Z.AI OCR API returned invalid JSON"),
            OcrError::UnexpectedType => chars_of(
                "Z.AI OCR API returned an unexpected response type",
            ),
            OcrError::MissingMarkdown => chars_of(
                "Z.AI OCR response is missing string field 'md_results'",
            ),
            OcrError::MissingLayout => chars_of(
                "Z.AI OCR response is missing list field 'layout_details'",
            ),
        };
        string_of(&text)
    }
}

/// The text of a reply with a status of success; else why recognition failed.
pub fn check_status(status: u16, text: String) -> (r: Result<String, OcrError>)
    ensures
        match r {
            Ok(t) => 200 <= status <= 299 && t == text,
            Err(e) => !(200 <= status <= 299) && e == if status == 429 {
                OcrError::RateLimited
            } else {
                OcrError::Refused { status, text }
            },
        },
{
    if 200 <= status && status <= 299 {
        Ok(text)
    } else if status == 429 {
        Err(OcrError::RateLimited)
    } else {
        Err(OcrError::Refused { status, text })
    }
}

/// The reply, if it is an object.
pub fn check_object(reply: Json) -> (r: Result<Json, OcrError>)
    ensures
        match r {
            Ok(v) => reply@ is Object && v == reply,
            Err(e) => !(reply@ is Object) && e is UnexpectedType,
        },
{
    if reply.is_object() {
        Ok(reply)
    } else {
        Err(OcrError::UnexpectedType)
    }
}

/// The object that the service replied, with `parsed` for what its text reads as, if it is JSON;
/// else why recognition failed.
pub fn check_reply(status: u16, text: String, parsed: Option<Json>) -> (r: Result<Json, OcrError>)
    ensures
        r is Ok <==> 200 <= status <= 299 && parsed is Some && parsed->0@ is Object,
        r matches Ok(reply) ==> Some(reply) == parsed,
        r matches Err(e) ==> e == if status == 429 {
            OcrError::RateLimited
        } else if !(200 <= status <= 299) {
            OcrError::Refused { status, text }
        } else if parsed is None {
            OcrError::InvalidJson
        } else {
            OcrError::UnexpectedType
        },
{
    if let Err(e) = check_status(status, text) {
        return Err(e);
    }
    match parsed {
        Some(reply) => check_object(reply),
        None => Err(OcrError::InvalidJson),
    }
}

/// The object that the service replied; else why recognition failed.
pub fn read_reply(status: u16, text: String) -> (r: Result<Json, OcrError>)
    ensures
        r is Ok <==> 200 <= status <= 299 && json_document(text@) is Some && json_document(
            text@,
        )->0 is Object,
        r matches Ok(reply) ==> Some(reply@) == json_document(text@) && writable(reply@)
            && shallow(reply@),
        r matches Err(e) ==> e == if status == 429 {
            OcrError::RateLimited
        } else if !(200 <= status <= 299) {
            OcrError::Refused { status, text }
        } else if json_document(text@) is None {
            OcrError::InvalidJson
        } else {
            OcrError::UnexpectedType
        },
{
    let parsed = parse_json(text.as_str());
    check_reply(status, text, parsed)
}

/// The usage that a reply reports, if it is an object.
pub open spec fn usage_of(reply: JsonValue) -> Option<JsonValue> {
    match reply.field("usage"@) {
        Some(v) => if v is Object {
            Some(v)
        } else {
            None
        },
        None => None,
    }
}

/// The layout in a reply, if it is a list.
pub open spec fn layout_of(reply: JsonValue) -> Option<Seq<JsonValue>> {
    match reply.field("layout_details"@) {
        Some(v) => v.elements(),
        None => None,
    }
}

/// Markdown, layout and usage in a reply; the Markdown must be a text, and the layout a list.
pub fn validate_layout_response(reply: &Json) -> (r: Result<
    (String, Vec<Json>, Option<Json>),
    OcrError,
>)
    ensures
        match r {
            Ok((markdown, layout, usage)) => {
                &&& reply@.text_field("md_results"@) == Some(markdown@)
                &&& layout_of(reply@) == Some(values(layout@))
                &&& match usage_of(reply@) {
                    Some(v) => usage is Some && usage->0@ == v,
                    None => usage is None,
                }
                &&& writable(reply@) ==> {
                    &&& forall|i: int| 0 <= i < layout@.len() ==> writable(#[trigger] layout@[i]@)
                    &&& usage matches Some(v) ==> writable(v@)
                }
                &&& shallow(reply@) && usage is Some ==> shallow_field(usage->0@)
            },
            Err(e) => if reply@.text_field("md_results"@) is None {
                e is MissingMarkdown
            } else {
                e is MissingLayout && layout_of(reply@) is None
            },
        },
{
    let markdown = match reply.get_text("md_results") {
        Some(text) => copy_string(text),
        None => {
            return Err(OcrError::MissingMarkdown);
        },
    };
    let items = match reply.get("layout_details") {
        Some(v) => v.as_array(),
        None => None,
    };
    let layout = match items {
        Some(items) => {
            let mut out: Vec<Json> = Vec::new();
            let mut i: usize = 0;
            while i < items.len()
                invariant
                    i <= items@.len(),
                    out@.len() == i,
                    forall|k: int| 0 <= k < i ==> (#[trigger] out@[k])@ == items@[k]@,
                decreases items.len() - i,
            {
                let item = items[i].copy();
                out.push(item);
                i += 1;
            }
            assert(values(out@) =~= values(items@));
            out
        },
        None => {
            return Err(OcrError::MissingLayout);
        },
    };
    let usage = match reply.get("usage") {
        Some(v) => if v.is_object() {
            Some(v.copy())
        } else {
            None
        },
        None => None,
    };
    proof {
        if shallow(reply@) {
            lemma_field_nests(reply@, "usage"@, 127);
        }
        if writable(reply@) {
            lemma_writable_field(reply@, "layout_details"@);
            lemma_writable_field(reply@, "usage"@);
            assert forall|i: int| 0 <= i < layout@.len() implies writable(
                #[trigger] layout@[i]@,
            ) by {
                assert(values(layout@)[i] == layout@[i]@);
            }
        }
    }
    Ok((markdown, layout, usage))
}

// ---- Laws ----

/// The request holds the PDF as data in Base64, names the model, and asks for images of figures.
pub proof fn law_request_asks_for_figures(bytes: Seq<u8>)
    ensures
        payload(bytes) matches JsonValue::Object(fields) && fields.len() == 3 && fields.contains(
            (
                "file"@,
                JsonValue::Text("data:application/pdf;base64,"@ + base64(bytes)),
            ),
        ) && fields.contains(("model"@, JsonValue::Text("glm-ocr"@))) && fields.contains(
            ("return_crop_images"@, JsonValue::Bool(true)),
        ),
{
    let fields = payload(bytes)->Object_0;
    assert(fields[0].0 == "file"@);
    assert(fields[1] == ("model"@, JsonValue::Text("glm-ocr"@)));
    assert(fields[2] == ("return_crop_images"@, JsonValue::Bool(true)));
}

/// The number that a character of Base64 stands for.
pub open spec fn base64_value(c: char) -> int {
    if 'A' <= c <= 'Z' {
        c as int - 'A' as int
    } else if 'a' <= c <= 'z' {
        c as int - 'a' as int + 26
    } else if '0' <= c <= '9' {
        c as int - '0' as int + 52
    } else if c == '+' {
        62
    } else if c == '/' {
        63
    } else {
        0
    }
}

/// Base64 can be read back: of four characters each, the numbers that they stand for make up three
/// bytes; what is missing at the end is told by `=`.
pub proof fn law_base64_holds_the_bytes(b: Seq<u8>)
    ensures
        b.len() == 0 ==> base64(b).len() == 0,
        b.len() > 0 ==> base64(b).len() >= 4 && ({
            let c = base64(b);
            let n = base64_value(c[0]) * 262144 + base64_value(c[1]) * 4096 + base64_value(c[2])
                * 64 + base64_value(c[3]);
            &&& b.len() >= 3 ==> n == b[0] * 65536 + b[1] * 256 + b[2] && c.skip(4) == base64(
                b.skip(3),
            ) && c[2] != '=' && c[3] != '='
            &&& b.len() == 2 ==> n == b[0] * 65536 + b[1] * 256 && c.len() == 4 && c[2] != '='
                && c[3] == '='
            &&& b.len() == 1 ==> n == b[0] * 65536 && c.len() == 4 && c[2] == '=' && c[3] == '='
        }),
{
    if b.len() > 0 {
        let c = base64(b);
        let b0 = b[0] as int;
        assert(base64_value(base64_digit(b0 / 4)) == b0 / 4);
        if b.len() == 1 {
            assert(base64_value(base64_digit((b0 % 4) * 16)) == (b0 % 4) * 16);
        } else {
            let b1 = b[1] as int;
            assert(base64_value(base64_digit((b0 % 4) * 16 + b1 / 16)) == (b0 % 4) * 16 + b1 / 16);
            if b.len() == 2 {
                assert(base64_value(base64_digit((b1 % 16) * 4)) == (b1 % 16) * 4);
            } else {
                let b2 = b[2] as int;
                assert(base64_value(base64_digit((b1 % 16) * 4 + b2 / 64)) == (b1 % 16) * 4 + b2
                    / 64);
                assert(base64_value(base64_digit(b2 % 64)) == b2 % 64);
                assert(c.skip(4) =~= base64(b.skip(3)));
            }
        }
    }
}

/// A reply reports a usage only if it is an object, and has a layout only if that is a list.
pub proof fn law_parts_of_a_reply_have_their_kind(reply: JsonValue)
    ensures
        reply.field("usage"@) is Some && reply.field("usage"@)->0 is Object ==> usage_of(reply)
            == reply.field("usage"@),
        reply.field("usage"@) is None || !(reply.field("usage"@)->0 is Object) ==> usage_of(reply)
            is None,
        reply.field("layout_details"@) matches Some(JsonValue::Array(items)) ==> layout_of(reply)
            == Some(items),
        reply.field("layout_details"@) is None || !(reply.field("layout_details"@)->0 is Array)
            ==> layout_of(reply) is None,
{
}

/// A refusal tells the status and ends with the text of the reply.
pub proof fn law_refusals_tell_the_status(status: u16, text: String)
    ensures
        ({
            let told = error_text(OcrError::Refused { status, text });
            &&& has_suffix(told, "HTTP "@ + decimal(status as nat) + ": "@ + text@)
            &&& has_suffix(told, text@)
        }),
{
    reveal_strlit("Z.AI OCR request failed with HTTP ");
    reveal_strlit("Z.AI OCR request failed with ");
    reveal_strlit("HTTP ");
    let a = "Z.AI OCR request failed with "@;
    let b = "HTTP "@ + decimal(status as nat) + ": "@;
    assert("Z.AI OCR request failed with HTTP "@ =~= a + "HTTP "@);
    lemma_parts_at_the_ends(a, b, text@);
    let told = error_text(OcrError::Refused { status, text });
    assert(told =~= a + b + text@);
    assert(b + text@ =~= "HTTP "@ + decimal(status as nat) + ": "@ + text@);
}

} // verus!
