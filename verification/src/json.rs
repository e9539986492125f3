//! JSON values, and how they are read and written.

use vstd::prelude::*;

use crate::number::{decimal, decimal_of, digit_value, digits_value, is_digits};
use crate::text::{
    chars_of, copy_string, lead, lemma_lead_is, same_text, string_of, CharClass,
};

verus! {

/// A hexadecimal digit in lower case.
pub open spec fn hex_digit(d: nat) -> char {
    if d < 10 {
        (48 + d) as u8 as char
    } else {
        (87 + d) as u8 as char
    }
}

/// A character as it stands in a JSON string.
pub open spec fn json_char(c: char) -> Seq<char> {
    if c == '"' {
        seq!['\\', '"']
    } else if c == '\\' {
        seq!['\\', '\\']
    } else if c == '\u{8}' {
        seq!['\\', 'b']
    } else if c == '\u{9}' {
        seq!['\\', 't']
    } else if c == '\u{a}' {
        seq!['\\', 'n']
    } else if c == '\u{c}' {
        seq!['\\', 'f']
    } else if c == '\u{d}' {
        seq!['\\', 'r']
    } else if c as nat <= 31 {
        seq!['\\', 'u', '0', '0', hex_digit(c as nat / 16), hex_digit(c as nat % 16)]
    } else {
        seq![c]
    }
}

/// The characters of `s` as they stand in a JSON string.
pub open spec fn json_chars(s: Seq<char>) -> Seq<char>
    decreases s.len(),
{
    if s.len() == 0 {
        Seq::empty()
    } else {
        json_chars(s.drop_last()) + json_char(s.last())
    }
}

/// `s` as a JSON string.
pub open spec fn json_string(s: Seq<char>) -> Seq<char> {
    seq!['"'] + json_chars(s) + seq!['"']
}

// ---- Values ----

/// A JSON value.
pub enum JsonValue {
    Null,
    Bool(bool),
    Number(Seq<char>),
    Text(Seq<char>),
    Array(Seq<JsonValue>),
    Object(Seq<(Seq<char>, JsonValue)>),
}

/// A JSON value. A number is kept as it is written; the fields of an object are kept in order,
/// by name where they come from a document.
#[derive(Debug, PartialEq, Eq)]
pub enum Json {
    Null,
    Bool(bool),
    Number(String),
    Text(String),
    Array(Vec<Json>),
    Object(Vec<(String, Json)>),
}

impl Json {
    /// The value that a `Json` stands for.
    pub open spec fn value(self) -> JsonValue
        decreases self,
    {
        match self {
            Json::Null => JsonValue::Null,
            Json::Bool(b) => JsonValue::Bool(b),
            Json::Number(n) => JsonValue::Number(n@),
            Json::Text(s) => JsonValue::Text(s@),
            Json::Array(items) => JsonValue::Array(
                Seq::new(
                    items@.len(),
                    |i: int|
                        if 0 <= i < items@.len() {
                            items@[i].value()
                        } else {
                            JsonValue::Null
                        },
                ),
            ),
            Json::Object(fields) => JsonValue::Object(
                Seq::new(
                    fields@.len(),
                    |i: int|
                        if 0 <= i < fields@.len() {
                            (fields@[i].0@, fields@[i].1.value())
                        } else {
                            (Seq::empty(), JsonValue::Null)
                        },
                ),
            ),
        }
    }
}

impl View for Json {
    type V = JsonValue;

    open spec fn view(&self) -> JsonValue {
        self.value()
    }
}

/// The values that `items` stand for.
pub open spec fn values(items: Seq<Json>) -> Seq<JsonValue> {
    Seq::new(items.len(), |i: int| items[i]@)
}

/// The named values that `fields` stand for.
pub open spec fn named_values(fields: Seq<(String, Json)>) -> Seq<(Seq<char>, JsonValue)> {
    Seq::new(fields.len(), |i: int| (fields[i].0@, fields[i].1@))
}

pub proof fn lemma_array_value(items: Vec<Json>)
    ensures
        Json::Array(items)@ == JsonValue::Array(values(items@)),
{
    let v = Json::Array(items)@;
    assert(v->Array_0 =~= values(items@));
}

pub proof fn lemma_object_value(fields: Vec<(String, Json)>)
    ensures
        Json::Object(fields)@ == JsonValue::Object(named_values(fields@)),
{
    let v = Json::Object(fields)@;
    assert(v->Object_0 =~= named_values(fields@));
}

pub proof fn lemma_element_is_smaller(v: Json, i: int)
    requires
        v is Array,
        0 <= i < v->Array_0@.len(),
    ensures
        decreases_to!(v => v->Array_0@[i]),
{
    let items = v->Array_0;
    assert(decreases_to!(v => v->Array_0));
    assert(decreases_to!(items => items@));
    assert(decreases_to!(items@ => items@[i]));
}

pub proof fn lemma_field_is_smaller(v: Json, i: int)
    requires
        v is Object,
        0 <= i < v->Object_0@.len(),
    ensures
        decreases_to!(v => v->Object_0@[i].1),
{
    let fields = v->Object_0;
    assert(decreases_to!(v => v->Object_0));
    assert(decreases_to!(fields => fields@));
    assert(decreases_to!(fields@ => fields@[i]));
    assert(decreases_to!(fields@[i] => fields@[i].1));
}

/// The field `name` among `fields`, looked for from `i` on.
pub open spec fn field_from(
    fields: Seq<(Seq<char>, JsonValue)>,
    i: int,
    name: Seq<char>,
) -> Option<JsonValue>
    decreases fields.len() - i,
{
    if i < 0 || i >= fields.len() {
        None
    } else if fields[i].0 == name {
        Some(fields[i].1)
    } else {
        field_from(fields, i + 1, name)
    }
}

impl JsonValue {
    /// The field `name`, if this is an object that has it.
    pub open spec fn field(self, name: Seq<char>) -> Option<JsonValue> {
        match self {
            JsonValue::Object(fields) => field_from(fields, 0, name),
            _ => None,
        }
    }

    /// The text, if this is one.
    pub open spec fn text(self) -> Option<Seq<char>> {
        match self {
            JsonValue::Text(s) => Some(s),
            _ => None,
        }
    }

    /// The elements, if this is an array.
    pub open spec fn elements(self) -> Option<Seq<JsonValue>> {
        match self {
            JsonValue::Array(items) => Some(items),
            _ => None,
        }
    }

    /// The text of the field `name`, if there is such a field and it is a text.
    pub open spec fn text_field(self, name: Seq<char>) -> Option<Seq<char>> {
        match self.field(name) {
            Some(v) => v.text(),
            None => None,
        }
    }
}

impl Json {
    /// The field `name`, if this is an object that has it.
    pub fn get<'a>(&'a self, name: &str) -> (r: Option<&'a Json>)
        ensures
            match self@.field(name@) {
                Some(v) => r is Some && r->0@ == v,
                None => r is None,
            },
    {
        match self {
            Json::Object(fields) => {
                proof {
                    lemma_object_value(*fields);
                }
                let ghost named = named_values(fields@);
                let wanted = chars_of(name);
                let mut i: usize = 0;
                while i < fields.len()
                    invariant
                        i <= fields@.len(),
                        named == named_values(fields@),
                        wanted@ == name@,
                        self@.field(name@) == field_from(named, i as int, name@),
                    decreases fields.len() - i,
                {
                    let key = chars_of(fields[i].0.as_str());
                    assert(named[i as int] == (key@, fields@[i as int].1@));
                    if same_text(&key, &wanted) {
                        return Some(&fields[i].1);
                    }
                    i += 1;
                }
                None
            },
            _ => None,
        }
    }

    /// The text, if this is one.
    pub fn as_text<'a>(&'a self) -> (r: Option<&'a String>)
        ensures
            match self@.text() {
                Some(s) => r is Some && r->0@ == s,
                None => r is None,
            },
    {
        match self {
            Json::Text(s) => Some(s),
            _ => None,
        }
    }

    /// The elements, if this is an array.
    pub fn as_array<'a>(&'a self) -> (r: Option<&'a Vec<Json>>)
        ensures
            match self@.elements() {
                Some(items) => r is Some && values(r->0@) == items,
                None => r is None,
            },
    {
        match self {
            Json::Array(items) => {
                proof {
                    lemma_array_value(*items);
                }
                Some(items)
            },
            _ => None,
        }
    }

    /// Whether this is an object.
    pub fn is_object(&self) -> (r: bool)
        ensures
            r == (self@ is Object),
    {
        match self {
            Json::Object(_) => true,
            _ => false,
        }
    }

    /// The text of the field `name`, if there is such a field and it is a text.
    pub fn get_text<'a>(&'a self, name: &str) -> (r: Option<&'a String>)
        ensures
            match self@.text_field(name@) {
                Some(s) => r is Some && r->0@ == s,
                None => r is None,
            },
    {
        match self.get(name) {
            Some(v) => v.as_text(),
            None => None,
        }
    }

    /// A copy of this value.
    pub fn copy(&self) -> (r: Json)
        ensures
            r@ == self@,
        decreases self,
    {
        match self {
            Json::Null => Json::Null,
            Json::Bool(b) => Json::Bool(*b),
            Json::Number(n) => Json::Number(copy_string(n)),
            Json::Text(s) => Json::Text(copy_string(s)),
            Json::Array(items) => {
                let mut out: Vec<Json> = Vec::new();
                let mut i: usize = 0;
                while i < items.len()
                    invariant
                        i <= items@.len(),
                        *self == Json::Array(*items),
                        out@.len() == i,
                        forall|k: int| 0 <= k < i ==> (#[trigger] out@[k])@ == items@[k]@,
                    decreases items.len() - i,
                {
                    proof {
                        lemma_element_is_smaller(*self, i as int);
                    }
                    let item = items[i].copy();
                    out.push(item);
                    i += 1;
                }
                proof {
                    lemma_array_value(*items);
                    lemma_array_value(out);
                    assert(values(out@) =~= values(items@));
                }
                Json::Array(out)
            },
            Json::Object(fields) => {
                let mut out: Vec<(String, Json)> = Vec::new();
                let mut i: usize = 0;
                while i < fields.len()
                    invariant
                        i <= fields@.len(),
                        *self == Json::Object(*fields),
                        out@.len() == i,
                        forall|k: int|
                            0 <= k < i ==> (#[trigger] out@[k]).0@ == fields@[k].0@ && out@[k].1@
                                == fields@[k].1@,
                    decreases fields.len() - i,
                {
                    let key = copy_string(&fields[i].0);
                    proof {
                        lemma_field_is_smaller(*self, i as int);
                    }
                    let value = fields[i].1.copy();
                    out.push((key, value));
                    i += 1;
                }
                proof {
                    lemma_object_value(*fields);
                    lemma_object_value(out);
                    assert(named_values(out@) =~= named_values(fields@));
                }
                Json::Object(out)
            },
        }
    }

    /// The array of `items`.
    pub fn array(items: Vec<Json>) -> (r: Json)
        ensures
            r@ == JsonValue::Array(values(items@)),
    {
        proof {
            lemma_array_value(items);
        }
        Json::Array(items)
    }

    /// The object with `fields`.
    pub fn object(fields: Vec<(String, Json)>) -> (r: Json)
        ensures
            r@ == JsonValue::Object(named_values(fields@)),
    {
        proof {
            lemma_object_value(fields);
        }
        Json::Object(fields)
    }

    /// The text `s`.
    pub fn of_text(s: &str) -> (r: Json)
        ensures
            r@ == JsonValue::Text(s@),
    {
        let chars = chars_of(s);
        Json::Text(string_of(&chars))
    }

    /// The number `n`.
    pub fn of_number(n: usize) -> (r: Json)
        ensures
            r@ == JsonValue::Number(decimal(n as nat)),
    {
        let digits = decimal_of(n);
        Json::Number(string_of(&digits))
    }
}

// ---- Reading and writing ----

/// The values of `serde_json`.
#[verifier::external_type_specification]
#[verifier::external_body]
pub struct ExSerdeValue(serde_json::Value);

/// A value of `serde_json`, variant by variant: a number as it writes it, and the fields of an
/// object as its map gives them. Nothing is claimed of it by itself.
#[verifier::external_body]
fn json_of(value: serde_json::Value) -> Json {
    match value {
        serde_json::Value::Null => Json::Null,
        serde_json::Value::Bool(b) => Json::Bool(b),
        serde_json::Value::Number(n) => Json::Number(n.to_string()),
        serde_json::Value::String(s) => Json::Text(s),
        serde_json::Value::Array(items) => Json::Array(items.into_iter().map(json_of).collect()),
        serde_json::Value::Object(map) => {
            Json::Object(map.into_iter().map(|(name, v)| (name, json_of(v))).collect())
        }
    }
}

/// A value as one of `serde_json`, variant by variant; none if a number in it is none for
/// `serde_json`. Nothing is claimed of it by itself.
#[verifier::external_body]
fn serde_value(v: &Json) -> Option<serde_json::Value> {
    Some(match v {
        Json::Null => serde_json::Value::Null,
        Json::Bool(b) => serde_json::Value::Bool(*b),
        Json::Number(n) => serde_json::Value::Number(serde_json::from_str(n).ok()?),
        Json::Text(s) => serde_json::Value::String(s.clone()),
        Json::Array(items) => {
            serde_json::Value::Array(items.iter().map(serde_value).collect::<Option<_>>()?)
        }
        Json::Object(fields) => serde_json::Value::Object(
            fields.iter().map(|(k, v)| Some((k.clone(), serde_value(v)?))).collect::<Option<_>>()?,
        ),
    })
}

/// Whether `n` is a number as it is mostly written: digits without a leading zero, then perhaps a
/// full stop and more digits, in all no more than 20 characters.
pub open spec fn plain_number(n: Seq<char>) -> bool {
    let k = lead(n, CharClass::Except('.')) as int;
    &&& n.len() <= 20
    &&& is_digits(n.take(k), 10)
    &&& k > 1 ==> n[0] != '0'
    &&& k < n.len() ==> is_digits(n.skip(k + 1), 10)
}

/// A value on one line, as `serde_json::to_string` writes it; none if a number in it is none for
/// `serde_json`.
pub uninterp spec fn json_compact(v: JsonValue) -> Option<Seq<char>>;

/// Whether all numbers in `v` are plain or can be written otherwise.
pub open spec fn writable(v: JsonValue) -> bool
    decreases v,
{
    match v {
        JsonValue::Number(n) => plain_number(n) || json_compact(v) is Some,
        JsonValue::Array(items) => forall|i: int|
            0 <= i < items.len() ==> writable(#[trigger] items[i]),
        JsonValue::Object(fields) => forall|i: int|
            0 <= i < fields.len() ==> writable((#[trigger] fields[i]).1),
        _ => true,
    }
}

/// Whether arrays and objects in `v` stand in one another at most `n` deep.
pub open spec fn nests_within(v: JsonValue, n: nat) -> bool
    decreases v,
{
    match v {
        JsonValue::Array(items) => n > 0 && forall|i: int|
            0 <= i < items.len() ==> nests_within(#[trigger] items[i], (n - 1) as nat),
        JsonValue::Object(fields) => n > 0 && forall|i: int|
            0 <= i < fields.len() ==> nests_within((#[trigger] fields[i]).1, (n - 1) as nat),
        _ => true,
    }
}

/// Whether `v` is nested no deeper than a document may be.
pub open spec fn shallow(v: JsonValue) -> bool {
    nests_within(v, 127)
}

/// Whether `v` is nested so little that a document may hold it in a field.
pub open spec fn shallow_field(v: JsonValue) -> bool {
    nests_within(v, 126)
}

/// The value that a document writes, as `serde_json::from_str` reads it; none if it is no JSON, or
/// nested too deep.
pub uninterp spec fn json_document(text: Seq<char>) -> Option<JsonValue>;

/// The value that a document writes, by `serde_json::from_str`. Claimed are the name of the
/// result; that numbers that were read can be written, since `serde_json` reads back each number
/// that it wrote; and that it reads nothing that is nested too deep.
#[verifier::external_body]
pub(crate) fn parse_json(text: &str) -> (r: Option<Json>)
    ensures
        match r {
            Some(v) => json_document(text@) == Some(v@),
            None => json_document(text@) is None,
        },
        r matches Some(v) ==> writable(v@) && shallow(v@),
{
    serde_json::from_str(text).ok().map(json_of)
}

/// A power of ten.
spec fn power_of_ten(k: nat) -> nat
    decreases k,
{
    if k == 0 {
        1
    } else {
        10 * power_of_ten((k - 1) as nat)
    }
}

proof fn lemma_decimal_digits(n: nat, k: nat)
    requires
        k > 0,
        n < power_of_ten(k),
    ensures
        decimal(n).len() <= k,
        is_digits(decimal(n), 10),
        decimal(n).len() > 1 ==> decimal(n)[0] != '0',
        n > 0 ==> decimal(n)[0] != '0',
    decreases n,
{
    let d = decimal(n);
    reveal_with_fuel(power_of_ten, 2);
    if n >= 10 {
        let rest = decimal(n / 10);
        assert(k > 1);
        lemma_decimal_digits(n / 10, (k - 1) as nat);
        assert(d[0] == rest[0]);
        assert forall|i: int| 0 <= i < d.len() implies digit_value(#[trigger] d[i], 10) is Some by {
            if i < rest.len() {
                assert(d[i] == rest[i]);
            }
        }
    }
}

/// The digits of a number are plain.
pub proof fn lemma_plain_decimal(n: usize)
    ensures
        plain_number(decimal(n as nat)),
{
    let d = decimal(n as nat);
    assert(power_of_ten(20) == 100_000_000_000_000_000_000nat) by {
        reveal_with_fuel(power_of_ten, 21);
    }
    lemma_decimal_digits(n as nat, 20);
    assert forall|j: int| 0 <= j < d.len() implies CharClass::Except('.').has(#[trigger] d[j]) by {
        assert(digit_value(d[j], 10) is Some);
    }
    lemma_lead_is(d, CharClass::Except('.'), d.len());
    assert(d.take(d.len() as int) =~= d);
}

/// What stands in a field of a value that can be written can be written.
pub proof fn lemma_writable_field(v: JsonValue, name: Seq<char>)
    requires
        writable(v),
    ensures
        v.field(name) matches Some(w) ==> writable(w),
{
    if v is Object {
        lemma_writable_field_from(v->Object_0, 0, name);
    }
}

proof fn lemma_writable_field_from(
    fields: Seq<(Seq<char>, JsonValue)>,
    i: int,
    name: Seq<char>,
)
    requires
        forall|k: int| 0 <= k < fields.len() ==> writable((#[trigger] fields[k]).1),
    ensures
        field_from(fields, i, name) matches Some(w) ==> writable(w),
    decreases fields.len() - i,
{
    if 0 <= i < fields.len() && fields[i].0 != name {
        lemma_writable_field_from(fields, i + 1, name);
    }
}

/// What stands in a field of a value is nested less deep than the value.
pub proof fn lemma_field_nests(v: JsonValue, name: Seq<char>, n: nat)
    requires
        nests_within(v, n),
    ensures
        v.field(name) matches Some(w) ==> n > 0 && nests_within(w, (n - 1) as nat),
{
    if v is Object {
        lemma_field_from_nests(v->Object_0, 0, name, (n - 1) as nat);
    }
}

proof fn lemma_field_from_nests(
    fields: Seq<(Seq<char>, JsonValue)>,
    i: int,
    name: Seq<char>,
    n: nat,
)
    requires
        forall|k: int| 0 <= k < fields.len() ==> nests_within((#[trigger] fields[k]).1, n),
    ensures
        field_from(fields, i, name) matches Some(w) ==> nests_within(w, n),
    decreases fields.len() - i,
{
    if 0 <= i < fields.len() && fields[i].0 != name {
        lemma_field_from_nests(fields, i + 1, name, n);
    }
}

/// Whether no two fields of `v` have the name `name`.
pub open spec fn named_once(v: JsonValue, name: Seq<char>) -> bool {
    v matches JsonValue::Object(fields) ==> forall|i: int, j: int|
        0 <= i < fields.len() && 0 <= j < fields.len() && (#[trigger] fields[i]).0 == name && (
        #[trigger] fields[j]).0 == name ==> i == j
}

/// Whether `text` is a document if `v` is not nested too deep, and, if it is one, gives back the
/// text fields of `v` that have a name of their own.
pub open spec fn gives_back_texts(text: Seq<char>, v: JsonValue) -> bool {
    &&& shallow(v) ==> json_document(text) is Some
    &&& json_document(text) matches Some(d) ==> forall|name: Seq<char>|
        named_once(v, name) ==> #[trigger] d.text_field(name) == v.text_field(name)
}

/// Whether there are only characters from the blank on in `s`.
pub open spec fn no_controls(s: Seq<char>) -> bool {
    forall|i: int| 0 <= i < s.len() ==> (#[trigger] s[i]) as nat >= 32
}

/// A value on one line, by `serde_json::to_string`. Claimed are the name of the result; that
/// there is one if all numbers are plain or can be written by themselves, and only then; how a
/// text is written; that no control character below the blank is in it, and that an object begins
/// with a brace; that it can be read if it is not nested too deep, and that reading it gives back
/// the text fields.
#[verifier::external_body]
fn write_compact(v: &Json) -> (r: Option<String>)
    ensures
        match r {
            Some(text) => json_compact(v@) == Some(text@),
            None => json_compact(v@) is None,
        },
        r is Some <==> writable(v@),
        v@ matches JsonValue::Text(s) ==> r is Some && r->0@ == json_string(s),
        r matches Some(text) ==> no_controls(text@),
        r is Some && v@ is Object ==> r->0@.len() > 0 && r->0@[0] == '{',
        r matches Some(text) ==> gives_back_texts(text@, v@),
{
    serde_json::to_string(&serde_value(v)?).ok()
}

/// A value on several lines, as `serde_json::to_string_pretty` writes it; none if a number in it
/// is none for `serde_json`.
pub uninterp spec fn json_pretty(v: JsonValue) -> Option<Seq<char>>;

/// A value on several lines, by `serde_json::to_string_pretty`. Claimed are the name of the
/// result; that there is one if all numbers are plain or can be written by themselves, and only
/// then; that it can be read if it is not nested too deep, and that reading it gives back the text
/// fields.
#[verifier::external_body]
fn write_pretty(v: &Json) -> (r: Option<String>)
    ensures
        match r {
            Some(text) => json_pretty(v@) == Some(text@),
            None => json_pretty(v@) is None,
        },
        r is Some <==> writable(v@),
        r matches Some(text) ==> gives_back_texts(text@, v@),
{
    serde_json::to_string_pretty(&serde_value(v)?).ok()
}

impl Json {
    /// This on one line; none if a number in it is no number of JSON.
    pub fn compact(&self) -> (r: Option<String>)
        ensures
            match r {
                Some(text) => json_compact(self@) == Some(text@),
                None => json_compact(self@) is None,
            },
            r is Some <==> writable(self@),
            r matches Some(text) ==> no_controls(text@) && gives_back_texts(text@, self@) && (
            self@ is Object ==> text@.len() > 0 && text@[0] == '{'),
    {
        write_compact(self)
    }

    /// This on several lines; none if a number in it is no number of JSON.
    pub fn pretty(&self) -> (r: Option<String>)
        ensures
            match r {
                Some(text) => json_pretty(self@) == Some(text@),
                None => json_pretty(self@) is None,
            },
            r is Some <==> writable(self@),
            r matches Some(text) ==> gives_back_texts(text@, self@),
    {
        write_pretty(self)
    }
}

/// `s` as a JSON string.
pub fn quoted(s: String) -> (r: String)
    ensures
        r@ == json_string(s@),
{
    write_compact(&Json::Text(s)).unwrap()
}

// ---- Laws ----

/// A field is found by its name: the first with it counts, and without one there is none; nothing
/// but an object has fields.
pub proof fn law_fields_are_found_by_name(v: JsonValue, name: Seq<char>, k: int)
    ensures
        v matches JsonValue::Object(fields) ==> {
            &&& 0 <= k < fields.len() && fields[k].0 == name && (forall|j: int|
                0 <= j < k ==> (#[trigger] fields[j]).0 != name) ==> v.field(name) == Some(
                fields[k].1,
            )
            &&& (forall|j: int| 0 <= j < fields.len() ==> (#[trigger] fields[j]).0 != name)
                ==> v.field(name) is None
        },
        !(v is Object) ==> v.field(name) is None,
        v.field(name) is None ==> v.text_field(name) is None,
        v.field(name) matches Some(JsonValue::Text(s)) ==> v.text_field(name) == Some(s),
        v.field(name) is Some && !(v.field(name)->0 is Text) ==> v.text_field(name) is None,
{
    if v is Object {
        lemma_field_from(v->Object_0, 0, name, k);
    }
}

proof fn lemma_field_from(fields: Seq<(Seq<char>, JsonValue)>, i: int, name: Seq<char>, k: int)
    requires
        0 <= i,
    ensures
        i <= k < fields.len() && fields[k].0 == name && (forall|j: int|
            i <= j < k ==> (#[trigger] fields[j]).0 != name) ==> field_from(fields, i, name) == Some(
            fields[k].1,
        ),
        (forall|j: int| i <= j < fields.len() ==> (#[trigger] fields[j]).0 != name) ==> field_from(
            fields,
            i,
            name,
        ) is None,
    decreases fields.len() - i,
{
    if i < fields.len() && fields[i].0 != name {
        lemma_field_from(fields, i + 1, name, k);
    }
}

// ---- Strings ----

/// The character that a letter stands for behind a backslash.
pub open spec fn escaped_letter(c: char) -> char {
    if c == 'b' {
        '\u{8}'
    } else if c == 't' {
        '\u{9}'
    } else if c == 'n' {
        '\u{a}'
    } else if c == 'f' {
        '\u{c}'
    } else if c == 'r' {
        '\u{d}'
    } else {
        c
    }
}

/// What stands between the quotation marks of a string in JSON, read.
pub open spec fn unescaped_json(t: Seq<char>) -> Seq<char>
    decreases t.len(),
{
    if t.len() == 0 {
        Seq::empty()
    } else if t[0] != '\\' {
        seq![t[0]] + unescaped_json(t.skip(1))
    } else if t.len() >= 6 && t[1] == 'u' {
        seq![digits_value(t.subrange(2, 6), 16) as u8 as char] + unescaped_json(t.skip(6))
    } else if t.len() >= 2 {
        seq![escaped_letter(t[1])] + unescaped_json(t.skip(2))
    } else {
        Seq::empty()
    }
}

proof fn lemma_json_char(c: char, rest: Seq<char>)
    ensures
        unescaped_json(json_char(c) + rest) == seq![c] + unescaped_json(rest),
        json_char(c).len() > 0,
        c == '"' || c == '\\' || (c as int) < 32 ==> json_char(c)[0] == '\\' && json_char(c).len()
            >= 2,
        c != '"' && c != '\\' && c as int >= 32 ==> json_char(c) == seq![c],
        forall|j: int| 0 <= j < json_char(c).len() ==> (#[trigger] json_char(c)[j]) as int >= 32,
{
    let e = json_char(c);
    let t = e + rest;
    if e.len() == 1 {
        assert(t.skip(1) =~= rest);
    } else if e.len() == 2 {
        assert(t[0] == '\\' && t[1] == e[1]);
        assert(t.skip(2) =~= rest);
    } else {
        let h = hex_digit(c as nat / 16);
        let l = hex_digit(c as nat % 16);
        assert(t[0] == '\\' && t[1] == 'u');
        assert(t.skip(6) =~= rest);
        let d = t.subrange(2, 6);
        assert(d =~= seq!['0', '0', h, l]);
        assert(d.drop_last() =~= seq!['0', '0', h]);
        assert(d.drop_last().drop_last() =~= seq!['0', '0']);
        assert(seq!['0', '0'].drop_last() =~= seq!['0']);
        assert(seq!['0'].drop_last() =~= Seq::empty());
        assert(digits_value(seq!['0'], 16) == 0) by {
            reveal_with_fuel(digits_value, 2);
        }
        assert(digits_value(seq!['0', '0'], 16) == 0);
        assert(digit_value(h, 16) == Some(c as nat / 16));
        assert(digit_value(l, 16) == Some(c as nat % 16));
        assert(digits_value(seq!['0', '0', h], 16) == c as nat / 16);
        assert(digits_value(d, 16) == c as nat);
    }
}

proof fn lemma_json_chars_front(c: char, s: Seq<char>)
    ensures
        json_chars(seq![c] + s) == json_char(c) + json_chars(s),
    decreases s.len(),
{
    let all = seq![c] + s;
    if s.len() == 0 {
        assert(all.drop_last() =~= Seq::empty());
        assert(all.last() == c);
        assert(json_chars(Seq::empty()).len() == 0);
        assert(json_chars(s).len() == 0);
        assert(json_chars(all) == json_chars(all.drop_last()) + json_char(c));
        assert(json_chars(all) =~= json_char(c) + json_chars(s));
    } else {
        assert(all.drop_last() =~= seq![c] + s.drop_last());
        lemma_json_chars_front(c, s.drop_last());
        assert(json_char(c) + json_chars(s.drop_last()) + json_char(s.last()) =~= json_char(c) + (
        json_chars(s.drop_last()) + json_char(s.last())));
    }
}

/// A string stands in quotation marks, and what is between them reads as the text; a quotation mark,
/// a backslash and what is below the blank never stand there bare.
pub proof fn law_strings_are_read_back(s: Seq<char>, c: char)
    ensures
        json_string(s).len() >= 2,
        json_string(s)[0] == '"',
        json_string(s).last() == '"',
        unescaped_json(json_string(s).subrange(1, json_string(s).len() - 1)) == s,
        json_string(seq![c] + s).subrange(1, json_string(seq![c] + s).len() - 1) == json_char(c)
            + json_string(s).subrange(1, json_string(s).len() - 1),
        c == '"' || c == '\\' || (c as int) < 32 ==> json_char(c).len() >= 2 && json_char(c)[0]
            == '\\',
        c != '"' && c != '\\' && c as int >= 32 ==> json_char(c) == seq![c],
        forall|j: int| 0 <= j < json_char(c).len() ==> (#[trigger] json_char(c)[j]) as int >= 32,
{
    let t = json_string(s);
    assert(t.subrange(1, t.len() - 1) =~= json_chars(s));
    lemma_unescaped_json(s);
    lemma_json_char(c, Seq::empty());
    lemma_json_chars_front(c, s);
    let u = json_string(seq![c] + s);
    assert(u.subrange(1, u.len() - 1) =~= json_chars(seq![c] + s));
}

proof fn lemma_unescaped_json(s: Seq<char>)
    ensures
        unescaped_json(json_chars(s)) == s,
    decreases s.len(),
{
    if s.len() > 0 {
        let rest = s.skip(1);
        assert(seq![s[0]] + rest =~= s);
        lemma_json_chars_front(s[0], rest);
        lemma_json_char(s[0], json_chars(rest));
        lemma_unescaped_json(rest);
    } else {
        assert(json_chars(s) =~= Seq::empty());
        assert(s =~= Seq::empty());
    }
}

} // verus!
