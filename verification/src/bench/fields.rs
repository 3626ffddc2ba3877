//! Reading the fields of a JSON object, with the complaint that a field which is
//! missing or of the wrong kind gives rise to.
//!
//! For each kind of field there is a complaint, a function of the object and the
//! field's name, and what the field says when there is no complaint.
use crate::bench::json::{items_view, Json, JsonView};
use crate::text::{decimal, push_decimal, to_chars};
use vstd::prelude::*;
use vstd::string::*;

verus! {

/// The first of two complaints.
pub open spec fn either(a: Option<Seq<char>>, b: Option<Seq<char>>) -> Option<Seq<char>> {
    if a is Some {
        a
    } else {
        b
    }
}

/// A complaint `text` where `wrong` holds.
pub open spec fn complain(wrong: bool, text: Seq<char>) -> Option<Seq<char>> {
    if wrong {
        Some(text)
    } else {
        None
    }
}

/// Whether a check that came back as `r` found what `complaint` says.
pub open spec fn reports(r: Result<(), String>, complaint: Option<Seq<char>>) -> bool {
    match r {
        Ok(_) => complaint is None,
        Err(m) => complaint == Some(m@),
    }
}

/// What an optional text says.
pub open spec fn option_text(s: Option<String>) -> Option<Seq<char>> {
    match s {
        Some(s) => Some(s@),
        None => None,
    }
}

/// What the texts in a list say.
pub open spec fn texts(list: Seq<String>) -> Seq<Seq<char>> {
    list.map_values(|s: String| s@)
}

/// What an optional list of texts says.
pub open spec fn option_texts(list: Option<Vec<String>>) -> Option<Seq<Seq<char>>> {
    match list {
        Some(list) => Some(texts(list@)),
        None => None,
    }
}

pub fn concat(a: &str, b: &str) -> (r: String)
    ensures
        r@ == a@ + b@,
{
    let mut r = a.to_owned();
    r.append(b);
    r
}

pub fn concat3(a: &str, b: &str, c: &str) -> (r: String)
    ensures
        r@ == a@ + b@ + c@,
{
    let mut r = a.to_owned();
    r.append(b);
    r.append(c);
    r
}

pub fn concat4(a: &str, b: &str, c: &str, d: &str) -> (r: String)
    ensures
        r@ == a@ + b@ + c@ + d@,
{
    let mut r = a.to_owned();
    r.append(b);
    r.append(c);
    r.append(d);
    r
}

/// The name of the item at `i` of the list `field`.
pub open spec fn item_name(field: Seq<char>, i: int) -> Seq<char> {
    field + "["@ + decimal(i as nat) + "]"@
}

/// The name of the item at `i` of the list `field`.
pub fn item_field(field: &str, i: usize) -> (r: String)
    ensures
        r@ == item_name(field@, i as int),
{
    let mut r = field.to_owned();
    r.append("[");
    push_decimal(&mut r, i as u64);
    r.append("]");
    r
}

/// Whether `c` is a character of white space.
pub open spec fn is_white(c: char) -> bool {
    let code = c as int;
    ||| 9 <= code <= 13
    ||| code == 32
    ||| code == 0x85
    ||| code == 0xA0
    ||| code == 0x1680
    ||| 0x2000 <= code <= 0x200A
    ||| code == 0x2028
    ||| code == 0x2029
    ||| code == 0x202F
    ||| code == 0x205F
    ||| code == 0x3000
}

/// Whether there is nothing but white space in `s`.
pub open spec fn is_blank(s: Seq<char>) -> bool {
    forall|i: int| 0 <= i < s.len() ==> is_white(#[trigger] s[i])
}

fn white(c: char) -> (r: bool)
    ensures
        r <==> is_white(c),
{
    let code: u32 = c as u32;
    (9 <= code && code <= 13) || code == 32 || code == 0x85 || code == 0xA0 || code == 0x1680 || (
    0x2000 <= code && code <= 0x200A) || code == 0x2028 || code == 0x2029 || code == 0x202F || code
        == 0x205F || code == 0x3000
}

/// Whether there is nothing but white space in `s`.
pub fn blank(s: &str) -> (r: bool)
    ensures
        r <==> is_blank(s@),
{
    let chars = to_chars(s);
    let mut i: usize = 0;
    while i < chars.len()
        invariant
            i <= chars@.len(),
            chars@ == s@,
            forall|k: int| 0 <= k < i ==> is_white(#[trigger] chars@[k]),
        decreases chars@.len() - i,
    {
        if !white(chars[i]) {
            return false;
        }
        i = i + 1;
    }
    true
}

/// The complaint about a text that must not be blank.
pub open spec fn blank_complaint(field: Seq<char>, s: Seq<char>) -> Option<Seq<char>> {
    complain(is_blank(s), field + " must be non-empty"@)
}

pub fn validate_non_empty(field: &str, value: &str) -> (r: Result<(), String>)
    ensures
        reports(r, blank_complaint(field@, value@)),
{
    if blank(value) {
        return Err(concat(field, " must be non-empty"));
    }
    Ok(())
}

/// The complaint about a text that must be there.
pub open spec fn text_complaint(o: JsonView, f: Seq<char>) -> Option<Seq<char>> {
    match o.get(f) {
        None => Some(f + " is required"@),
        Some(v) => match v {
            JsonView::Text(s) => blank_complaint(f, s),
            _ => Some(f + " must be a string"@),
        },
    }
}

/// The text of the field `f`.
pub open spec fn text_field(o: JsonView, f: Seq<char>) -> Seq<char> {
    o.get(f)->0->Text_0
}

pub fn required_string(object: &Json, field: &str) -> (r: Result<String, String>)
    ensures
        match r {
            Ok(s) => text_complaint(object.view(), field@) is None && s@ == text_field(
                object.view(),
                field@,
            ) && !is_blank(s@),
            Err(m) => text_complaint(object.view(), field@) == Some(m@),
        },
{
    match object.get(field) {
        None => Err(concat(field, " is required")),
        Some(v) => match v {
            Json::Text(s) => {
                validate_non_empty(field, s.as_str())?;
                Ok(s.clone())
            },
            _ => Err(concat(field, " must be a string")),
        },
    }
}

/// The complaint about a text that may be missing or null.
pub open spec fn optional_text_complaint(o: JsonView, f: Seq<char>) -> Option<Seq<char>> {
    match o.get(f) {
        None => None,
        Some(v) => match v {
            JsonView::Null => None,
            JsonView::Text(s) => blank_complaint(f, s),
            _ => Some(f + " must be a string when present"@),
        },
    }
}

/// The text of the field `f`, if it is there.
pub open spec fn optional_text_field(o: JsonView, f: Seq<char>) -> Option<Seq<char>> {
    match o.get(f) {
        Some(JsonView::Text(s)) => Some(s),
        _ => None,
    }
}

pub fn optional_string(object: &Json, field: &str) -> (r: Result<Option<String>, String>)
    ensures
        match r {
            Ok(s) => optional_text_complaint(object.view(), field@) is None && option_text(s)
                == optional_text_field(object.view(), field@),
            Err(m) => optional_text_complaint(object.view(), field@) == Some(m@),
        },
{
    match object.get(field) {
        None => Ok(None),
        Some(v) => match v {
            Json::Null => Ok(None),
            Json::Text(s) => {
                validate_non_empty(field, s.as_str())?;
                Ok(Some(s.clone()))
            },
            _ => Err(concat(field, " must be a string when present")),
        },
    }
}

/// The complaint about the items of a list of texts from the one at `i` on.
pub open spec fn items_complaint(
    f: Seq<char>,
    items: Seq<JsonView>,
    i: int,
) -> Option<Seq<char>>
    decreases items.len() - i,
{
    if i < 0 || i >= items.len() {
        None
    } else {
        match items[i] {
            JsonView::Text(s) => either(
                blank_complaint(item_name(f, i), s),
                items_complaint(f, items, i + 1),
            ),
            _ => Some(item_name(f, i) + " must be a string"@),
        }
    }
}

/// The texts in a list of texts.
pub open spec fn texts_of(items: Seq<JsonView>) -> Seq<Seq<char>> {
    items.map_values(|v: JsonView| v->Text_0)
}

fn string_list(field: &str, items: &Vec<Json>) -> (r: Result<Vec<String>, String>)
    ensures
        match r {
            Ok(list) => items_complaint(field@, items_view(items@), 0) is None && texts(list@)
                == texts_of(items_view(items@)),
            Err(m) => items_complaint(field@, items_view(items@), 0) == Some(m@),
        },
{
    let ghost views = items_view(items@);
    let mut list: Vec<String> = Vec::new();
    let mut i: usize = 0;
    while i < items.len()
        invariant
            i <= items@.len(),
            views == items_view(items@),
            list@.len() == i,
            forall|k: int| 0 <= k < i ==> (#[trigger] list@[k])@ == views[k]->Text_0,
            items_complaint(field@, views, 0) == items_complaint(field@, views, i as int),
        decreases items@.len() - i,
    {
        assert(views[i as int] == items@[i as int].view());
        let name = item_field(field, i);
        match &items[i] {
            Json::Text(s) => {
                validate_non_empty(name.as_str(), s.as_str())?;
                list.push(s.clone());
            },
            _ => return Err(concat(name.as_str(), " must be a string")),
        }
        i = i + 1;
    }
    assert(texts(list@) =~= texts_of(views));
    Ok(list)
}

/// The complaint about a list of texts that must be there.
pub open spec fn texts_complaint(o: JsonView, f: Seq<char>) -> Option<Seq<char>> {
    match o.get(f) {
        None => Some(f + " is required"@),
        Some(v) => match v {
            JsonView::Array(items) => items_complaint(f, items, 0),
            _ => Some(f + " must be a list of strings"@),
        },
    }
}

/// The texts in the field `f`.
pub open spec fn texts_field(o: JsonView, f: Seq<char>) -> Seq<Seq<char>> {
    texts_of(o.get(f)->0->Array_0)
}

pub fn required_string_list(object: &Json, field: &str) -> (r: Result<Vec<String>, String>)
    ensures
        match r {
            Ok(list) => texts_complaint(object.view(), field@) is None && texts(list@)
                == texts_field(object.view(), field@),
            Err(m) => texts_complaint(object.view(), field@) == Some(m@),
        },
{
    match object.get(field) {
        None => Err(concat(field, " is required")),
        Some(v) => match v {
            Json::Array(items) => string_list(field, items),
            _ => Err(concat(field, " must be a list of strings")),
        },
    }
}

/// The complaint about a list of texts that may be missing or null.
pub open spec fn optional_texts_complaint(o: JsonView, f: Seq<char>) -> Option<Seq<char>> {
    match o.get(f) {
        None => None,
        Some(v) => match v {
            JsonView::Null => None,
            JsonView::Array(items) => items_complaint(f, items, 0),
            _ => Some(f + " must be a list of strings when present"@),
        },
    }
}

/// The texts in the field `f`, if it is there.
pub open spec fn optional_texts_field(o: JsonView, f: Seq<char>) -> Option<Seq<Seq<char>>> {
    match o.get(f) {
        Some(JsonView::Array(items)) => Some(texts_of(items)),
        _ => None,
    }
}

pub fn optional_string_list(object: &Json, field: &str) -> (r: Result<
    Option<Vec<String>>,
    String,
>)
    ensures
        match r {
            Ok(list) => optional_texts_complaint(object.view(), field@) is None && option_texts(
                list,
            ) == optional_texts_field(object.view(), field@),
            Err(m) => optional_texts_complaint(object.view(), field@) == Some(m@),
        },
{
    match object.get(field) {
        None => Ok(None),
        Some(v) => match v {
            Json::Null => Ok(None),
            Json::Array(items) => match string_list(field, items) {
                Ok(list) => Ok(Some(list)),
                Err(m) => Err(m),
            },
            _ => Err(concat(field, " must be a list of strings when present")),
        },
    }
}

/// The complaint about an unsigned number that must be there.
pub open spec fn number_complaint(o: JsonView, f: Seq<char>) -> Option<Seq<char>> {
    match o.get(f) {
        None => Some(f + " is required"@),
        Some(v) => complain(!(v is Unsigned), f + " must be an unsigned integer"@),
    }
}

/// The number in the field `f`.
pub open spec fn number_field(o: JsonView, f: Seq<char>) -> u64 {
    o.get(f)->0->Unsigned_0
}

pub fn required_u64(object: &Json, field: &str) -> (r: Result<u64, String>)
    ensures
        match r {
            Ok(n) => number_complaint(object.view(), field@) is None && n == number_field(
                object.view(),
                field@,
            ),
            Err(m) => number_complaint(object.view(), field@) == Some(m@),
        },
{
    match object.get(field) {
        None => Err(concat(field, " is required")),
        Some(v) => match v {
            Json::Unsigned(n) => Ok(*n),
            _ => Err(concat(field, " must be an unsigned integer")),
        },
    }
}

/// The complaint about an unsigned number of 32 bits.
pub open spec fn number32_complaint(o: JsonView, f: Seq<char>) -> Option<Seq<char>> {
    either(
        number_complaint(o, f),
        complain(number_field(o, f) > u32::MAX, f + " must fit in uint32"@),
    )
}

pub fn required_u32(object: &Json, field: &str) -> (r: Result<u32, String>)
    ensures
        match r {
            Ok(n) => number32_complaint(object.view(), field@) is None && n == number_field(
                object.view(),
                field@,
            ),
            Err(m) => number32_complaint(object.view(), field@) == Some(m@),
        },
{
    let n: u64 = required_u64(object, field)?;
    if n > 0xFFFF_FFFF {
        return Err(concat(field, " must fit in uint32"));
    }
    Ok(n as u32)
}

/// The complaint about an unsigned number of 8 bits.
pub open spec fn number8_complaint(o: JsonView, f: Seq<char>) -> Option<Seq<char>> {
    either(
        number_complaint(o, f),
        complain(number_field(o, f) > u8::MAX, f + " must fit in uint8"@),
    )
}

pub fn required_u8(object: &Json, field: &str) -> (r: Result<u8, String>)
    ensures
        match r {
            Ok(n) => number8_complaint(object.view(), field@) is None && n == number_field(
                object.view(),
                field@,
            ),
            Err(m) => number8_complaint(object.view(), field@) == Some(m@),
        },
{
    let n: u64 = required_u64(object, field)?;
    if n > 0xFF {
        return Err(concat(field, " must fit in uint8"));
    }
    Ok(n as u8)
}

/// The complaint about an unsigned number that may be missing or null.
pub open spec fn optional_number_complaint(o: JsonView, f: Seq<char>) -> Option<Seq<char>> {
    match o.get(f) {
        None => None,
        Some(v) => complain(
            !(v is Null) && !(v is Unsigned),
            f + " must be an unsigned integer when present"@,
        ),
    }
}

/// The number in the field `f`, if it is there.
pub open spec fn optional_number_field(o: JsonView, f: Seq<char>) -> Option<u64> {
    match o.get(f) {
        Some(JsonView::Unsigned(n)) => Some(n),
        _ => None,
    }
}

pub fn optional_u64(object: &Json, field: &str) -> (r: Result<Option<u64>, String>)
    ensures
        match r {
            Ok(n) => optional_number_complaint(object.view(), field@) is None && n
                == optional_number_field(object.view(), field@),
            Err(m) => optional_number_complaint(object.view(), field@) == Some(m@),
        },
{
    match object.get(field) {
        None => Ok(None),
        Some(v) => match v {
            Json::Null => Ok(None),
            Json::Unsigned(n) => Ok(Some(*n)),
            _ => Err(concat(field, " must be an unsigned integer when present")),
        },
    }
}

/// The complaint about a boolean that may be missing or null.
pub open spec fn optional_bool_complaint(o: JsonView, f: Seq<char>) -> Option<Seq<char>> {
    match o.get(f) {
        None => None,
        Some(v) => complain(
            !(v is Null) && !(v is Bool),
            f + " must be a boolean when present"@,
        ),
    }
}

/// The boolean in the field `f`, if it is there.
pub open spec fn optional_bool_field(o: JsonView, f: Seq<char>) -> Option<bool> {
    match o.get(f) {
        Some(JsonView::Bool(b)) => Some(b),
        _ => None,
    }
}

pub fn optional_bool(object: &Json, field: &str) -> (r: Result<Option<bool>, String>)
    ensures
        match r {
            Ok(b) => optional_bool_complaint(object.view(), field@) is None && b
                == optional_bool_field(object.view(), field@),
            Err(m) => optional_bool_complaint(object.view(), field@) == Some(m@),
        },
{
    match object.get(field) {
        None => Ok(None),
        Some(v) => match v {
            Json::Null => Ok(None),
            Json::Bool(b) => Ok(Some(*b)),
            _ => Err(concat(field, " must be a boolean when present")),
        },
    }
}

/// The double that is closest to a whole number, as `serde_json::Number::as_f64`
/// gives it, in shortest scientific notation.
pub uninterp spec fn nearest_float(n: i128) -> Seq<char>;

/// `serde_json::Number::as_f64` on a whole number, in the shortest scientific
/// notation of the standard library: a function of the number alone.
#[verifier::external_body]
fn whole_as_float(n: i128) -> (text: String)
    requires
        -0x8000_0000_0000_0000 <= n <= 0xFFFF_FFFF_FFFF_FFFF,
    ensures
        text@ == nearest_float(n),
{
    let number = serde_json::Number::from_i128(n).expect("a number of 64 bits");
    format!("{:e}", number.as_f64().expect("a finite number"))
}

/// A JSON number as a double in scientific notation.
pub open spec fn float_of(v: JsonView) -> Option<Seq<char>> {
    match v {
        JsonView::Unsigned(n) => Some(nearest_float(n as i128)),
        JsonView::Negative(n) => Some(nearest_float(n as i128)),
        JsonView::Float(s) => Some(s),
        _ => None,
    }
}

/// A JSON number as a double in scientific notation.
pub fn as_float(v: &Json) -> (r: Option<String>)
    ensures
        option_text(r) == float_of(v.view()),
{
    match v {
        Json::Unsigned(n) => Some(whole_as_float(*n as i128)),
        Json::Negative(n) => Some(whole_as_float(*n as i128)),
        Json::Float(s) => Some(s.clone()),
        _ => None,
    }
}

/// The complaint about a number of any kind that must be there.
pub open spec fn float_complaint(o: JsonView, f: Seq<char>) -> Option<Seq<char>> {
    match o.get(f) {
        None => Some(f + " is required"@),
        Some(v) => complain(float_of(v) is None, f + " must be numeric"@),
    }
}

/// The number in the field `f`, in scientific notation.
pub open spec fn float_field(o: JsonView, f: Seq<char>) -> Seq<char> {
    float_of(o.get(f)->0)->0
}

pub fn required_f64(object: &Json, field: &str) -> (r: Result<String, String>)
    ensures
        match r {
            Ok(s) => float_complaint(object.view(), field@) is None && s@ == float_field(
                object.view(),
                field@,
            ),
            Err(m) => float_complaint(object.view(), field@) == Some(m@),
        },
{
    match object.get(field) {
        None => Err(concat(field, " is required")),
        Some(v) => match as_float(v) {
            Some(s) => Ok(s),
            None => Err(concat(field, " must be numeric")),
        },
    }
}

/// The complaint about the schema and the version that a row names.
pub open spec fn shape_complaint(
    o: JsonView,
    schema: Seq<char>,
    version: Seq<char>,
) -> Option<Seq<char>> {
    either(
        schema_complaint(o, schema),
        either(
            text_complaint(o, "contract_version"@),
            complain(
                text_field(o, "contract_version"@) != version,
                version_message(version, text_field(o, "contract_version"@)),
            ),
        ),
    )
}

/// The complaint about the schema that a row names.
pub open spec fn schema_complaint(o: JsonView, schema: Seq<char>) -> Option<Seq<char>> {
    either(
        text_complaint(o, "schema"@),
        complain(
            text_field(o, "schema"@) != schema,
            "schema must be "@ + schema + ", got "@ + text_field(o, "schema"@),
        ),
    )
}

pub open spec fn version_message(version: Seq<char>, got: Seq<char>) -> Seq<char> {
    "contract_version must be "@ + version + ", got "@ + got
}

pub fn validate_contract_shape(
    object: &Json,
    expected_schema: &str,
    expected_version: &str,
) -> (r: Result<(), String>)
    ensures
        reports(r, shape_complaint(object.view(), expected_schema@, expected_version@)),
{
    let schema = required_string(object, "schema")?;
    if !crate::text::same_text(schema.as_str(), expected_schema) {
        return Err(concat4("schema must be ", expected_schema, ", got ", schema.as_str()));
    }
    let version = required_string(object, "contract_version")?;
    if !crate::text::same_text(version.as_str(), expected_version) {
        return Err(
            concat4("contract_version must be ", expected_version, ", got ", version.as_str()),
        );
    }
    Ok(())
}

/// The complaint about the schema that a row names, and the version where it
/// names one.
pub open spec fn loose_shape_complaint(
    o: JsonView,
    schema: Seq<char>,
    version: Seq<char>,
) -> Option<Seq<char>> {
    either(
        schema_complaint(o, schema),
        either(
            optional_text_complaint(o, "contract_version"@),
            match optional_text_field(o, "contract_version"@) {
                Some(got) => complain(got != version, version_message(version, got)),
                None => None,
            },
        ),
    )
}

pub fn validate_schema_with_optional_version(
    object: &Json,
    expected_schema: &str,
    expected_version: &str,
) -> (r: Result<(), String>)
    ensures
        reports(r, loose_shape_complaint(object.view(), expected_schema@, expected_version@)),
{
    let schema = required_string(object, "schema")?;
    if !crate::text::same_text(schema.as_str(), expected_schema) {
        return Err(concat4("schema must be ", expected_schema, ", got ", schema.as_str()));
    }
    if let Some(version) = optional_string(object, "contract_version")? {
        if !crate::text::same_text(version.as_str(), expected_version) {
            return Err(
                concat4("contract_version must be ", expected_version, ", got ", version.as_str()),
            );
        }
    }
    Ok(())
}

/// The complaint about the items of a list of unsigned numbers from the one at
/// `i` on.
pub open spec fn numbers_items_complaint(
    f: Seq<char>,
    items: Seq<JsonView>,
    i: int,
) -> Option<Seq<char>>
    decreases items.len() - i,
{
    if i < 0 || i >= items.len() {
        None
    } else if !(items[i] is Unsigned) {
        Some(item_name(f, i) + " must be an unsigned integer"@)
    } else {
        numbers_items_complaint(f, items, i + 1)
    }
}

/// The complaint about a list of `n` unsigned numbers.
pub open spec fn numbers_complaint(o: JsonView, f: Seq<char>, n: int) -> Option<Seq<char>> {
    match o.get(f) {
        None => Some(f + " is required"@),
        Some(v) => match v {
            JsonView::Array(items) => if items.len() != n {
                Some(f + " must contain exactly "@ + decimal(n as nat) + " unsigned integers"@)
            } else {
                numbers_items_complaint(f, items, 0)
            },
            _ => Some(f + " must be a list of unsigned integers"@),
        },
    }
}

/// The numbers in the field `f`.
pub open spec fn numbers_field(o: JsonView, f: Seq<char>) -> Seq<u64> {
    o.get(f)->0->Array_0.map_values(|v: JsonView| v->Unsigned_0)
}

pub fn required_u64_list(object: &Json, field: &str, expected_len: usize) -> (r: Result<
    Vec<u64>,
    String,
>)
    ensures
        match r {
            Ok(list) => numbers_complaint(object.view(), field@, expected_len as int) is None
                && list@ == numbers_field(object.view(), field@) && list@.len() == expected_len,
            Err(m) => numbers_complaint(object.view(), field@, expected_len as int) == Some(m@),
        },
{
    let items = match object.get(field) {
        None => return Err(concat(field, " is required")),
        Some(v) => match v {
            Json::Array(items) => items,
            _ => return Err(concat(field, " must be a list of unsigned integers")),
        },
    };
    let ghost views = items_view(items@);
    if items.len() != expected_len {
        let shown = crate::text::decimal_text(expected_len as u64);
        return Err(concat4(field, " must contain exactly ", shown.as_str(), " unsigned integers"));
    }
    let mut list: Vec<u64> = Vec::new();
    let mut i: usize = 0;
    while i < items.len()
        invariant
            i <= items@.len(),
            views == items_view(items@),
            list@.len() == i,
            forall|k: int| 0 <= k < i ==> #[trigger] list@[k] == views[k]->Unsigned_0,
            numbers_complaint(object.view(), field@, expected_len as int)
                == numbers_items_complaint(field@, views, 0),
            numbers_items_complaint(field@, views, 0) == numbers_items_complaint(
                field@,
                views,
                i as int,
            ),
        decreases items@.len() - i,
    {
        assert(views[i as int] == items@[i as int].view());
        match &items[i] {
            Json::Unsigned(n) => list.push(*n),
            _ => {
                let name = item_field(field, i);
                return Err(concat(name.as_str(), " must be an unsigned integer"));
            },
        }
        i = i + 1;
    }
    assert(list@ =~= numbers_field(object.view(), field@));
    Ok(list)
}

/// The complaint about the items of a list of action numbers from the one at `i`
/// on.
pub open spec fn actions_items_complaint(
    f: Seq<char>,
    items: Seq<JsonView>,
    i: int,
) -> Option<Seq<char>>
    decreases items.len() - i,
{
    if i < 0 || i >= items.len() {
        None
    } else {
        match items[i] {
            JsonView::Unsigned(n) => either(
                complain(n >= 64, item_name(f, i) + " must be in 0..63"@),
                actions_items_complaint(f, items, i + 1),
            ),
            _ => Some(item_name(f, i) + " must be an unsigned integer"@),
        }
    }
}

/// The complaint about a list of action numbers.
pub open spec fn actions_complaint(o: JsonView, f: Seq<char>) -> Option<Seq<char>> {
    match o.get(f) {
        None => Some(f + " is required"@),
        Some(v) => match v {
            JsonView::Array(items) => actions_items_complaint(f, items, 0),
            _ => Some(f + " must be a list of action indices"@),
        },
    }
}

/// The action numbers in the field `f`.
pub open spec fn actions_field(o: JsonView, f: Seq<char>) -> Seq<u8> {
    o.get(f)->0->Array_0.map_values(|v: JsonView| v->Unsigned_0 as u8)
}

pub fn required_action_index_list(object: &Json, field: &str) -> (r: Result<Vec<u8>, String>)
    ensures
        match r {
            Ok(list) => actions_complaint(object.view(), field@) is None && list@ == actions_field(
                object.view(),
                field@,
            ) && forall|i: int| 0 <= i < list@.len() ==> #[trigger] list@[i] < 64,
            Err(m) => actions_complaint(object.view(), field@) == Some(m@),
        },
{
    let items = match object.get(field) {
        None => return Err(concat(field, " is required")),
        Some(v) => match v {
            Json::Array(items) => items,
            _ => return Err(concat(field, " must be a list of action indices")),
        },
    };
    let ghost views = items_view(items@);
    let mut list: Vec<u8> = Vec::new();
    let mut i: usize = 0;
    while i < items.len()
        invariant
            i <= items@.len(),
            views == items_view(items@),
            list@.len() == i,
            forall|k: int|
                0 <= k < i ==> #[trigger] list@[k] == views[k]->Unsigned_0 as u8 && list@[k] < 64,
            actions_complaint(object.view(), field@) == actions_items_complaint(field@, views, 0),
            actions_items_complaint(field@, views, 0) == actions_items_complaint(
                field@,
                views,
                i as int,
            ),
        decreases items@.len() - i,
    {
        assert(views[i as int] == items@[i as int].view());
        let name = item_field(field, i);
        match &items[i] {
            Json::Unsigned(n) => {
                if *n >= 64 {
                    return Err(concat(name.as_str(), " must be in 0..63"));
                }
                list.push(*n as u8);
            },
            _ => return Err(concat(name.as_str(), " must be an unsigned integer")),
        }
        i = i + 1;
    }
    assert(list@ =~= actions_field(object.view(), field@));
    Ok(list)
}

/// The member `f`, null where there is none.
pub open spec fn at(o: JsonView, f: Seq<char>) -> JsonView {
    match o.get(f) {
        Some(v) => v,
        None => JsonView::Null,
    }
}

/// A copy of the member `f`, null where there is none.
pub fn copy_of(object: &Json, field: &str) -> (v: Json)
    ensures
        v.view() == at(object.view(), field@),
{
    match object.get(field) {
        Some(v) => v.copy(),
        None => Json::Null,
    }
}

/// The text of the member `f`, if it is a text.
pub open spec fn text_at(o: JsonView, f: Seq<char>) -> Option<Seq<char>> {
    at(o, f).text()
}

/// The text of the member `f`, if it is a text.
pub fn text_in<'a>(object: &'a Json, field: &str) -> (r: Option<&'a str>)
    ensures
        match r {
            Some(s) => text_at(object.view(), field@) == Some(s@),
            None => text_at(object.view(), field@) is None,
        },
{
    match object.get(field) {
        Some(v) => v.as_text(),
        None => None,
    }
}

/// The text of a member; `otherwise` if it is no text.
pub open spec fn text_or(o: JsonView, f: Seq<char>, otherwise: Seq<char>) -> Seq<char> {
    match text_at(o, f) {
        Some(s) => s,
        None => otherwise,
    }
}

/// The text of a member; `otherwise` if it is no text.
pub fn text_in_or<'a>(o: &'a Json, field: &str, otherwise: &'static str) -> (s: &'a str)
    ensures
        s@ == text_or(o.view(), field@, otherwise@),
{
    match text_in(o, field) {
        Some(s) => s,
        None => otherwise,
    }
}

/// The text without white space at its ends.
pub open spec fn trimmed(s: Seq<char>) -> Seq<char>
    decreases s.len(),
{
    if s.len() == 0 {
        s
    } else if is_white(s[0]) {
        trimmed(s.drop_first())
    } else if is_white(s.last()) {
        trimmed(s.drop_last())
    } else {
        s
    }
}

/// The text without white space at its ends.
pub fn trim(text: &str) -> (r: String)
    ensures
        r@ == trimmed(text@),
{
    let chars = to_chars(text);
    let mut lo: usize = 0;
    let mut hi: usize = chars.len();
    assert(chars@.subrange(0, hi as int) =~= chars@);
    while lo < hi && white(chars[lo])
        invariant
            lo <= hi == chars@.len(),
            chars@ == text@,
            trimmed(text@) == trimmed(chars@.subrange(lo as int, hi as int)),
        decreases hi - lo,
    {
        assert(chars@.subrange(lo as int, hi as int).drop_first() =~= chars@.subrange(
            lo + 1,
            hi as int,
        ));
        lo = lo + 1;
    }
    while lo < hi && white(chars[hi - 1])
        invariant
            lo <= hi <= chars@.len(),
            chars@ == text@,
            lo < chars@.len() ==> !is_white(chars@[lo as int]),
            trimmed(text@) == trimmed(chars@.subrange(lo as int, hi as int)),
        decreases hi - lo,
    {
        let ghost part = chars@.subrange(lo as int, hi as int);
        assert(part.drop_last() =~= chars@.subrange(lo as int, hi - 1));
        assert(part[0] == chars@[lo as int]);
        hi = hi - 1;
    }
    let ghost part = chars@.subrange(lo as int, hi as int);
    let mut r = String::new();
    let mut i: usize = lo;
    while i < hi
        invariant
            lo <= i <= hi <= chars@.len(),
            part == chars@.subrange(lo as int, hi as int),
            r@ == part.take(i - lo),
        decreases hi - i,
    {
        r.push(chars[i]);
        assert(part.take(i - lo + 1) =~= part.take(i - lo).push(part[i - lo]));
        i = i + 1;
    }
    assert(part.take(i - lo) =~= part);
    r
}

} // verus!
