//! JSON values as compact text, and numbers for people to read.
use crate::bench::canonical::{escaped_char, name_order, order_by_name};
use crate::bench::fields::float_of;
use crate::bench::fields::as_float;
use crate::bench::json::{items_view, members_view, Json, JsonView};
use crate::text::{decimal, push_decimal};
use vstd::prelude::*;
use vstd::string::*;

verus! {

/// How a character stands in compact JSON: quotes, backslashes and control characters are
/// escaped, all others stand for themselves.
pub open spec fn compact_char(c: char) -> Seq<char> {
    let code = c as int;
    if code < 32 || c == '"' || c == '\\' {
        escaped_char(c)
    } else {
        seq![c]
    }
}

/// The characters of `s` as they stand in compact JSON.
pub open spec fn compact_chars(s: Seq<char>) -> Seq<char>
    decreases s.len(),
{
    if s.len() == 0 {
        Seq::empty()
    } else {
        compact_chars(s.drop_last()) + compact_char(s.last())
    }
}

/// A text in quotes, as it stands in compact JSON.
pub open spec fn quoted_text(text: Seq<char>) -> Seq<char> {
    seq!['"'] + compact_chars(text) + seq!['"']
}

/// A number in scientific notation, as `serde_json` writes the double that it
/// stands for; nothing for a text that is no finite number.
pub uninterp spec fn plain_number(text: Seq<char>) -> Option<Seq<char>>;

/// A number in scientific notation with so many decimals, as the standard library
/// writes the double that it stands for; nothing for a text that is no finite
/// number.
pub uninterp spec fn fixed_number(text: Seq<char>, decimals: nat) -> Option<Seq<char>>;

/// The whole number that is closest to the double that a number in scientific
/// notation stands for, halves away from zero and bounded by 64 bits; nothing for
/// a text that is no finite number.
pub uninterp spec fn rounded_number(text: Seq<char>) -> Option<i64>;

/// `serde_json::to_string` on a text puts it in quotes, with its quotes, backslashes and
/// control characters escaped.
#[verifier::external_body]
fn quote(text: &str) -> (r: String)
    ensures
        r@ == quoted_text(text@),
{
    serde_json::to_string(text).unwrap_or_default()
}

/// The `Display` of `serde_json::Number` on the double that a text stands for: a
/// function of the text alone.
#[verifier::external_body]
fn show_number(text: &str) -> (r: Option<String>)
    ensures
        match r {
            Some(s) => plain_number(text@) == Some(s@),
            None => plain_number(text@) is None,
        },
{
    let number = serde_json::Number::from_f64(text.parse().ok()?)?;
    Some(number.to_string())
}

/// `serde_json::Number` holds the double that a text stands for and the standard
/// library writes it with `decimals` decimals: a function of the two alone. More
/// decimals than 65535 cannot be asked for.
#[verifier::external_body]
fn show_fixed(text: &str, decimals: usize) -> (r: Option<String>)
    requires
        decimals <= 0xFFFF,
    ensures
        match r {
            Some(s) => fixed_number(text@, decimals as nat) == Some(s@),
            None => fixed_number(text@, decimals as nat) is None,
        },
{
    let number = serde_json::Number::from_f64(text.parse().ok()?)?.as_f64()?;
    Some(format!("{:.*}", decimals, number))
}

/// `serde_json::Number` holds the double that a text stands for and the standard
/// library's `round` gives the whole number closest to it: a function of the text
/// alone.
#[verifier::external_body]
fn round(text: &str) -> (r: Option<i64>)
    ensures
        r == rounded_number(text@),
{
    let number = serde_json::Number::from_f64(text.parse().ok()?)?.as_f64()?;
    Some(number.round() as i64)
}

/// A value as compact text: no spaces, members in the order of their names.
pub open spec fn compact_text(v: JsonView) -> Seq<char>
    decreases v, 0nat,
{
    match v {
        JsonView::Null => "null"@,
        JsonView::Bool(b) => if b {
            "true"@
        } else {
            "false"@
        },
        JsonView::Unsigned(n) => decimal(n as nat),
        JsonView::Negative(n) => if n < 0 {
            seq!['-'] + decimal((-n) as nat)
        } else {
            decimal(n as nat)
        },
        JsonView::Float(s) => match plain_number(s) {
            Some(t) => t,
            None => s,
        },
        JsonView::Text(s) => quoted_text(s),
        JsonView::Array(items) => seq!['['] + compact_items(items, items.len()) + seq![']'],
        JsonView::Object(members) => seq!['{'] + compact_members(
            members,
            name_order(members, members.len() as int),
            members.len(),
        ) + seq!['}'],
    }
}

/// The first `n` items as compact text, separated by commas.
pub open spec fn compact_items(items: Seq<JsonView>, n: nat) -> Seq<char>
    decreases items, n,
{
    if n == 0 || n > items.len() {
        Seq::empty()
    } else {
        compact_items(items, (n - 1) as nat) + (if n > 1 {
            seq![',']
        } else {
            Seq::empty()
        }) + compact_text(items[n - 1])
    }
}

/// The first `n` members that `order` lists as compact text.
pub open spec fn compact_members(
    members: Seq<(Seq<char>, JsonView)>,
    order: Seq<int>,
    n: nat,
) -> Seq<char>
    decreases members, n,
{
    if n == 0 {
        Seq::empty()
    } else {
        let place = order[n - 1];
        compact_members(members, order, (n - 1) as nat) + (if n > 1 {
            seq![',']
        } else {
            Seq::empty()
        }) + (if 0 <= place < members.len() {
            quoted_text(members[place].0) + seq![':'] + compact_text(members[place].1)
        } else {
            Seq::empty()
        })
    }
}

fn push_compact(value: &Json, out: &mut String)
    ensures
        final(out)@ == old(out)@ + compact_text(value.view()),
    decreases value.view(),
{
    let ghost model = value.view();
    let ghost start = out@;
    match value {
        Json::Null => out.append("null"),
        Json::Bool(b) => if *b {
            out.append("true");
        } else {
            out.append("false");
        },
        Json::Unsigned(n) => push_decimal(out, *n),
        Json::Negative(n) => {
            if *n >= 0 {
                push_decimal(out, *n as u64);
            } else {
                out.push('-');
                push_decimal(out, (-(*n + 1)) as u64 + 1);
            }
        },
        Json::Float(s) => match show_number(s.as_str()) {
            Some(t) => out.append(t.as_str()),
            None => out.append(s.as_str()),
        },
        Json::Text(s) => {
            let t = quote(s.as_str());
            out.append(t.as_str());
        },
        Json::Array(items) => {
            out.push('[');
            let ghost views = items_view(items@);
            let mut i: usize = 0;
            while i < items.len()
                invariant
                    i <= items@.len(),
                    model == value.view(),
                    views == items_view(items@),
                    model == JsonView::Array(views),
                    out@ == start + seq!['['] + compact_items(views, i as nat),
                decreases items@.len() - i,
            {
                if i > 0 {
                    out.push(',');
                }
                proof {
                    assert(decreases_to!(model => model->Array_0[i as int]));
                }
                push_compact(&items[i], out);
                assert(out@ =~= start + seq!['['] + compact_items(views, (i + 1) as nat));
                i = i + 1;
            }
            out.push(']');
        },
        Json::Object(members) => {
            out.push('{');
            let order = order_by_name(members);
            let ghost views = members_view(members@);
            let ghost places = name_order(views, views.len() as int);
            let mut i: usize = 0;
            while i < order.len()
                invariant
                    i <= order@.len(),
                    order@.len() == members@.len(),
                    model == value.view(),
                    views == members_view(members@),
                    model == JsonView::Object(views),
                    places == order@.map_values(|p: usize| p as int),
                    forall|k: int|
                        0 <= k < order@.len() ==> 0 <= #[trigger] order@[k] < members@.len(),
                    out@ == start + seq!['{'] + compact_members(views, places, i as nat),
                decreases order@.len() - i,
            {
                if i > 0 {
                    out.push(',');
                }
                let place: usize = order[i];
                assert(places[i as int] == place);
                let name = quote(members[place].0.as_str());
                out.append(name.as_str());
                out.push(':');
                proof {
                    assert(decreases_to!(model => model->Object_0[place as int]));
                    assert(decreases_to!(
                        model->Object_0[place as int] => model->Object_0[place as int].1
                    ));
                }
                push_compact(&members[place].1, out);
                assert(out@ =~= start + seq!['{'] + compact_members(
                    views,
                    places,
                    (i + 1) as nat,
                ));
                i = i + 1;
            }
            out.push('}');
        },
    }
    assert(out@ =~= start + compact_text(model));
}

/// A value as compact text.
pub fn compact_json(value: &Json) -> (text: String)
    ensures
        text@ == compact_text(value.view()),
{
    let mut out = String::new();
    push_compact(value, &mut out);
    assert(out@ =~= compact_text(value.view()));
    out
}

/// A number with so many decimals; a dash for another value.
pub open spec fn decimals_text(v: JsonView, decimals: nat) -> Seq<char> {
    match float_of(v) {
        None => "-"@,
        Some(s) => match fixed_number(s, decimals) {
            None => "-"@,
            Some(t) => t,
        },
    }
}

/// A number with so many decimals; a dash for another value.
pub fn fmt(value: &Json, decimals: usize) -> (text: String)
    requires
        decimals <= 0xFFFF,
    ensures
        text@ == decimals_text(value.view(), decimals as nat),
{
    match as_float(value) {
        None => "-".to_owned(),
        Some(s) => match show_fixed(s.as_str(), decimals) {
            None => "-".to_owned(),
            Some(t) => t,
        },
    }
}

/// A whole number in decimal.
pub open spec fn whole_text(n: int) -> Seq<char> {
    if n < 0 {
        seq!['-'] + decimal((-n) as nat)
    } else {
        decimal(n as nat)
    }
}

/// The whole number closest to a value; nothing for a value that is no number.
pub open spec fn whole_of(v: JsonView) -> Option<i64> {
    match float_of(v) {
        None => None,
        Some(s) => rounded_number(s),
    }
}

fn whole(value: &Json) -> (r: Option<i64>)
    ensures
        r == whole_of(value.view()),
{
    match as_float(value) {
        None => None,
        Some(s) => round(s.as_str()),
    }
}

/// The absolute value.
fn magnitude(n: i64) -> (m: u64)
    ensures
        m == (if n < 0 {
            -(n as int)
        } else {
            n as int
        }),
{
    if n < 0 {
        (-(n + 1)) as u64 + 1
    } else {
        n as u64
    }
}

/// A number without decimals; a dash for another value.
pub open spec fn int_text(v: JsonView) -> Seq<char> {
    match whole_of(v) {
        None => "-"@,
        Some(n) => whole_text(n as int),
    }
}

/// A number without decimals; a dash for another value.
pub fn fmt_int(value: &Json) -> (text: String)
    ensures
        text@ == int_text(value.view()),
{
    match whole(value) {
        None => "-".to_owned(),
        Some(n) => {
            let mut text = String::new();
            if n < 0 {
                text.push('-');
            }
            push_decimal(&mut text, magnitude(n));
            assert(text@ =~= whole_text(n as int));
            text
        },
    }
}

/// The digits with commas between groups of three, counted from the end.
pub open spec fn grouped(digits: Seq<char>) -> Seq<char>
    decreases digits.len(),
{
    if digits.len() <= 3 {
        digits
    } else {
        grouped(digits.take(digits.len() - 3)) + seq![','] + digits.skip(digits.len() - 3)
    }
}

/// A number without decimals and with commas between groups of three digits; a
/// dash for another value.
pub open spec fn thousands_text(v: JsonView) -> Seq<char> {
    match whole_of(v) {
        None => "-"@,
        Some(n) => if n < 0 {
            seq!['-'] + grouped(decimal((-(n as int)) as nat))
        } else {
            grouped(decimal(n as nat))
        },
    }
}

/// The number `n` below ten, a hundred or a thousand.
proof fn lemma_last_three(n: nat)
    requires
        n >= 1000,
    ensures
        decimal(n).len() > 3,
        decimal(n).take(decimal(n).len() - 3) == decimal(n / 1000),
        decimal(n).skip(decimal(n).len() - 3) == seq![
            crate::text::digit_char(((n / 100) % 10) as int),
            crate::text::digit_char(((n / 10) % 10) as int),
            crate::text::digit_char((n % 10) as int),
        ],
{
    let s = decimal(n);
    let a = decimal(n / 10);
    let b = decimal(n / 10 / 10);
    let c = decimal(n / 10 / 10 / 10);
    assert(n / 10 / 10 == n / 100 && n / 10 / 10 / 10 == n / 1000);
    assert(s == a.push(crate::text::digit_char((n % 10) as int)));
    assert(a == b.push(crate::text::digit_char(((n / 10) % 10) as int)));
    assert(b == c.push(crate::text::digit_char(((n / 10 / 10) % 10) as int)));
    crate::text::lemma_decimal_number(n / 1000, n as int);
    assert(s.take(s.len() - 3) =~= c);
    assert(s.skip(s.len() - 3) =~= seq![
        crate::text::digit_char(((n / 100) % 10) as int),
        crate::text::digit_char(((n / 10) % 10) as int),
        crate::text::digit_char((n % 10) as int),
    ]);
}

proof fn lemma_short_decimal(n: nat)
    requires
        n < 1000,
    ensures
        decimal(n).len() <= 3,
{
    if n >= 10 {
        assert(decimal(n) == decimal(n / 10).push(crate::text::digit_char((n % 10) as int)));
        if n >= 100 {
            assert(decimal(n / 10) == decimal(n / 10 / 10).push(
                crate::text::digit_char(((n / 10) % 10) as int),
            ));
            assert(n / 10 / 10 < 10);
        }
    }
}

/// Append `n` with commas between groups of three digits.
fn push_grouped(out: &mut String, n: u64)
    ensures
        final(out)@ == old(out)@ + grouped(decimal(n as nat)),
    decreases n,
{
    let ghost start = out@;
    if n < 1000 {
        proof {
            lemma_short_decimal(n as nat);
        }
        push_decimal(out, n);
    } else {
        proof {
            lemma_last_three(n as nat);
        }
        push_grouped(out, n / 1000);
        out.push(',');
        push_decimal(out, (n / 100) % 10);
        push_decimal(out, (n / 10) % 10);
        push_decimal(out, n % 10);
        assert(out@ =~= start + grouped(decimal(n as nat)));
    }
}

/// A number without decimals and with commas between groups of three digits; a
/// dash for another value.
pub fn fmt_thousands(value: &Json) -> (text: String)
    ensures
        text@ == thousands_text(value.view()),
{
    match whole(value) {
        None => "-".to_owned(),
        Some(n) => {
            let mut text = String::new();
            if n < 0 {
                text.push('-');
            }
            push_grouped(&mut text, magnitude(n));
            assert(text@ =~= thousands_text(value.view()));
            text
        },
    }
}

} // verus!
