//! Canonical JSON: one text for one value.
//!
//! Members are sorted by name, nothing is spaced out, characters beyond ASCII
//! are escaped, and floating numbers are written in the style of Python's
//! `repr`: scientific notation where the decimal exponent is below -4 or at
//! least 16.
use crate::bench::json::{members_view, items_view, Json, JsonView};
use crate::text::{
    decimal, decimal_text, lemma_decimal_number, hex_char, hex_digit, is_digit, push_decimal,
    push_zeros, same_text, to_chars, zeros,
};
use vstd::prelude::*;
use vstd::string::*;

verus! {

/// Whether all characters of `s` are digits.
pub open spec fn all_digits(s: Seq<char>) -> bool {
    forall|i: int| 0 <= i < s.len() ==> is_digit(#[trigger] s[i])
}

/// The number that the digits of `s` make.
pub open spec fn digits_value(s: Seq<char>) -> int
    decreases s.len(),
{
    if s.len() == 0 {
        0
    } else {
        digits_value(s.drop_last()) * 10 + (s.last() as int - '0' as int)
    }
}

/// The place of the first `e` in `s`; the length of `s` if there is none.
pub open spec fn place_of_e(s: Seq<char>, from: int) -> int
    decreases s.len() - from,
{
    if from >= s.len() {
        s.len() as int
    } else if s[from] == 'e' {
        from
    } else {
        place_of_e(s, from + 1)
    }
}

/// Whether `m` is a digit, or a digit, a point and more digits.
pub open spec fn is_mantissa(m: Seq<char>) -> bool {
    ||| m.len() == 1 && is_digit(m[0])
    ||| m.len() >= 3 && is_digit(m[0]) && m[1] == '.' && all_digits(m.skip(2))
}

/// Whether `x` is up to four digits after an optional minus sign.
pub open spec fn is_exponent(x: Seq<char>) -> bool {
    if x.len() > 0 && x[0] == '-' {
        1 <= x.len() - 1 <= 4 && all_digits(x.skip(1))
    } else {
        1 <= x.len() <= 4 && all_digits(x)
    }
}

/// The start of the mantissa: after a minus sign, if there is one.
pub open spec fn mantissa_start(s: Seq<char>) -> int {
    if s.len() > 0 && s[0] == '-' {
        1
    } else {
        0
    }
}

/// Whether `s` is a number in scientific notation, such as `-1.75e-4`.
pub open spec fn is_scientific(s: Seq<char>) -> bool {
    let e = place_of_e(s, 0);
    &&& mantissa_start(s) <= e < s.len()
    &&& is_mantissa(s.subrange(mantissa_start(s), e))
    &&& is_exponent(s.skip(e + 1))
}

/// The digits of the mantissa of a number in scientific notation.
pub open spec fn scientific_digits(s: Seq<char>) -> Seq<char> {
    let m = s.subrange(mantissa_start(s), place_of_e(s, 0));
    if m.len() == 1 {
        m
    } else {
        seq![m[0]] + m.skip(2)
    }
}

/// The exponent of a number in scientific notation.
pub open spec fn scientific_exponent(s: Seq<char>) -> int {
    let x = s.skip(place_of_e(s, 0) + 1);
    if x.len() > 0 && x[0] == '-' {
        -digits_value(x.skip(1))
    } else {
        digits_value(x)
    }
}

/// The number with these digits and this exponent, without its sign.
pub open spec fn float_body(digits: Seq<char>, exp: int) -> Seq<char> {
    if 0 <= exp < 16 {
        if digits.len() > exp + 1 {
            digits.take(exp + 1) + seq!['.'] + digits.skip(exp + 1)
        } else {
            digits + zeros(exp + 1 - digits.len()) + ".0"@
        }
    } else if -4 <= exp < 0 {
        "0."@ + zeros(-exp - 1) + digits
    } else {
        (if digits.len() == 1 {
            digits
        } else {
            digits.take(1) + seq!['.'] + digits.skip(1)
        }) + seq!['e'] + (if exp < 0 {
            seq!['-']
        } else {
            seq!['+']
        }) + two_digits(if exp < 0 {
            -exp
        } else {
            exp
        })
    }
}

/// `n` in decimal with at least two digits.
pub open spec fn two_digits(n: int) -> Seq<char> {
    if n < 10 {
        seq!['0'] + decimal(n as nat)
    } else {
        decimal(n as nat)
    }
}

/// How a floating number is written: from scientific notation to Python's
/// `repr`. What is not a number is `nan`; any other text, such as `inf`, stays as it is.
pub open spec fn float_text(s: Seq<char>) -> Seq<char> {
    if is_scientific(s) {
        (if s[0] == '-' {
            seq!['-']
        } else {
            Seq::empty()
        }) + float_body(scientific_digits(s), scientific_exponent(s))
    } else if s == "NaN"@ {
        "nan"@
    } else {
        s
    }
}

fn check_digits(chars: &Vec<char>, from: usize, to: usize) -> (r: bool)
    requires
        from <= to <= chars@.len(),
    ensures
        r <==> all_digits(chars@.subrange(from as int, to as int)),
{
    let ghost part = chars@.subrange(from as int, to as int);
    let mut i: usize = from;
    while i < to
        invariant
            from <= i <= to <= chars@.len(),
            part == chars@.subrange(from as int, to as int),
            forall|k: int| 0 <= k < i - from ==> is_digit(#[trigger] part[k]),
        decreases to - i,
    {
        let c = chars[i];
        if c < '0' || c > '9' {
            assert(!is_digit(part[i - from]));
            return false;
        }
        i = i + 1;
    }
    true
}

/// The number that up to four digits make.
fn read_digits(chars: &Vec<char>, from: usize) -> (n: i32)
    requires
        from <= chars@.len(),
        chars@.len() - from <= 4,
        all_digits(chars@.skip(from as int)),
    ensures
        n == digits_value(chars@.skip(from as int)),
        0 <= n < 10000,
{
    let ghost part = chars@.skip(from as int);
    let mut n: i32 = 0;
    let mut i: usize = from;
    let ghost mut bound: int = 1;
    while i < chars.len()
        invariant
            from <= i <= chars@.len(),
            chars@.len() - from <= 4,
            part == chars@.skip(from as int),
            all_digits(part),
            n == digits_value(part.take(i - from)),
            0 <= n < bound,
            i - from == 0 ==> bound == 1,
            i - from == 1 ==> bound == 10,
            i - from == 2 ==> bound == 100,
            i - from == 3 ==> bound == 1000,
            i - from == 4 ==> bound == 10000,
        decreases chars@.len() - i,
    {
        let c = chars[i];
        proof {
            assert(part[i - from] == c);
            assert(is_digit(part[i - from]));
            assert(part.take(i - from + 1).drop_last() =~= part.take(i - from));
            bound = bound * 10;
        }
        let d: i32 = (c as u32 - 48) as i32;
        n = n * 10 + d;
        i = i + 1;
    }
    assert(part.take(i - from) =~= part);
    n
}

/// Append the characters from `from` to below `to`.
fn push_range(out: &mut String, chars: &Vec<char>, from: usize, to: usize)
    requires
        from <= to <= chars@.len(),
    ensures
        final(out)@ == old(out)@ + chars@.subrange(from as int, to as int),
{
    let ghost start = out@;
    let mut i: usize = from;
    while i < to
        invariant
            from <= i <= to <= chars@.len(),
            out@ == start + chars@.subrange(from as int, i as int),
        decreases to - i,
    {
        out.push(chars[i]);
        assert(chars@.subrange(from as int, i + 1) =~= chars@.subrange(from as int, i as int).push(
            chars@[i as int],
        ));
        i = i + 1;
    }
}

/// Append the number with these digits and this exponent, without its sign.
fn push_float_body(out: &mut String, digits: &Vec<char>, exp: i32)
    requires
        1 <= digits@.len(),
        -10000 < exp < 10000,
    ensures
        final(out)@ == old(out)@ + float_body(digits@, exp as int),
{
    let ghost start = out@;
    let n: usize = digits.len();
    proof {
        reveal_strlit("0.");
        reveal_strlit(".0");
    }
    if 0 <= exp && exp < 16 {
        let whole: usize = (exp + 1) as usize;
        if n > whole {
            push_range(out, digits, 0, whole);
            out.push('.');
            push_range(out, digits, whole, n);
            assert(digits@.subrange(0, whole as int) =~= digits@.take(exp + 1));
            assert(digits@.subrange(whole as int, n as int) =~= digits@.skip(exp + 1));
        } else {
            push_range(out, digits, 0, n);
            push_zeros(out, whole - n);
            out.append(".0");
            assert(digits@.subrange(0, n as int) =~= digits@);
        }
    } else if -4 <= exp && exp < 0 {
        out.append("0.");
        push_zeros(out, (-exp - 1) as usize);
        push_range(out, digits, 0, n);
        assert(digits@.subrange(0, n as int) =~= digits@);
    } else {
        push_range(out, digits, 0, 1);
        assert(digits@.subrange(0, 1) =~= digits@.take(1));
        if n > 1 {
            out.push('.');
            push_range(out, digits, 1, n);
            assert(digits@.subrange(1, n as int) =~= digits@.skip(1));
        } else {
            assert(digits@.take(1) =~= digits@);
        }
        out.push('e');
        let size: i32 = if exp < 0 {
            out.push('-');
            -exp
        } else {
            out.push('+');
            exp
        };
        if size < 10 {
            out.push('0');
        }
        push_decimal(out, size as u64);
    }
    assert(out@ =~= start + float_body(digits@, exp as int));
}

/// The place of the first `e`.
fn find_e(chars: &Vec<char>) -> (e: usize)
    ensures
        e == place_of_e(chars@, 0),
        e <= chars@.len(),
{
    let mut i: usize = 0;
    while i < chars.len() && chars[i] != 'e'
        invariant
            i <= chars@.len(),
            place_of_e(chars@, 0) == place_of_e(chars@, i as int),
        decreases chars@.len() - i,
    {
        i = i + 1;
    }
    i
}

/// What stands for a text that is no number in scientific notation.
fn special_float(text: &str) -> (r: String)
    requires
        !is_scientific(text@),
    ensures
        r@ == float_text(text@),
{
    if same_text(text, "NaN") {
        "nan".to_owned()
    } else {
        text.to_owned()
    }
}

/// A number in scientific notation, taken apart.
#[derive(Debug)]
pub struct Scientific {
    pub negative: bool,
    pub digits: Vec<char>,
    pub exponent: i32,
}

/// Take a number in scientific notation apart; nothing for another text.
pub fn parse_scientific(text: &str) -> (r: Option<Scientific>)
    ensures
        r is Some <==> is_scientific(text@),
        r matches Some(x) ==> {
            &&& x.negative <==> text@[0] == '-'
            &&& x.digits@ == scientific_digits(text@)
            &&& x.digits@.len() >= 1
            &&& x.exponent == scientific_exponent(text@)
            &&& -10000 < x.exponent < 10000
        },
{
    let chars = to_chars(text);
    let n: usize = chars.len();
    let e: usize = find_e(&chars);
    let start: usize = if n > 0 && chars[0] == '-' {
        1
    } else {
        0
    };
    if e >= n || start >= e {
        proof {
            if start == e && e < n {
                assert(chars@.subrange(start as int, e as int).len() == 0);
            }
        }
        return None;
    }
    let ghost m = chars@.subrange(start as int, e as int);
    let ghost x = chars@.skip(e + 1);
    let plain: bool = e - start == 1;
    let first = chars[start];
    if first < '0' || first > '9' {
        assert(!is_digit(m[0]));
        return None;
    }
    if !plain {
        if e - start < 3 || chars[start + 1] != '.' || !check_digits(&chars, start + 2, e) {
            assert(m.len() >= 3 ==> chars@.subrange(start + 2, e as int) =~= m.skip(2));
            return None;
        }
        assert(chars@.subrange(start + 2, e as int) =~= m.skip(2));
    }
    assert(is_mantissa(m));
    let minus: bool = e + 1 < n && chars[e + 1] == '-';
    let exp_start: usize = if minus {
        e + 2
    } else {
        e + 1
    };
    let exp_len: usize = n - exp_start;
    assert(chars@.subrange(exp_start as int, n as int) =~= chars@.skip(exp_start as int));
    assert(minus ==> x.skip(1) =~= chars@.skip(exp_start as int));
    if exp_len < 1 || exp_len > 4 || !check_digits(&chars, exp_start, n) {
        return None;
    }
    assert(is_scientific(chars@));
    let size: i32 = read_digits(&chars, exp_start);
    let exponent: i32 = if minus {
        -size
    } else {
        size
    };
    let mut digits: Vec<char> = Vec::new();
    digits.push(first);
    let mut i: usize = start + 2;
    while i < e
        invariant
            start + 1 <= e <= chars@.len(),
            start + 2 <= i,
            i <= e || i == start + 2,
            m == chars@.subrange(start as int, e as int),
            first == m[0],
            m.len() >= 2 ==> digits@ == seq![first] + m.skip(2).take(i - start - 2),
            m.len() == 1 ==> digits@ == seq![first],
        decreases e - i,
    {
        digits.push(chars[i]);
        assert(m.skip(2).take(i - start - 1) =~= m.skip(2).take(i - start - 2).push(chars@[i as int]));
        i = i + 1;
    }
    proof {
        if m.len() == 1 {
            assert(digits@ =~= m);
        } else {
            assert(m.skip(2).take(i - start - 2) =~= m.skip(2));
        }
    }
    Some(Scientific { negative: start == 1, digits, exponent })
}

/// Format a number in scientific notation like CPython's `repr(float)`.
pub fn python_float_repr(text: &str) -> (r: String)
    ensures
        r@ == float_text(text@),
{
    match parse_scientific(text) {
        None => special_float(text),
        Some(x) => {
            let mut out = String::new();
            if x.negative {
                out.push('-');
            }
            push_float_body(&mut out, &x.digits, x.exponent);
            assert(out@ =~= float_text(text@));
            out
        },
    }
}

/// Whether a number in shortest scientific notation lies between zero and one.
pub open spec fn within_unit(s: Seq<char>) -> bool {
    ||| s == "0e0"@
    ||| s == "-0e0"@
    ||| s == "1e0"@
    ||| is_scientific(s) && s[0] != '-' && scientific_exponent(s) < 0
}

/// Whether a number in shortest scientific notation lies between zero and one.
pub fn in_unit_interval(text: &str) -> (r: bool)
    ensures
        r <==> within_unit(text@),
{
    if same_text(text, "0e0") || same_text(text, "-0e0") || same_text(text, "1e0") {
        return true;
    }
    match parse_scientific(text) {
        Some(x) => !x.negative && x.exponent < 0,
        None => false,
    }
}

/// The escape of a code unit: four hexadecimal digits after `\u`.
pub open spec fn unicode_escape(code: int) -> Seq<char> {
    seq![
        '\\',
        'u',
        hex_char(code / 4096),
        hex_char((code / 256) % 16),
        hex_char((code / 16) % 16),
        hex_char(code % 16),
    ]
}

/// How a character stands in a JSON text.
pub open spec fn escaped_char(c: char) -> Seq<char> {
    let code = c as int;
    if c == '"' {
        seq!['\\', '"']
    } else if c == '\\' {
        seq!['\\', '\\']
    } else if c == '\n' {
        seq!['\\', 'n']
    } else if c == '\r' {
        seq!['\\', 'r']
    } else if c == '\t' {
        seq!['\\', 't']
    } else if code == 8 {
        seq!['\\', 'b']
    } else if code == 12 {
        seq!['\\', 'f']
    } else if code < 32 {
        unicode_escape(code)
    } else if code < 127 {
        seq![c]
    } else if code <= 0xFFFF {
        unicode_escape(code)
    } else {
        unicode_escape(0xD800 + (code - 0x10000) / 1024) + unicode_escape(
            0xDC00 + (code - 0x10000) % 1024,
        )
    }
}

/// The characters of `s` escaped.
pub open spec fn escaped_chars(s: Seq<char>) -> Seq<char>
    decreases s.len(),
{
    if s.len() == 0 {
        Seq::empty()
    } else {
        escaped_chars(s.drop_last()) + escaped_char(s.last())
    }
}

/// `s` as a JSON text: escaped and in quotes.
pub open spec fn quoted(s: Seq<char>) -> Seq<char> {
    seq!['"'] + escaped_chars(s) + seq!['"']
}

fn push_unicode_escape(out: &mut String, code: u32)
    requires
        code <= 0xFFFF,
    ensures
        final(out)@ == old(out)@ + unicode_escape(code as int),
{
    out.push('\\');
    out.push('u');
    out.push(hex_digit(code / 4096));
    out.push(hex_digit((code / 256) % 16));
    out.push(hex_digit((code / 16) % 16));
    out.push(hex_digit(code % 16));
    assert(out@ =~= old(out)@ + unicode_escape(code as int));
}

fn push_escaped_char(out: &mut String, c: char)
    ensures
        final(out)@ == old(out)@ + escaped_char(c),
{
    let code: u32 = c as u32;
    if c == '"' {
        out.push('\\');
        out.push('"');
    } else if c == '\\' {
        out.push('\\');
        out.push('\\');
    } else if c == '\n' {
        out.push('\\');
        out.push('n');
    } else if c == '\r' {
        out.push('\\');
        out.push('r');
    } else if c == '\t' {
        out.push('\\');
        out.push('t');
    } else if code == 8 {
        out.push('\\');
        out.push('b');
    } else if code == 12 {
        out.push('\\');
        out.push('f');
    } else if code < 32 {
        push_unicode_escape(out, code);
    } else if code < 127 {
        out.push(c);
    } else if code <= 0xFFFF {
        push_unicode_escape(out, code);
    } else {
        let v: u32 = code - 0x10000;
        push_unicode_escape(out, 0xD800 + v / 1024);
        push_unicode_escape(out, 0xDC00 + v % 1024);
    }
    assert(out@ =~= old(out)@ + escaped_char(c));
}

/// Append `s` escaped and in quotes. Characters beyond printable ASCII become `\uXXXX`,
/// those beyond the basic plane as a pair of surrogates.
pub fn escape_string(s: &str, out: &mut String)
    ensures
        final(out)@ == old(out)@ + quoted(s@),
{
    let chars = to_chars(s);
    let ghost start = out@;
    out.push('"');
    let mut i: usize = 0;
    while i < chars.len()
        invariant
            i <= chars@.len(),
            chars@ == s@,
            out@ == start + seq!['"'] + escaped_chars(chars@.take(i as int)),
        decreases chars@.len() - i,
    {
        let ghost before = out@;
        push_escaped_char(out, chars[i]);
        proof {
            assert(chars@.take(i + 1).drop_last() =~= chars@.take(i as int));
            assert(out@ =~= start + seq!['"'] + escaped_chars(chars@.take(i + 1)));
        }
        i = i + 1;
    }
    assert(chars@.take(i as int) =~= s@);
    out.push('"');
    assert(out@ =~= start + quoted(s@));
}

/// Whether `a` comes before `b` or equals it, by the codes of the characters.
pub open spec fn text_le(a: Seq<char>, b: Seq<char>) -> bool
    decreases a.len(),
{
    a.len() == 0 || (b.len() > 0 && (a[0] < b[0] || (a[0] == b[0] && text_le(
        a.drop_first(),
        b.drop_first(),
    ))))
}

/// Where `name` goes among the members that `order` lists: before the first
/// one at `k` or later that has a larger name.
pub open spec fn name_place(
    o: Seq<(Seq<char>, JsonView)>,
    order: Seq<int>,
    k: int,
    name: Seq<char>,
) -> int
    decreases order.len() - k,
{
    if k >= order.len() || !text_le(o[order[k]].0, name) {
        k
    } else {
        name_place(o, order, k + 1, name)
    }
}

/// The places of the first `n` members of `o`, sorted by their names.
pub open spec fn name_order(o: Seq<(Seq<char>, JsonView)>, n: int) -> Seq<int>
    decreases n,
{
    if n <= 0 {
        Seq::empty()
    } else {
        let rest = name_order(o, n - 1);
        rest.insert(name_place(o, rest, 0, o[n - 1].0), n - 1)
    }
}

/// The canonical text of a JSON value.
pub open spec fn json_text(v: JsonView) -> Seq<char>
    decreases v, 0nat,
{
    match v {
        JsonView::Null => "null"@,
        JsonView::Bool(b) => if b {
            "true"@
        } else {
            "false"@
        },
        JsonView::Unsigned(n) => decimal(n as nat),
        JsonView::Negative(n) => if n < 0 {
            seq!['-'] + decimal((-n) as nat)
        } else {
            decimal(n as nat)
        },
        JsonView::Float(s) => float_text(s),
        JsonView::Text(s) => quoted(s),
        JsonView::Array(items) => seq!['['] + items_text(items, items.len()) + seq![']'],
        JsonView::Object(members) => seq!['{'] + members_text(
            members,
            name_order(members, members.len() as int),
            members.len(),
        ) + seq!['}'],
    }
}

/// The canonical texts of the first `n` items, separated by commas.
pub open spec fn items_text(items: Seq<JsonView>, n: nat) -> Seq<char>
    decreases items, n,
{
    if n == 0 || n > items.len() {
        Seq::empty()
    } else {
        items_text(items, (n - 1) as nat) + (if n > 1 {
            seq![',']
        } else {
            Seq::empty()
        }) + json_text(items[n - 1])
    }
}

/// The canonical texts of the first `n` members that `order` lists.
pub open spec fn members_text(
    members: Seq<(Seq<char>, JsonView)>,
    order: Seq<int>,
    n: nat,
) -> Seq<char>
    decreases members, n,
{
    if n == 0 {
        Seq::empty()
    } else {
        let place = order[n - 1];
        members_text(members, order, (n - 1) as nat) + (if n > 1 {
            seq![',']
        } else {
            Seq::empty()
        }) + (if 0 <= place < members.len() {
            quoted(members[place].0) + seq![':'] + json_text(members[place].1)
        } else {
            Seq::empty()
        })
    }
}

/// Whether `a` comes before `b` or equals it, by the codes of the characters.
pub(crate) fn text_at_most(a: &str, b: &str) -> (r: bool)
    ensures
        r <==> text_le(a@, b@),
{
    let x = to_chars(a);
    let y = to_chars(b);
    assert(x@.skip(0) =~= a@);
    assert(y@.skip(0) =~= b@);
    let mut i: usize = 0;
    while i < x.len()
        invariant
            i <= x@.len(),
            i <= y@.len(),
            x@ == a@,
            y@ == b@,
            text_le(a@, b@) <==> text_le(x@.skip(i as int), y@.skip(i as int)),
        decreases x@.len() - i,
    {
        let ghost p = x@.skip(i as int);
        let ghost q = y@.skip(i as int);
        if i >= y.len() {
            return false;
        }
        if x[i] < y[i] {
            return true;
        }
        if x[i] != y[i] {
            return false;
        }
        assert(p.drop_first() =~= x@.skip(i + 1));
        assert(q.drop_first() =~= y@.skip(i + 1));
        i = i + 1;
    }
    true
}

/// The places of the members, sorted by their names.
pub(crate) fn order_by_name(members: &Vec<(String, Json)>) -> (order: Vec<usize>)
    ensures
        order@.len() == members@.len(),
        order@.map_values(|p: usize| p as int) == name_order(
            members_view(members@),
            members@.len() as int,
        ),
        forall|i: int| 0 <= i < order@.len() ==> 0 <= #[trigger] order@[i] < members@.len(),
{
    let ghost o = members_view(members@);
    let mut order: Vec<usize> = Vec::new();
    assert(order@.map_values(|p: usize| p as int) =~= name_order(o, 0));
    let mut n: usize = 0;
    while n < members.len()
        invariant
            n <= members@.len(),
            o == members_view(members@),
            order@.len() == n,
            order@.map_values(|p: usize| p as int) == name_order(o, n as int),
            forall|i: int| 0 <= i < order@.len() ==> 0 <= #[trigger] order@[i] < n,
        decreases members@.len() - n,
    {
        let name = members[n].0.as_str();
        let ghost rest = name_order(o, n as int);
        let mut k: usize = 0;
        while k < order.len() && text_at_most(members[order[k]].0.as_str(), name)
            invariant
                k <= order@.len(),
                n < members@.len(),
                o == members_view(members@),
                name@ == o[n as int].0,
                rest == order@.map_values(|p: usize| p as int),
                forall|i: int| 0 <= i < order@.len() ==> 0 <= #[trigger] order@[i] < n,
                name_place(o, rest, 0, name@) == name_place(o, rest, k as int, name@),
            decreases order@.len() - k,
        {
            k = k + 1;
        }
        let ghost before = order@;
        assert(k < before.len() ==> rest[k as int] == before[k as int]);
        order.insert(k, n);
        proof {
            assert(order@.map_values(|p: usize| p as int) =~= rest.insert(k as int, n as int));
            assert forall|i: int| 0 <= i < order@.len() implies 0 <= #[trigger] order@[i] < n
                + 1 by {
                if i < k {
                    assert(order@[i] == before[i]);
                } else if i > k {
                    assert(order@[i] == before[i - 1]);
                }
            }
        }
        n = n + 1;
    }
    order
}

/// Append the canonical text of `value`.
pub fn write_value(value: &Json, out: &mut String)
    ensures
        final(out)@ == old(out)@ + json_text(value.view()),
    decreases value.view(),
{
    let ghost model = value.view();
    let ghost start = out@;
    match value {
        Json::Null => out.append("null"),
        Json::Bool(b) => if *b {
            out.append("true");
        } else {
            out.append("false");
        },
        Json::Unsigned(n) => push_decimal(out, *n),
        Json::Negative(n) => {
            if *n >= 0 {
                push_decimal(out, *n as u64);
            } else {
                out.push('-');
                push_decimal(out, (-(*n + 1)) as u64 + 1);
            }
        },
        Json::Float(s) => {
            let text = python_float_repr(s.as_str());
            out.append(text.as_str());
        },
        Json::Text(s) => escape_string(s.as_str(), out),
        Json::Array(items) => {
            out.push('[');
            let ghost views = items_view(items@);
            let mut i: usize = 0;
            while i < items.len()
                invariant
                    i <= items@.len(),
                    model == value.view(),
                    views == items_view(items@),
                    model == JsonView::Array(views),
                    out@ == start + seq!['['] + items_text(views, i as nat),
                decreases items@.len() - i,
            {
                if i > 0 {
                    out.push(',');
                }
                proof {
                    assert(decreases_to!(model => model->Array_0[i as int]));
                }
                write_value(&items[i], out);
                assert(out@ =~= start + seq!['['] + items_text(views, (i + 1) as nat));
                i = i + 1;
            }
            out.push(']');
        },
        Json::Object(members) => {
            out.push('{');
            let order = order_by_name(members);
            let ghost views = members_view(members@);
            let ghost places = name_order(views, views.len() as int);
            let mut i: usize = 0;
            while i < order.len()
                invariant
                    i <= order@.len(),
                    order@.len() == members@.len(),
                    model == value.view(),
                    views == members_view(members@),
                    model == JsonView::Object(views),
                    places == order@.map_values(|p: usize| p as int),
                    forall|k: int|
                        0 <= k < order@.len() ==> 0 <= #[trigger] order@[k] < members@.len(),
                    out@ == start + seq!['{'] + members_text(views, places, i as nat),
                decreases order@.len() - i,
            {
                if i > 0 {
                    out.push(',');
                }
                let place: usize = order[i];
                assert(places[i as int] == place);
                escape_string(members[place].0.as_str(), out);
                out.push(':');
                proof {
                    assert(decreases_to!(model => model->Object_0[place as int]));
                    assert(decreases_to!(
                        model->Object_0[place as int] => model->Object_0[place as int].1
                    ));
                }
                write_value(&members[place].1, out);
                assert(out@ =~= start + seq!['{'] + members_text(views, places, (i + 1) as nat));
                i = i + 1;
            }
            out.push('}');
        },
    }
    assert(out@ =~= start + json_text(model));
}

/// The canonical text of `value`: members sorted by name, no spaces, ASCII
/// only.
pub fn canonical_json(value: &Json) -> (text: String)
    ensures
        text@ == json_text(value.view()),
{
    let mut out = String::new();
    write_value(value, &mut out);
    assert(out@ =~= json_text(value.view()));
    out
}

/// Sorting by name gives each of the first `n` members one place.
proof fn lemma_name_order(o: Seq<(Seq<char>, JsonView)>, n: int)
    requires
        0 <= n <= o.len(),
    ensures
        name_order(o, n).len() == n,
        forall|i: int| 0 <= i < n ==> 0 <= #[trigger] name_order(o, n)[i] < n,
        forall|p: int| 0 <= p < n ==> name_order(o, n).contains(p),
    decreases n,
{
    if n > 0 {
        lemma_name_order(o, n - 1);
        let rest = name_order(o, n - 1);
        let k = name_place(o, rest, 0, o[n - 1].0);
        lemma_name_place(o, rest, 0, o[n - 1].0);
        let order = name_order(o, n);
        assert forall|i: int| 0 <= i < n implies 0 <= #[trigger] order[i] < n by {
            if i < k {
                assert(order[i] == rest[i]);
            } else if i > k {
                assert(order[i] == rest[i - 1]);
            }
        }
        assert forall|p: int| 0 <= p < n implies order.contains(p) by {
            if p == n - 1 {
                assert(order[k] == p);
            } else {
                let i = rest.index_of(p);
                assert(rest.contains(p));
                if i < k {
                    assert(order[i] == p);
                } else {
                    assert(order[i + 1] == p);
                }
            }
        }
    }
}

proof fn lemma_name_place(
    o: Seq<(Seq<char>, JsonView)>,
    order: Seq<int>,
    k: int,
    name: Seq<char>,
)
    requires
        0 <= k <= order.len(),
    ensures
        k <= name_place(o, order, k, name) <= order.len(),
        forall|i: int|
            k <= i < name_place(o, order, k, name) ==> text_le(o[#[trigger] order[i]].0, name),
        name_place(o, order, k, name) < order.len() ==> !text_le(
            o[order[name_place(o, order, k, name)]].0,
            name,
        ),
    decreases order.len() - k,
{
    if k < order.len() && text_le(o[order[k]].0, name) {
        lemma_name_place(o, order, k + 1, name);
    }
}

pub proof fn lemma_text_le_total(a: Seq<char>, b: Seq<char>)
    ensures
        text_le(a, b) || text_le(b, a),
    decreases a.len(),
{
    if a.len() > 0 && b.len() > 0 && a[0] == b[0] {
        lemma_text_le_total(a.drop_first(), b.drop_first());
    }
}

pub proof fn lemma_text_le_transitive(a: Seq<char>, b: Seq<char>, c: Seq<char>)
    requires
        text_le(a, b),
        text_le(b, c),
    ensures
        text_le(a, c),
    decreases a.len(),
{
    if a.len() > 0 && a[0] == b[0] && b[0] == c[0] {
        lemma_text_le_transitive(a.drop_first(), b.drop_first(), c.drop_first());
    }
}

/// The canonical text lists every member once, in the order of the names.
pub proof fn law_members_sorted(o: Seq<(Seq<char>, JsonView)>, n: int)
    requires
        0 <= n <= o.len(),
    ensures
        name_order(o, n).len() == n,
        forall|p: int| 0 <= p < n ==> name_order(o, n).contains(p),
        forall|i: int, j: int|
            0 <= i <= j < n ==> text_le(
                o[#[trigger] name_order(o, n)[i]].0,
                o[#[trigger] name_order(o, n)[j]].0,
            ),
    decreases n,
{
    lemma_name_order(o, n);
    if n > 0 {
        law_members_sorted(o, n - 1);
        let rest = name_order(o, n - 1);
        let name = o[n - 1].0;
        let k = name_place(o, rest, 0, name);
        lemma_name_place(o, rest, 0, name);
        let order = name_order(o, n);
        assert(order[k] == n - 1);
        assert forall|i: int, j: int| 0 <= i <= j < n implies text_le(
            o[#[trigger] order[i]].0,
            o[#[trigger] order[j]].0,
        ) by {
            let x = if i < k {
                i
            } else {
                i - 1
            };
            let y = if j < k {
                j
            } else {
                j - 1
            };
            lemma_text_le_total(o[order[i]].0, o[order[j]].0);
            lemma_text_le_total(name, o[order[j]].0);
            if i != k {
                assert(order[i] == rest[x]);
            }
            if j != k {
                assert(order[j] == rest[y]);
            }
            if i == k && j > k {
                assert(text_le(o[rest[k]].0, o[rest[y]].0));
                lemma_text_le_total(name, o[rest[k]].0);
                lemma_text_le_transitive(name, o[rest[k]].0, o[rest[y]].0);
            }
        }
    }
}

/// The digits of a positive number without the zeros at the end.
pub open spec fn significant(n: nat) -> Seq<char>
    decreases n,
{
    if n >= 10 && n % 10 == 0 {
        significant(n / 10)
    } else {
        decimal(n)
    }
}

/// The number `n` divided by ten `places` times, in scientific notation.
pub open spec fn scientific_of(n: nat, places: int) -> Seq<char> {
    let digits = significant(n);
    let exp = decimal(n).len() - 1 - places;
    if n == 0 {
        "0e0"@
    } else {
        digits.take(1) + (if digits.len() > 1 {
            seq!['.'] + digits.skip(1)
        } else {
            Seq::empty()
        }) + (if exp < 0 {
            seq!['e', '-'] + decimal((-exp) as nat)
        } else {
            seq!['e'] + decimal(exp as nat)
        })
    }
}

/// The number `n` divided by ten `places` times, in scientific notation.
pub fn scientific_text(n: u64, places: u32) -> (s: String)
    ensures
        s@ == scientific_of(n as nat, places as int),
{
    if n == 0 {
        return "0e0".to_owned();
    }
    let mut rest: u64 = n;
    while rest >= 10 && rest % 10 == 0
        invariant
            rest > 0,
            significant(n as nat) == significant(rest as nat),
        decreases rest,
    {
        rest = rest / 10;
    }
    let whole = decimal_text(n);
    let len: usize = to_chars(whole.as_str()).len();
    let digits = to_chars(decimal_text(rest).as_str());
    let ghost shown = significant(n as nat);
    proof {
        lemma_decimal_number(rest as nat, rest as int);
        lemma_decimal_number(n as nat, n as int);
        assert(digits@ == shown);
    }
    let mut s = String::new();
    push_range(&mut s, &digits, 0, 1);
    assert(digits@.subrange(0, 1) =~= shown.take(1));
    if digits.len() > 1 {
        s.push('.');
        push_range(&mut s, &digits, 1, digits.len());
        assert(digits@.subrange(1, digits@.len() as int) =~= shown.skip(1));
    }
    s.push('e');
    let top: usize = len - 1;
    if top < places as usize {
        s.push('-');
        push_decimal(&mut s, (places as usize - top) as u64);
    } else {
        push_decimal(&mut s, (top - places as usize) as u64);
    }
    assert(s@ =~= scientific_of(n as nat, places as int));
    s
}

} // verus!
