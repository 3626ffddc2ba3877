//! Small pieces of text handling on which the rest of the library builds.
use vstd::prelude::*;
use vstd::string::*;

verus! {

/// `String::push` of the standard library appends the character.
pub assume_specification[ String::push ](s: &mut String, c: char)
    ensures
        final(s)@ == old(s)@.push(c),
;

/// The characters of `s`, in order.
pub fn to_chars(s: &str) -> (chars: Vec<char>)
    ensures
        chars@ == s@,
{
    let mut chars: Vec<char> = Vec::new();
    for c in iter: s.chars()
        invariant
            chars@ == iter.seq().take(iter.index() as int),
            iter.seq() == s@,
    {
        chars.push(c);
    }
    assert(chars@ =~= s@);
    chars
}

/// The text made of `chars`.
pub fn from_chars(chars: &Vec<char>) -> (s: String)
    ensures
        s@ == chars@,
{
    let mut s = String::new();
    let mut i: usize = 0;
    while i < chars.len()
        invariant
            i <= chars@.len(),
            s@ == chars@.take(i as int),
        decreases chars@.len() - i,
    {
        s.push(chars[i]);
        assert(chars@.take(i + 1) =~= chars@.take(i as int).push(chars@[i as int]));
        i = i + 1;
    }
    assert(chars@.take(i as int) =~= chars@);
    s
}

/// Whether two texts are the same.
pub fn same_text(a: &str, b: &str) -> (r: bool)
    ensures
        r <==> a@ == b@,
{
    a.to_owned() == b.to_owned()
}

/// The decimal digit `d`.
pub open spec fn digit_char(d: int) -> char {
    (48 + d) as char
}

/// `n` in decimal.
pub open spec fn decimal(n: nat) -> Seq<char>
    decreases n,
{
    if n < 10 {
        seq![digit_char(n as int)]
    } else {
        decimal(n / 10).push(digit_char((n % 10) as int))
    }
}

fn digit(d: u8) -> (c: char)
    requires
        d < 10,
    ensures
        c == digit_char(d as int),
{
    (48u8 + d) as char
}

/// Append `n` in decimal.
pub fn push_decimal(s: &mut String, n: u64)
    ensures
        final(s)@ == old(s)@ + decimal(n as nat),
    decreases n,
{
    if n < 10 {
        s.push(digit(n as u8));
        assert(s@ =~= old(s)@ + decimal(n as nat));
    } else {
        push_decimal(s, n / 10);
        let ghost middle = s@;
        s.push(digit((n % 10) as u8));
        assert(s@ =~= old(s)@ + decimal(n as nat));
    }
}

/// `n` in decimal.
pub fn decimal_text(n: u64) -> (s: String)
    ensures
        s@ == decimal(n as nat),
{
    let mut s = String::new();
    push_decimal(&mut s, n);
    assert(s@ =~= decimal(n as nat));
    s
}

/// The hexadecimal digit `d`, in lower case.
pub open spec fn hex_char(d: int) -> char {
    if d < 10 {
        (48 + d) as char
    } else {
        (87 + d) as char
    }
}

/// The hexadecimal digit `d`, in lower case.
pub fn hex_digit(d: u32) -> (c: char)
    requires
        d < 16,
    ensures
        c == hex_char(d as int),
{
    if d < 10 {
        (48 + d as u8) as char
    } else {
        (87 + d as u8) as char
    }
}

/// `bytes` in hexadecimal, two digits for each byte.
pub open spec fn hex_of(bytes: Seq<u8>) -> Seq<char>
    decreases bytes.len(),
{
    if bytes.len() == 0 {
        Seq::empty()
    } else {
        hex_of(bytes.drop_last()) + seq![
            hex_char(bytes.last() as int / 16),
            hex_char(bytes.last() as int % 16),
        ]
    }
}

/// `bytes` in hexadecimal, two digits for each byte.
pub fn hex_text(bytes: &Vec<u8>) -> (s: String)
    ensures
        s@ == hex_of(bytes@),
{
    let mut s = String::new();
    let mut i: usize = 0;
    while i < bytes.len()
        invariant
            i <= bytes@.len(),
            s@ == hex_of(bytes@.take(i as int)),
        decreases bytes@.len() - i,
    {
        let b: u8 = bytes[i];
        s.push(hex_digit((b / 16) as u32));
        s.push(hex_digit((b % 16) as u32));
        assert(bytes@.take(i + 1).drop_last() =~= bytes@.take(i as int));
        assert(s@ =~= hex_of(bytes@.take(i + 1)));
        i = i + 1;
    }
    assert(bytes@.take(i as int) =~= bytes@);
    s
}

/// Two byte sequences with the same hexadecimal text are the same.
pub proof fn law_hex_injective(a: Seq<u8>, b: Seq<u8>)
    requires
        hex_of(a) == hex_of(b),
    ensures
        a == b,
    decreases a.len(),
{
    lemma_hex_len(a);
    lemma_hex_len(b);
    if a.len() > 0 {
        let x = hex_of(a);
        let n = x.len();
        assert(hex_of(a.drop_last()) =~= x.take(n - 2));
        assert(hex_of(b.drop_last()) =~= x.take(n - 2));
        law_hex_injective(a.drop_last(), b.drop_last());
        assert(x[n - 2] == hex_char(a.last() as int / 16));
        assert(x[n - 2] == hex_char(b.last() as int / 16));
        assert(x[n - 1] == hex_char(a.last() as int % 16));
        assert(x[n - 1] == hex_char(b.last() as int % 16));
        lemma_hex_char(a.last() as int / 16, b.last() as int / 16);
        lemma_hex_char(a.last() as int % 16, b.last() as int % 16);
        assert(a =~= a.drop_last().push(a.last()));
        assert(b =~= b.drop_last().push(b.last()));
    } else {
        assert(a =~= b);
    }
}

proof fn lemma_hex_char(c: int, d: int)
    requires
        0 <= c < 16,
        0 <= d < 16,
        hex_char(c) == hex_char(d),
    ensures
        c == d,
{
    assert((48 + c) as char as int == 48 + c);
    assert((48 + d) as char as int == 48 + d);
    assert((87 + c) as char as int == 87 + c);
    assert((87 + d) as char as int == 87 + d);
}

proof fn lemma_hex_len(a: Seq<u8>)
    ensures
        hex_of(a).len() == 2 * a.len(),
    decreases a.len(),
{
    if a.len() > 0 {
        lemma_hex_len(a.drop_last());
    }
}

/// The pieces of `s` between occurrences of `sep`. There is always one.
pub open spec fn split_text(s: Seq<char>, sep: char) -> Seq<Seq<char>>
    decreases s.len(),
{
    if s.len() == 0 {
        seq![Seq::empty()]
    } else {
        let before = split_text(s.drop_last(), sep);
        if s.last() == sep {
            before.push(Seq::empty())
        } else {
            before.drop_last().push(before.last().push(s.last()))
        }
    }
}

proof fn lemma_split_not_empty(s: Seq<char>, sep: char)
    ensures
        split_text(s, sep).len() >= 1,
    decreases s.len(),
{
    if s.len() > 0 {
        lemma_split_not_empty(s.drop_last(), sep);
    }
}

/// Text without the separator is one piece.
pub proof fn lemma_split_single(s: Seq<char>, sep: char)
    requires
        !s.contains(sep),
    ensures
        split_text(s, sep) == seq![s],
    decreases s.len(),
{
    if s.len() > 0 {
        let rest = s.drop_last();
        assert forall|i: int| 0 <= i < rest.len() implies rest[i] != sep by {
            assert(rest[i] == s[i]);
        }
        assert(s.last() == s[s.len() - 1]);
        lemma_split_single(rest, sep);
        assert(rest.push(s.last()) =~= s);
        assert(split_text(s, sep) =~= seq![s]);
    } else {
        assert(s =~= Seq::empty());
    }
}

/// Text without the separator that follows a separator is one more piece.
pub proof fn lemma_split_push(a: Seq<char>, b: Seq<char>, sep: char)
    requires
        !b.contains(sep),
    ensures
        split_text(a.push(sep) + b, sep) == split_text(a, sep).push(b),
    decreases b.len(),
{
    let s = a.push(sep) + b;
    if b.len() == 0 {
        assert(s.drop_last() =~= a);
        assert(b =~= Seq::empty());
    } else {
        let rest = b.drop_last();
        assert forall|i: int| 0 <= i < rest.len() implies rest[i] != sep by {
            assert(rest[i] == b[i]);
        }
        assert(b.last() == b[b.len() - 1]);
        lemma_split_push(a, rest, sep);
        assert(s.drop_last() =~= a.push(sep) + rest);
        let before = split_text(a, sep);
        assert(before.push(rest).drop_last() =~= before);
        assert(rest.push(b.last()) =~= b);
        assert(s.last() == b.last());
    }
}

/// The pieces of `s` between occurrences of `sep`.
pub fn split(s: &str, sep: char) -> (parts: Vec<String>)
    ensures
        parts@.map_values(|p: String| p@) == split_text(s@, sep),
{
    let chars = to_chars(s);
    let mut done: Vec<String> = Vec::new();
    let mut part = String::new();
    let mut i: usize = 0;
    assert(chars@.take(0) =~= Seq::empty());
    assert(done@.map_values(|p: String| p@).push(part@) =~= split_text(chars@.take(0), sep));
    while i < chars.len()
        invariant
            i <= chars@.len(),
            chars@ == s@,
            done@.map_values(|p: String| p@).push(part@) == split_text(chars@.take(i as int), sep),
        decreases chars@.len() - i,
    {
        let ghost before = split_text(chars@.take(i as int), sep);
        let ghost listed = done@.map_values(|p: String| p@);
        let c = chars[i];
        assert(chars@.take(i + 1).drop_last() =~= chars@.take(i as int));
        if c == sep {
            let ghost old_part = part@;
            done.push(part);
            part = String::new();
            assert(done@.map_values(|p: String| p@) =~= listed.push(old_part));
        } else {
            assert(before.drop_last() =~= listed);
            part.push(c);
        }
        i = i + 1;
    }
    assert(chars@.take(i as int) =~= s@);
    let ghost listed = done@.map_values(|p: String| p@);
    let ghost last = part@;
    done.push(part);
    assert(done@.map_values(|p: String| p@) =~= listed.push(last));
    done
}

/// Whether `c` is a decimal digit.
pub open spec fn is_digit(c: char) -> bool {
    '0' <= c && c <= '9'
}

/// The number that the first `n` characters make if they are digits and it is
/// at most `max`; else what is wrong with the first character that does not fit.
pub open spec fn prefix_number(s: Seq<char>, n: int, max: int) -> Result<int, Seq<char>>
    decreases n,
{
    if n <= 0 {
        Ok(0)
    } else {
        match prefix_number(s, n - 1, max) {
            Err(e) => Err(e),
            Ok(v) => if !is_digit(s[n - 1]) {
                Err("invalid digit found in string"@)
            } else if v * 10 + (s[n - 1] as int - '0' as int) > max {
                Err("number too large to fit in target type"@)
            } else {
                Ok(v * 10 + (s[n - 1] as int - '0' as int))
            },
        }
    }
}

/// The number that `s` writes in decimal, perhaps after a plus sign, if it is at
/// most `max`; else what is wrong with the text.
pub open spec fn number_of(s: Seq<char>, max: int) -> Result<int, Seq<char>> {
    if s.len() == 0 {
        Err("cannot parse integer from empty string"@)
    } else if s.len() > 1 && s[0] == '+' {
        prefix_number(s.skip(1), s.len() - 1, max)
    } else {
        prefix_number(s, s.len() as int, max)
    }
}

/// The number that `text` writes in decimal, perhaps after a plus sign.
pub fn parse_number(text: &str, max: u64) -> (r: Result<u64, String>)
    ensures
        match r {
            Ok(n) => number_of(text@, max as int) == Ok::<int, Seq<char>>(n as int),
            Err(m) => number_of(text@, max as int) == Err::<int, Seq<char>>(m@),
        },
{
    let chars = to_chars(text);
    if chars.len() == 0 {
        return Err("cannot parse integer from empty string".to_owned());
    }
    let start: usize = if chars.len() > 1 && chars[0] == '+' {
        1
    } else {
        0
    };
    let ghost s = chars@.skip(start as int);
    assert(start == 0 ==> s =~= chars@);
    let mut n: u64 = 0;
    let mut i: usize = start;
    while i < chars.len()
        invariant
            start <= i <= chars@.len(),
            start <= 1,
            chars@ == text@,
            s == chars@.skip(start as int),
            chars@.len() > 0,
            start == 1 <==> (chars@.len() > 1 && chars@[0] == '+'),
            start == 0 ==> s == chars@,
            n <= max,
            prefix_number(s, i - start, max as int) == Ok::<int, Seq<char>>(n as int),
        decreases chars@.len() - i,
    {
        let c = chars[i];
        proof {
            assert(s[i - start] == c);
            lemma_prefix_error(s, i - start + 1, s.len() as int, max as int);
        }
        if c < '0' || c > '9' {
            return Err("invalid digit found in string".to_owned());
        }
        let d: u64 = digit_value(c);
        let wide: u128 = n as u128 * 10 + d as u128;
        if wide > max as u128 {
            return Err("number too large to fit in target type".to_owned());
        }
        n = wide as u64;
        i = i + 1;
    }
    Ok(n)
}

fn digit_value(c: char) -> (d: u64)
    requires
        is_digit(c),
    ensures
        d == c as int - '0' as int,
        d < 10,
{
    (c as u32 - 48) as u64
}

/// What is wrong with a prefix is wrong with the text.
proof fn lemma_prefix_error(s: Seq<char>, k: int, n: int, max: int)
    requires
        0 <= k <= n,
    ensures
        prefix_number(s, k, max) is Err ==> prefix_number(s, n, max) == prefix_number(s, k, max),
    decreases n - k,
{
    if k < n {
        lemma_prefix_error(s, k, n - 1, max);
    }
}

/// A number in decimal is made of digits, at least one, and writes the number.
pub proof fn lemma_decimal_number(n: nat, max: int)
    requires
        n <= max,
    ensures
        decimal(n).len() > 0,
        forall|i: int| 0 <= i < decimal(n).len() ==> is_digit(#[trigger] decimal(n)[i]),
        prefix_number(decimal(n), decimal(n).len() as int, max) == Ok::<int, Seq<char>>(n as int),
        number_of(decimal(n), max) == Ok::<int, Seq<char>>(n as int),
    decreases n,
{
    let s = decimal(n);
    let d = (n % 10) as int;
    assert(digit_char(d) as int == 48 + d);
    assert(is_digit(digit_char(d)));
    if n < 10 {
        assert(s.len() == 1);
        assert(prefix_number(s, 0, max) == Ok::<int, Seq<char>>(0));
    } else {
        let before = decimal(n / 10);
        lemma_decimal_number(n / 10, max);
        lemma_prefix_same(before, s, before.len() as int, max);
        assert(s.last() == digit_char(d));
    }
    assert(is_digit(s[0]));
}

/// The number that a prefix makes depends on the prefix alone.
proof fn lemma_prefix_same(a: Seq<char>, b: Seq<char>, n: int, max: int)
    requires
        n <= a.len(),
        n <= b.len(),
        forall|i: int| 0 <= i < n ==> a[i] == b[i],
    ensures
        prefix_number(a, n, max) == prefix_number(b, n, max),
    decreases n,
{
    if n > 0 {
        lemma_prefix_same(a, b, n - 1, max);
    }
}

/// A text as the standard library's `Debug` shows it: in quotes, with escapes.
pub uninterp spec fn debug_form(text: Seq<char>) -> Seq<char>;

/// `Debug` of the standard library on a text: a function of the text alone.
#[verifier::external_body]
pub(crate) fn debug_text(text: &str) -> (r: String)
    ensures
        r@ == debug_form(text@),
{
    format!("{:?}", text)
}

/// `n` zeros.
pub open spec fn zeros(n: int) -> Seq<char> {
    Seq::new(
        if n > 0 {
            n as nat
        } else {
            0
        },
        |i: int| '0',
    )
}

/// Append `n` zeros.
pub fn push_zeros(out: &mut String, n: usize)
    ensures
        final(out)@ == old(out)@ + zeros(n as int),
{
    let ghost start = out@;
    let mut i: usize = 0;
    while i < n
        invariant
            i <= n,
            out@ == start + zeros(i as int),
        decreases n - i,
    {
        out.push('0');
        assert(zeros(i + 1) =~= zeros(i as int).push('0'));
        i = i + 1;
    }
    assert(out@ =~= start + zeros(n as int));
}

/// `n` in decimal with zeros before it up to `width` digits.
pub open spec fn padded(n: nat, width: int) -> Seq<char> {
    zeros(width - decimal(n).len()) + decimal(n)
}

/// Append `n` in decimal with zeros before it up to `width` digits.
pub fn push_padded(out: &mut String, n: u64, width: usize)
    ensures
        final(out)@ == old(out)@ + padded(n as nat, width as int),
{
    let ghost start = out@;
    let digits: usize = count_digits(n);
    if digits < width {
        push_zeros(out, width - digits);
    } else {
        assert(zeros(width - decimal(n as nat).len()) =~= Seq::empty());
    }
    push_decimal(out, n);
    assert(out@ =~= start + padded(n as nat, width as int));
}

/// The number of decimal digits of `n`.
fn count_digits(n: u64) -> (d: usize)
    ensures
        d == decimal(n as nat).len(),
        d <= 20,
{
    proof {
        reveal_with_fuel(pow10, 21);
        lemma_decimal_len(n as nat, 20, 100_000_000_000_000_000_000);
    }
    let mut rest: u64 = n;
    let mut d: usize = 1;
    while rest >= 10
        invariant
            d - 1 + decimal(rest as nat).len() == decimal(n as nat).len(),
            decimal(n as nat).len() <= 20,
            1 <= d,
        decreases rest,
    {
        proof {
            reveal_with_fuel(pow10, 21);
            lemma_decimal_len(rest as nat / 10, 20, 100_000_000_000_000_000_000);
        }
        rest = rest / 10;
        d = d + 1;
    }
    d
}

/// A number below a power of ten has at most as many digits as its exponent.
proof fn lemma_decimal_len(n: nat, k: nat, bound: nat)
    requires
        n < bound,
        bound == pow10(k),
        k >= 1,
    ensures
        1 <= decimal(n).len() <= k,
    decreases k,
{
    if n >= 10 {
        if k == 1 {
            assert(pow10(1) == 10 * pow10(0));
        }
        lemma_decimal_len(n / 10, (k - 1) as nat, pow10((k - 1) as nat));
    }
}

spec fn pow10(k: nat) -> nat
    decreases k,
{
    if k == 0 {
        1
    } else {
        10 * pow10((k - 1) as nat)
    }
}

/// The texts of a list with `sep` between them.
pub open spec fn joined(list: Seq<Seq<char>>, sep: Seq<char>) -> Seq<char>
    decreases list.len(),
{
    if list.len() == 0 {
        Seq::empty()
    } else if list.len() == 1 {
        list[0]
    } else {
        joined(list.drop_last(), sep) + sep + list.last()
    }
}

/// The texts of a list with `sep` between them.
pub fn join(list: &Vec<String>, sep: &str) -> (s: String)
    ensures
        s@ == joined(list@.map_values(|p: String| p@), sep@),
{
    let ghost views = list@.map_values(|p: String| p@);
    let mut s = String::new();
    let mut i: usize = 0;
    while i < list.len()
        invariant
            i <= list@.len(),
            views == list@.map_values(|p: String| p@),
            s@ == joined(views.take(i as int), sep@),
        decreases list@.len() - i,
    {
        let ghost now = views.take(i + 1);
        assert(now.drop_last() =~= views.take(i as int));
        if i > 0 {
            s.append(sep);
        }
        s.append(list[i].as_str());
        assert(s@ =~= joined(now, sep@));
        i = i + 1;
    }
    assert(views.take(i as int) =~= views);
    s
}

/// The last `width` hexadecimal digits of `n`.
pub open spec fn hex_number(n: nat, width: nat) -> Seq<char>
    decreases width,
{
    if width == 0 {
        Seq::empty()
    } else {
        hex_number(n / 16, (width - 1) as nat).push(hex_char((n % 16) as int))
    }
}

/// Append the last `width` hexadecimal digits of `n`.
pub fn push_hex(out: &mut String, n: u64, width: u32)
    ensures
        final(out)@ == old(out)@ + hex_number(n as nat, width as nat),
    decreases width,
{
    let ghost start = out@;
    if width > 0 {
        push_hex(out, n / 16, width - 1);
        out.push(hex_digit((n % 16) as u32));
    }
    assert(out@ =~= start + hex_number(n as nat, width as nat));
}

} // verus!
