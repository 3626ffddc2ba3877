//! Rows in canonical form, one on each line.
use crate::bench::canonical::{
    escaped_char, escaped_chars, items_text, json_text, members_text, name_order, quoted,
    unicode_escape,
};
use crate::bench::fields::{is_blank, is_white, trimmed};
use crate::bench::json::{restorable, JsonView};
use crate::text::{decimal, hex_char, lemma_split_push, lemma_split_single, split_text};
use vstd::prelude::*;
use vstd::string::*;

verus! {

/// Whether a text fills a line by itself: it does not break, and neither begins nor
/// ends with white space.
pub open spec fn neat(s: Seq<char>) -> bool {
    &&& s.len() > 0
    &&& !is_white(s[0])
    &&& !is_white(s.last())
    &&& unbroken(s)
}

/// Whether there is no line break in a text.
pub open spec fn unbroken(s: Seq<char>) -> bool {
    forall|i: int| 0 <= i < s.len() ==> #[trigger] s[i] != '\n'
}

proof fn lemma_unbroken_join(a: Seq<char>, b: Seq<char>)
    requires
        unbroken(a),
        unbroken(b),
    ensures
        unbroken(a + b),
{
    assert forall|i: int| 0 <= i < (a + b).len() implies #[trigger] (a + b)[i] != '\n' by {
        if i < a.len() {
            assert((a + b)[i] == a[i]);
        } else {
            assert((a + b)[i] == b[i - a.len()]);
        }
    }
}

proof fn lemma_decimal_neat(n: nat)
    ensures
        neat(decimal(n)),
        forall|i: int| 0 <= i < decimal(n).len() ==> '0' <= #[trigger] decimal(n)[i] <= '9',
    decreases n,
{
    if n >= 10 {
        lemma_decimal_neat(n / 10);
    }
}

proof fn lemma_escape_unbroken(code: int)
    requires
        0 <= code <= 0xFFFF,
    ensures
        unbroken(unicode_escape(code)),
{
    assert(0 <= code / 4096 < 16 && 0 <= (code / 256) % 16 < 16 && 0 <= (code / 16) % 16 < 16 && 0
        <= code % 16 < 16);
    assert forall|d: int| 0 <= d < 16 implies #[trigger] hex_char(d) != '\n' by {
    }
}

proof fn lemma_char_unbroken(c: char)
    ensures
        unbroken(escaped_char(c)),
{
    let code = c as int;
    if code < 32 {
        if 0 <= code {
            lemma_escape_unbroken(code);
        }
    } else if code >= 128 {
        if code <= 0xFFFF {
            lemma_escape_unbroken(code);
        } else {
            lemma_escape_unbroken(0xD800 + (code - 0x10000) / 1024);
            lemma_escape_unbroken(0xDC00 + (code - 0x10000) % 1024);
            lemma_unbroken_join(
                unicode_escape(0xD800 + (code - 0x10000) / 1024),
                unicode_escape(0xDC00 + (code - 0x10000) % 1024),
            );
        }
    }
}

proof fn lemma_chars_unbroken(s: Seq<char>)
    ensures
        unbroken(escaped_chars(s)),
    decreases s.len(),
{
    if s.len() > 0 {
        lemma_chars_unbroken(s.drop_last());
        lemma_char_unbroken(s.last());
        lemma_unbroken_join(escaped_chars(s.drop_last()), escaped_char(s.last()));
    }
}

proof fn lemma_quoted_neat(s: Seq<char>)
    ensures
        neat(quoted(s)),
{
    lemma_chars_unbroken(s);
    lemma_unbroken_join(seq!['"'], escaped_chars(s));
    lemma_unbroken_join(seq!['"'] + escaped_chars(s), seq!['"']);
    assert(quoted(s)[0] == '"');
    assert(quoted(s).last() == '"');
}

proof fn lemma_framed_neat(open: char, inside: Seq<char>, close: char)
    requires
        unbroken(inside),
        !is_white(open),
        !is_white(close),
    ensures
        neat(seq![open] + inside + seq![close]),
{
    let s = seq![open] + inside + seq![close];
    assert('\n' as int == 10);
    lemma_unbroken_join(seq![open], inside);
    lemma_unbroken_join(seq![open] + inside, seq![close]);
    assert(s[0] == open);
    assert(s.last() == close);
}

/// The canonical text of a value that can be restored fills a line by itself.
pub proof fn lemma_json_neat(v: JsonView, room: nat)
    requires
        restorable(v, room),
    ensures
        neat(json_text(v)),
    decreases room, 1nat, 0nat,
{
    match v {
        JsonView::Null => {
            reveal_strlit("null");
        },
        JsonView::Bool(_) => {
            reveal_strlit("true");
            reveal_strlit("false");
        },
        JsonView::Unsigned(n) => {
            lemma_decimal_neat(n as nat);
        },
        JsonView::Negative(n) => {
            lemma_decimal_neat((-n) as nat);
            let d = decimal((-n) as nat);
            lemma_unbroken_join(seq!['-'], d);
            assert((seq!['-'] + d)[0] == '-');
            assert((seq!['-'] + d).last() == d.last());
        },
        JsonView::Float(_) => {},
        JsonView::Text(s) => {
            lemma_quoted_neat(s);
        },
        JsonView::Array(items) => {
            lemma_items_unbroken(items, room, items.len());
            lemma_framed_neat('[', items_text(items, items.len()), ']');
        },
        JsonView::Object(members) => {
            let order = name_order(members, members.len() as int);
            lemma_members_unbroken(members, order, room, members.len());
            lemma_framed_neat('{', members_text(members, order, members.len()), '}');
        },
    }
}

proof fn lemma_items_unbroken(items: Seq<JsonView>, room: nat, n: nat)
    requires
        restorable(JsonView::Array(items), room),
        n <= items.len(),
    ensures
        unbroken(items_text(items, n)),
    decreases room, 0nat, n,
{
    if n > 0 {
        lemma_items_unbroken(items, room, (n - 1) as nat);
        assert(JsonView::Array(items)->Array_0 == items);
        assert(forall|i: int|
            0 <= i < items.len() ==> restorable(#[trigger] items[i], (room - 1) as nat));
        lemma_json_neat(items[n - 1], (room - 1) as nat);
        let before = items_text(items, (n - 1) as nat);
        let comma = if n > 1 {
            seq![',']
        } else {
            Seq::<char>::empty()
        };
        lemma_unbroken_join(before, comma);
        lemma_unbroken_join(before + comma, json_text(items[n - 1]));
    }
}

proof fn lemma_members_unbroken(
    members: Seq<(Seq<char>, JsonView)>,
    order: Seq<int>,
    room: nat,
    n: nat,
)
    requires
        restorable(JsonView::Object(members), room),
    ensures
        unbroken(members_text(members, order, n)),
    decreases room, 0nat, n,
{
    if n > 0 {
        lemma_members_unbroken(members, order, room, (n - 1) as nat);
        let place = order[n - 1];
        let before = members_text(members, order, (n - 1) as nat);
        let comma = if n > 1 {
            seq![',']
        } else {
            Seq::<char>::empty()
        };
        let last = if 0 <= place < members.len() {
            quoted(members[place].0) + seq![':'] + json_text(members[place].1)
        } else {
            Seq::<char>::empty()
        };
        if 0 <= place < members.len() {
            assert(JsonView::Object(members)->Object_0 == members);
            assert(forall|i: int|
                0 <= i < members.len() ==> restorable(
                    (#[trigger] members[i]).1,
                    (room - 1) as nat,
                ));
            lemma_json_neat(members[place].1, (room - 1) as nat);
            lemma_quoted_neat(members[place].0);
            lemma_unbroken_join(quoted(members[place].0), seq![':']);
            lemma_unbroken_join(
                quoted(members[place].0) + seq![':'],
                json_text(members[place].1),
            );
        }
        lemma_unbroken_join(before, comma);
        lemma_unbroken_join(before + comma, last);
    }
}

/// The rows in canonical form, each with a line end after it.
pub open spec fn journal(rows: Seq<JsonView>) -> Seq<char>
    decreases rows.len(),
{
    if rows.len() == 0 {
        Seq::empty()
    } else {
        (journal(rows.drop_last()) + json_text(rows.last())).push('\n')
    }
}

/// The lines of a journal: one for each row, and an empty one at the end.
pub open spec fn journal_lines(rows: Seq<JsonView>) -> Seq<Seq<char>> {
    rows.map_values(|v: JsonView| json_text(v)).push(Seq::empty())
}

/// Whether each of the rows can be restored.
pub open spec fn all_restorable(rows: Seq<JsonView>) -> bool {
    forall|i: int| 0 <= i < rows.len() ==> restorable(#[trigger] rows[i], 127)
}

/// A journal breaks into the texts of its rows.
pub proof fn lemma_journal_lines(rows: Seq<JsonView>)
    requires
        all_restorable(rows),
    ensures
        split_text(journal(rows), '\n') == journal_lines(rows),
    decreases rows.len(),
{
    let texts = rows.map_values(|v: JsonView| json_text(v));
    if rows.len() == 0 {
        assert(split_text(journal(rows), '\n') =~= journal_lines(rows));
    } else {
        let rest = rows.drop_last();
        assert forall|i: int| 0 <= i < rest.len() implies restorable(#[trigger] rest[i], 127) by {
            assert(rest[i] == rows[i]);
        }
        lemma_journal_lines(rest);
        assert(restorable(rows[rows.len() - 1], 127));
        lemma_json_neat(rows.last(), 127);
        let t = json_text(rows.last());
        let before = journal(rest);
        assert(!t.contains('\n'));
        // The journal so far ends with a line break, or it is empty.
        if rest.len() == 0 {
            assert(before + t =~= t);
            lemma_split_single(t, '\n');
            assert(split_text(before + t, '\n') =~= texts);
        } else {
            let a = before.drop_last();
            assert(before =~= a.push('\n'));
            lemma_split_push(a, t, '\n');
            assert(split_text(before, '\n') == split_text(a, '\n').push(Seq::empty())) by {
                assert(before.drop_last() =~= a);
                assert(before.last() == '\n');
            }
            let earlier = rest.map_values(|v: JsonView| json_text(v));
            assert(split_text(a, '\n').push(Seq::empty()) == earlier.push(Seq::<char>::empty()));
            assert(split_text(a, '\n') =~= earlier) by {
                assert(split_text(a, '\n').push(Seq::empty()).drop_last() =~= split_text(a, '\n'));
                assert(earlier.push(Seq::<char>::empty()).drop_last() =~= earlier);
            }
            assert(earlier.push(t) =~= texts);
        }
        let whole = (before + t).push('\n');
        assert(whole.drop_last() =~= before + t);
        assert(whole.last() == '\n');
        assert(split_text(whole, '\n') == texts.push(Seq::<char>::empty()));
    }
}

/// A text that fills a line is not blank, and trimming leaves it alone.
pub proof fn lemma_neat_trimmed(s: Seq<char>)
    requires
        neat(s),
    ensures
        !is_blank(s),
        trimmed(s) == s,
{
    assert(!is_white(s[0]));
}

} // verus!
