//! The solved positions of a book with their optimal actions.
use crate::bench::actions::{lemma_mask_ops, mask_bit};
use crate::bench::canonical::{
    lemma_text_le_total, lemma_text_le_transitive, text_at_most, text_le,
};
use crate::bench::fields::{concat, concat3};
use crate::bench::hashing::{sha256, sha256_hex};
use crate::constants::{FLAG_CANON, VERSION};
use crate::sorting::{goes_before, in_order, lemma_same_order, lists_places, sort_places};
use crate::text::{
    decimal, decimal_text, hex_digit, hex_number, hex_of, push_decimal, push_hex, to_chars,
};
use vstd::prelude::*;
use vstd::string::*;

verus! {

/// A best move of a position, as a book stores it.
#[derive(Debug)]
pub struct MoveRow {
    pub key: Vec<u8>,
    pub shape: i64,
    pub position: i64,
}

/// A position, as a book stores it: `solved` is zero for the others.
#[derive(Debug)]
pub struct BookRow {
    pub key: Vec<u8>,
    pub solved: i64,
    pub value: Option<i64>,
}

/// A solved position: its key, its value for the side to move, and the mask of its
/// optimal actions.
#[derive(Clone, Debug)]
pub struct ProbeRecord {
    pub key: [u8; 18],
    pub game_value: i8,
    pub optimal_actions: u64,
}

/// A whole number in decimal.
pub open spec fn signed(n: int) -> Seq<char> {
    if n < 0 {
        seq!['-'] + decimal((-n) as nat)
    } else {
        decimal(n as nat)
    }
}

fn push_signed(out: &mut String, n: i64)
    ensures
        final(out)@ == old(out)@ + signed(n as int),
{
    if n >= 0 {
        push_decimal(out, n as u64);
    } else {
        let ghost start = out@;
        let magnitude: u64 = if n == i64::MIN {
            9_223_372_036_854_775_808
        } else {
            (-n) as u64
        };
        out.push('-');
        push_decimal(out, magnitude);
        assert(out@ =~= start + signed(n as int));
    }
}

/// Whether a row names a shape and a cell.
pub open spec fn row_in_range(r: MoveRow) -> bool {
    0 <= r.shape < 4 && 0 <= r.position < 16
}

/// What is wrong with the best moves: the first row that names no action.
pub open spec fn moves_complaint(rows: Seq<MoveRow>, n: int) -> Option<Seq<char>>
    decreases n,
{
    if n <= 0 {
        None
    } else {
        match moves_complaint(rows, n - 1) {
            Some(m) => Some(m),
            None => if row_in_range(rows[n - 1]) {
                None
            } else {
                Some(
                    "best_moves row out of range: ("@ + signed(rows[n - 1].shape as int) + ", "@
                        + signed(rows[n - 1].position as int) + ")"@,
                )
            },
        }
    }
}

/// Whether a row lists action `a` for the key.
pub open spec fn lists_action(rows: Seq<MoveRow>, key: Seq<u8>, a: int) -> bool {
    exists|i: int|
        0 <= i < rows.len() && (#[trigger] rows[i]).key@ == key && rows[i].shape * 16
            + rows[i].position == a
}

fn check_moves(rows: &Vec<MoveRow>) -> (r: Result<(), String>)
    ensures
        match (r, moves_complaint(rows@, rows@.len() as int)) {
            (Ok(_), None) => forall|i: int|
                0 <= i < rows@.len() ==> row_in_range(#[trigger] rows@[i]),
            (Err(m), Some(e)) => m@ == e,
            _ => false,
        },
{
    let mut i: usize = 0;
    while i < rows.len()
        invariant
            i <= rows@.len(),
            moves_complaint(rows@, i as int) is None,
            forall|k: int| 0 <= k < i ==> row_in_range(#[trigger] rows@[k]),
        decreases rows@.len() - i,
    {
        let row = &rows[i];
        if !(0 <= row.shape && row.shape < 4 && 0 <= row.position && row.position < 16) {
            let mut m = "best_moves row out of range: (".to_owned();
            push_signed(&mut m, row.shape);
            m.append(", ");
            push_signed(&mut m, row.position);
            m.append(")");
            proof {
                lemma_moves_complaint(rows@, i + 1, rows@.len() as int);
            }
            return Err(m);
        }
        i = i + 1;
    }
    Ok(())
}

proof fn lemma_moves_complaint(rows: Seq<MoveRow>, n: int, m: int)
    requires
        0 <= n <= m,
        moves_complaint(rows, n) is Some,
    ensures
        moves_complaint(rows, m) == moves_complaint(rows, n),
    decreases m - n,
{
    if n < m {
        lemma_moves_complaint(rows, n, m - 1);
    }
}

fn same_bytes(a: &Vec<u8>, b: &Vec<u8>) -> (r: bool)
    ensures
        r <==> a@ == b@,
{
    if a.len() != b.len() {
        return false;
    }
    let mut i: usize = 0;
    while i < a.len()
        invariant
            i <= a@.len() == b@.len(),
            forall|k: int| 0 <= k < i ==> #[trigger] a@[k] == b@[k],
        decreases a@.len() - i,
    {
        if a[i] != b[i] {
            return false;
        }
        i = i + 1;
    }
    assert(a@ =~= b@);
    true
}

/// The mask of the actions that the rows list for a key.
fn actions_for(rows: &Vec<MoveRow>, key: &Vec<u8>) -> (mask: u64)
    requires
        forall|i: int| 0 <= i < rows@.len() ==> row_in_range(#[trigger] rows@[i]),
    ensures
        forall|a: int|
            0 <= a < 64 ==> (#[trigger] mask_bit(mask, a) <==> lists_action(rows@, key@, a)),
{
    let mut mask: u64 = 0;
    let mut i: usize = 0;
    proof {
        assert forall|a: int| 0 <= a < 64 implies !#[trigger] mask_bit(0, a) by {
            lemma_mask_ops(0, a as u64, 0);
        }
    }
    while i < rows.len()
        invariant
            i <= rows@.len(),
            forall|i: int| 0 <= i < rows@.len() ==> row_in_range(#[trigger] rows@[i]),
            forall|a: int|
                0 <= a < 64 ==> (#[trigger] mask_bit(mask, a) <==> lists_action(
                    rows@.take(i as int),
                    key@,
                    a,
                )),
        decreases rows@.len() - i,
    {
        let ghost before = mask;
        let ghost part = rows@.take(i as int);
        let ghost next = rows@.take(i + 1);
        assert(row_in_range(rows@[i as int]));
        let action: u64 = (rows[i].shape * 16 + rows[i].position) as u64;
        let here: bool = same_bytes(&rows[i].key, key);
        if here {
            mask = mask | (1u64 << action);
        }
        proof {
            assert forall|a: int| 0 <= a < 64 implies (#[trigger] mask_bit(mask, a) <==> lists_action(
                next,
                key@,
                a,
            )) by {
                lemma_mask_ops(before, a as u64, action);
                assert(mask_bit(before, a) <==> lists_action(part, key@, a));
                if lists_action(part, key@, a) {
                    let k = choose|k: int|
                        0 <= k < part.len() && (#[trigger] part[k]).key@ == key@ && part[k].shape
                            * 16 + part[k].position == a;
                    assert(next[k] == part[k]);
                }
                if here && a == action {
                    assert(next[i as int].key@ == key@);
                }
                if lists_action(next, key@, a) {
                    let k = choose|k: int|
                        0 <= k < next.len() && (#[trigger] next[k]).key@ == key@ && next[k].shape
                            * 16 + next[k].position == a;
                    if k < i {
                        assert(part[k] == next[k]);
                    } else {
                        assert(next[k] == rows@[i as int]);
                    }
                }
            }
        }
        i = i + 1;
    }
    assert(rows@.take(i as int) =~= rows@);
    mask
}

/// What is wrong with a solved row.
pub open spec fn row_complaint(r: BookRow) -> Option<Seq<char>> {
    if r.key@.len() != 18 {
        Some("canonical_key of "@ + decimal(r.key@.len()) + " bytes, expected 18"@)
    } else if r.key@[0] != VERSION || r.key@[1] != FLAG_CANON {
        Some("canonical_key does not start with 0x01 0x02"@)
    } else {
        match r.value {
            None => Some("solved row with game_value None, expected -1 or 1"@),
            Some(v) => if v == 1 || v == -1 {
                None
            } else {
                Some(
                    "solved row with game_value Some("@ + signed(v as int)
                        + "), expected -1 or 1"@,
                )
            },
        }
    }
}

/// The solved rows among the first `n`, or what is wrong with the first that is not
/// in order.
pub open spec fn solved_rows(rows: Seq<BookRow>, n: int) -> Result<Seq<BookRow>, Seq<char>>
    decreases n,
{
    if n <= 0 {
        Ok(Seq::empty())
    } else {
        match solved_rows(rows, n - 1) {
            Err(e) => Err(e),
            Ok(before) => if rows[n - 1].solved == 0 {
                Ok(before)
            } else {
                match row_complaint(rows[n - 1]) {
                    Some(m) => Err(m),
                    None => Ok(before.push(rows[n - 1])),
                }
            },
        }
    }
}

proof fn lemma_solved_error(rows: Seq<BookRow>, n: int, m: int)
    requires
        0 <= n <= m,
        solved_rows(rows, n) is Err,
    ensures
        solved_rows(rows, m) == solved_rows(rows, n),
    decreases m - n,
{
    if n < m {
        lemma_solved_error(rows, n, m - 1);
    }
}

/// Whether a record stands for a solved row, with the actions that are listed for
/// its key.
pub open spec fn record_of(p: ProbeRecord, r: BookRow, moves: Seq<MoveRow>) -> bool {
    &&& p.key@ == r.key@
    &&& r.value == Some(p.game_value as i64)
    &&& forall|a: int|
        0 <= a < 64 ==> (#[trigger] mask_bit(p.optimal_actions, a) <==> lists_action(
            moves,
            r.key@,
            a,
        ))
}

fn check_row(row: &BookRow) -> (r: Result<i8, String>)
    ensures
        match (r, row_complaint(*row)) {
            (Ok(v), None) => row.value == Some(v as i64),
            (Err(m), Some(e)) => m@ == e,
            _ => false,
        },
{
    if row.key.len() != 18 {
        let length = decimal_text(row.key.len() as u64);
        return Err(concat3("canonical_key of ", length.as_str(), " bytes, expected 18"));
    }
    if row.key[0] != VERSION || row.key[1] != FLAG_CANON {
        return Err("canonical_key does not start with 0x01 0x02".to_owned());
    }
    match row.value {
        None => Err("solved row with game_value None, expected -1 or 1".to_owned()),
        Some(v) => {
            if v == 1 {
                Ok(1)
            } else if v == -1 {
                Ok(-1)
            } else {
                let mut m = "solved row with game_value Some(".to_owned();
                push_signed(&mut m, v);
                m.append("), expected -1 or 1");
                Err(m)
            }
        },
    }
}

fn key_array(key: &Vec<u8>) -> (r: [u8; 18])
    requires
        key@.len() == 18,
    ensures
        r@ == key@,
{
    let mut r: [u8; 18] = [0u8; 18];
    let mut i: usize = 0;
    while i < 18
        invariant
            i <= 18,
            key@.len() == 18,
            forall|k: int| 0 <= k < i ==> #[trigger] r@[k] == key@[k],
        decreases 18 - i,
    {
        r[i] = key[i];
        i = i + 1;
    }
    assert(r@ =~= key@);
    r
}

/// The records of the solved positions of a book, in the order of its rows, and the
/// number of rows that are not solved.
pub fn probe_records(moves: &Vec<MoveRow>, rows: &Vec<BookRow>) -> (r: Result<
    (Vec<ProbeRecord>, usize),
    String,
>)
    ensures
        match moves_complaint(moves@, moves@.len() as int) {
            Some(e) => r matches Err(m) && m@ == e,
            None => match (r, solved_rows(rows@, rows@.len() as int)) {
                (Ok((records, skipped)), Ok(solved)) => records@.len() == solved.len() && skipped
                    == rows@.len() - solved.len() && forall|i: int|
                    0 <= i < solved.len() ==> record_of(
                        #[trigger] records@[i],
                        solved[i],
                        moves@,
                    ),
                (Err(m), Err(e)) => m@ == e,
                _ => false,
            },
        },
{
    check_moves(moves)?;
    let mut records: Vec<ProbeRecord> = Vec::new();
    let mut skipped: usize = 0;
    let ghost mut solved: Seq<BookRow> = Seq::empty();
    let mut i: usize = 0;
    while i < rows.len()
        invariant
            i <= rows@.len(),
            moves_complaint(moves@, moves@.len() as int) is None,
            forall|k: int| 0 <= k < moves@.len() ==> row_in_range(#[trigger] moves@[k]),
            solved_rows(rows@, i as int) == Ok::<Seq<BookRow>, Seq<char>>(solved),
            records@.len() == solved.len(),
            skipped == i - solved.len(),
            forall|k: int|
                0 <= k < solved.len() ==> record_of(#[trigger] records@[k], solved[k], moves@),
        decreases rows@.len() - i,
    {
        if rows[i].solved == 0 {
            skipped = skipped + 1;
        } else {
            match check_row(&rows[i]) {
                Ok(value) => {
                    let record = ProbeRecord {
                        key: key_array(&rows[i].key),
                        game_value: value,
                        optimal_actions: actions_for(moves, &rows[i].key),
                    };
                    assert(record_of(record, rows@[i as int], moves@));
                    records.push(record);
                    proof {
                        solved = solved.push(rows@[i as int]);
                    }
                },
                Err(m) => {
                    proof {
                        lemma_solved_error(rows@, i + 1, rows@.len() as int);
                    }
                    return Err(m);
                },
            }
        }
        i = i + 1;
    }
    Ok((records, skipped))
}

/// The line of a record: its key in hexadecimal, its value in two places, and the mask of its
/// actions in sixteen hexadecimal digits.
pub open spec fn line_of(r: ProbeRecord) -> Seq<char> {
    hex_of(r.key@) + seq![' '] + (if signed(r.game_value as int).len() < 2 {
        seq![' ']
    } else {
        Seq::empty()
    }) + signed(r.game_value as int) + seq![' '] + hex_number(r.optimal_actions as nat, 16)
        + seq!['\n']
}

/// The line of a record.
pub fn record_line(r: &ProbeRecord) -> (line: String)
    ensures
        line@ == line_of(*r),
{
    let mut line = String::new();
    let mut i: usize = 0;
    assert(r.key@.take(0) =~= Seq::empty());
    assert(line@ =~= hex_of(r.key@.take(0)));
    while i < 18
        invariant
            i <= 18,
            line@ == hex_of(r.key@.take(i as int)),
        decreases 18 - i,
    {
        let ghost before = r.key@.take(i as int);
        line.push(hex_digit(r.key[i] as u32 / 16));
        line.push(hex_digit(r.key[i] as u32 % 16));
        proof {
            let next = r.key@.take(i + 1);
            assert(next.drop_last() =~= before);
            assert(next.last() == r.key@[i as int]);
            assert(line@ =~= hex_of(next));
        }
        i = i + 1;
    }
    assert(r.key@.take(18) =~= r.key@);
    let mut value = String::new();
    push_signed(&mut value, r.game_value as i64);
    assert(value@ =~= signed(r.game_value as int));
    line.push(' ');
    if to_chars(value.as_str()).len() < 2 {
        line.push(' ');
    }
    line.append(value.as_str());
    line.push(' ');
    push_hex(&mut line, r.optimal_actions, 16);
    line.push('\n');
    assert(line@ =~= line_of(*r));
    line
}

/// How the lines of the records are ordered: by their texts.
pub open spec fn line_order(records: Seq<ProbeRecord>) -> spec_fn(int, int) -> bool {
    |i: int, j: int| text_le(line_of(records[i]), line_of(records[j]))
}

/// The lines of the records at the first `n` places of `order`, one after the other.
pub open spec fn lines_at(records: Seq<ProbeRecord>, order: Seq<usize>, n: int) -> Seq<char>
    decreases n,
{
    if n <= 0 {
        Seq::empty()
    } else {
        lines_at(records, order, n - 1) + line_of(records[order[n - 1] as int])
    }
}

/// Whether `body` holds the lines of all the records in their order.
pub open spec fn is_body(records: Seq<ProbeRecord>, body: Seq<char>) -> bool {
    exists|order: Seq<usize>|
        {
            &&& lists_places(order, 0, records.len() as int)
            &&& #[trigger] in_order(order, line_order(records))
            &&& body == lines_at(records, order, records.len() as int)
        }
}

/// The lines of the records, sorted.
pub fn probe_body(records: &Vec<ProbeRecord>) -> (body: String)
    ensures
        is_body(records@, body@),
{
    let mut lines: Vec<String> = Vec::new();
    let mut i: usize = 0;
    while i < records.len()
        invariant
            i <= records@.len(),
            lines@.len() == i,
            forall|k: int| 0 <= k < i ==> (#[trigger] lines@[k])@ == line_of(records@[k]),
        decreases records@.len() - i,
    {
        lines.push(record_line(&records[i]));
        i = i + 1;
    }
    let n: usize = records.len();
    let ghost rel = line_order(records@);
    let le = |x: usize, y: usize| -> (r: bool)
        requires
            x < lines@.len(),
            y < lines@.len(),
        ensures
            r == text_le(lines@[x as int]@, lines@[y as int]@),
        { text_at_most(lines[x].as_str(), lines[y].as_str()) };
    proof {
        assert forall|x: int, y: int| 0 <= x < n && 0 <= y < n implies #[trigger] rel(x, y) || rel(
            y,
            x,
        ) by {
            lemma_text_le_total(line_of(records@[x]), line_of(records@[y]));
        }
        assert forall|x: int, y: int, z: int|
            0 <= x < n && 0 <= y < n && 0 <= z < n && #[trigger] rel(x, y) && #[trigger] rel(
                y,
                z,
            ) implies rel(x, z) by {
            lemma_text_le_transitive(
                line_of(records@[x]),
                line_of(records@[y]),
                line_of(records@[z]),
            );
        }
        assert forall|x: usize, y: usize, r: bool|
            x < n && y < n && #[trigger] call_ensures(le, (x, y), r) implies r == rel(
            x as int,
            y as int,
        ) by {
            assert(lines@[x as int]@ == line_of(records@[x as int]));
            assert(lines@[y as int]@ == line_of(records@[y as int]));
        }
    }
    let order = sort_places(n, &le, Ghost(rel));
    let mut body = String::new();
    let mut k: usize = 0;
    assert(body@ =~= Seq::empty());
    while k < order.len()
        invariant
            k <= order@.len(),
            order@.len() == records@.len(),
            lists_places(order@, 0, records@.len() as int),
            lines@.len() == records@.len(),
            forall|j: int|
                0 <= j < lines@.len() ==> (#[trigger] lines@[j])@ == line_of(records@[j]),
            body@ == lines_at(records@, order@, k as int),
        decreases order@.len() - k,
    {
        assert(order@[k as int] < records@.len());
        assert(lines@[order@[k as int] as int]@ == line_of(records@[order@[k as int] as int]));
        body.append(lines[order[k]].as_str());
        k = k + 1;
    }
    assert(in_order(order@, line_order(records@)));
    body
}

/// Records have one body.
pub proof fn law_one_body(records: Seq<ProbeRecord>, x: Seq<char>, y: Seq<char>)
    requires
        records.len() <= usize::MAX,
        is_body(records, x),
        is_body(records, y),
    ensures
        x == y,
{
    let rel = line_order(records);
    let n = records.len() as int;
    let p = choose|p: Seq<usize>|
        {
            &&& lists_places(p, 0, n)
            &&& #[trigger] in_order(p, line_order(records))
            &&& x == lines_at(records, p, n)
        };
    let q = choose|q: Seq<usize>|
        {
            &&& lists_places(q, 0, n)
            &&& #[trigger] in_order(q, line_order(records))
            &&& y == lines_at(records, q, n)
        };
    let before = |i: int, j: int| goes_before(rel, i, j);
    assert forall|i: int, j: int| 0 <= i < j < n implies before(
        #[trigger] p[i] as int,
        #[trigger] p[j] as int,
    ) by {
    }
    assert forall|i: int, j: int| 0 <= i < j < n implies before(
        #[trigger] q[i] as int,
        #[trigger] q[j] as int,
    ) by {
    }
    lemma_same_order(p, q, n, before);
}

/// The id of a book whose records have this body.
pub open spec fn id_of(body: Seq<char>) -> Seq<char> {
    "sha256:"@ + hex_of(sha256("quantik-probe-source-rows-v1"@ + body))
}

/// The text of a probe file: a header, then the body.
pub open spec fn text_of(
    book_id: Option<String>,
    contract_version: Seq<char>,
    skipped: usize,
    body: Seq<char>,
) -> Seq<char> {
    "book "@ + (match book_id {
        Some(id) => id@,
        None => id_of(body),
    }) + "\ncontract "@ + contract_version + "\ncomplete "@ + (if skipped == 0 {
        "true"@
    } else {
        "false"@
    }) + "\n"@ + body
}

/// The text of a probe file: a header that names the book, the contracts and whether every
/// row of the book was solved, then the lines of the records. Without an id the book is named
/// by its records.
pub fn probe_text(
    records: &Vec<ProbeRecord>,
    book_id: &Option<String>,
    contract_version: &str,
    skipped: usize,
) -> (text: String)
    ensures
        exists|body: Seq<char>| #[trigger]
            is_body(records@, body) && text@ == text_of(
                *book_id,
                contract_version@,
                skipped,
                body,
            ),
{
    let body = probe_body(records);
    let ghost shown = body@;
    let mut text = "book ".to_owned();
    match book_id {
        Some(id) => text.append(id.as_str()),
        None => {
            let digest = sha256_hex(
                concat("quantik-probe-source-rows-v1", body.as_str()).as_str(),
            );
            text.append("sha256:");
            text.append(digest.as_str());
        },
    }
    text.append("\ncontract ");
    text.append(contract_version);
    text.append("\ncomplete ");
    if skipped == 0 {
        text.append("true");
    } else {
        text.append("false");
    }
    text.append("\n");
    text.append(body.as_str());
    assert(text@ =~= text_of(*book_id, contract_version@, skipped, shown));
    assert(is_body(records@, shown));
    text
}

} // verus!
