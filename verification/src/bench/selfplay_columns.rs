//! Self-play rows stored column by column.
use crate::bench::actions::{action_legal, board_complaint, validate_bitboard_state};
use crate::bench::contracts::{SELFPLAY_CONTRACT_VERSION, SELFPLAY_SCHEMA};
use crate::bench::fields::{complain, concat4, either, is_blank, is_white, version_message};
use crate::bench::json::{lemma_member_at, JsonView};
use crate::bench::selfplay::{
    check_physical, dense_of, law_dense_sparse_round_trip, legality_complaint, lemma_sparse_below,
    outcome_view, parse_selfplay_row, physical_complaint, policy_field, policy_view, repeats,
    selfplay_complaint, selfplay_of, selfplay_record, selfplay_v1_row, side_complaint,
    sparse_below, sparse_policy, visit_of, visit_view, visits_complaint, visits_of,
    SelfPlayPolicyVisit, SelfPlayRow, SelfPlayView, is_ordered, dense_complaint,
};
use crate::bitboard::Bitboard;
use crate::qfen::{is_qfen, qfen_board, qfen_complaint, qfen_of};
use crate::state::State;
use crate::text::same_text;
use vstd::prelude::*;
use vstd::string::*;

verus! {

/// Self-play rows, column by column. `bitboards` holds eight entries for each
/// row and `policy_visits` sixty-four.
#[derive(Debug)]
pub struct SelfPlayColumns {
    pub logical_schema: Vec<String>,
    pub contract_version: Vec<String>,
    pub game_id: Vec<u64>,
    pub ply: Vec<u16>,
    pub side_to_move: Vec<u8>,
    pub bitboards: Vec<u16>,
    pub policy_visits: Vec<u32>,
    pub value: Vec<i8>,
    pub qfen: Vec<String>,
}

/// The complaint about the rows from the one at `i` on.
pub open spec fn rows_complaint(rows: Seq<SelfPlayRow>, i: int) -> Option<Seq<char>>
    decreases rows.len() - i,
{
    if i < 0 || i >= rows.len() {
        None
    } else {
        either(physical_complaint(rows[i].view()), rows_complaint(rows, i + 1))
    }
}

impl SelfPlayColumns {
    /// Whether the columns hold `n` rows.
    pub open spec fn holds(&self, n: int) -> bool {
        &&& self.logical_schema@.len() == n
        &&& self.contract_version@.len() == n
        &&& self.game_id@.len() == n
        &&& self.ply@.len() == n
        &&& self.side_to_move@.len() == n
        &&& self.bitboards@.len() == 8 * n
        &&& self.policy_visits@.len() == 64 * n
        &&& self.value@.len() == n
        &&& self.qfen@.len() == n
    }

    /// Whether the entries at `k` are those of the row `w`.
    pub open spec fn entry_of(&self, k: int, w: SelfPlayView) -> bool {
        &&& self.logical_schema@[k]@ == SELFPLAY_SCHEMA@
        &&& self.contract_version@[k]@ == SELFPLAY_CONTRACT_VERSION@
        &&& self.game_id@[k] == w.game_id
        &&& self.ply@[k] == w.ply
        &&& self.side_to_move@[k] == w.side_to_move
        &&& self.bitboards@.subrange(8 * k, 8 * k + 8) == qfen_board(w.qfen)
        &&& self.policy_visits@.subrange(64 * k, 64 * k + 64) == dense_of(w.policy)
        &&& self.value@[k] == w.value
        &&& self.qfen@[k]@ == w.qfen
    }
}

/// The rows, column by column. The error is about the first row that has
/// something wrong with it.
pub fn selfplay_columns(rows: &Vec<SelfPlayRow>) -> (r: Result<SelfPlayColumns, String>)
    requires
        forall|k: int, i: int|
            0 <= k < rows@.len() && 0 <= i < rows@[k].policy@.len() ==> (
            #[trigger] rows@[k].policy@[i]).action() < 64,
    ensures
        match r {
            Ok(c) => {
                &&& rows_complaint(rows@, 0) is None
                &&& c.holds(rows@.len() as int)
                &&& forall|k: int|
                    0 <= k < rows@.len() ==> c.entry_of(k, (#[trigger] rows@[k]).view())
            },
            Err(m) => rows_complaint(rows@, 0) == Some(m@),
        },
{
    let mut c = SelfPlayColumns {
        logical_schema: Vec::new(),
        contract_version: Vec::new(),
        game_id: Vec::new(),
        ply: Vec::new(),
        side_to_move: Vec::new(),
        bitboards: Vec::new(),
        policy_visits: Vec::new(),
        value: Vec::new(),
        qfen: Vec::new(),
    };
    let mut n: usize = 0;
    while n < rows.len()
        invariant
            n <= rows@.len(),
            forall|k: int, i: int|
                0 <= k < rows@.len() && 0 <= i < rows@[k].policy@.len() ==> (
                #[trigger] rows@[k].policy@[i]).action() < 64,
            rows_complaint(rows@, 0) == rows_complaint(rows@, n as int),
            c.holds(n as int),
            forall|k: int| 0 <= k < n ==> c.entry_of(k, (#[trigger] rows@[k]).view()),
        decreases rows@.len() - n,
    {
        let row = &rows[n];
        let ghost before = c;
        let (bb, dense) = check_physical(row)?;
        c.logical_schema.push(SELFPLAY_SCHEMA.to_owned());
        c.contract_version.push(SELFPLAY_CONTRACT_VERSION.to_owned());
        c.game_id.push(row.game_id);
        c.ply.push(row.ply as u16);
        c.side_to_move.push(row.side_to_move);
        push_planes(&mut c.bitboards, &bb);
        push_counts(&mut c.policy_visits, &dense);
        c.value.push(row.value);
        c.qfen.push(row.qfen.clone());
        proof {
            assert(c.bitboards@.subrange(8 * n, 8 * n + 8) =~= bb@);
            assert(c.policy_visits@.subrange(64 * n, 64 * n + 64) =~= dense@);
            assert forall|k: int| 0 <= k < n implies c.entry_of(k, (#[trigger] rows@[k]).view()) by {
                assert(before.entry_of(k, rows@[k].view()));
                assert(c.bitboards@.subrange(8 * k, 8 * k + 8) =~= before.bitboards@.subrange(
                    8 * k,
                    8 * k + 8,
                ));
                assert(c.policy_visits@.subrange(64 * k, 64 * k + 64)
                    =~= before.policy_visits@.subrange(64 * k, 64 * k + 64));
            }
        }
        n = n + 1;
    }
    Ok(c)
}

pub(crate) fn push_planes(column: &mut Vec<u16>, bb: &Bitboard)
    ensures
        final(column)@ == old(column)@ + bb@,
{
    let ghost start = column@;
    let mut i: usize = 0;
    while i < 8
        invariant
            i <= 8,
            column@ == start + bb@.take(i as int),
        decreases 8 - i,
    {
        column.push(bb.planes[i]);
        assert(bb@.take(i + 1) =~= bb@.take(i as int).push(bb@[i as int]));
        i = i + 1;
    }
    assert(bb@.take(8) =~= bb@);
}

fn push_counts(column: &mut Vec<u32>, counts: &[u32; 64])
    ensures
        final(column)@ == old(column)@ + counts@,
{
    let ghost start = column@;
    let mut i: usize = 0;
    while i < 64
        invariant
            i <= 64,
            column@ == start + counts@.take(i as int),
        decreases 64 - i,
    {
        column.push(counts[i]);
        assert(counts@.take(i + 1) =~= counts@.take(i as int).push(counts@[i as int]));
        i = i + 1;
    }
    assert(counts@.take(64) =~= counts@);
}

/// The entries of one row, as they stand in the columns.
#[derive(Debug)]
pub struct SelfPlayEntry {
    pub logical_schema: String,
    pub contract_version: String,
    pub game_id: u64,
    pub ply: u16,
    pub side_to_move: u8,
    pub bitboards: [u16; 8],
    pub policy_visits: Vec<u32>,
    pub value: i8,
    pub qfen: Option<String>,
}

/// What the entries of one row say.
pub struct EntryView {
    pub logical_schema: Seq<char>,
    pub contract_version: Seq<char>,
    pub game_id: u64,
    pub ply: u16,
    pub side_to_move: u8,
    pub bitboards: Seq<u16>,
    pub policy_visits: Seq<u32>,
    pub value: i8,
    pub qfen: Option<Seq<char>>,
}

impl SelfPlayEntry {
    pub open spec fn view(&self) -> EntryView {
        EntryView {
            logical_schema: self.logical_schema@,
            contract_version: self.contract_version@,
            game_id: self.game_id,
            ply: self.ply,
            side_to_move: self.side_to_move,
            bitboards: self.bitboards@,
            policy_visits: self.policy_visits@,
            value: self.value,
            qfen: crate::bench::fields::option_text(self.qfen),
        }
    }
}

/// The row that the entries describe. Without a QFEN text the board gives it.
pub open spec fn logical_row(e: EntryView) -> SelfPlayView {
    SelfPlayView {
        game_id: e.game_id,
        ply: e.ply as u64,
        qfen: match e.qfen {
            Some(q) => q,
            None => qfen_of(e.bitboards),
        },
        side_to_move: e.side_to_move,
        policy: sparse_below(e.policy_visits, 64),
        value: e.value,
    }
}

/// The first thing that is wrong with the entries of a row.
pub open spec fn entry_complaint(e: EntryView) -> Option<Seq<char>> {
    either(
        complain(
            e.logical_schema != SELFPLAY_SCHEMA@,
            "logical_schema must be "@ + SELFPLAY_SCHEMA@ + ", got "@ + e.logical_schema,
        ),
        either(
            complain(
                e.contract_version != SELFPLAY_CONTRACT_VERSION@,
                version_message(SELFPLAY_CONTRACT_VERSION@, e.contract_version),
            ),
            either(
                complain(e.side_to_move > 1, "side_to_move must be 0 or 1"@),
                either(
                    complain(e.value != 1 && e.value != -1, "value must be exactly -1 or 1"@),
                    either(
                        board_complaint(e.bitboards),
                        either(
                            match e.qfen {
                                Some(q) => either(
                                    qfen_complaint(q),
                                    complain(
                                        qfen_board(q) != e.bitboards,
                                        "qfen does not match bitboards"@,
                                    ),
                                ),
                                None => None,
                            },
                            either(
                                complain(
                                    sparse_below(e.policy_visits, 64).len() == 0,
                                    "policy_visits must contain at least one visit"@,
                                ),
                                selfplay_complaint(selfplay_record(logical_row(e))),
                            ),
                        ),
                    ),
                ),
            ),
        ),
    )
}

fn check_qfen(qfen: &str, bb: &Bitboard) -> (r: Result<(), String>)
    ensures
        crate::bench::fields::reports(
            r,
            either(
                qfen_complaint(qfen@),
                complain(qfen_board(qfen@) != bb@, "qfen does not match bitboards"@),
            ),
        ),
{
    let state = State::from_qfen(qfen)?;
    if state.bb != *bb {
        return Err("qfen does not match bitboards".to_owned());
    }
    Ok(())
}

/// The row that the entries in the columns describe. The error is about the first
/// thing that is wrong.
pub fn selfplay_row_from_entry(e: &SelfPlayEntry) -> (r: Result<SelfPlayRow, String>)
    requires
        e.policy_visits@.len() == 64,
    ensures
        match r {
            Ok(row) => entry_complaint(e.view()) is None && row.view() == selfplay_of(
                selfplay_record(logical_row(e.view())),
            ),
            Err(m) => entry_complaint(e.view()) == Some(m@),
        },
{
    if !same_text(e.logical_schema.as_str(), SELFPLAY_SCHEMA) {
        return Err(
            concat4(
                "logical_schema must be ",
                SELFPLAY_SCHEMA,
                ", got ",
                e.logical_schema.as_str(),
            ),
        );
    }
    if !same_text(e.contract_version.as_str(), SELFPLAY_CONTRACT_VERSION) {
        return Err(
            concat4(
                "contract_version must be ",
                SELFPLAY_CONTRACT_VERSION,
                ", got ",
                e.contract_version.as_str(),
            ),
        );
    }
    if e.side_to_move > 1 {
        return Err("side_to_move must be 0 or 1".to_owned());
    }
    if e.value != 1 && e.value != -1 {
        return Err("value must be exactly -1 or 1".to_owned());
    }
    let bb = Bitboard::new(e.bitboards);
    validate_bitboard_state(&bb)?;
    let qfen: String = match &e.qfen {
        None => State::new(bb).to_qfen(),
        Some(text) => {
            check_qfen(text.as_str(), &bb)?;
            text.clone()
        },
    };
    let policy = sparse_policy(&e.policy_visits);
    if policy.len() == 0 {
        return Err("policy_visits must contain at least one visit".to_owned());
    }
    let logical = selfplay_v1_row(
        e.game_id,
        e.ply as u64,
        qfen.as_str(),
        e.side_to_move,
        &policy,
        e.value,
    )?;
    parse_selfplay_row(&logical)
}

/// Whether nothing is wrong with a row.
pub open spec fn is_valid_row(w: SelfPlayView) -> bool {
    &&& side_complaint(w.qfen, w.side_to_move as int) is None
    &&& w.side_to_move <= 1
    &&& w.policy.len() > 0
    &&& forall|i: int|
        0 <= i < w.policy.len() ==> (#[trigger] w.policy[i]).in_range() && w.policy[i].visits > 0
    &&& forall|i: int, j: int|
        0 <= i < j < w.policy.len() ==> (#[trigger] w.policy[i]).action() != (
        #[trigger] w.policy[j]).action()
    &&& legality_complaint(qfen_board(w.qfen), w.policy, 0) is None
    &&& w.value == 1 || w.value == -1
}

proof fn lemma_visit_fields(v: SelfPlayPolicyVisit)
    ensures
        visit_view(v).get("position"@) == Some(JsonView::Unsigned(v.position as u64)),
        visit_view(v).get("shape"@) == Some(JsonView::Unsigned(v.shape as u64)),
        visit_view(v).get("visits"@) == Some(JsonView::Unsigned(v.visits as u64)),
        visit_of(visit_view(v)) == v,
{
    reveal_strlit("position");
    reveal_strlit("shape");
    reveal_strlit("visits");
    assert("position"@.len() == 8);
    assert("shape"@.len() == 5);
    assert("visits"@.len() == 6);
    let o = visit_view(v)->Object_0;
    lemma_member_at(o, "position"@, 0);
    lemma_member_at(o, "shape"@, 1);
    lemma_member_at(o, "visits"@, 2);
}

proof fn lemma_visits_accepted(f: Seq<char>, p: Seq<SelfPlayPolicyVisit>, i: int)
    requires
        0 <= i <= p.len(),
        forall|i: int| 0 <= i < p.len() ==> (#[trigger] p[i]).in_range() && p[i].visits > 0,
        forall|i: int, j: int|
            0 <= i < j < p.len() ==> (#[trigger] p[i]).action() != (#[trigger] p[j]).action(),
    ensures
        visits_complaint(f, policy_view(p)->Array_0, i) is None,
    decreases p.len() - i,
{
    let items = policy_view(p)->Array_0;
    if i < p.len() {
        lemma_visits_accepted(f, p, i + 1);
        assert(items[i] == visit_view(p[i]));
        lemma_visit_fields(p[i]);
        assert(p[i].in_range());
        assert(!repeats(items, i)) by {
            if repeats(items, i) {
                let j = choose|j: int|
                    0 <= j < i && visit_of(#[trigger] items[j]).shape == visit_of(items[i]).shape
                        && visit_of(items[j]).position == visit_of(items[i]).position;
                assert(items[j] == visit_view(p[j]));
                lemma_visit_fields(p[j]);
                assert(p[j].action() != p[i].action());
            }
        }
    }
}

proof fn lemma_not_blank(s: Seq<char>, i: int)
    requires
        0 <= i < s.len(),
        !is_white(s[i]),
    ensures
        !is_blank(s),
{
}

proof fn lemma_record_fields(w: SelfPlayView)
    ensures
        ({
            let j = selfplay_record(w);
            &&& j.get("contract_version"@) == Some(JsonView::Text(SELFPLAY_CONTRACT_VERSION@))
            &&& j.get("game_id"@) == Some(JsonView::Unsigned(w.game_id))
            &&& j.get("ply"@) == Some(JsonView::Unsigned(w.ply))
            &&& j.get("policy"@) == Some(policy_view(w.policy))
            &&& j.get("qfen"@) == Some(JsonView::Text(w.qfen))
            &&& j.get("schema"@) == Some(JsonView::Text(SELFPLAY_SCHEMA@))
            &&& j.get("side_to_move"@) == Some(JsonView::Unsigned(w.side_to_move as u64))
            &&& j.get("value"@) == Some(outcome_view(w.value as int))
        }),
{
    reveal_strlit("contract_version");
    reveal_strlit("game_id");
    reveal_strlit("ply");
    reveal_strlit("policy");
    reveal_strlit("qfen");
    reveal_strlit("schema");
    reveal_strlit("side_to_move");
    reveal_strlit("value");
    assert("contract_version"@.len() == 16);
    assert("game_id"@.len() == 7);
    assert("ply"@.len() == 3);
    assert("policy"@.len() == 6);
    assert("qfen"@.len() == 4);
    assert("schema"@.len() == 6);
    assert("side_to_move"@.len() == 12);
    assert("value"@.len() == 5);
    assert("policy"@[0] != "schema"@[0]);
    let o = selfplay_record(w)->Object_0;
    lemma_member_at(o, "contract_version"@, 0);
    lemma_member_at(o, "game_id"@, 1);
    lemma_member_at(o, "ply"@, 2);
    lemma_member_at(o, "policy"@, 3);
    lemma_member_at(o, "qfen"@, 4);
    lemma_member_at(o, "schema"@, 5);
    lemma_member_at(o, "side_to_move"@, 6);
    lemma_member_at(o, "value"@, 7);
}

/// A row with nothing wrong, written as JSON, is read back as the same row.
pub proof fn law_selfplay_json_round_trip(w: SelfPlayView)
    requires
        is_valid_row(w),
    ensures
        selfplay_complaint(selfplay_record(w)) is None,
        selfplay_of(selfplay_record(w)) == w,
{
    let j = selfplay_record(w);
    lemma_record_fields(w);
    reveal_strlit("selfplay.v1");
    reveal_strlit("1.2.0");
    reveal_strlit("1e0");
    reveal_strlit("-1e0");
    lemma_not_blank(SELFPLAY_SCHEMA@, 0);
    lemma_not_blank(SELFPLAY_CONTRACT_VERSION@, 0);
    assert(is_qfen(w.qfen));
    lemma_not_blank(w.qfen, 4);
    lemma_visits_accepted("policy"@, w.policy, 0);
    assert(policy_field(j, "policy"@) =~= w.policy) by {
        assert forall|i: int| 0 <= i < w.policy.len() implies #[trigger] policy_field(
            j,
            "policy"@,
        )[i] == w.policy[i] by {
            lemma_visit_fields(w.policy[i]);
        }
    }
    assert("1e0"@.len() != "-1e0"@.len());
}

/// The entries of the row `w` in the columns.
pub open spec fn entry_view(w: SelfPlayView) -> EntryView {
    EntryView {
        logical_schema: SELFPLAY_SCHEMA@,
        contract_version: SELFPLAY_CONTRACT_VERSION@,
        game_id: w.game_id,
        ply: w.ply as u16,
        side_to_move: w.side_to_move,
        bitboards: qfen_board(w.qfen),
        policy_visits: dense_of(w.policy),
        value: w.value,
        qfen: Some(w.qfen),
    }
}

proof fn lemma_dense_accepted(p: Seq<SelfPlayPolicyVisit>, i: int)
    requires
        dense_complaint(p, 0) is None,
        0 <= i < p.len(),
    ensures
        dense_complaint(p, i) is None,
        p[i].in_range(),
        p[i].visits > 0,
        visits_of(p, i + 1, p[i].action()) <= u32::MAX,
    decreases i,
{
    if i > 0 {
        lemma_dense_accepted(p, i - 1);
    }
}

proof fn lemma_legal_accepted(b: Seq<u16>, p: Seq<SelfPlayPolicyVisit>, i: int)
    requires
        legality_complaint(b, p, 0) is None,
        0 <= i < p.len(),
    ensures
        legality_complaint(b, p, i) is None,
        action_legal(b, p[i].action()),
    decreases i,
{
    if i > 0 {
        lemma_legal_accepted(b, p, i - 1);
    }
}

proof fn lemma_all_legal(b: Seq<u16>, p: Seq<SelfPlayPolicyVisit>, i: int)
    requires
        forall|k: int| 0 <= k < p.len() ==> action_legal(b, (#[trigger] p[k]).action()),
        0 <= i <= p.len(),
    ensures
        legality_complaint(b, p, i) is None,
    decreases p.len() - i,
{
    if i < p.len() {
        assert(action_legal(b, p[i].action()));
        lemma_all_legal(b, p, i + 1);
    }
}

/// Where an action is visited, one of the items is of that action; an item's
/// action is visited.
proof fn lemma_visits_witness(p: Seq<SelfPlayPolicyVisit>, n: int, a: int)
    requires
        0 <= n <= p.len(),
        dense_complaint(p, 0) is None,
    ensures
        0 <= visits_of(p, n, a) <= u32::MAX,
        visits_of(p, n, a) > 0 ==> exists|i: int| 0 <= i < n && (#[trigger] p[i]).action() == a,
        forall|i: int| 0 <= i < n && (#[trigger] p[i]).action() == a ==> visits_of(p, n, a) > 0,
    decreases n,
{
    if n > 0 {
        lemma_visits_witness(p, n - 1, a);
        lemma_dense_accepted(p, n - 1);
        if p[n - 1].action() == a {
            assert(visits_of(p, n, a) > 0);
        } else if visits_of(p, n, a) > 0 {
            let i = choose|i: int| 0 <= i < n - 1 && (#[trigger] p[i]).action() == a;
            assert(0 <= i < n && p[i].action() == a);
        }
    }
}

/// A row that the columns accept, on a valid board, is read back from its entries
/// with its visits listed by action; an ordered policy comes back as it was.
pub proof fn law_selfplay_columns_round_trip(w: SelfPlayView)
    requires
        physical_complaint(w) is None,
        board_complaint(qfen_board(w.qfen)) is None,
    ensures
        entry_complaint(entry_view(w)) is None,
        selfplay_of(selfplay_record(logical_row(entry_view(w)))) == (SelfPlayView {
            policy: sparse_below(dense_of(w.policy), 64),
            ..w
        }),
        is_ordered(w.policy) ==> selfplay_of(selfplay_record(logical_row(entry_view(w)))) == w,
{
    let e = entry_view(w);
    let row = logical_row(e);
    let b = qfen_board(w.qfen);
    let p = w.policy;
    let dense = dense_of(p);
    let q = sparse_below(dense, 64);
    lemma_sparse_below(dense, 64);
    assert forall|k: int| 0 <= k < q.len() implies action_legal(b, (#[trigger] q[k]).action()) by {
        let a = q[k].action();
        lemma_visits_witness(p, p.len() as int, a);
        assert(dense[a] > 0);
        let i = choose|i: int| 0 <= i < p.len() && (#[trigger] p[i]).action() == a;
        lemma_legal_accepted(b, p, i);
    }
    lemma_all_legal(b, q, 0);
    assert(q.len() > 0) by {
        let a = p[0].action();
        lemma_dense_accepted(p, 0);
        lemma_visits_witness(p, p.len() as int, a);
        assert(visits_of(p, p.len() as int, a) > 0);
        assert(dense[a] > 0);
        assert(visits_of(q, q.len() as int, a) == dense[a]);
        if q.len() == 0 {
            assert(visits_of(q, 0, a) == 0);
        }
    }
    assert(is_valid_row(row));
    law_selfplay_json_round_trip(row);
    if is_ordered(p) {
        law_dense_sparse_round_trip(p);
    }
}

} // verus!
