//! Rows of self-play games: their JSON form and their columns.
use crate::bench::actions::{
    action_index, action_legal, law_mask_marks_legal_actions, legal_action_mask, mask_bit,
    mask_holds, mask_of,
};
use crate::bench::contracts::{SELFPLAY_CONTRACT_VERSION, SELFPLAY_SCHEMA};
use crate::bench::fields::{
    complain, concat, either, item_field, item_name, loose_shape_complaint, number32_complaint,
    number8_complaint, number_complaint, number_field, reports, required_string, required_u32,
    required_u64, required_u8, text_complaint, text_field, validate_schema_with_optional_version,
};
use crate::bench::json::{field, items_view, members_view, Json, JsonView};
use crate::bitboard::Bitboard;
use crate::game::{current_player, to_move};
use crate::qfen::{qfen_board, qfen_complaint};
use crate::state::State;
use crate::text::{decimal, push_decimal, same_text};
use vstd::prelude::*;
use vstd::string::*;

verus! {

/// How often an action was visited.
#[derive(Clone, Copy, Debug, PartialEq, Eq, Structural)]
pub struct SelfPlayPolicyVisit {
    pub shape: u8,
    pub position: u8,
    pub visits: u32,
}

impl SelfPlayPolicyVisit {
    /// The action number.
    pub open spec fn action(self) -> int {
        self.shape * 16 + self.position
    }

    pub open spec fn in_range(self) -> bool {
        self.shape < 4 && self.position < 16
    }

    pub fn action_index(&self) -> (a: usize)
        requires
            self.action() <= 255,
        ensures
            a == self.action(),
    {
        action_index(self.shape, self.position) as usize
    }
}

/// One position of a self-play game, with the visits of the search and the
/// outcome for the side to move.
#[derive(Debug)]
pub struct SelfPlayRow {
    pub game_id: u64,
    pub ply: u64,
    pub qfen: String,
    pub side_to_move: u8,
    pub policy: Vec<SelfPlayPolicyVisit>,
    /// One for a win, minus one for a loss.
    pub value: i8,
}

/// What a self-play row says.
pub struct SelfPlayView {
    pub game_id: u64,
    pub ply: u64,
    pub qfen: Seq<char>,
    pub side_to_move: u8,
    pub policy: Seq<SelfPlayPolicyVisit>,
    pub value: i8,
}

impl SelfPlayRow {
    pub open spec fn view(&self) -> SelfPlayView {
        SelfPlayView {
            game_id: self.game_id,
            ply: self.ply,
            qfen: self.qfen@,
            side_to_move: self.side_to_move,
            policy: self.policy@,
            value: self.value,
        }
    }
}

/// The visit that a JSON object describes.
pub open spec fn visit_of(o: JsonView) -> SelfPlayPolicyVisit {
    SelfPlayPolicyVisit {
        shape: number_field(o, "shape"@) as u8,
        position: number_field(o, "position"@) as u8,
        visits: number_field(o, "visits"@) as u32,
    }
}

/// Whether the item at `i` has the action of an earlier one.
pub open spec fn repeats(items: Seq<JsonView>, i: int) -> bool {
    exists|j: int|
        0 <= j < i && visit_of(#[trigger] items[j]).shape == visit_of(items[i]).shape && visit_of(
            items[j],
        ).position == visit_of(items[i]).position
}

/// The complaint about the item at `i` of a policy.
pub open spec fn visit_complaint(f: Seq<char>, items: Seq<JsonView>, i: int) -> Option<Seq<char>> {
    let o = items[i];
    let name = item_name(f, i);
    if !(o is Object) {
        Some(name + " must be an object"@)
    } else {
        either(
            number8_complaint(o, "shape"@),
            either(
                complain(number_field(o, "shape"@) > 3, name + ".shape must be in 0..3"@),
                either(
                    number8_complaint(o, "position"@),
                    either(
                        complain(
                            number_field(o, "position"@) > 15,
                            name + ".position must be in 0..15"@,
                        ),
                        either(
                            number32_complaint(o, "visits"@),
                            either(
                                complain(
                                    number_field(o, "visits"@) == 0,
                                    name + ".visits must be positive"@,
                                ),
                                complain(
                                    repeats(items, i),
                                    name + " duplicates shape="@ + decimal(
                                        visit_of(o).shape as nat,
                                    ) + ", position="@ + decimal(visit_of(o).position as nat),
                                ),
                            ),
                        ),
                    ),
                ),
            ),
        )
    }
}

/// The complaint about the items of a policy from the one at `i` on.
pub open spec fn visits_complaint(f: Seq<char>, items: Seq<JsonView>, i: int) -> Option<Seq<char>>
    decreases items.len() - i,
{
    if i < 0 || i >= items.len() {
        None
    } else {
        either(visit_complaint(f, items, i), visits_complaint(f, items, i + 1))
    }
}

/// The complaint about a policy.
pub open spec fn policy_complaint(o: JsonView, f: Seq<char>) -> Option<Seq<char>> {
    match o.get(f) {
        None => Some(f + " is required"@),
        Some(v) => match v {
            JsonView::Array(items) => either(
                complain(items.len() == 0, f + " must be a non-empty list"@),
                visits_complaint(f, items, 0),
            ),
            _ => Some(f + " must be a non-empty list"@),
        },
    }
}

/// The policy in the field `f`.
pub open spec fn policy_field(o: JsonView, f: Seq<char>) -> Seq<SelfPlayPolicyVisit> {
    o.get(f)->0->Array_0.map_values(|v: JsonView| visit_of(v))
}

/// The words about a policy item that names the action of an earlier one.
fn duplicate_message(name: &str, shape: u8, position: u8) -> (m: String)
    ensures
        m@ == name@ + " duplicates shape="@ + decimal(shape as nat) + ", position="@ + decimal(
            position as nat,
        ),
{
    let mut m = concat(name, " duplicates shape=");
    push_decimal(&mut m, shape as u64);
    m.append(", position=");
    push_decimal(&mut m, position as u64);
    m
}

/// Whether one of the visits is of the given action.
fn lists_action(visits: &Vec<SelfPlayPolicyVisit>, shape: u8, position: u8) -> (r: bool)
    ensures
        r <==> exists|j: int|
            0 <= j < visits@.len() && (#[trigger] visits@[j]).shape == shape && visits@[j].position
                == position,
{
    let mut j: usize = 0;
    while j < visits.len()
        invariant
            j <= visits@.len(),
            forall|k: int|
                0 <= k < j ==> !((#[trigger] visits@[k]).shape == shape && visits@[k].position
                    == position),
        decreases visits@.len() - j,
    {
        if visits[j].shape == shape && visits[j].position == position {
            return true;
        }
        j = j + 1;
    }
    false
}

fn read_visit(name: &str, item: &Json, before: &Vec<SelfPlayPolicyVisit>) -> (r: Result<
    SelfPlayPolicyVisit,
    String,
>)
    ensures
        forall|f: Seq<char>, items: Seq<JsonView>, i: int|
            #![trigger visit_complaint(f, items, i)]
            0 <= i < items.len() && items[i] == item.view() && name@ == item_name(f, i)
                && before@.len() == i && (forall|k: int|
                0 <= k < i ==> #[trigger] before@[k] == visit_of(items[k])) ==> match r {
                Ok(v) => visit_complaint(f, items, i) is None && v == visit_of(item.view())
                    && v.in_range() && v.visits > 0,
                Err(m) => visit_complaint(f, items, i) == Some(m@),
            },
{
    match item {
        Json::Object(_) => {},
        _ => return Err(concat(name, " must be an object")),
    }
    let shape: u8 = required_u8(item, "shape")?;
    if shape > 3 {
        return Err(concat(name, ".shape must be in 0..3"));
    }
    let position: u8 = required_u8(item, "position")?;
    if position > 15 {
        return Err(concat(name, ".position must be in 0..15"));
    }
    let visits: u32 = required_u32(item, "visits")?;
    if visits == 0 {
        return Err(concat(name, ".visits must be positive"));
    }
    let repeated: bool = lists_action(before, shape, position);
    let visit = SelfPlayPolicyVisit { shape, position, visits };
    proof {
        assert(visit == visit_of(item.view()));
        assert forall|f: Seq<char>, items: Seq<JsonView>, i: int|
            #![trigger visit_complaint(f, items, i)]
            0 <= i < items.len() && items[i] == item.view() && name@ == item_name(f, i)
                && before@.len() == i && (forall|k: int|
                0 <= k < i ==> #[trigger] before@[k] == visit_of(items[k])) implies repeated
            == repeats(items, i) by {
            if repeated {
                let j = choose|j: int|
                    0 <= j < before@.len() && (#[trigger] before@[j]).shape == shape
                        && before@[j].position == position;
                assert(visit_of(items[j]).shape == visit_of(items[i]).shape);
            }
            if repeats(items, i) {
                let j = choose|j: int|
                    0 <= j < i && visit_of(#[trigger] items[j]).shape == visit_of(items[i]).shape
                        && visit_of(items[j]).position == visit_of(items[i]).position;
                assert(before@[j] == visit_of(items[j]));
            }
        }
    }
    if repeated {
        return Err(duplicate_message(name, shape, position));
    }
    Ok(visit)
}

pub fn required_selfplay_policy(object: &Json, field: &str) -> (r: Result<
    Vec<SelfPlayPolicyVisit>,
    String,
>)
    ensures
        match r {
            Ok(visits) => policy_complaint(object.view(), field@) is None && visits@
                == policy_field(object.view(), field@) && visits@.len() > 0 && forall|i: int|
                0 <= i < visits@.len() ==> (#[trigger] visits@[i]).in_range(),
            Err(m) => policy_complaint(object.view(), field@) == Some(m@),
        },
{
    let items = match object.get(field) {
        None => return Err(concat(field, " is required")),
        Some(v) => match v {
            Json::Array(items) => items,
            _ => return Err(concat(field, " must be a non-empty list")),
        },
    };
    let ghost views = items_view(items@);
    if items.len() == 0 {
        return Err(concat(field, " must be a non-empty list"));
    }
    let mut visits: Vec<SelfPlayPolicyVisit> = Vec::new();
    let mut i: usize = 0;
    while i < items.len()
        invariant
            i <= items@.len(),
            views == items_view(items@),
            visits@.len() == i,
            forall|k: int| 0 <= k < i ==> #[trigger] visits@[k] == visit_of(views[k]),
            forall|k: int| 0 <= k < i ==> (#[trigger] visits@[k]).in_range(),
            policy_complaint(object.view(), field@) == visits_complaint(field@, views, 0),
            visits_complaint(field@, views, 0) == visits_complaint(field@, views, i as int),
        decreases items@.len() - i,
    {
        assert(views[i as int] == items@[i as int].view());
        let name = item_field(field, i);
        let visit = read_visit(name.as_str(), &items[i], &visits);
        match visit {
            Ok(visit) => visits.push(visit),
            Err(m) => return Err(m),
        }
        i = i + 1;
    }
    assert(visits@ =~= policy_field(object.view(), field@));
    Ok(visits)
}

/// The complaint about the visits from the one at `i` on: an action that the side
/// to move may not play.
pub open spec fn legality_complaint(
    b: Seq<u16>,
    policy: Seq<SelfPlayPolicyVisit>,
    i: int,
) -> Option<Seq<char>>
    decreases policy.len() - i,
{
    if i < 0 || i >= policy.len() {
        None
    } else {
        either(
            complain(
                !action_legal(b, policy[i].action()),
                "policy action is not legal for row state: shape="@ + decimal(
                    policy[i].shape as nat,
                ) + ", position="@ + decimal(policy[i].position as nat),
            ),
            legality_complaint(b, policy, i + 1),
        )
    }
}

pub fn validate_selfplay_policy_is_legal(
    bitboards: &Bitboard,
    policy: &Vec<SelfPlayPolicyVisit>,
) -> (r: Result<(), String>)
    requires
        forall|i: int| 0 <= i < policy@.len() ==> (#[trigger] policy@[i]).action() < 64,
    ensures
        reports(r, legality_complaint(bitboards@, policy@, 0)),
{
    let mask: u64 = legal_action_mask(bitboards);
    proof {
        law_mask_marks_legal_actions(bitboards@);
    }
    let mut i: usize = 0;
    while i < policy.len()
        invariant
            i <= policy@.len(),
            mask == mask_of(bitboards@),
            forall|k: int| 0 <= k < policy@.len() ==> (#[trigger] policy@[k]).action() < 64,
            forall|a: int|
                0 <= a < 64 ==> (#[trigger] mask_bit(mask, a) <==> action_legal(bitboards@, a)),
            legality_complaint(bitboards@, policy@, 0) == legality_complaint(
                bitboards@,
                policy@,
                i as int,
            ),
        decreases policy@.len() - i,
    {
        let visit = policy[i];
        let action: usize = visit.action_index();
        if !mask_holds(mask, action as u8) {
            let mut m = "policy action is not legal for row state: shape=".to_owned();
            push_decimal(&mut m, visit.shape as u64);
            m.append(", position=");
            push_decimal(&mut m, visit.position as u64);
            return Err(m);
        }
        i = i + 1;
    }
    Ok(())
}

/// The outcome that a JSON number stands for: exactly one or exactly minus one.
pub open spec fn unit_of(v: JsonView) -> Option<i8> {
    match v {
        JsonView::Unsigned(n) => if n == 1 {
            Some(1i8)
        } else {
            None
        },
        JsonView::Negative(n) => if n == -1 {
            Some(-1i8)
        } else {
            None
        },
        JsonView::Float(s) => if s == "1e0"@ {
            Some(1i8)
        } else if s == "-1e0"@ {
            Some(-1i8)
        } else {
            None
        },
        _ => None,
    }
}

fn unit_value(v: &Json) -> (r: Option<i8>)
    ensures
        r == unit_of(v.view()),
{
    match v {
        Json::Unsigned(n) => if *n == 1 {
            Some(1)
        } else {
            None
        },
        Json::Negative(n) => if *n == -1 {
            Some(-1)
        } else {
            None
        },
        Json::Float(s) => if same_text(s.as_str(), "1e0") {
            Some(1)
        } else if same_text(s.as_str(), "-1e0") {
            Some(-1)
        } else {
            None
        },
        _ => None,
    }
}

/// The complaint about the outcome of a row.
pub open spec fn outcome_complaint(o: JsonView) -> Option<Seq<char>> {
    match o.get("value"@) {
        None => Some("value is required"@),
        Some(v) => if !v.is_number() {
            Some("value must be numeric"@)
        } else {
            complain(unit_of(v) is None, "value must be exactly -1.0 or 1.0"@)
        },
    }
}

fn required_outcome(object: &Json) -> (r: Result<i8, String>)
    ensures
        match r {
            Ok(v) => outcome_complaint(object.view()) is None && unit_of(
                object.view().get("value"@)->0,
            ) == Some(v),
            Err(m) => outcome_complaint(object.view()) == Some(m@),
        },
{
    match object.get("value") {
        None => Err("value is required".to_owned()),
        Some(v) => {
            match v {
                Json::Unsigned(_) | Json::Negative(_) | Json::Float(_) => {},
                _ => return Err("value must be numeric".to_owned()),
            }
            match unit_value(v) {
                Some(n) => Ok(n),
                None => Err("value must be exactly -1.0 or 1.0".to_owned()),
            }
        },
    }
}

/// The complaint about the side to move of a position in QFEN.
pub open spec fn side_complaint(qfen: Seq<char>, side: int) -> Option<Seq<char>> {
    either(
        qfen_complaint(qfen),
        complain(
            to_move(qfen_board(qfen)) is None || to_move(qfen_board(qfen))->0 != side,
            "side_to_move does not match qfen"@,
        ),
    )
}

fn check_side(qfen: &str, side: u8) -> (r: Result<Bitboard, String>)
    ensures
        match r {
            Ok(bb) => side_complaint(qfen@, side as int) is None && bb@ == qfen_board(qfen@),
            Err(m) => side_complaint(qfen@, side as int) == Some(m@),
        },
{
    let state = State::from_qfen(qfen)?;
    match current_player(&state.bb) {
        Some(p) => if p == side {
            Ok(state.bb)
        } else {
            Err("side_to_move does not match qfen".to_owned())
        },
        None => Err("side_to_move does not match qfen".to_owned()),
    }
}

/// The first thing that is wrong with a JSON self-play row.
pub open spec fn selfplay_complaint(j: JsonView) -> Option<Seq<char>> {
    let qfen = text_field(j, "qfen"@);
    let side = number_field(j, "side_to_move"@);
    if !(j is Object) {
        Some("selfplay row must be a JSON object"@)
    } else {
        either(
            loose_shape_complaint(j, SELFPLAY_SCHEMA@, SELFPLAY_CONTRACT_VERSION@),
            either(
                number_complaint(j, "game_id"@),
                either(
                    number_complaint(j, "ply"@),
                    either(
                        text_complaint(j, "qfen"@),
                        either(
                            number8_complaint(j, "side_to_move"@),
                            either(
                                complain(side > 1, "side_to_move must be 0 or 1"@),
                                either(
                                    side_complaint(qfen, side as int),
                                    either(
                                        policy_complaint(j, "policy"@),
                                        either(
                                            legality_complaint(
                                                qfen_board(qfen),
                                                policy_field(j, "policy"@),
                                                0,
                                            ),
                                            outcome_complaint(j),
                                        ),
                                    ),
                                ),
                            ),
                        ),
                    ),
                ),
            ),
        )
    }
}

/// The row that a JSON self-play row describes.
pub open spec fn selfplay_of(j: JsonView) -> SelfPlayView {
    SelfPlayView {
        game_id: number_field(j, "game_id"@),
        ply: number_field(j, "ply"@),
        qfen: text_field(j, "qfen"@),
        side_to_move: number_field(j, "side_to_move"@) as u8,
        policy: policy_field(j, "policy"@),
        value: unit_of(j.get("value"@)->0)->0,
    }
}

/// Read a JSON self-play row. The error is about the first thing that is wrong.
pub fn parse_selfplay_row(value: &Json) -> (r: Result<SelfPlayRow, String>)
    ensures
        match r {
            Ok(row) => selfplay_complaint(value.view()) is None && row.view() == selfplay_of(
                value.view(),
            ),
            Err(m) => selfplay_complaint(value.view()) == Some(m@),
        },
{
    match value {
        Json::Object(_) => {},
        _ => return Err("selfplay row must be a JSON object".to_owned()),
    }
    validate_schema_with_optional_version(value, SELFPLAY_SCHEMA, SELFPLAY_CONTRACT_VERSION)?;
    let game_id: u64 = required_u64(value, "game_id")?;
    let ply: u64 = required_u64(value, "ply")?;
    let qfen = required_string(value, "qfen")?;
    let side_to_move: u8 = required_u8(value, "side_to_move")?;
    if side_to_move > 1 {
        return Err("side_to_move must be 0 or 1".to_owned());
    }
    let bb = check_side(qfen.as_str(), side_to_move)?;
    let policy = required_selfplay_policy(value, "policy")?;
    validate_selfplay_policy_is_legal(&bb, &policy)?;
    let outcome: i8 = required_outcome(value)?;
    Ok(SelfPlayRow { game_id, ply, qfen, side_to_move, policy, value: outcome })
}

/// The visits of action `a` among the first `n`.
pub open spec fn visits_of(policy: Seq<SelfPlayPolicyVisit>, n: int, a: int) -> int
    decreases n,
{
    if n <= 0 {
        0
    } else {
        visits_of(policy, n - 1, a) + if policy[n - 1].action() == a {
            policy[n - 1].visits as int
        } else {
            0
        }
    }
}

/// The complaint about the visits of a policy from the one at `i` on.
pub open spec fn dense_complaint(policy: Seq<SelfPlayPolicyVisit>, i: int) -> Option<Seq<char>>
    decreases policy.len() - i,
{
    if i < 0 || i >= policy.len() {
        None
    } else {
        either(
            complain(policy[i].shape > 3, "policy shape must be in 0..3"@),
            either(
                complain(policy[i].position > 15, "policy position must be in 0..15"@),
                either(
                    complain(policy[i].visits == 0, "policy visits must be positive"@),
                    either(
                        complain(
                            visits_of(policy, i + 1, policy[i].action()) > u32::MAX,
                            "policy visits overflow at action "@ + decimal(
                                policy[i].action() as nat,
                            ),
                        ),
                        dense_complaint(policy, i + 1),
                    ),
                ),
            ),
        )
    }
}

/// The complaint about a policy that is to be spread over all actions.
pub open spec fn spread_complaint(policy: Seq<SelfPlayPolicyVisit>) -> Option<Seq<char>> {
    either(complain(policy.len() == 0, "policy must be non-empty"@), dense_complaint(policy, 0))
}

/// The visits of every action.
pub open spec fn dense_of(policy: Seq<SelfPlayPolicyVisit>) -> Seq<u32> {
    Seq::new(64, |a: int| visits_of(policy, policy.len() as int, a) as u32)
}

/// The visits of each of the sixty-four actions.
pub fn selfplay_dense_policy_visits(policy: &Vec<SelfPlayPolicyVisit>) -> (r: Result<
    [u32; 64],
    String,
>)
    ensures
        match r {
            Ok(dense) => spread_complaint(policy@) is None && dense@ == dense_of(policy@)
                && forall|a: int|
                0 <= a < 64 ==> #[trigger] dense@[a] == visits_of(policy@, policy@.len() as int, a),
            Err(m) => spread_complaint(policy@) == Some(m@),
        },
{
    if policy.len() == 0 {
        return Err("policy must be non-empty".to_owned());
    }
    let mut dense: [u32; 64] = [0u32; 64];
    let mut i: usize = 0;
    while i < policy.len()
        invariant
            i <= policy@.len(),
            forall|a: int| 0 <= a < 64 ==> #[trigger] dense@[a] == visits_of(policy@, i as int, a),
            dense_complaint(policy@, 0) == dense_complaint(policy@, i as int),
            policy@.len() > 0,
        decreases policy@.len() - i,
    {
        let visit = policy[i];
        if visit.shape > 3 {
            return Err("policy shape must be in 0..3".to_owned());
        }
        if visit.position > 15 {
            return Err("policy position must be in 0..15".to_owned());
        }
        if visit.visits == 0 {
            return Err("policy visits must be positive".to_owned());
        }
        let action: usize = visit.action_index();
        let before: u32 = dense[action];
        if visit.visits > 0xFFFF_FFFF - before {
            let mut m = "policy visits overflow at action ".to_owned();
            push_decimal(&mut m, action as u64);
            return Err(m);
        }
        dense[action] = before + visit.visits;
        i = i + 1;
    }
    assert(dense@ =~= dense_of(policy@));
    Ok(dense)
}

/// The actions below `n` that were visited, in order.
pub open spec fn sparse_below(dense: Seq<u32>, n: int) -> Seq<SelfPlayPolicyVisit>
    decreases n,
{
    if n <= 0 {
        Seq::empty()
    } else if dense[n - 1] > 0 {
        sparse_below(dense, n - 1).push(
            SelfPlayPolicyVisit {
                shape: ((n - 1) / 16) as u8,
                position: ((n - 1) % 16) as u8,
                visits: dense[n - 1],
            },
        )
    } else {
        sparse_below(dense, n - 1)
    }
}

/// The actions that were visited, in order.
pub fn sparse_policy(dense: &Vec<u32>) -> (policy: Vec<SelfPlayPolicyVisit>)
    requires
        dense@.len() == 64,
    ensures
        policy@ == sparse_below(dense@, 64),
{
    let mut policy: Vec<SelfPlayPolicyVisit> = Vec::new();
    let mut a: usize = 0;
    while a < 64
        invariant
            a <= 64,
            dense@.len() == 64,
            policy@ == sparse_below(dense@, a as int),
        decreases 64 - a,
    {
        if dense[a] > 0 {
            policy.push(
                SelfPlayPolicyVisit {
                    shape: (a / 16) as u8,
                    position: (a % 16) as u8,
                    visits: dense[a],
                },
            );
        }
        a = a + 1;
    }
    policy
}

pub proof fn lemma_sparse_below(dense: Seq<u32>, n: int)
    requires
        dense.len() == 64,
        0 <= n <= 64,
    ensures
        ({
            let p = sparse_below(dense, n);
            &&& forall|i: int|
                0 <= i < p.len() ==> (#[trigger] p[i]).in_range() && p[i].action() < n
                    && p[i].visits > 0 && p[i].visits == dense[p[i].action()]
            &&& forall|i: int, j: int|
                0 <= i < j < p.len() ==> (#[trigger] p[i]).action() < (#[trigger] p[j]).action()
            &&& forall|a: int|
                0 <= a < 64 ==> #[trigger] visits_of(p, p.len() as int, a) == if a < n {
                    dense[a] as int
                } else {
                    0
                }
        }),
    decreases n,
{
    if n > 0 {
        lemma_sparse_below(dense, n - 1);
        let before = sparse_below(dense, n - 1);
        let p = sparse_below(dense, n);
        if dense[n - 1] > 0 {
            let last = p[p.len() - 1];
            assert(last.action() == n - 1) by {
                assert(((n - 1) / 16) * 16 + (n - 1) % 16 == n - 1);
            }
            assert forall|a: int| 0 <= a < 64 implies #[trigger] visits_of(p, p.len() as int, a)
                == if a < n {
                dense[a] as int
            } else {
                0
            } by {
                lemma_visits_prefix(before, p, before.len() as int, a);
                assert(visits_of(before, before.len() as int, a) == if a < n - 1 {
                    dense[a] as int
                } else {
                    0
                });
            }
        } else {
            assert forall|a: int| 0 <= a < 64 implies #[trigger] visits_of(p, p.len() as int, a)
                == if a < n {
                dense[a] as int
            } else {
                0
            } by {
                assert(visits_of(before, before.len() as int, a) == if a < n - 1 {
                    dense[a] as int
                } else {
                    0
                });
            }
        }
    }
}

/// The visits among the first items depend on those items alone.
proof fn lemma_visits_prefix(
    p: Seq<SelfPlayPolicyVisit>,
    q: Seq<SelfPlayPolicyVisit>,
    n: int,
    a: int,
)
    requires
        n <= p.len(),
        n <= q.len(),
        forall|i: int| 0 <= i < n ==> p[i] == q[i],
    ensures
        visits_of(p, n, a) == visits_of(q, n, a),
    decreases n,
{
    if n > 0 {
        lemma_visits_prefix(p, q, n - 1, a);
    }
}

/// Listing the visited actions and spreading them out again changes nothing.
pub proof fn law_sparse_dense_round_trip(dense: Seq<u32>)
    requires
        dense.len() == 64,
    ensures
        dense_of(sparse_below(dense, 64)) == dense,
{
    lemma_sparse_below(dense, 64);
    let p = sparse_below(dense, 64);
    assert(dense_of(p) =~= dense) by {
        assert forall|a: int| 0 <= a < 64 implies #[trigger] dense_of(p)[a] == dense[a] by {
            assert(visits_of(p, p.len() as int, a) == dense[a]);
        }
    }
}

/// Whether a policy lists each action at most once, in order, with visits.
pub open spec fn is_ordered(p: Seq<SelfPlayPolicyVisit>) -> bool {
    &&& forall|i: int| 0 <= i < p.len() ==> (#[trigger] p[i]).in_range() && p[i].visits > 0
    &&& forall|i: int, j: int|
        0 <= i < j < p.len() ==> (#[trigger] p[i]).action() < (#[trigger] p[j]).action()
}

/// Spreading an ordered policy over all actions and listing the visited ones
/// gives the policy back.
pub proof fn law_dense_sparse_round_trip(p: Seq<SelfPlayPolicyVisit>)
    requires
        is_ordered(p),
    ensures
        sparse_below(dense_of(p), 64) == p,
{
    assert forall|a: int| 0 <= a < 64 implies 0 <= #[trigger] visits_of(p, p.len() as int, a)
        <= u32::MAX by {
        lemma_visits_once(p, p.len() as int, a);
    }
    lemma_ordered_sparse(p, p.len() as int, 64);
    assert(p.take(p.len() as int) =~= p);
}

/// Among the first `k` items of an ordered policy an action is visited at most
/// once.
proof fn lemma_visits_once(p: Seq<SelfPlayPolicyVisit>, k: int, a: int)
    requires
        is_ordered(p),
        0 <= k <= p.len(),
    ensures
        forall|i: int|
            0 <= i < k && (#[trigger] p[i]).action() == a ==> visits_of(p, k, a) == p[i].visits,
        (forall|i: int| 0 <= i < k ==> (#[trigger] p[i]).action() != a) ==> visits_of(p, k, a)
            == 0,
        0 <= visits_of(p, k, a) <= u32::MAX,
    decreases k,
{
    if k > 0 {
        lemma_visits_once(p, k - 1, a);
        if p[k - 1].action() == a {
            assert forall|i: int| 0 <= i < k - 1 implies (#[trigger] p[i]).action() != a by {
                assert(p[i].action() < p[k - 1].action());
            }
        }
    }
}

proof fn lemma_ordered_sparse(p: Seq<SelfPlayPolicyVisit>, k: int, n: int)
    requires
        is_ordered(p),
        0 <= k <= p.len(),
        0 <= n <= 64,
        forall|i: int| 0 <= i < p.len() ==> ((#[trigger] p[i]).action() < n <==> i < k),
    ensures
        sparse_below(dense_of(p), n) == p.take(k),
    decreases n,
{
    let dense = dense_of(p);
    if n > 0 {
        lemma_visits_once(p, p.len() as int, n - 1);
        assert(dense[n - 1] == visits_of(p, p.len() as int, n - 1) as u32);
        if k > 0 && p[k - 1].action() == n - 1 {
            assert forall|i: int| 0 <= i < p.len() implies ((#[trigger] p[i]).action() < n - 1
                <==> i < k - 1) by {
                if i < k - 1 {
                    assert(p[i].action() < p[k - 1].action());
                }
            }
            lemma_ordered_sparse(p, k - 1, n - 1);
            let last = p[k - 1];
            assert(last.in_range());
            assert((n - 1) / 16 == last.shape && (n - 1) % 16 == last.position);
            assert(p.take(k) =~= p.take(k - 1).push(last));
        } else {
            assert forall|i: int| 0 <= i < p.len() implies (#[trigger] p[i]).action() != n - 1 by {
                if i < k - 1 {
                    assert(p[i].action() < p[k - 1].action());
                }
            }
            lemma_ordered_sparse(p, k, n - 1);
        }
    } else {
        if k > 0 {
            assert(p[0].action() < 0);
        }
        assert(p.take(k) =~= Seq::empty());
    }
}

/// The planes of a board as a JSON list.
pub open spec fn planes_view(b: Seq<u16>) -> JsonView {
    JsonView::Array(b.map_values(|x: u16| JsonView::Unsigned(x as u64)))
}

/// The planes of a board as a JSON list.
pub fn planes_json(bb: &Bitboard) -> (j: Json)
    ensures
        j.view() == planes_view(bb@),
{
    let mut items: Vec<Json> = Vec::new();
    let mut i: usize = 0;
    while i < 8
        invariant
            i <= 8,
            items@.len() == i,
            forall|k: int|
                0 <= k < i ==> (#[trigger] items@[k]).view() == JsonView::Unsigned(bb@[k] as u64),
        decreases 8 - i,
    {
        items.push(Json::Unsigned(bb.planes[i] as u64));
        i = i + 1;
    }
    assert(items_view(items@) =~= bb@.map_values(|x: u16| JsonView::Unsigned(x as u64)));
    Json::Array(items)
}

/// Unsigned numbers as a JSON list.
pub open spec fn counts_view(counts: Seq<u32>) -> JsonView {
    JsonView::Array(counts.map_values(|x: u32| JsonView::Unsigned(x as u64)))
}

fn counts_json(counts: &[u32; 64]) -> (j: Json)
    ensures
        j.view() == counts_view(counts@),
{
    let mut items: Vec<Json> = Vec::new();
    let mut i: usize = 0;
    while i < 64
        invariant
            i <= 64,
            items@.len() == i,
            forall|k: int|
                0 <= k < i ==> (#[trigger] items@[k]).view() == JsonView::Unsigned(
                    counts@[k] as u64,
                ),
        decreases 64 - i,
    {
        items.push(Json::Unsigned(counts[i] as u64));
        i = i + 1;
    }
    assert(items_view(items@) =~= counts@.map_values(|x: u32| JsonView::Unsigned(x as u64)));
    Json::Array(items)
}

/// The first thing that is wrong with a row that is to be stored in columns.
pub open spec fn physical_complaint(w: SelfPlayView) -> Option<Seq<char>> {
    either(
        complain(
            w.ply > 65535,
            "ply must fit in uint16 for arrow-parquet-selfplay.v1"@,
        ),
        either(
            qfen_complaint(w.qfen),
            either(
                complain(w.side_to_move > 1, "side_to_move must be 0 or 1"@),
                either(
                    side_complaint(w.qfen, w.side_to_move as int),
                    either(
                        legality_complaint(qfen_board(w.qfen), w.policy, 0),
                        either(
                            complain(
                                w.value != 1 && w.value != -1,
                                "value must be exactly -1.0 or 1.0"@,
                            ),
                            spread_complaint(w.policy),
                        ),
                    ),
                ),
            ),
        ),
    )
}

/// A whole number as JSON.
pub open spec fn whole_view(n: int) -> JsonView {
    if n >= 0 {
        JsonView::Unsigned(n as u64)
    } else {
        JsonView::Negative(n as i64)
    }
}

fn whole_json(n: i8) -> (j: Json)
    ensures
        j.view() == whole_view(n as int),
{
    if n >= 0 {
        Json::Unsigned(n as u64)
    } else {
        Json::Negative(n as i64)
    }
}

/// The columns of a row, as a JSON object.
pub open spec fn physical_record(w: SelfPlayView) -> JsonView {
    JsonView::Object(
        seq![
            ("bitboards"@, planes_view(qfen_board(w.qfen))),
            ("contract_version"@, JsonView::Text(SELFPLAY_CONTRACT_VERSION@)),
            ("game_id"@, JsonView::Unsigned(w.game_id)),
            ("logical_schema"@, JsonView::Text(SELFPLAY_SCHEMA@)),
            ("ply"@, JsonView::Unsigned(w.ply)),
            ("policy_visits"@, counts_view(dense_of(w.policy))),
            ("qfen"@, JsonView::Text(w.qfen)),
            ("side_to_move"@, JsonView::Unsigned(w.side_to_move as u64)),
            ("value"@, whole_view(w.value as int)),
        ],
    )
}

/// Check a row that is to be stored in columns; its board and the visits of every
/// action if nothing is wrong with it.
pub(crate) fn check_physical(row: &SelfPlayRow) -> (r: Result<(Bitboard, [u32; 64]), String>)
    requires
        forall|i: int| 0 <= i < row.policy@.len() ==> (#[trigger] row.policy@[i]).action() < 64,
    ensures
        match r {
            Ok(t) => physical_complaint(row.view()) is None && t.0@ == qfen_board(row.qfen@)
                && t.1@ == dense_of(row.policy@),
            Err(m) => physical_complaint(row.view()) == Some(m@),
        },
{
    if row.ply > 65535 {
        return Err("ply must fit in uint16 for arrow-parquet-selfplay.v1".to_owned());
    }
    State::from_qfen(row.qfen.as_str())?;
    if row.side_to_move > 1 {
        return Err("side_to_move must be 0 or 1".to_owned());
    }
    let bb = check_side(row.qfen.as_str(), row.side_to_move)?;
    validate_selfplay_policy_is_legal(&bb, &row.policy)?;
    if row.value != 1 && row.value != -1 {
        return Err("value must be exactly -1.0 or 1.0".to_owned());
    }
    let dense = selfplay_dense_policy_visits(&row.policy)?;
    Ok((bb, dense))
}

/// The columns of a row, as a JSON object.
pub fn selfplay_arrow_parquet_record(row: &SelfPlayRow) -> (r: Result<Json, String>)
    requires
        forall|i: int| 0 <= i < row.policy@.len() ==> (#[trigger] row.policy@[i]).action() < 64,
    ensures
        match r {
            Ok(j) => physical_complaint(row.view()) is None && j.view() == physical_record(
                row.view(),
            ),
            Err(m) => physical_complaint(row.view()) == Some(m@),
        },
{
    let (bb, dense) = check_physical(row)?;
    let members: Vec<(String, Json)> = vec![
        field("bitboards", planes_json(&bb)),
        field("contract_version", Json::text(SELFPLAY_CONTRACT_VERSION)),
        field("game_id", Json::Unsigned(row.game_id)),
        field("logical_schema", Json::text(SELFPLAY_SCHEMA)),
        field("ply", Json::Unsigned(row.ply)),
        field("policy_visits", counts_json(&dense)),
        field("qfen", Json::text(row.qfen.as_str())),
        field("side_to_move", Json::Unsigned(row.side_to_move as u64)),
        field("value", whole_json(row.value)),
    ];
    assert(members_view(members@) =~= physical_record(row.view())->Object_0);
    Ok(Json::Object(members))
}

/// The outcome of a row as JSON: a floating number where it is one of the two
/// outcomes.
pub open spec fn outcome_view(value: int) -> JsonView {
    if value == 1 {
        JsonView::Float("1e0"@)
    } else if value == -1 {
        JsonView::Float("-1e0"@)
    } else {
        whole_view(value)
    }
}

/// A visit as JSON.
pub open spec fn visit_view(v: SelfPlayPolicyVisit) -> JsonView {
    JsonView::Object(
        seq![
            ("position"@, JsonView::Unsigned(v.position as u64)),
            ("shape"@, JsonView::Unsigned(v.shape as u64)),
            ("visits"@, JsonView::Unsigned(v.visits as u64)),
        ],
    )
}

/// A policy as JSON.
pub open spec fn policy_view(p: Seq<SelfPlayPolicyVisit>) -> JsonView {
    JsonView::Array(p.map_values(|v: SelfPlayPolicyVisit| visit_view(v)))
}

/// A self-play row as JSON.
pub open spec fn selfplay_record(w: SelfPlayView) -> JsonView {
    JsonView::Object(
        seq![
            ("contract_version"@, JsonView::Text(SELFPLAY_CONTRACT_VERSION@)),
            ("game_id"@, JsonView::Unsigned(w.game_id)),
            ("ply"@, JsonView::Unsigned(w.ply)),
            ("policy"@, policy_view(w.policy)),
            ("qfen"@, JsonView::Text(w.qfen)),
            ("schema"@, JsonView::Text(SELFPLAY_SCHEMA@)),
            ("side_to_move"@, JsonView::Unsigned(w.side_to_move as u64)),
            ("value"@, outcome_view(w.value as int)),
        ],
    )
}

fn policy_json(policy: &Vec<SelfPlayPolicyVisit>) -> (j: Json)
    ensures
        j.view() == policy_view(policy@),
{
    let mut items: Vec<Json> = Vec::new();
    let mut i: usize = 0;
    while i < policy.len()
        invariant
            i <= policy@.len(),
            items@.len() == i,
            forall|k: int|
                0 <= k < i ==> (#[trigger] items@[k]).view() == visit_view(policy@[k]),
        decreases policy@.len() - i,
    {
        let visit = policy[i];
        let members: Vec<(String, Json)> = vec![
            field("position", Json::Unsigned(visit.position as u64)),
            field("shape", Json::Unsigned(visit.shape as u64)),
            field("visits", Json::Unsigned(visit.visits as u64)),
        ];
        assert(members_view(members@) =~= visit_view(visit)->Object_0);
        items.push(Json::Object(members));
        i = i + 1;
    }
    assert(items_view(items@) =~= policy@.map_values(
        |v: SelfPlayPolicyVisit| visit_view(v),
    ));
    Json::Array(items)
}

/// A self-play row as JSON, if nothing is wrong with it.
pub fn selfplay_v1_row(
    game_id: u64,
    ply: u64,
    qfen: &str,
    side_to_move: u8,
    policy: &Vec<SelfPlayPolicyVisit>,
    value: i8,
) -> (r: Result<Json, String>)
    ensures
        ({
            let record = selfplay_record(
                SelfPlayView {
                    game_id,
                    ply,
                    qfen: qfen@,
                    side_to_move,
                    policy: policy@,
                    value,
                },
            );
            match r {
                Ok(j) => selfplay_complaint(record) is None && j.view() == record,
                Err(m) => selfplay_complaint(record) == Some(m@),
            }
        }),
{
    let ghost w = SelfPlayView {
        game_id,
        ply,
        qfen: qfen@,
        side_to_move,
        policy: policy@,
        value,
    };
    let outcome = if value == 1 {
        Json::Float("1e0".to_owned())
    } else if value == -1 {
        Json::Float("-1e0".to_owned())
    } else {
        whole_json(value)
    };
    let members: Vec<(String, Json)> = vec![
        field("contract_version", Json::text(SELFPLAY_CONTRACT_VERSION)),
        field("game_id", Json::Unsigned(game_id)),
        field("ply", Json::Unsigned(ply)),
        field("policy", policy_json(policy)),
        field("qfen", Json::text(qfen)),
        field("schema", Json::text(SELFPLAY_SCHEMA)),
        field("side_to_move", Json::Unsigned(side_to_move as u64)),
        field("value", outcome),
    ];
    assert(members_view(members@) =~= selfplay_record(w)->Object_0);
    let record = Json::Object(members);
    parse_selfplay_row(&record)?;
    Ok(record)
}

} // verus!
