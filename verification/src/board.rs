//! A game in progress: board, inventories, turn and history.
use crate::bitboard::{bit, lemma_popcount, plane, popcount, Bitboard};
use crate::constants::MAX_PIECES_PER_SHAPE;
use crate::game::{check_winner, current_player, to_move, total_pieces, win_status, won, WinStatus};
use crate::moves::{
    applied, apply_move, generate_legal_moves, is_move_legal, legal_move, legal_moves,
    lemma_legal_move_step, lemma_legal_moves, Move,
};
use crate::qfen::{
    bb_from_qfen, bb_to_qfen, is_qfen, qfen_board, qfen_describes, qfen_of, qfen_shape,
};
use crate::state::State;
use crate::text::{decimal, push_decimal};
use vstd::prelude::*;
use vstd::string::*;

verus! {

#[derive(Clone, Copy, Debug, PartialEq, Eq, Structural)]
pub enum GameResult {
    Ongoing,
    Player0Wins,
    Player1Wins,
}

/// The result on the planes `b`: a complete line wins for the last player to
/// move, and a player who cannot move loses.
pub open spec fn result_of(b: Seq<u16>) -> GameResult {
    if won(b) {
        if win_status(b) == WinStatus::Player0Wins {
            GameResult::Player0Wins
        } else {
            GameResult::Player1Wins
        }
    } else if legal_moves(b).len() > 0 {
        GameResult::Ongoing
    } else if to_move(b) == Some(0u8) {
        GameResult::Player1Wins
    } else {
        GameResult::Player0Wins
    }
}

/// How many pieces of each shape a player has left.
#[derive(Clone, Copy, Debug, PartialEq, Eq)]
pub struct PlayerInventory {
    pub remaining: [u8; 4],
}

impl PlayerInventory {
    /// Two pieces of each shape.
    pub fn full() -> (inv: Self)
        ensures
            forall|s: int| 0 <= s < 4 ==> #[trigger] inv.remaining@[s] == MAX_PIECES_PER_SHAPE,
    {
        Self { remaining: [MAX_PIECES_PER_SHAPE;4] }
    }

    /// The number of pieces left.
    pub fn total(&self) -> (n: u8)
        requires
            self.remaining@[0] + self.remaining@[1] + self.remaining@[2] + self.remaining@[3] <= 255,
        ensures
            n == self.remaining@[0] + self.remaining@[1] + self.remaining@[2] + self.remaining@[3],
    {
        self.remaining[0] + self.remaining[1] + self.remaining[2] + self.remaining[3]
    }

    pub fn has_shape(&self, shape: u8) -> (r: bool)
        requires
            shape < 4,
        ensures
            r <==> self.remaining@[shape as int] > 0,
    {
        self.remaining[shape as usize] > 0
    }

    /// Take one piece of `shape` out.
    pub fn use_shape(&mut self, shape: u8)
        requires
            shape < 4,
            old(self).remaining@[shape as int] > 0,
        ensures
            final(self).remaining@ == old(self).remaining@.update(
                shape as int,
                (old(self).remaining@[shape as int] - 1) as u8,
            ),
    {
        let left: u8 = self.remaining[shape as usize];
        self.remaining[shape as usize] = left - 1;
    }

    /// Put one piece of `shape` back.
    pub fn return_shape(&mut self, shape: u8)
        requires
            shape < 4,
            old(self).remaining@[shape as int] < MAX_PIECES_PER_SHAPE,
        ensures
            final(self).remaining@ == old(self).remaining@.update(
                shape as int,
                (old(self).remaining@[shape as int] + 1) as u8,
            ),
    {
        let left: u8 = self.remaining[shape as usize];
        self.remaining[shape as usize] = left + 1;
    }
}

/// Whether the pair of planes and a legal move on a game that is not over leads
/// to the planes `next`.
#[verifier::opaque]
pub open spec fn step_ok(step: (Seq<u16>, Move), next: Seq<u16>) -> bool {
    &&& legal_move(step.0, step.1)
    &&& result_of(step.0) == GameResult::Ongoing
    &&& next == applied(step.0, step.1)
}

/// Whether the inventories hold what is not on the board.
pub open spec fn stock_matches(b: Seq<u16>, inventories: Seq<PlayerInventory>) -> bool {
    &&& inventories.len() == 2
    &&& forall|p: int, s: int|
        0 <= p < 2 && 0 <= s < 4 ==> popcount(#[trigger] plane(b, p, s))
            + inventories[p].remaining@[s] == 2
}

proof fn lemma_stock_after(
    b: Seq<u16>,
    inventories: Seq<PlayerInventory>,
    m: Move,
    after: Seq<PlayerInventory>,
)
    requires
        b.len() == 8,
        legal_move(b, m),
        stock_matches(b, inventories),
        after.len() == 2,
        after[1 - m.player] == inventories[1 - m.player],
        after[m.player as int].remaining@ == inventories[m.player as int].remaining@.update(
            m.shape as int,
            (inventories[m.player as int].remaining@[m.shape as int] - 1) as u8,
        ),
    ensures
        stock_matches(applied(b, m), after),
{
    let pl = m.player as int;
    let sh = m.shape as int;
    crate::bitboard::lemma_taken(b, m.position as int);
    assert(!bit(b[pl * 4 + sh], m.position as int));
    lemma_popcount(plane(b, pl, sh), m.position as int);
    assert forall|p: int, s: int| 0 <= p < 2 && 0 <= s < 4 implies popcount(
        #[trigger] plane(applied(b, m), p, s),
    ) + after[p].remaining@[s] == 2 by {
        assert(popcount(plane(b, p, s)) + inventories[p].remaining@[s] == 2);
    }
}

/// What was there before a move.
#[derive(Clone, Copy)]
struct MoveRecord {
    mv: Move,
    prev_bb: Bitboard,
    prev_inventories: [PlayerInventory; 2],
}

/// High-level Quantik board with inventory tracking, move history, and undo.
pub struct QuantikBoard {
    bb: Bitboard,
    inventories: [PlayerInventory; 2],
    current_player: u8,
    history: Vec<MoveRecord>,
}

impl QuantikBoard {
    /// The planes of the board.
    pub closed spec fn cells(&self) -> Seq<u16> {
        self.bb@
    }

    /// The player to move.
    pub closed spec fn player(&self) -> u8 {
        self.current_player
    }

    /// The pieces that the players have left.
    pub closed spec fn stock(&self) -> Seq<PlayerInventory> {
        self.inventories@
    }

    /// The moves that can be undone, each with the planes before it.
    pub closed spec fn played(&self) -> Seq<(Seq<u16>, Move)> {
        Seq::new(self.history@.len(), |i: int| (self.history@[i].prev_bb@, self.history@[i].mv))
    }

    /// The planes before move `i` of the history; the present ones for the
    /// number of moves.
    pub open spec fn cells_at(&self, i: int) -> Seq<u16> {
        if 0 <= i < self.played().len() {
            self.played()[i].0
        } else {
            self.cells()
        }
    }

    /// The invariant of a board: the turn and the inventories follow from the
    /// planes, and each move of the history was legal on a game that was not
    /// over and led to the planes after it.
    pub closed spec fn wf(&self) -> bool {
        &&& to_move(self.bb@) == Some(self.current_player)
        &&& stock_matches(self.bb@, self.inventories@)
        &&& forall|i: int|
            0 <= i < self.history@.len() ==> stock_matches(
                (#[trigger] self.history@[i]).prev_bb@,
                self.history@[i].prev_inventories@,
            )
        &&& forall|i: int|
            0 <= i < self.played().len() ==> #[trigger] step_ok(
                self.played()[i],
                self.cells_at(i + 1),
            )
    }

    /// What the invariant says, for other modules.
    pub proof fn lemma_wf(&self)
        requires
            self.wf(),
        ensures
            self.cells().len() == 8,
            self.player() < 2,
            to_move(self.cells()) == Some(self.player()),
            stock_matches(self.cells(), self.stock()),
            forall|i: int|
                0 <= i < self.played().len() ==> #[trigger] step_ok(
                    self.played()[i],
                    self.cells_at(i + 1),
                ),
    {
    }

    proof fn lemma_push(before: &Self, after: &Self, record: MoveRecord)
        requires
            before.wf(),
            after.history@ == before.history@.push(record),
            record.prev_bb@ == before.bb@,
            record.prev_inventories@ == before.inventories@,
            to_move(after.bb@) == Some(after.current_player),
            stock_matches(after.bb@, after.inventories@),
            step_ok((before.bb@, record.mv), after.bb@),
        ensures
            after.wf(),
            after.played() == before.played().push((before.bb@, record.mv)),
    {
        let past = before.played();
        assert(after.played() =~= past.push((before.bb@, record.mv)));
        assert forall|i: int| 0 <= i < after.played().len() implies #[trigger] step_ok(
            after.played()[i],
            after.cells_at(i + 1),
        ) by {
            if i < past.len() {
                assert(step_ok(past[i], before.cells_at(i + 1)));
                assert(after.played()[i] == past[i]);
            }
        }
        assert forall|i: int| 0 <= i < after.history@.len() implies stock_matches(
            (#[trigger] after.history@[i]).prev_bb@,
            after.history@[i].prev_inventories@,
        ) by {
            if i < past.len() {
                assert(after.history@[i] == before.history@[i]);
            }
        }
    }

    proof fn lemma_pop(before: &Self, after: &Self)
        requires
            before.wf(),
            before.history@.len() > 0,
            after.history@ == before.history@.drop_last(),
            after.bb@ == before.history@.last().prev_bb@,
            after.inventories@ == before.history@.last().prev_inventories@,
            after.current_player == before.history@.last().mv.player,
        ensures
            after.wf(),
            after.played() == before.played().drop_last(),
    {
        let past = before.played();
        let last = past.len() - 1;
        assert(after.played() =~= past.drop_last());
        assert(step_ok(past[last], before.cells_at(last + 1)));
        assert(past[last].0 == after.bb@);
        reveal(step_ok);
        assert forall|i: int| 0 <= i < after.played().len() implies #[trigger] step_ok(
            after.played()[i],
            after.cells_at(i + 1),
        ) by {
            assert(step_ok(past[i], before.cells_at(i + 1)));
            assert(after.played()[i] == past[i]);
        }
        assert forall|i: int| 0 <= i < after.history@.len() implies stock_matches(
            (#[trigger] after.history@[i]).prev_bb@,
            after.history@[i].prev_inventories@,
        ) by {
            assert(after.history@[i] == before.history@[i]);
        }
        assert(before.history@[last] == before.history@.last());
    }

    /// The board at the start of a game.
    pub fn new() -> (board: Self)
        ensures
            board.wf(),
            board.cells() == Seq::new(8, |i: int| 0u16),
            board.player() == 0,
            board.played().len() == 0,
    {
        let bb = Bitboard::empty();
        proof {
            lemma_popcount(0, 0);
        }
        let board = Self {
            bb,
            inventories: [PlayerInventory::full(), PlayerInventory::full()],
            current_player: 0,
            history: Vec::new(),
        };
        board
    }

    /// Set the board up from planes. The piece counts must fit a turn, and no
    /// player may have more than two pieces of a shape.
    pub fn from_bitboard(bb: Bitboard) -> (r: Result<Self, String>)
        ensures
            r is Ok <==> to_move(bb@) is Some && forall|p: int, s: int|
                0 <= p < 2 && 0 <= s < 4 ==> popcount(#[trigger] plane(bb@, p, s)) <= 2,
            r matches Ok(board) ==> board.wf() && board.cells() == bb@ && board.played().len() == 0,
            r matches Err(e) ==> if to_move(bb@) is None {
                e@ == "Invalid turn balance"@
            } else {
                exists|p: int, s: int|
                    #[trigger] first_excess(bb@, p, s) && e@ == excess_text(
                        p,
                        popcount(plane(bb@, p, s)),
                        s,
                    )
            },
    {
        let cp: u8 = match current_player(&bb) {
            Some(p) => p,
            None => return Err("Invalid turn balance".to_owned()),
        };
        let mut invs: [PlayerInventory; 2] = [PlayerInventory::full(), PlayerInventory::full()];
        let mut n: u8 = 0;
        while n < 8
            invariant
                n <= 8,
                to_move(bb@) == Some(cp),
                forall|p: int, s: int|
                    0 <= p < 2 && 0 <= s < 4 && p * 4 + s < n ==> popcount(
                        #[trigger] plane(bb@, p, s),
                    ) + invs@[p].remaining@[s] == 2,
            decreases 8 - n,
        {
            let player: u8 = n / 4;
            let shape: u8 = n % 4;
            let used: u32 = bb.shape_piece_count(player, shape);
            if used > MAX_PIECES_PER_SHAPE as u32 {
                proof {
                    assert(first_excess(bb@, player as int, shape as int)) by {
                        assert forall|p: int, s: int|
                            0 <= p < 2 && 0 <= s < 4 && p * 4 + s < player * 4 + shape implies popcount(
                            #[trigger] plane(bb@, p, s),
                        ) <= 2 by {
                            lemma_popcount(plane(bb@, p, s), 0);
                        }
                    }
                    assert(popcount(plane(bb@, player as int, shape as int)) > 2);
                }
                let mut text = "Player ".to_owned();
                push_decimal(&mut text, player as u64);
                text.append(" has ");
                push_decimal(&mut text, used as u64);
                text.append(" pieces of shape ");
                push_decimal(&mut text, shape as u64);
                text.append(" (max 2)");
                assert(text@ == excess_text(
                    player as int,
                    popcount(plane(bb@, player as int, shape as int)),
                    shape as int,
                ));
                return Err(text);
            }
            let ghost before = invs;
            let mut inv: PlayerInventory = invs[player as usize];
            inv.remaining[shape as usize] = MAX_PIECES_PER_SHAPE - used as u8;
            invs[player as usize] = inv;
            proof {
                assert forall|p: int, s: int|
                    0 <= p < 2 && 0 <= s < 4 && p * 4 + s < n + 1 implies popcount(
                    #[trigger] plane(bb@, p, s),
                ) + invs@[p].remaining@[s] == 2 by {
                    if p * 4 + s == n {
                        assert(p == player && s == shape);
                    } else {
                        assert(popcount(plane(bb@, p, s)) + before@[p].remaining@[s] == 2);
                    }
                }
            }
            n = n + 1;
        }
        let board = Self { bb, inventories: invs, current_player: cp, history: Vec::new() };
        proof {
            assert forall|p: int, s: int| 0 <= p < 2 && 0 <= s < 4 implies popcount(
                #[trigger] plane(bb@, p, s),
            ) <= 2 by {
                assert(popcount(plane(bb@, p, s)) + invs@[p].remaining@[s] == 2);
            }
        }
        Ok(board)
    }

    /// Set the board up from a QFEN text.
    pub fn from_qfen(qfen: &str) -> (r: Result<Self, String>)
        ensures
            r is Ok <==> is_qfen(qfen@) && forall|b: Seq<u16>| #[trigger]
                qfen_describes(qfen@, b) ==> to_move(b) is Some && forall|p: int, s: int|
                    0 <= p < 2 && 0 <= s < 4 ==> popcount(#[trigger] plane(b, p, s)) <= 2,
            r matches Ok(board) ==> board.wf() && qfen_describes(qfen@, board.cells())
                && board.played().len() == 0,
            !is_qfen(qfen@) ==> (r matches Err(e) && e@ == (if qfen_shape(qfen@) {
                "QFEN holds a character that is no piece"@
            } else {
                "QFEN must be four ranks of four characters"@
            })),
            is_qfen(qfen@) ==> (r matches Err(e) ==> if to_move(qfen_board(qfen@)) is None {
                e@ == "Invalid turn balance"@
            } else {
                exists|p: int, s: int|
                    #[trigger] first_excess(qfen_board(qfen@), p, s) && e@ == excess_text(
                        p,
                        popcount(plane(qfen_board(qfen@), p, s)),
                        s,
                    )
            }),
    {
        match bb_from_qfen(qfen) {
            Ok(bb) => {
                proof {
                    assert forall|b: Seq<u16>| #[trigger] qfen_describes(qfen@, b) implies b
                        == bb@ by {
                        crate::qfen::lemma_qfen_unique(qfen@, b, bb@);
                    }
                    assert(bb@.len() == 8 && qfen_describes(qfen@, bb@));
                    assert(qfen_describes(qfen@, qfen_board(qfen@)));
                }
                Self::from_bitboard(bb)
            },
            Err(e) => Err(e),
        }
    }

    pub fn bitboard(&self) -> (bb: &Bitboard)
        ensures
            bb@ == self.cells(),
    {
        &self.bb
    }

    pub fn state(&self) -> (s: State)
        ensures
            s.bb@ == self.cells(),
    {
        State::new(self.bb)
    }

    pub fn current_player(&self) -> (p: u8)
        ensures
            p == self.player(),
    {
        self.current_player
    }

    pub fn inventories(&self) -> (inv: &[PlayerInventory; 2])
        ensures
            inv@ == self.stock(),
    {
        &self.inventories
    }

    pub fn move_count(&self) -> (n: usize)
        ensures
            n == self.played().len(),
    {
        self.history.len()
    }

    pub fn last_move(&self) -> (m: Option<Move>)
        ensures
            m == (if self.played().len() == 0 {
                None
            } else {
                Some(self.played().last().1)
            }),
    {
        if self.history.len() == 0 {
            None
        } else {
            Some(self.history[self.history.len() - 1].mv)
        }
    }

    pub fn to_qfen(&self) -> (q: String)
        ensures
            q@ == qfen_of(self.cells()),
    {
        bb_to_qfen(&self.bb)
    }

    pub fn game_result(&self) -> (r: GameResult)
        requires
            self.wf(),
        ensures
            r == result_of(self.cells()),
    {
        match check_winner(&self.bb) {
            WinStatus::Player0Wins => GameResult::Player0Wins,
            WinStatus::Player1Wins => GameResult::Player1Wins,
            WinStatus::NoWin => {
                if self.legal_moves().len() == 0 {
                    if self.current_player == 0 {
                        GameResult::Player1Wins
                    } else {
                        GameResult::Player0Wins
                    }
                } else {
                    GameResult::Ongoing
                }
            },
        }
    }

    pub fn is_game_over(&self) -> (r: bool)
        requires
            self.wf(),
        ensures
            r <==> result_of(self.cells()) != GameResult::Ongoing,
    {
        self.game_result() != GameResult::Ongoing
    }

    /// The legal moves of the player to move.
    pub fn legal_moves(&self) -> (moves: Vec<Move>)
        requires
            self.wf(),
        ensures
            moves@ == legal_moves(self.cells()),
    {
        let raw = generate_legal_moves(&self.bb);
        let mut moves: Vec<Move> = Vec::new();
        let mut i: usize = 0;
        while i < raw.len()
            invariant
                self.wf(),
                i <= raw@.len(),
                raw@ == legal_moves(self.bb@),
                moves@ == raw@.take(i as int),
            decreases raw@.len() - i,
        {
            let m = raw[i];
            proof {
                lemma_legal_moves(self.bb@);
                assert(legal_move(self.bb@, raw@[i as int]));
                lemma_popcount(plane(self.bb@, m.player as int, m.shape as int), 0);
                assert(popcount(plane(self.bb@, m.player as int, m.shape as int))
                    + self.inventories@[m.player as int].remaining@[m.shape as int] == 2);
            }
            if self.inventories[m.player as usize].has_shape(m.shape) {
                moves.push(m);
            }
            assert(raw@.take(i + 1) =~= raw@.take(i as int).push(m));
            i = i + 1;
        }
        assert(raw@.take(i as int) =~= raw@);
        moves
    }

    /// Whether `mv` is a legal move of the player to move.
    pub fn is_legal(&self, mv: &Move) -> (r: bool)
        requires
            self.wf(),
            mv.player == self.player() ==> mv.in_range(),
        ensures
            r <==> legal_move(self.cells(), *mv),
    {
        if mv.player != self.current_player {
            return false;
        }
        proof {
            lemma_popcount(plane(self.bb@, mv.player as int, mv.shape as int), 0);
            assert(popcount(plane(self.bb@, mv.player as int, mv.shape as int))
                + self.inventories@[mv.player as int].remaining@[mv.shape as int] == 2);
        }
        self.inventories[mv.player as usize].has_shape(mv.shape) && is_move_legal(
            &self.bb,
            mv.player,
            mv.shape,
            mv.position,
        )
    }

    /// Play a move. A game that is over takes no move, and an illegal move is
    /// refused; the board then stays as it is.
    pub fn play_move(&mut self, mv: Move) -> (r: Result<(), String>)
        requires
            old(self).wf(),
            mv.player == old(self).player() ==> mv.in_range(),
        ensures
            final(self).wf(),
            r is Ok <==> result_of(old(self).cells()) == GameResult::Ongoing && legal_move(
                old(self).cells(),
                mv,
            ),
            r is Ok ==> move_played(old(self), final(self), mv),
            r matches Err(e) ==> *final(self) == *old(self) && e@ == (if result_of(
                old(self).cells(),
            ) != GameResult::Ongoing {
                "Game is already over"@
            } else {
                "Illegal move"@
            }),
    {
        if self.is_game_over() {
            return Err("Game is already over".to_owned());
        }
        if !self.is_legal(&mv) {
            return Err("Illegal move".to_owned());
        }
        let record = MoveRecord { mv, prev_bb: self.bb, prev_inventories: self.inventories };
        proof {
            lemma_legal_move_step(self.bb@, mv);
            lemma_popcount(plane(self.bb@, mv.player as int, mv.shape as int), 0);
            assert(popcount(plane(self.bb@, mv.player as int, mv.shape as int))
                + self.inventories@[mv.player as int].remaining@[mv.shape as int] == 2);
        }
        let mut inv: PlayerInventory = self.inventories[mv.player as usize];
        inv.use_shape(mv.shape);
        self.bb = apply_move(&self.bb, &mv);
        self.inventories[mv.player as usize] = inv;
        self.current_player = 1 - self.current_player;
        self.history.push(record);
        proof {
            reveal(step_ok);
            lemma_stock_after(
                old(self).bb@,
                old(self).inventories@,
                mv,
                self.inventories@,
            );
            Self::lemma_push(old(self), self, record);
        }
        Ok(())
    }

    /// Take the last move back. `false` if there is none.
    pub fn undo_move(&mut self) -> (r: bool)
        requires
            old(self).wf(),
        ensures
            final(self).wf(),
            r <==> old(self).played().len() > 0,
            r ==> move_undone(old(self), final(self)),
            !r ==> final(self).cells() == old(self).cells() && final(self).player() == old(
                self,
            ).player() && final(self).stock() == old(self).stock() && final(self).played() == old(
                self,
            ).played(),
    {
        match self.history.pop() {
            Some(record) => {
                self.bb = record.prev_bb;
                self.inventories = record.prev_inventories;
                self.current_player = record.mv.player;
                proof {
                    Self::lemma_pop(old(self), self);
                    let last = old(self).history@.len() - 1;
                    assert(old(self).played()[last] == (record.prev_bb@, record.mv));
                }
                true
            },
            None => {
                assert(self.history@ =~= old(self).history@);
                false
            },
        }
    }

    /// Take up to `count` moves back, and return how many there were.
    pub fn undo_moves(&mut self, count: usize) -> (undone: usize)
        requires
            old(self).wf(),
        ensures
            final(self).wf(),
            undone == (if count <= old(self).played().len() {
                count as int
            } else {
                old(self).played().len() as int
            }),
            final(self).played() == old(self).played().take(old(self).played().len() - undone),
            final(self).cells() == old(self).cells_at(old(self).played().len() - undone),
    {
        let mut undone: usize = 0;
        assert(self.played() =~= old(self).played().take(old(self).played().len() as int));
        while undone < count
            invariant_except_break
                self.wf(),
                undone <= count,
                undone <= old(self).played().len(),
                self.played() == old(self).played().take(old(self).played().len() - undone),
                self.cells() == old(self).cells_at(old(self).played().len() - undone),
            ensures
                self.wf(),
                undone == (if count <= old(self).played().len() {
                    count as int
                } else {
                    old(self).played().len() as int
                }),
                self.played() == old(self).played().take(old(self).played().len() - undone),
                self.cells() == old(self).cells_at(old(self).played().len() - undone),
            decreases count - undone,
        {
            let ghost before = *self;
            if !self.undo_move() {
                break;
            }
            proof {
                assert(before.played().last() == old(self).played()[old(self).played().len()
                    - undone - 1]);
                assert(self.played() =~= old(self).played().take(
                    old(self).played().len() - undone - 1,
                ));
            }
            undone = undone + 1;
        }
        undone
    }

    /// The board as text: QFEN, turn, moves, inventories, and the result of a
    /// game that is over.
    pub fn describe(&self) -> (s: String)
        requires
            self.wf(),
        ensures
            s@ == board_text(
                self.cells(),
                self.player() as nat,
                self.played().len(),
                self.stock(),
                result_of(self.cells()),
            ),
    {
        let mut s = "QFEN: ".to_owned();
        s.append(self.to_qfen().as_str());
        s.append("\nCurrent player: ");
        push_decimal(&mut s, self.current_player as u64);
        s.append("\nMove count: ");
        push_decimal(&mut s, self.move_count() as u64);
        s.append("\n");
        push_inventory(&mut s, 0, &self.inventories[0]);
        push_inventory(&mut s, 1, &self.inventories[1]);
        match self.game_result() {
            GameResult::Ongoing => {},
            GameResult::Player0Wins => {
                s.append("Game result: Player0Wins\n");
            },
            GameResult::Player1Wins => {
                s.append("Game result: Player1Wins\n");
            },
        }
        assert(s@ =~= board_text(
            self.cells(),
            self.player() as nat,
            self.played().len(),
            self.stock(),
            result_of(self.cells()),
        ));
        s
    }
}

fn push_inventory(s: &mut String, player: u8, inv: &PlayerInventory)
    ensures
        final(s)@ == old(s)@ + inventory_text(player as nat, *inv),
{
    s.append("Player ");
    push_decimal(s, player as u64);
    s.append(" inventory: A=");
    push_decimal(s, inv.remaining[0] as u64);
    s.append(" B=");
    push_decimal(s, inv.remaining[1] as u64);
    s.append(" C=");
    push_decimal(s, inv.remaining[2] as u64);
    s.append(" D=");
    push_decimal(s, inv.remaining[3] as u64);
    s.append("\n");
    assert(s@ =~= old(s)@ + inventory_text(player as nat, *inv));
}

/// One line on what a player has left.
pub open spec fn inventory_text(player: nat, inv: PlayerInventory) -> Seq<char> {
    "Player "@ + decimal(player) + " inventory: A="@ + decimal(inv.remaining@[0] as nat) + " B="@
        + decimal(inv.remaining@[1] as nat) + " C="@ + decimal(inv.remaining@[2] as nat) + " D="@
        + decimal(inv.remaining@[3] as nat) + "\n"@
}

/// What [`QuantikBoard::describe`] writes.
pub open spec fn board_text(
    b: Seq<u16>,
    player: nat,
    moves: nat,
    stock: Seq<PlayerInventory>,
    result: GameResult,
) -> Seq<char> {
    "QFEN: "@ + qfen_of(b) + "\nCurrent player: "@ + decimal(player) + "\nMove count: "@ + decimal(
        moves,
    ) + "\n"@ + inventory_text(0, stock[0]) + inventory_text(1, stock[1]) + (match result {
        GameResult::Ongoing => Seq::<char>::empty(),
        GameResult::Player0Wins => "Game result: Player0Wins\n"@,
        GameResult::Player1Wins => "Game result: Player1Wins\n"@,
    })
}

/// Whether `p` and `s` are the first player and shape with more than two pieces.
pub open spec fn first_excess(b: Seq<u16>, p: int, s: int) -> bool {
    &&& 0 <= p < 2
    &&& 0 <= s < 4
    &&& popcount(plane(b, p, s)) > 2
    &&& forall|q: int, t: int|
        0 <= q < 2 && 0 <= t < 4 && q * 4 + t < p * 4 + s ==> popcount(#[trigger] plane(b, q, t))
            <= 2
}

/// What is said of a player with too many pieces of a shape.
pub open spec fn excess_text(p: int, used: int, s: int) -> Seq<char> {
    "Player "@ + decimal(p as nat) + " has "@ + decimal(used as nat) + " pieces of shape "@
        + decimal(s as nat) + " (max 2)"@
}

/// How a board changes when `mv` is played on it.
pub open spec fn move_played(before: &QuantikBoard, after: &QuantikBoard, mv: Move) -> bool {
    &&& after.cells() == applied(before.cells(), mv)
    &&& after.player() == 1 - before.player()
    &&& after.played() == before.played().push((before.cells(), mv))
}

/// How a board changes when its last move is taken back.
pub open spec fn move_undone(before: &QuantikBoard, after: &QuantikBoard) -> bool {
    &&& after.cells() == before.played().last().0
    &&& after.player() == before.played().last().1.player
    &&& after.played() == before.played().drop_last()
}

impl Default for QuantikBoard {
    fn default() -> (board: Self)
        ensures
            board.wf(),
            board.cells() == Seq::new(8, |i: int| 0u16),
            board.player() == 0,
            board.played().len() == 0,
    {
        Self::new()
    }
}

/// Taking back the move that was just played restores the board: planes, turn,
/// inventories and history.
pub proof fn law_undo_restores(
    start: &QuantikBoard,
    middle: &QuantikBoard,
    end: &QuantikBoard,
    mv: Move,
)
    requires
        start.wf(),
        end.wf(),
        legal_move(start.cells(), mv),
        move_played(start, middle, mv),
        move_undone(middle, end),
    ensures
        end.cells() == start.cells(),
        end.player() == start.player(),
        end.played() == start.played(),
        forall|p: int, s: int|
            0 <= p < 2 && 0 <= s < 4 ==> #[trigger] end.stock()[p].remaining@[s]
                == start.stock()[p].remaining@[s],
{
    start.lemma_wf();
    end.lemma_wf();
    assert(end.played() =~= start.played());
    assert forall|p: int, s: int| 0 <= p < 2 && 0 <= s < 4 implies #[trigger] end.stock()[p]
        .remaining@[s] == start.stock()[p].remaining@[s] by {
        assert(popcount(plane(end.cells(), p, s)) + end.stock()[p].remaining@[s] == 2);
        assert(popcount(plane(start.cells(), p, s)) + start.stock()[p].remaining@[s] == 2);
    }
}

/// A game that is over has a winner: there are no draws.
pub proof fn law_no_draws(b: Seq<u16>)
    requires
        won(b) || legal_moves(b).len() == 0,
    ensures
        result_of(b) == GameResult::Player0Wins || result_of(b) == GameResult::Player1Wins,
{
}

/// The pieces on the board and the pieces left make sixteen, so a game lasts at
/// most sixteen moves.
pub proof fn law_sixteen_pieces(board: &QuantikBoard)
    requires
        board.wf(),
    ensures
        total_pieces(board.cells()) <= 16,
        total_pieces(board.cells()) + stock_total(board.stock()[0]) + stock_total(board.stock()[1])
            == 16,
        board.played().len() <= total_pieces(board.cells()),
{
    board.lemma_wf();
    let b = board.cells();
    assert forall|p: int| 0 <= p < 2 implies crate::bitboard::pieces(b, p) + stock_total(
        #[trigger] board.stock()[p],
    ) == 8 by {
        assert(popcount(plane(b, p, 0)) + board.stock()[p].remaining@[0] == 2);
        assert(popcount(plane(b, p, 1)) + board.stock()[p].remaining@[1] == 2);
        assert(popcount(plane(b, p, 2)) + board.stock()[p].remaining@[2] == 2);
        assert(popcount(plane(b, p, 3)) + board.stock()[p].remaining@[3] == 2);
    }
    let first = board.stock()[0];
    let second = board.stock()[1];
    lemma_history_pieces(board, board.played().len() as int);
}

/// Every move puts one piece on the board: a game that began on the empty board has as many
/// moves played as there are pieces.
pub proof fn law_one_piece_a_move(board: &QuantikBoard)
    requires
        board.wf(),
    ensures
        total_pieces(board.cells()) == total_pieces(board.cells_at(0)) + board.played().len(),
        board.cells_at(0) == Seq::new(8, |i: int| 0u16) ==> board.played().len() == total_pieces(
            board.cells(),
        ),
{
    board.lemma_wf();
    lemma_history_pieces(board, board.played().len() as int);
    if board.cells_at(0) == Seq::new(8, |i: int| 0u16) {
        lemma_popcount(0, 0);
    }
}

/// The number of pieces in an inventory.
pub open spec fn stock_total(inv: PlayerInventory) -> int {
    inv.remaining@[0] + inv.remaining@[1] + inv.remaining@[2] + inv.remaining@[3]
}

proof fn lemma_history_pieces(board: &QuantikBoard, n: int)
    requires
        board.wf(),
        0 <= n <= board.played().len(),
    ensures
        total_pieces(board.cells_at(n)) == total_pieces(board.cells_at(0)) + n,
        total_pieces(board.cells_at(0)) >= 0,
    decreases n,
{
    board.lemma_wf();
    let b = board.cells_at(n);
    lemma_popcount(b[0], 0);
    lemma_popcount(b[1], 0);
    lemma_popcount(b[2], 0);
    lemma_popcount(b[3], 0);
    lemma_popcount(b[4], 0);
    lemma_popcount(b[5], 0);
    lemma_popcount(b[6], 0);
    lemma_popcount(b[7], 0);
    if n > 0 {
        lemma_history_pieces(board, n - 1);
        let (c, m) = board.played()[n - 1];
        assert(step_ok(board.played()[n - 1], board.cells_at((n - 1) + 1)));
        board.lemma_history_len(n - 1);
        reveal(step_ok);
        lemma_legal_move_step(c, m);
    }
}

impl QuantikBoard {
    proof fn lemma_history_len(&self, i: int)
        requires
            0 <= i < self.played().len(),
        ensures
            self.played()[i].0.len() == 8,
    {
    }
}

} // verus!
