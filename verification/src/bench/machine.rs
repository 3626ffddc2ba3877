//! The course of a run: which step follows which event.
//!
//! The machine decides, and its owner acts: it checks and begins checkpoints, lets the
//! engines work, writes rows and games, and reports what happened.
use crate::bench::plan::RunProgress;
use vstd::prelude::*;

verus! {

/// What shapes the course of a run: whether it keeps a checkpoint, whether it goes on
/// from one, whether games are left out, and the number of pairs of engines.
#[derive(Clone, Copy, Debug, PartialEq, Eq, Structural)]
pub struct Course {
    pub checkpointed: bool,
    pub resume: bool,
    pub skip_h2h: bool,
    pub pairs: usize,
}

/// What the owner is busy with.
#[derive(Clone, Copy, Debug, PartialEq, Eq, Structural)]
pub enum Stage {
    New,
    CheckingResume,
    BeginningCheckpoint,
    Testing,
    MarkingFailure,
    Aborted,
    LoadingRows,
    EmptyingGames,
    LoadingGames,
    Announcing,
    Agreeing,
    MarkingRow,
    Playing(usize),
    MarkingGame(usize),
    Completing,
    Bundling,
    Saving,
    Over,
}

/// What happened.
#[derive(Clone, Copy, Debug, PartialEq, Eq, Structural)]
pub enum RunEvent {
    Started,
    /// The checkpoint may be resumed, or there is a new one.
    Prepared,
    /// The engines were tested, with so many failures.
    Tested(usize),
    /// So many rows, or games, are in the checkpoint.
    Loaded(u64),
    /// The file of games is empty.
    Emptied,
    /// The manifest is updated.
    Marked,
    /// A row was produced, and written where there is a checkpoint.
    RowDone,
    /// All engines have chosen in all positions.
    AgreementDone,
    /// A game was played, and written where there is a checkpoint.
    GameDone,
    /// A pair of engines has played all its games.
    PairDone,
    Bundled,
    Saved,
}

/// The status that a manifest shows.
#[derive(Clone, Copy, Debug, PartialEq, Eq, Structural)]
pub enum Status {
    Running,
    Complete,
}

/// What is to be done next.
#[derive(Clone, Copy, Debug, PartialEq, Eq, Structural)]
pub enum RunAction {
    CheckResume,
    BeginCheckpoint,
    TestEngines,
    /// Show in the manifest that the test failed.
    MarkFailure,
    Abort,
    LoadRows,
    EmptyGames,
    LoadGames,
    /// Update the manifest.
    Mark { observations: u64, games: u64, status: Status },
    /// Let the engines choose in the positions.
    Agree,
    /// Go on with what is under way.
    GoOn,
    /// Let the pair of this number play.
    Play(usize),
    Bundle,
    Save,
    Finish,
}

/// A run.
#[derive(Clone, Copy, Debug, PartialEq, Eq, Structural)]
pub struct RunMachine {
    pub course: Course,
    pub stage: Stage,
    pub progress: RunProgress,
}

impl RunMachine {
    /// The run in another stage.
    pub open spec fn at(self, stage: Stage) -> RunMachine {
        RunMachine { stage, ..self }
    }

    /// The update of the manifest that shows how far the run has come.
    pub open spec fn mark(self, status: Status) -> RunAction {
        RunAction::Mark {
            observations: self.progress.observations,
            games: self.progress.games,
            status,
        }
    }

    /// What follows when pair `k` is next.
    pub open spec fn games_from(self, k: int) -> (RunMachine, RunAction) {
        if !self.course.skip_h2h && k < self.course.pairs {
            (self.at(Stage::Playing(k as usize)), RunAction::Play(k as usize))
        } else if self.course.checkpointed {
            (self.at(Stage::Completing), self.mark(Status::Complete))
        } else {
            (self.at(Stage::Bundling), RunAction::Bundle)
        }
    }

    /// The run after one more row.
    pub open spec fn with_row(self) -> RunMachine {
        RunMachine {
            progress: RunProgress {
                observations: (self.progress.observations + 1) as u64,
                ..self.progress
            },
            ..self
        }
    }

    /// The run after one more game.
    pub open spec fn with_game(self) -> RunMachine {
        RunMachine {
            progress: RunProgress { games: (self.progress.games + 1) as u64, ..self.progress },
            ..self
        }
    }

    /// The run with so many rows from its checkpoint.
    pub open spec fn with_rows(self, n: u64) -> RunMachine {
        RunMachine { progress: RunProgress { observations: n, ..self.progress }, ..self }
    }

    /// The run with so many games from its checkpoint.
    pub open spec fn with_games(self, n: u64) -> RunMachine {
        RunMachine { progress: RunProgress { games: n, ..self.progress }, ..self }
    }

    /// What follows an event; nothing if the event cannot happen now.
    pub open spec fn after(self, e: RunEvent) -> Option<(RunMachine, RunAction)> {
        match (self.stage, e) {
            (Stage::New, RunEvent::Started) => Some(
                if !self.course.checkpointed {
                    (self.at(Stage::Testing), RunAction::TestEngines)
                } else if self.course.resume {
                    (self.at(Stage::CheckingResume), RunAction::CheckResume)
                } else {
                    (self.at(Stage::BeginningCheckpoint), RunAction::BeginCheckpoint)
                },
            ),
            (Stage::CheckingResume, RunEvent::Prepared) => Some(
                (self.at(Stage::Testing), RunAction::TestEngines),
            ),
            (Stage::BeginningCheckpoint, RunEvent::Prepared) => Some(
                (self.at(Stage::Testing), RunAction::TestEngines),
            ),
            (Stage::Testing, RunEvent::Tested(failures)) => Some(
                if failures > 0 {
                    if self.course.checkpointed {
                        (self.at(Stage::MarkingFailure), RunAction::MarkFailure)
                    } else {
                        (self.at(Stage::Aborted), RunAction::Abort)
                    }
                } else if self.course.checkpointed {
                    (self.at(Stage::LoadingRows), RunAction::LoadRows)
                } else {
                    (self.at(Stage::Agreeing), RunAction::Agree)
                },
            ),
            (Stage::MarkingFailure, RunEvent::Marked) => Some(
                (self.at(Stage::Aborted), RunAction::Abort),
            ),
            (Stage::LoadingRows, RunEvent::Loaded(n)) => Some(
                if self.course.skip_h2h && !self.course.resume {
                    (self.with_rows(n).at(Stage::EmptyingGames), RunAction::EmptyGames)
                } else {
                    (self.with_rows(n).at(Stage::LoadingGames), RunAction::LoadGames)
                },
            ),
            (Stage::EmptyingGames, RunEvent::Emptied) => Some(
                (self.at(Stage::LoadingGames), RunAction::LoadGames),
            ),
            (Stage::LoadingGames, RunEvent::Loaded(n)) => Some(
                (self.with_games(n).at(Stage::Announcing), self.with_games(n).mark(Status::Running)),
            ),
            (Stage::Announcing, RunEvent::Marked) => Some(
                (self.at(Stage::Agreeing), RunAction::Agree),
            ),
            (Stage::Agreeing, RunEvent::RowDone) => if self.progress.observations == u64::MAX {
                None
            } else if self.course.checkpointed && self.progress.due(
                self.progress.observations + 1,
            ) {
                Some(
                    (
                        self.with_row().at(Stage::MarkingRow),
                        self.with_row().mark(Status::Running),
                    ),
                )
            } else {
                Some((self.with_row(), RunAction::GoOn))
            },
            (Stage::MarkingRow, RunEvent::Marked) => Some(
                (self.at(Stage::Agreeing), RunAction::GoOn),
            ),
            (Stage::Agreeing, RunEvent::AgreementDone) => Some(self.games_from(0)),
            (Stage::Playing(k), RunEvent::GameDone) => if self.progress.games == u64::MAX {
                None
            } else if self.course.checkpointed && self.progress.due(self.progress.games + 1) {
                Some(
                    (
                        self.with_game().at(Stage::MarkingGame(k)),
                        self.with_game().mark(Status::Running),
                    ),
                )
            } else {
                Some((self.with_game(), RunAction::GoOn))
            },
            (Stage::MarkingGame(k), RunEvent::Marked) => Some(
                (self.at(Stage::Playing(k)), RunAction::GoOn),
            ),
            (Stage::Playing(k), RunEvent::PairDone) => Some(self.games_from(k + 1)),
            (Stage::Completing, RunEvent::Marked) => Some(
                (self.at(Stage::Bundling), RunAction::Bundle),
            ),
            (Stage::Bundling, RunEvent::Bundled) => Some(
                (self.at(Stage::Saving), RunAction::Save),
            ),
            (Stage::Saving, RunEvent::Saved) => Some((self.at(Stage::Over), RunAction::Finish)),
            _ => None,
        }
    }

    /// A run that has not begun. The manifest is to be updated after `every` rows or
    /// games.
    pub fn new(course: Course, every: u64) -> (m: Self)
        ensures
            m == (RunMachine {
                course,
                stage: Stage::New,
                progress: RunProgress { observations: 0, games: 0, every },
            }),
    {
        RunMachine {
            course,
            stage: Stage::New,
            progress: RunProgress { observations: 0, games: 0, every },
        }
    }

    fn marking(&self, status: Status) -> (a: RunAction)
        ensures
            a == self.mark(status),
    {
        RunAction::Mark {
            observations: self.progress.observations,
            games: self.progress.games,
            status,
        }
    }

    fn go(&mut self, stage: Stage, action: RunAction) -> (a: Option<RunAction>)
        ensures
            *final(self) == old(self).at(stage),
            a == Some(action),
    {
        self.stage = stage;
        Some(action)
    }

    fn play_or_end(&mut self, done: Option<usize>) -> (a: Option<RunAction>)
        ensures
            ({
                let k = match done {
                    Some(k) => k + 1,
                    None => 0,
                };
                Some((*final(self), a->0)) == Some(old(self).games_from(k))
            }),
            a is Some,
    {
        let more: bool = match done {
            Some(k) => k < self.course.pairs && k + 1 < self.course.pairs,
            None => 0 < self.course.pairs,
        };
        if more && !self.course.skip_h2h {
            let next: usize = match done {
                Some(k) => k + 1,
                None => 0,
            };
            self.go(Stage::Playing(next), RunAction::Play(next))
        } else if self.course.checkpointed {
            let action = self.marking(Status::Complete);
            self.go(Stage::Completing, action)
        } else {
            self.go(Stage::Bundling, RunAction::Bundle)
        }
    }

    /// Take note of an event and say what is to be done. An event that cannot happen
    /// now changes nothing.
    pub fn advance(&mut self, event: RunEvent) -> (action: Option<RunAction>)
        ensures
            match old(self).after(event) {
                Some((next, a)) => *final(self) == next && action == Some(a),
                None => *final(self) == *old(self) && action is None,
            },
    {
        match self.stage {
            Stage::New => match event {
                RunEvent::Started => {
                    if !self.course.checkpointed {
                        self.go(Stage::Testing, RunAction::TestEngines)
                    } else if self.course.resume {
                        self.go(Stage::CheckingResume, RunAction::CheckResume)
                    } else {
                        self.go(Stage::BeginningCheckpoint, RunAction::BeginCheckpoint)
                    }
                },
                _ => None,
            },
            Stage::CheckingResume => match event {
                RunEvent::Prepared => self.go(Stage::Testing, RunAction::TestEngines),
                _ => None,
            },
            Stage::BeginningCheckpoint => match event {
                RunEvent::Prepared => self.go(Stage::Testing, RunAction::TestEngines),
                _ => None,
            },
            Stage::Testing => match event {
                RunEvent::Tested(failures) => {
                    if failures > 0 {
                        if self.course.checkpointed {
                            self.go(Stage::MarkingFailure, RunAction::MarkFailure)
                        } else {
                            self.go(Stage::Aborted, RunAction::Abort)
                        }
                    } else if self.course.checkpointed {
                        self.go(Stage::LoadingRows, RunAction::LoadRows)
                    } else {
                        self.go(Stage::Agreeing, RunAction::Agree)
                    }
                },
                _ => None,
            },
            Stage::MarkingFailure => match event {
                RunEvent::Marked => self.go(Stage::Aborted, RunAction::Abort),
                _ => None,
            },
            Stage::LoadingRows => match event {
                RunEvent::Loaded(n) => {
                    self.progress.observations = n;
                    if self.course.skip_h2h && !self.course.resume {
                        self.go(Stage::EmptyingGames, RunAction::EmptyGames)
                    } else {
                        self.go(Stage::LoadingGames, RunAction::LoadGames)
                    }
                },
                _ => None,
            },
            Stage::EmptyingGames => match event {
                RunEvent::Emptied => self.go(Stage::LoadingGames, RunAction::LoadGames),
                _ => None,
            },
            Stage::LoadingGames => match event {
                RunEvent::Loaded(n) => {
                    self.progress.games = n;
                    let action = self.marking(Status::Running);
                    self.go(Stage::Announcing, action)
                },
                _ => None,
            },
            Stage::Announcing => match event {
                RunEvent::Marked => self.go(Stage::Agreeing, RunAction::Agree),
                _ => None,
            },
            Stage::Agreeing => match event {
                RunEvent::RowDone => {
                    if self.progress.observations == u64::MAX {
                        return None;
                    }
                    let due: bool = self.progress.add_observation();
                    if self.course.checkpointed && due {
                        let action = self.marking(Status::Running);
                        self.go(Stage::MarkingRow, action)
                    } else {
                        Some(RunAction::GoOn)
                    }
                },
                RunEvent::AgreementDone => self.play_or_end(None),
                _ => None,
            },
            Stage::MarkingRow => match event {
                RunEvent::Marked => self.go(Stage::Agreeing, RunAction::GoOn),
                _ => None,
            },
            Stage::Playing(k) => match event {
                RunEvent::GameDone => {
                    if self.progress.games == u64::MAX {
                        return None;
                    }
                    let due: bool = self.progress.add_game();
                    if self.course.checkpointed && due {
                        let action = self.marking(Status::Running);
                        self.go(Stage::MarkingGame(k), action)
                    } else {
                        Some(RunAction::GoOn)
                    }
                },
                RunEvent::PairDone => self.play_or_end(Some(k)),
                _ => None,
            },
            Stage::MarkingGame(k) => match event {
                RunEvent::Marked => self.go(Stage::Playing(k), RunAction::GoOn),
                _ => None,
            },
            Stage::Completing => match event {
                RunEvent::Marked => self.go(Stage::Bundling, RunAction::Bundle),
                _ => None,
            },
            Stage::Bundling => match event {
                RunEvent::Bundled => self.go(Stage::Saving, RunAction::Save),
                _ => None,
            },
            Stage::Saving => match event {
                RunEvent::Saved => self.go(Stage::Over, RunAction::Finish),
                _ => None,
            },
            Stage::Aborted => None,
            Stage::Over => None,
        }
    }

    /// Whether the engines were tested and none failed.
    pub open spec fn tested(self) -> bool {
        match self.stage {
            Stage::New => false,
            Stage::CheckingResume => false,
            Stage::BeginningCheckpoint => false,
            Stage::Testing => false,
            Stage::MarkingFailure => false,
            Stage::Aborted => false,
            _ => true,
        }
    }

    /// Whether the rows and games of the checkpoint are loaded.
    pub open spec fn counting(self) -> bool {
        match self.stage {
            Stage::LoadingRows => false,
            Stage::EmptyingGames => false,
            Stage::LoadingGames => false,
            _ => self.tested(),
        }
    }
}

/// The run after the first `n` of some events; nothing if one of them cannot happen.
pub open spec fn course_of(m: RunMachine, events: Seq<RunEvent>, n: int) -> Option<RunMachine>
    decreases n,
{
    if n <= 0 {
        Some(m)
    } else {
        match course_of(m, events, n - 1) {
            Some(before) => match before.after(events[n - 1]) {
                Some((next, _)) => Some(next),
                None => None,
            },
            None => None,
        }
    }
}

/// How many of the first `n` events are `e`.
pub open spec fn happened(events: Seq<RunEvent>, n: int, e: RunEvent) -> int
    decreases n,
{
    if n <= 0 {
        0
    } else {
        happened(events, n - 1, e) + if events[n - 1] == e {
            1int
        } else {
            0
        }
    }
}

/// The engines work, and a manifest says so, only after a test without failures.
pub proof fn law_engines_work_after_the_test(m: RunMachine, e: RunEvent)
    ensures
        m.after(e) matches Some((next, action)) ==> {
            &&& next.course == m.course
            &&& next.tested() && !m.tested() ==> m.stage == Stage::Testing && e
                == RunEvent::Tested(0)
            &&& m.tested() ==> next.tested()
            &&& action is Agree || action is Play || action is Mark || action is Bundle
                ==> next.tested()
        },
{
}

/// A manifest is only ever updated with the numbers of rows and games that the run
/// has counted.
pub proof fn law_marks_show_the_counts(m: RunMachine, e: RunEvent)
    ensures
        m.after(e) matches Some((next, RunAction::Mark { observations, games, status })) ==> {
            &&& observations == next.progress.observations
            &&& games == next.progress.games
            &&& status == Status::Complete <==> next.stage == Stage::Completing
        },
{
}

/// From the time at which the checkpoint is loaded, each row and each game counts
/// once, and nothing else does.
pub proof fn law_rows_and_games_are_counted(m: RunMachine, events: Seq<RunEvent>, n: int)
    requires
        m.counting(),
        0 <= n <= events.len(),
        course_of(m, events, n) is Some,
    ensures
        ({
            let now = course_of(m, events, n)->0;
            &&& now.counting()
            &&& now.progress.observations == m.progress.observations + happened(
                events,
                n,
                RunEvent::RowDone,
            )
            &&& now.progress.games == m.progress.games + happened(events, n, RunEvent::GameDone)
        }),
    decreases n,
{
    if n > 0 {
        law_rows_and_games_are_counted(m, events, n - 1);
    }
}

/// A run that leaves out the games never plays.
pub proof fn law_left_out_games_are_not_played(m: RunMachine, e: RunEvent)
    requires
        m.course.skip_h2h,
    ensures
        m.after(e) matches Some((next, action)) ==> !(action is Play),
{
}

/// The pairs play one after the other: the first when the engines have chosen, and
/// each of the others when the one before it is done, until none is left.
pub proof fn law_pairs_play_in_turn(m: RunMachine, e: RunEvent)
    requires
        !m.course.skip_h2h,
    ensures
        m.after(e) matches Some((next, RunAction::Play(k))) ==> k < m.course.pairs && if k == 0 {
            m.stage == Stage::Agreeing && e == RunEvent::AgreementDone
        } else {
            m.stage == Stage::Playing((k - 1) as usize) && e == RunEvent::PairDone
        },
        m.stage matches Stage::Playing(k) ==> k + 1 < m.course.pairs ==> m.after(RunEvent::PairDone)
            == Some((m.at(Stage::Playing((k + 1) as usize)), RunAction::Play((k + 1) as usize))),
{
}

} // verus!
