use quantik_core::bench::machine::{Course, RunAction, RunEvent, RunMachine, Stage, Status};

fn course(checkpointed: bool, resume: bool, skip_h2h: bool) -> Course {
    Course {
        checkpointed,
        resume,
        skip_h2h,
        pairs: 2,
    }
}

fn marked(observations: u64, games: u64, status: Status) -> RunAction {
    RunAction::Mark {
        observations,
        games,
        status,
    }
}

fn play(machine: &mut RunMachine, script: &[(RunEvent, RunAction)]) {
    for (event, action) in script {
        assert_eq!(machine.advance(*event), Some(*action), "{event:?}");
    }
}

#[test]
fn runs_without_a_checkpoint_go_straight_through() {
    let mut machine = RunMachine::new(course(false, false, false), 1);
    play(
        &mut machine,
        &[
            (RunEvent::Started, RunAction::TestEngines),
            (RunEvent::Tested(0), RunAction::Agree),
            (RunEvent::RowDone, RunAction::GoOn),
            (RunEvent::AgreementDone, RunAction::Play(0)),
            (RunEvent::GameDone, RunAction::GoOn),
            (RunEvent::PairDone, RunAction::Play(1)),
            (RunEvent::PairDone, RunAction::Bundle),
            (RunEvent::Bundled, RunAction::Save),
            (RunEvent::Saved, RunAction::Finish),
        ],
    );
    assert_eq!(machine.stage, Stage::Over);
    assert_eq!(machine.progress.observations, 1);
    assert_eq!(machine.progress.games, 1);
}

#[test]
fn checkpoints_show_what_is_written() {
    let mut machine = RunMachine::new(course(true, true, false), 2);
    play(
        &mut machine,
        &[
            (RunEvent::Started, RunAction::CheckResume),
            (RunEvent::Prepared, RunAction::TestEngines),
            (RunEvent::Tested(0), RunAction::LoadRows),
            (RunEvent::Loaded(4), RunAction::LoadGames),
            (RunEvent::Loaded(1), marked(4, 1, Status::Running)),
            (RunEvent::Marked, RunAction::Agree),
            (RunEvent::RowDone, RunAction::GoOn),
            (RunEvent::RowDone, marked(6, 1, Status::Running)),
            (RunEvent::Marked, RunAction::GoOn),
            (RunEvent::AgreementDone, RunAction::Play(0)),
            (RunEvent::GameDone, marked(6, 2, Status::Running)),
            (RunEvent::Marked, RunAction::GoOn),
            (RunEvent::PairDone, RunAction::Play(1)),
            (RunEvent::PairDone, marked(6, 2, Status::Complete)),
            (RunEvent::Marked, RunAction::Bundle),
        ],
    );
}

#[test]
fn failed_tests_end_a_run() {
    let mut machine = RunMachine::new(course(true, false, false), 1);
    play(
        &mut machine,
        &[
            (RunEvent::Started, RunAction::BeginCheckpoint),
            (RunEvent::Prepared, RunAction::TestEngines),
            (RunEvent::Tested(3), RunAction::MarkFailure),
            (RunEvent::Marked, RunAction::Abort),
        ],
    );
    assert_eq!(machine.advance(RunEvent::Started), None);
    let mut plain = RunMachine::new(course(false, false, false), 1);
    play(
        &mut plain,
        &[
            (RunEvent::Started, RunAction::TestEngines),
            (RunEvent::Tested(1), RunAction::Abort),
        ],
    );
}

#[test]
fn left_out_games_are_emptied_in_a_new_checkpoint() {
    let mut machine = RunMachine::new(course(true, false, true), 0);
    play(
        &mut machine,
        &[
            (RunEvent::Started, RunAction::BeginCheckpoint),
            (RunEvent::Prepared, RunAction::TestEngines),
            (RunEvent::Tested(0), RunAction::LoadRows),
            (RunEvent::Loaded(0), RunAction::EmptyGames),
            (RunEvent::Emptied, RunAction::LoadGames),
            (RunEvent::Loaded(0), marked(0, 0, Status::Running)),
            (RunEvent::Marked, RunAction::Agree),
            (RunEvent::RowDone, RunAction::GoOn),
            (RunEvent::AgreementDone, marked(1, 0, Status::Complete)),
        ],
    );
    let before = machine;
    assert_eq!(machine.advance(RunEvent::GameDone), None);
    assert_eq!(machine, before);
}
