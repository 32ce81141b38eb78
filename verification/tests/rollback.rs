use rollback_sim::component::{Player, Position, Unit, UnitState};
use rollback_sim::desync::{checksum, DesyncReport};
use rollback_sim::input::{Command, CommandKind};
use rollback_sim::rollback::{
    default_config, phase_of, predict, validate, Coordinator, Outcome, SessionConfig, SessionError,
    SessionPhase,
};
use rollback_sim::unit::{select, spawn};
use rollback_sim::world::WorldState;

const LOCAL: usize = 0;
const REMOTE: usize = 1;

fn units() -> Vec<Unit> {
    let mut units = spawn(42, 2);
    for u in units.iter_mut() {
        u.selected = true;
    }
    units
}

fn session(config: SessionConfig) -> Coordinator {
    Coordinator::new(config, units()).unwrap()
}

fn order(handle: usize, kind: CommandKind) -> Command {
    Command { player: Player { handle }, kind }
}

fn tick(session: &mut Coordinator, kind: CommandKind) {
    assert!(session.add_local_input(LOCAL, kind));
    assert!(session.advance().is_ok());
}

fn straight_run(history: &Vec<Vec<Command>>) -> WorldState {
    let mut world = WorldState::new(units()).unwrap();
    world.run(history);
    world
}

#[test]
fn the_default_parameters() {
    let config = default_config(2);
    assert_eq!(config.num_players, 2);
    assert_eq!(config.max_prediction_window, 12);
    assert_eq!(config.input_delay, 2);
    assert_eq!(config.desync_interval, 10);
    assert_eq!(config.snapshot_depth, 12);
    assert_eq!(validate(&config), Ok(()));
}

#[test]
fn a_prediction_window_of_zero_is_refused() {
    let config = SessionConfig { max_prediction_window: 0, ..default_config(2) };
    assert_eq!(validate(&config), Err(SessionError::ConfigurationError));
    assert!(matches!(Coordinator::new(config, units()), Err(SessionError::ConfigurationError)));
}

#[test]
fn a_session_needs_players_and_snapshots() {
    assert_eq!(validate(&default_config(0)), Err(SessionError::ConfigurationError));
    let config = SessionConfig { snapshot_depth: 0, ..default_config(2) };
    assert_eq!(validate(&config), Err(SessionError::ConfigurationError));
    let config = SessionConfig { input_delay: 0, desync_interval: 0, ..default_config(1) };
    assert_eq!(validate(&config), Ok(()));
}

#[test]
fn a_session_needs_well_formed_units() {
    let mut broken = units();
    broken[3].radius.value = 0;
    assert!(matches!(
        Coordinator::new(default_config(2), broken),
        Err(SessionError::ConfigurationError)
    ));
}

#[test]
fn a_session_starts_at_frame_zero() {
    let session = session(default_config(2));
    assert_eq!(session.current_frame(), 0);
    assert_eq!(session.head().units, units());
    assert_eq!(session.confirmed(), 0);
    assert_eq!(session.phase(), SessionPhase::Steady);
}

#[test]
fn fatal_errors_end_the_session() {
    assert!(SessionError::ConfigurationError.is_fatal());
    assert!(SessionError::SnapshotUnavailable.is_fatal());
    assert!(!SessionError::PredictionWindowExceeded.is_fatal());
    assert!(!SessionError::ChecksumMismatch.is_fatal());
}

#[test]
fn a_prediction_repeats_the_last_confirmed_command() {
    let hold = CommandKind::Hold;
    let go = CommandKind::Move { x: 1, y: 2 };
    assert_eq!(predict(&Vec::new(), 0), CommandKind::Nothing);
    assert_eq!(predict(&Vec::new(), 9), CommandKind::Nothing);
    assert_eq!(predict(&vec![hold, go], 0), hold);
    assert_eq!(predict(&vec![hold, go], 1), go);
    assert_eq!(predict(&vec![hold, go], 2), go);
    assert_eq!(predict(&vec![hold, go], 50), go);
}

#[test]
fn the_command_set_has_an_entry_for_every_player() {
    let mut session = session(default_config(2));
    let go = CommandKind::Move { x: 5_000, y: 5_000 };
    assert_eq!(session.add_remote_input(REMOTE, 0, go), Ok(Outcome::Confirmed));
    assert_eq!(
        session.commands_at(0),
        vec![order(LOCAL, CommandKind::Nothing), order(REMOTE, go)]
    );
    assert_eq!(
        session.commands_at(7),
        vec![order(LOCAL, CommandKind::Nothing), order(REMOTE, go)]
    );
}

#[test]
fn advance_steps_the_head_under_the_commands_in_force() {
    let mut session = session(default_config(2));
    let go = CommandKind::Move { x: 5_000, y: 5_000 };
    assert_eq!(session.add_remote_input(REMOTE, 0, go), Ok(Outcome::Confirmed));
    assert_eq!(session.add_remote_input(LOCAL, 0, CommandKind::Hold), Ok(Outcome::Confirmed));
    assert_eq!(session.advance(), Ok(false));
    assert_eq!(session.current_frame(), 1);
    let expected = straight_run(&vec![vec![order(LOCAL, CommandKind::Hold), order(REMOTE, go)]]);
    assert_eq!(*session.head(), expected);
    // The next frame has no confirmed command: it is speculative.
    assert_eq!(session.advance(), Ok(true));
    assert_eq!(session.phase(), SessionPhase::Predicting);
}

#[test]
fn the_head_stalls_a_window_ahead_of_the_confirmed_frames() {
    let mut session = session(default_config(2));
    for frame in 0..12 {
        assert_eq!(session.current_frame(), frame);
        assert_eq!(session.advance(), Ok(true));
    }
    let head = session.head().duplicate();
    assert_eq!(session.advance(), Err(SessionError::PredictionWindowExceeded));
    assert_eq!(session.advance(), Err(SessionError::PredictionWindowExceeded));
    assert_eq!(session.current_frame(), 12);
    assert_eq!(*session.head(), head);
    // One player confirms: the other still holds the head back.
    assert_eq!(session.add_remote_input(REMOTE, 0, CommandKind::Nothing), Ok(Outcome::Confirmed));
    assert_eq!(session.advance(), Err(SessionError::PredictionWindowExceeded));
    // Both have confirmed frame 0: the head may go on by one frame.
    assert_eq!(session.add_remote_input(LOCAL, 0, CommandKind::Nothing), Ok(Outcome::Confirmed));
    assert_eq!(session.confirmed(), 1);
    assert_eq!(session.advance(), Ok(true));
    assert_eq!(session.current_frame(), 13);
    assert_eq!(session.advance(), Err(SessionError::PredictionWindowExceeded));
}

#[test]
fn a_late_command_for_frame_three_rewinds_to_frame_three() {
    let config = SessionConfig { input_delay: 0, ..default_config(2) };
    assert_eq!(config.max_prediction_window, 12);
    let mut session = session(config);
    for frame in 0..3 {
        assert_eq!(
            session.add_remote_input(REMOTE, frame, CommandKind::Nothing),
            Ok(Outcome::Confirmed)
        );
    }
    // Frames 0 to 9 are simulated; from frame 3 on the remote command is a
    // prediction.
    for _ in 0..10 {
        tick(&mut session, CommandKind::Nothing);
    }
    assert_eq!(session.current_frame(), 10);
    assert_eq!(session.phase(), SessionPhase::Predicting);
    let predicted = session.head().duplicate();

    // The remote command for frame 3 differs from the prediction.
    let go = CommandKind::Move { x: 5_000, y: 5_000 };
    assert_eq!(session.add_remote_input(REMOTE, 3, go), Ok(Outcome::Resimulated { from: 3 }));

    // Frames 3 to 9 have been simulated again: the head holds what a straight
    // run under the corrected commands gives.
    assert_eq!(session.current_frame(), 10);
    let history: Vec<Vec<Command>> = (0..10)
        .map(|frame| {
            vec![
                order(LOCAL, CommandKind::Nothing),
                order(REMOTE, if frame >= 3 { go } else { CommandKind::Nothing }),
            ]
        })
        .collect();
    assert_eq!(*session.head(), straight_run(&history));
    assert_ne!(*session.head(), predicted);

    // Only now the local command of frame 10 is taken.
    assert!(session.add_local_input(LOCAL, CommandKind::Hold));
    assert_eq!(session.commands_at(10)[LOCAL].kind, CommandKind::Hold);
    assert_eq!(session.advance(), Ok(true));
    assert_eq!(session.current_frame(), 11);
}

#[test]
fn resimulation_equals_the_straight_run_for_every_frame() {
    let go = CommandKind::Move { x: -8_000, y: 2_000 };
    for late in 0..=10u32 {
        let mut session = session(default_config(2));
        for frame in 0..late {
            assert_eq!(
                session.add_remote_input(REMOTE, frame, CommandKind::Hold),
                Ok(Outcome::Confirmed)
            );
        }
        for _ in 0..10 {
            tick(&mut session, CommandKind::Nothing);
        }
        let outcome = session.add_remote_input(REMOTE, late, go);
        if late < 10 {
            assert_eq!(outcome, Ok(Outcome::Resimulated { from: late }));
        } else {
            assert_eq!(outcome, Ok(Outcome::Confirmed));
        }
        let history: Vec<Vec<Command>> = (0..10)
            .map(|frame| {
                vec![
                    order(LOCAL, CommandKind::Nothing),
                    order(REMOTE, if frame >= late { go } else { CommandKind::Hold }),
                ]
            })
            .collect();
        assert_eq!(*session.head(), straight_run(&history));
        assert_eq!(session.current_frame(), 10);
    }
}

#[test]
fn several_corrections_end_in_the_straight_run() {
    let mut session = session(default_config(2));
    let remote = [
        CommandKind::Move { x: 9_000, y: 0 },
        CommandKind::Nothing,
        CommandKind::Hold,
        CommandKind::Hold,
        CommandKind::Move { x: -9_000, y: 4_000 },
        CommandKind::Nothing,
    ];
    let local = [
        CommandKind::Nothing,
        CommandKind::Nothing,
        CommandKind::Move { x: 0, y: 7_000 },
        CommandKind::Hold,
        CommandKind::Nothing,
        CommandKind::Move { x: 3_000, y: 3_000 },
    ];
    let config = SessionConfig { input_delay: 0, ..default_config(2) };
    session = Coordinator::new(config, session.head().units.clone()).unwrap();
    for frame in 0..6 {
        tick(&mut session, local[frame]);
        // Each remote command arrives two frames late.
        if frame >= 2 {
            assert!(session.add_remote_input(REMOTE, frame as u32 - 2, remote[frame - 2]).is_ok());
        }
    }
    for frame in 4..6 {
        assert!(session.add_remote_input(REMOTE, frame as u32, remote[frame]).is_ok());
    }
    let history: Vec<Vec<Command>> =
        (0..6).map(|f| vec![order(LOCAL, local[f]), order(REMOTE, remote[f])]).collect();
    assert_eq!(*session.head(), straight_run(&history));
    assert_eq!(session.confirmed(), 6);
    assert_eq!(session.phase(), SessionPhase::Steady);
}

#[test]
fn a_command_as_predicted_changes_nothing() {
    let mut session = session(default_config(2));
    assert_eq!(session.add_remote_input(REMOTE, 0, CommandKind::Hold), Ok(Outcome::Confirmed));
    for _ in 0..5 {
        tick(&mut session, CommandKind::Nothing);
    }
    let head = session.head().duplicate();
    assert_eq!(session.add_remote_input(REMOTE, 1, CommandKind::Hold), Ok(Outcome::Confirmed));
    assert_eq!(session.add_remote_input(REMOTE, 2, CommandKind::Hold), Ok(Outcome::Confirmed));
    assert_eq!(*session.head(), head);
}

#[test]
fn a_command_for_a_frame_ahead_of_the_head_changes_nothing() {
    let mut session = session(default_config(2));
    let head = session.head().duplicate();
    let go = CommandKind::Move { x: 1, y: 1 };
    assert_eq!(session.add_remote_input(REMOTE, 0, go), Ok(Outcome::Confirmed));
    assert_eq!(session.add_remote_input(REMOTE, 1, CommandKind::Hold), Ok(Outcome::Confirmed));
    assert_eq!(*session.head(), head);
    assert_eq!(session.current_frame(), 0);
}

#[test]
fn commands_out_of_order_are_ignored() {
    let mut session = session(default_config(2));
    let go = CommandKind::Move { x: 1, y: 1 };
    // A gap: frame 0 is not confirmed yet.
    assert_eq!(session.add_remote_input(REMOTE, 1, go), Ok(Outcome::Ignored));
    assert_eq!(session.add_remote_input(REMOTE, 0, go), Ok(Outcome::Confirmed));
    // A repetition.
    assert_eq!(session.add_remote_input(REMOTE, 0, CommandKind::Hold), Ok(Outcome::Ignored));
    // A player outside the session.
    assert_eq!(session.add_remote_input(2, 0, go), Ok(Outcome::Ignored));
    assert_eq!(session.commands_at(0)[REMOTE].kind, go);
    assert_eq!(session.commands_at(1)[REMOTE].kind, go);
}

#[test]
fn a_local_command_applies_after_the_input_delay() {
    let mut session = session(default_config(1));
    let go = CommandKind::Move { x: 5_000, y: 5_000 };
    assert!(session.add_local_input(LOCAL, go));
    // Captured at frame 0 with a delay of two frames: frames 0 and 1 carry
    // no order, frame 2 carries the command.
    assert_eq!(session.commands_at(0)[LOCAL].kind, CommandKind::Nothing);
    assert_eq!(session.commands_at(1)[LOCAL].kind, CommandKind::Nothing);
    assert_eq!(session.commands_at(2)[LOCAL].kind, go);
    assert_eq!(session.confirmed(), 3);
    // The frame already has its command.
    assert!(!session.add_local_input(LOCAL, CommandKind::Hold));
    assert_eq!(session.advance(), Ok(false));
    assert!(session.add_local_input(LOCAL, CommandKind::Hold));
    assert_eq!(session.commands_at(3)[LOCAL].kind, CommandKind::Hold);
    assert!(!session.add_local_input(1, CommandKind::Hold));
}

#[test]
fn frames_without_a_local_command_are_confirmed_as_predicted() {
    let mut session = session(default_config(1));
    assert!(session.add_local_input(LOCAL, CommandKind::Hold));
    for _ in 0..5 {
        assert!(session.advance().is_ok());
    }
    let head = session.head().duplicate();
    let go = CommandKind::Move { x: 5_000, y: 5_000 };
    assert!(session.add_local_input(LOCAL, go));
    // Frames 3 to 6 repeat the hold, frame 7 carries the new command.
    for frame in 3..7 {
        assert_eq!(session.commands_at(frame)[LOCAL].kind, CommandKind::Hold);
    }
    assert_eq!(session.commands_at(7)[LOCAL].kind, go);
    assert_eq!(session.confirmed(), 8);
    assert_eq!(*session.head(), head);
}

#[test]
fn without_input_delay_a_local_command_applies_at_once() {
    let config = SessionConfig { input_delay: 0, ..default_config(1) };
    let mut session = session(config);
    let go = CommandKind::Move { x: 5_000, y: 5_000 };
    tick(&mut session, go);
    assert_eq!(*session.head(), straight_run(&vec![vec![order(LOCAL, go)]]));
    assert_eq!(session.phase(), SessionPhase::Steady);
}

#[test]
fn a_missing_snapshot_is_fatal() {
    // Two snapshots cannot cover a window of twelve frames.
    let config = SessionConfig { snapshot_depth: 2, ..default_config(2) };
    let mut session = session(config);
    for _ in 0..9 {
        tick(&mut session, CommandKind::Nothing);
    }
    let head = session.head().duplicate();
    let go = CommandKind::Move { x: 5_000, y: 5_000 };
    let outcome = session.add_remote_input(REMOTE, 0, go);
    assert_eq!(outcome, Err(SessionError::SnapshotUnavailable));
    assert!(outcome.unwrap_err().is_fatal());
    // Nothing was changed.
    assert_eq!(*session.head(), head);
    assert_eq!(session.commands_at(0)[REMOTE].kind, CommandKind::Nothing);
}

#[test]
fn a_short_ring_serves_corrections_within_its_reach() {
    let config = SessionConfig { snapshot_depth: 2, ..default_config(2) };
    let mut session = session(config);
    for frame in 0..7 {
        assert!(session.add_remote_input(REMOTE, frame, CommandKind::Nothing).is_ok());
    }
    for _ in 0..9 {
        tick(&mut session, CommandKind::Nothing);
    }
    let go = CommandKind::Move { x: 5_000, y: 5_000 };
    assert_eq!(session.add_remote_input(REMOTE, 7, go), Ok(Outcome::Resimulated { from: 7 }));
    let history: Vec<Vec<Command>> = (0..9)
        .map(|f| {
            vec![
                order(LOCAL, CommandKind::Nothing),
                order(REMOTE, if f >= 7 { go } else { CommandKind::Nothing }),
            ]
        })
        .collect();
    assert_eq!(*session.head(), straight_run(&history));
}

#[test]
fn the_phase_follows_the_session() {
    assert_eq!(phase_of(false, false, 0, 0), SessionPhase::WaitingForPlayers);
    assert_eq!(phase_of(false, true, 9, 3), SessionPhase::WaitingForPlayers);
    assert_eq!(phase_of(true, true, 9, 3), SessionPhase::Resimulating);
    assert_eq!(phase_of(true, false, 9, 3), SessionPhase::Predicting);
    assert_eq!(phase_of(true, false, 9, 9), SessionPhase::Steady);
    assert_eq!(phase_of(true, false, 9, 11), SessionPhase::Steady);
    assert_eq!(phase_of(true, false, 0, 0), SessionPhase::Steady);
}

#[test]
fn peers_with_the_same_commands_report_the_same_checksum() {
    let mut here = session(default_config(2));
    let mut there = session(default_config(2));
    let go = CommandKind::Move { x: 5_000, y: 5_000 };
    for frame in 0..11 {
        for peer in [&mut here, &mut there] {
            assert!(peer.add_remote_input(LOCAL, frame, go).is_ok());
            assert!(peer.add_remote_input(REMOTE, frame, CommandKind::Hold).is_ok());
            assert_eq!(peer.advance(), Ok(false));
        }
    }
    let report = there.report(10, 1).unwrap();
    assert_eq!(report.frame, 10);
    assert_eq!(report.peer, 1);
    assert_eq!(here.check_report(&report), Ok(true));
    assert_eq!(here.report(10, 0).unwrap().checksum, report.checksum);

    // The report is the checksum of the world of frame 10.
    let history: Vec<Vec<Command>> =
        (0..10).map(|_| vec![order(LOCAL, go), order(REMOTE, CommandKind::Hold)]).collect();
    assert_eq!(report.checksum, checksum(&straight_run(&history)));
}

#[test]
fn a_diverged_peer_is_reported_and_the_session_goes_on() {
    let mut here = session(default_config(2));
    for frame in 0..11 {
        assert!(here.add_remote_input(LOCAL, frame, CommandKind::Nothing).is_ok());
        assert!(here.add_remote_input(REMOTE, frame, CommandKind::Nothing).is_ok());
        assert_eq!(here.advance(), Ok(false));
    }
    let mine = here.report(10, 0).unwrap();
    let theirs = DesyncReport { frame: 10, peer: 1, checksum: mine.checksum.wrapping_add(1) };
    let verdict = here.check_report(&theirs);
    assert_eq!(verdict, Err(SessionError::ChecksumMismatch));
    assert!(!verdict.unwrap_err().is_fatal());
    assert_eq!(here.advance(), Ok(true));
    assert_eq!(here.current_frame(), 12);
}

#[test]
fn reports_are_due_at_the_interval_for_comparable_frames() {
    let mut here = session(default_config(2));
    for frame in 0..25 {
        assert!(here.add_remote_input(LOCAL, frame, CommandKind::Nothing).is_ok());
        if frame < 15 {
            assert!(here.add_remote_input(REMOTE, frame, CommandKind::Nothing).is_ok());
        }
        assert!(here.advance().is_ok());
    }
    assert_eq!(here.current_frame(), 25);
    assert_eq!(here.confirmed(), 15);
    // Frame 0 has left the ring of twelve snapshots.
    assert!(here.report(0, 0).is_none());
    // Frame 15 is stored and confirmed, but no checksum is due there.
    assert!(here.report(15, 0).is_none());
    // Frame 20 is stored, but rests on predictions.
    assert!(here.report(20, 0).is_none());
    // Frame 30 is yet to come.
    assert!(here.report(30, 0).is_none());
    let unknown = DesyncReport { frame: 20, peer: 1, checksum: 0 };
    assert_eq!(here.check_report(&unknown), Ok(false));
    let gone = DesyncReport { frame: 0, peer: 1, checksum: 0 };
    assert_eq!(here.check_report(&gone), Ok(false));
    // Once frame 20 is confirmed it is reported.
    for frame in 15..20 {
        assert!(here.add_remote_input(REMOTE, frame, CommandKind::Nothing).is_ok());
    }
    assert!(here.report(20, 0).is_some());
}

#[test]
fn no_report_without_an_interval() {
    let config = SessionConfig { desync_interval: 0, ..default_config(1) };
    let mut here = session(config);
    assert!(here.add_local_input(LOCAL, CommandKind::Nothing));
    assert!(here.advance().is_ok());
    assert!(here.report(0, 0).is_none());
}

fn centre(u: &Unit) -> Position {
    Position { x: u.position.x, y: u.position.y }
}

#[test]
fn a_pick_brings_the_selection_into_the_session() {
    let config = SessionConfig { input_delay: 0, ..default_config(2) };
    let mut session = Coordinator::new(config, spawn(42, 2)).unwrap();
    let go = CommandKind::Move { x: 500_000, y: 0 };
    // Nothing is selected: the order moves no unit.
    tick(&mut session, go);
    assert!(session.head().units.iter().all(|u| u.state.state != UnitState::Move));
    // The pick selects exactly the units under the cursor.
    let cursor = centre(&session.head().units[4]);
    let mut expected = session.head().duplicate();
    select(&mut expected.units, cursor);
    session.select(cursor);
    assert_eq!(*session.head(), expected);
    assert!(session.head().units[4].selected);
    // Now the order reaches the selected units of its player.
    tick(&mut session, go);
    assert_eq!(session.head().units[4].state.state, UnitState::Move);
    assert_eq!(session.head().units[4].target.x, 500_000);
    for u in session.head().units.iter() {
        let moves = u.state.state == UnitState::Move;
        assert_eq!(moves, u.selected && u.player.handle == LOCAL);
    }
}

#[test]
fn picks_are_applied_again_when_frames_are_simulated_again() {
    let config = SessionConfig { input_delay: 0, ..default_config(2) };
    let mut session = Coordinator::new(config, spawn(42, 2)).unwrap();
    assert_eq!(session.add_remote_input(REMOTE, 0, CommandKind::Nothing), Ok(Outcome::Confirmed));
    let first = Position { x: 0, y: 0 };
    session.select(first);
    assert!(session.head().units.iter().any(|u| u.selected && u.player.handle == REMOTE));
    let local = CommandKind::Move { x: -300_000, y: 100_000 };
    for _ in 0..3 {
        tick(&mut session, local);
    }
    let second = centre(&session.head().units[13]);
    session.select(second);
    for _ in 3..6 {
        tick(&mut session, local);
    }
    let predicted = session.head().duplicate();

    // A late command contradicts frame 1: frames 1 to 5 run again.
    let go = CommandKind::Move { x: 400_000, y: 400_000 };
    assert_eq!(session.add_remote_input(REMOTE, 1, go), Ok(Outcome::Resimulated { from: 1 }));
    assert_ne!(*session.head(), predicted);

    // The head is the straight run under the corrected commands, with each
    // pick at the start of its frame.
    let set = |frame: u32| {
        vec![
            order(LOCAL, local),
            order(REMOTE, if frame >= 1 { go } else { CommandKind::Nothing }),
        ]
    };
    let mut straight = WorldState::new(spawn(42, 2)).unwrap();
    select(&mut straight.units, first);
    for frame in 0..3 {
        straight.step(&set(frame));
    }
    select(&mut straight.units, second);
    for frame in 3..6 {
        straight.step(&set(frame));
    }
    assert_eq!(*session.head(), straight);
    assert!(session.head().units[13].selected);
}

#[test]
fn the_last_pick_of_a_frame_counts() {
    let mut session = Coordinator::new(default_config(1), spawn(7, 1)).unwrap();
    let a = centre(&session.head().units[2]);
    session.select(a);
    session.select(Position { x: 900_000, y: 900_000 });
    assert!(session.head().units.iter().all(|u| !u.selected));
    session.select(a);
    let mut expected = WorldState::new(spawn(7, 1)).unwrap();
    select(&mut expected.units, a);
    assert_eq!(*session.head(), expected);
    // A pick stores no snapshot and confirms no command.
    assert_eq!(session.current_frame(), 0);
    assert_eq!(session.confirmed(), 0);
}
