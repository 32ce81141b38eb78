use rollback_sim::component::{Player, Unit};
use rollback_sim::input::{Command, CommandKind};
use rollback_sim::rollback::{default_config, Coordinator, SessionConfig, SessionError};
use rollback_sim::tick::{RemoteCommand, TickReport};
use rollback_sim::unit::spawn;
use rollback_sim::world::WorldState;

const LOCAL: usize = 0;
const REMOTE: usize = 1;

fn units() -> Vec<Unit> {
    let mut units = spawn(42, 2);
    for u in units.iter_mut() {
        u.selected = true;
    }
    units
}

fn order(handle: usize, kind: CommandKind) -> Command {
    Command { player: Player { handle }, kind }
}

fn remote(frame: u32, kind: CommandKind) -> RemoteCommand {
    RemoteCommand { handle: REMOTE, frame, kind }
}

fn straight_run(history: &Vec<Vec<Command>>) -> WorldState {
    let mut world = WorldState::new(units()).unwrap();
    world.run(history);
    world
}

#[test]
fn a_tick_takes_the_mail_then_the_local_command_then_steps() {
    let config = SessionConfig { input_delay: 0, ..default_config(2) };
    let mut session = Coordinator::new(config, units()).unwrap();
    let go = CommandKind::Move { x: 5_000, y: 5_000 };
    let report =
        session.tick(&vec![remote(0, go)], &vec![order(LOCAL, CommandKind::Hold)]).unwrap();
    assert_eq!(report, TickReport { rewound_to: None, speculative: false });
    assert_eq!(session.current_frame(), 1);
    let expected = straight_run(&vec![vec![order(LOCAL, CommandKind::Hold), order(REMOTE, go)]]);
    assert_eq!(*session.head(), expected);
}

#[test]
fn a_late_command_is_corrected_before_the_local_command_of_the_tick() {
    let config = SessionConfig { input_delay: 0, ..default_config(2) };
    let mut session = Coordinator::new(config, units()).unwrap();
    let quiet = vec![order(LOCAL, CommandKind::Nothing)];
    let early: Vec<RemoteCommand> = (0..3).map(|f| remote(f, CommandKind::Nothing)).collect();
    assert_eq!(
        session.tick(&early, &quiet),
        Ok(TickReport { rewound_to: None, speculative: false })
    );
    for _ in 1..10 {
        assert!(session.tick(&Vec::new(), &quiet).is_ok());
    }
    // Frames 0 to 9 are simulated.
    assert_eq!(session.current_frame(), 10);

    // The command for frame 3 arrives with the tick of frame 10.
    let go = CommandKind::Move { x: 5_000, y: 5_000 };
    let hold = vec![order(LOCAL, CommandKind::Hold)];
    let report = session.tick(&vec![remote(3, go)], &hold).unwrap();
    assert_eq!(report, TickReport { rewound_to: Some(3), speculative: true });
    assert_eq!(session.current_frame(), 11);

    // Frames 3 to 9 ran again under the corrected command, then frame 10 ran
    // with the local command of this tick.
    let history: Vec<Vec<Command>> = (0..11)
        .map(|f| {
            vec![
                order(LOCAL, if f == 10 { CommandKind::Hold } else { CommandKind::Nothing }),
                order(REMOTE, if f >= 3 { go } else { CommandKind::Nothing }),
            ]
        })
        .collect();
    assert_eq!(*session.head(), straight_run(&history));
}

#[test]
fn a_delayed_local_command_applies_after_the_delay() {
    let mut session = Coordinator::new(default_config(2), units()).unwrap();
    let quiet = vec![order(LOCAL, CommandKind::Nothing)];
    for _ in 0..9 {
        assert!(session.tick(&Vec::new(), &quiet).is_ok());
    }
    let hold = vec![order(LOCAL, CommandKind::Hold)];
    assert!(session.tick(&Vec::new(), &hold).is_ok());
    // Taken at frame 9 with a delay of two frames.
    assert_eq!(session.commands_at(10)[LOCAL].kind, CommandKind::Nothing);
    assert_eq!(session.commands_at(11)[LOCAL].kind, CommandKind::Hold);
}

#[test]
fn the_report_names_the_earliest_corrected_frame() {
    let config = SessionConfig { input_delay: 0, ..default_config(2) };
    let mut session = Coordinator::new(config, units()).unwrap();
    let quiet = vec![order(LOCAL, CommandKind::Nothing)];
    for _ in 0..6 {
        assert!(session.tick(&Vec::new(), &quiet).is_ok());
    }
    let go = CommandKind::Move { x: 5_000, y: 5_000 };
    let mail = vec![
        remote(0, CommandKind::Nothing),
        remote(1, CommandKind::Nothing),
        remote(2, go),
        remote(3, go),
        remote(4, CommandKind::Hold),
        remote(9, CommandKind::Hold),
    ];
    let report = session.tick(&mail, &quiet).unwrap();
    assert_eq!(report.rewound_to, Some(2));
    assert_eq!(session.confirmed(), 5);
    let kinds = [CommandKind::Nothing, CommandKind::Nothing, go, go, CommandKind::Hold];
    let history: Vec<Vec<Command>> = (0..7)
        .map(|f| {
            vec![
                order(LOCAL, CommandKind::Nothing),
                order(REMOTE, if f < 5 { kinds[f] } else { CommandKind::Hold }),
            ]
        })
        .collect();
    assert_eq!(*session.head(), straight_run(&history));
}

#[test]
fn a_stalled_tick_keeps_the_commands() {
    let mut session = Coordinator::new(default_config(2), units()).unwrap();
    let quiet = vec![order(LOCAL, CommandKind::Nothing)];
    for _ in 0..12 {
        assert!(session.tick(&Vec::new(), &quiet).is_ok());
    }
    let go = CommandKind::Move { x: 5_000, y: 5_000 };
    let pressed = vec![order(LOCAL, go)];
    assert_eq!(session.tick(&Vec::new(), &pressed), Err(SessionError::PredictionWindowExceeded));
    assert_eq!(session.current_frame(), 12);
    assert_eq!(session.commands_at(14)[LOCAL].kind, go);
    // The confirmation arrives: the session goes on.
    let report = session.tick(&vec![remote(0, CommandKind::Nothing)], &quiet).unwrap();
    assert_eq!(report, TickReport { rewound_to: None, speculative: true });
    assert_eq!(session.current_frame(), 13);
    assert_eq!(session.commands_at(14)[LOCAL].kind, go);
}

#[test]
fn a_tick_fails_when_the_frame_to_go_back_to_is_gone() {
    let config = SessionConfig { snapshot_depth: 3, ..default_config(2) };
    let mut session = Coordinator::new(config, units()).unwrap();
    let quiet = vec![order(LOCAL, CommandKind::Nothing)];
    for _ in 0..8 {
        assert!(session.tick(&Vec::new(), &quiet).is_ok());
    }
    let go = CommandKind::Move { x: 5_000, y: 5_000 };
    let mail = vec![remote(0, CommandKind::Nothing), remote(1, go), remote(2, go)];
    assert_eq!(session.tick(&mail, &quiet), Err(SessionError::SnapshotUnavailable));
    assert_eq!(session.current_frame(), 8);
    // The command before the failing one was taken.
    assert_eq!(session.confirmed(), 1);
}

#[test]
fn drain_and_take_local_are_the_parts_of_a_tick() {
    let config = SessionConfig { input_delay: 0, ..default_config(2) };
    let mut whole = Coordinator::new(config, units()).unwrap();
    let mut parts = Coordinator::new(config, units()).unwrap();
    let go = CommandKind::Move { x: 5_000, y: 5_000 };
    for frame in 0..5u32 {
        let mail = if frame >= 2 { vec![remote(frame - 2, go)] } else { Vec::new() };
        let local = vec![order(LOCAL, CommandKind::Hold), order(7, CommandKind::Hold)];
        let report = whole.tick(&mail, &local).unwrap();
        let rewound_to = parts.drain(&mail).unwrap();
        parts.take_local(&local);
        let speculative = parts.advance().unwrap();
        assert_eq!(report, TickReport { rewound_to, speculative });
        assert_eq!(*whole.head(), *parts.head());
    }
    assert_eq!(parts.confirmed(), 3);
}
