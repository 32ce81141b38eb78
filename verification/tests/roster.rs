use rollback_sim::rollback::{default_config, SessionConfig, SessionError};
use rollback_sim::roster::{next_app_state, wait_for_players, AppState, PlayerKind, Seat};

fn names(list: &[&str]) -> Vec<String> {
    list.iter().map(|s| s.to_string()).collect()
}

#[test]
fn the_session_waits_for_its_players() {
    let config = default_config(2);
    assert_eq!(wait_for_players(&config, &names(&[]), 0), Ok(None));
    assert_eq!(wait_for_players(&config, &names(&["localhost"]), 0), Ok(None));
    assert_eq!(wait_for_players(&config, &names(&["127.0.0.1:7001"]), 3), Ok(None));
}

#[test]
fn a_full_roster_is_seated_in_order() {
    let config = default_config(2);
    let seats = wait_for_players(&config, &names(&["localhost", "127.0.0.1:7001"]), 0);
    assert_eq!(
        seats,
        Ok(Some(vec![
            Seat { handle: 0, kind: PlayerKind::Local, entry: 0 },
            Seat { handle: 1, kind: PlayerKind::Remote, entry: 1 },
        ]))
    );
    let seats = wait_for_players(&config, &names(&["10.0.0.2:7000", "localhost"]), 0);
    assert_eq!(
        seats,
        Ok(Some(vec![
            Seat { handle: 0, kind: PlayerKind::Remote, entry: 0 },
            Seat { handle: 1, kind: PlayerKind::Local, entry: 1 },
        ]))
    );
}

#[test]
fn only_the_exact_name_is_local() {
    let config = default_config(3);
    let seats =
        wait_for_players(&config, &names(&["Localhost", "localhost ", "localhost:7000"]), 0)
            .unwrap()
            .unwrap();
    assert!(seats.iter().all(|s| s.kind == PlayerKind::Remote));
    let config = default_config(2);
    let seats = wait_for_players(&config, &names(&["localhost", "localhost"]), 0).unwrap().unwrap();
    assert!(seats.iter().all(|s| s.kind == PlayerKind::Local));
}

#[test]
fn spectators_follow_the_players() {
    let config = default_config(2);
    let seats = wait_for_players(&config, &names(&["localhost", "127.0.0.1:7001"]), 2);
    assert_eq!(
        seats,
        Ok(Some(vec![
            Seat { handle: 0, kind: PlayerKind::Local, entry: 0 },
            Seat { handle: 1, kind: PlayerKind::Remote, entry: 1 },
            Seat { handle: 2, kind: PlayerKind::Spectator, entry: 0 },
            Seat { handle: 3, kind: PlayerKind::Spectator, entry: 1 },
        ]))
    );
}

#[test]
fn too_many_players_are_a_configuration_error() {
    let config = default_config(2);
    assert_eq!(
        wait_for_players(&config, &names(&["localhost", "a:1", "b:2"]), 0),
        Err(SessionError::ConfigurationError)
    );
}

#[test]
fn bad_parameters_are_a_configuration_error() {
    let config = SessionConfig { max_prediction_window: 0, ..default_config(2) };
    assert_eq!(
        wait_for_players(&config, &names(&["localhost", "a:1"]), 0),
        Err(SessionError::ConfigurationError)
    );
    assert_eq!(wait_for_players(&config, &names(&[]), 0), Err(SessionError::ConfigurationError));
}

#[test]
fn more_seats_than_can_be_counted_are_a_configuration_error() {
    let config = default_config(1);
    assert_eq!(
        wait_for_players(&config, &names(&["localhost"]), usize::MAX),
        Err(SessionError::ConfigurationError)
    );
}

#[test]
fn the_game_starts_once_seated_and_connected() {
    assert_eq!(next_app_state(AppState::Waiting, false, false), AppState::Waiting);
    assert_eq!(next_app_state(AppState::Waiting, true, false), AppState::Waiting);
    assert_eq!(next_app_state(AppState::Waiting, false, true), AppState::Waiting);
    assert_eq!(next_app_state(AppState::Waiting, true, true), AppState::InGame);
    assert_eq!(next_app_state(AppState::InGame, false, false), AppState::InGame);
    assert_eq!(next_app_state(AppState::InGame, true, true), AppState::InGame);
}
