use rollback_sim::component::{Player, Position, Unit};
use rollback_sim::input::{
    any_selected, command_from_bytes, command_to_bytes, find_command, read_local_inputs, to_word, Command, CommandKind, DeviceEvents,
    GameInput, INPUT_HOLD, INPUT_MOVE, RECORD_SIZE,
};

fn order(handle: usize, kind: CommandKind) -> Command {
    Command { player: Player { handle }, kind }
}

fn unit(id: u32, handle: usize, selected: bool) -> Unit {
    let mut u = Unit::new(id, handle, 0, 0, 5_000, 10_000).unwrap();
    u.selected = selected;
    u
}

#[test]
fn each_intent_has_its_record() {
    assert_eq!(GameInput::encode(CommandKind::Nothing), GameInput { buttons: 0, x: 0, y: 0 });
    assert_eq!(
        GameInput::encode(CommandKind::Hold),
        GameInput { buttons: INPUT_HOLD, x: 0, y: 0 }
    );
    assert_eq!(
        GameInput::encode(CommandKind::Move { x: 1_500, y: -2_500 }),
        GameInput { buttons: INPUT_MOVE, x: 1_500, y: -2_500 }
    );
    assert_eq!(INPUT_MOVE, 1 << 1);
    assert_eq!(INPUT_HOLD, 1 << 2);
}

#[test]
fn decode_inverts_encode() {
    let kinds = [
        CommandKind::Nothing,
        CommandKind::Hold,
        CommandKind::Move { x: 0, y: 0 },
        CommandKind::Move { x: 1_500, y: -2_500 },
        CommandKind::Move { x: i64::MAX, y: i64::MIN },
    ];
    for kind in kinds {
        assert_eq!(GameInput::encode(kind).decode(), Some(kind));
    }
}

#[test]
fn decode_refuses_what_no_command_encodes_to() {
    assert_eq!(GameInput { buttons: 1, x: 0, y: 0 }.decode(), None);
    assert_eq!(GameInput { buttons: INPUT_MOVE | INPUT_HOLD, x: 0, y: 0 }.decode(), None);
    assert_eq!(GameInput { buttons: 8, x: 0, y: 0 }.decode(), None);
    assert_eq!(GameInput { buttons: 0, x: 1, y: 0 }.decode(), None);
    assert_eq!(GameInput { buttons: 0, x: 0, y: -1 }.decode(), None);
    assert_eq!(GameInput { buttons: INPUT_HOLD, x: 5, y: 5 }.decode(), None);
}

#[test]
fn the_record_has_a_fixed_size() {
    assert_eq!(RECORD_SIZE, 17);
    assert_eq!(GameInput::encode(CommandKind::Nothing).to_bytes().len(), RECORD_SIZE);
    assert_eq!(
        GameInput::encode(CommandKind::Move { x: i64::MAX, y: i64::MIN }).to_bytes().len(),
        RECORD_SIZE
    );
}

#[test]
fn bytes_are_little_endian_twos_complement() {
    let bytes = GameInput { buttons: INPUT_MOVE, x: 1, y: -1 }.to_bytes();
    assert_eq!(
        bytes,
        [2, 1, 0, 0, 0, 0, 0, 0, 0, 255, 255, 255, 255, 255, 255, 255, 255]
    );
    let bytes = GameInput { buttons: INPUT_MOVE, x: 0x0102_0304_0506_0708, y: -2 }.to_bytes();
    assert_eq!(
        bytes,
        [2, 8, 7, 6, 5, 4, 3, 2, 1, 254, 255, 255, 255, 255, 255, 255, 255]
    );
    assert_eq!(GameInput { buttons: 0, x: 0, y: 0 }.to_bytes(), [0u8; 17]);
}

#[test]
fn bytes_agree_with_the_standard_encoding() {
    for x in [0, 1, -1, 255, 256, -256, 1_000_000_000, -1_000_000_000, i64::MAX, i64::MIN] {
        let bytes = GameInput { buttons: INPUT_MOVE, x, y: x.wrapping_neg() }.to_bytes();
        assert_eq!(bytes[1..9], x.to_le_bytes());
        assert_eq!(bytes[9..17], x.wrapping_neg().to_le_bytes());
        assert_eq!(to_word(x), x as u64);
    }
}

#[test]
fn from_bytes_inverts_to_bytes() {
    let inputs = [
        GameInput { buttons: 0, x: 0, y: 0 },
        GameInput { buttons: INPUT_HOLD, x: 0, y: 0 },
        GameInput { buttons: INPUT_MOVE, x: 123_456_789, y: -987_654_321 },
        GameInput { buttons: 255, x: i64::MIN, y: i64::MAX },
    ];
    for input in inputs {
        assert_eq!(GameInput::from_bytes(&input.to_bytes()), input);
    }
}

#[test]
fn to_bytes_inverts_from_bytes() {
    let mut bytes = [0u8; 17];
    for (i, b) in bytes.iter_mut().enumerate() {
        *b = (i as u8).wrapping_mul(37).wrapping_add(200);
    }
    assert_eq!(GameInput::from_bytes(&bytes).to_bytes(), bytes);
    let all = [255u8; 17];
    assert_eq!(GameInput::from_bytes(&all), GameInput { buttons: 255, x: -1, y: -1 });
    assert_eq!(GameInput::from_bytes(&all).to_bytes(), all);
}

#[test]
fn a_command_survives_the_wire() {
    let kind = CommandKind::Move { x: -7_250, y: 12_000 };
    let bytes = GameInput::encode(kind).to_bytes();
    assert_eq!(GameInput::from_bytes(&bytes).decode(), Some(kind));
}

#[test]
fn find_command_takes_the_first_entry_of_the_player() {
    let commands = vec![
        order(1, CommandKind::Hold),
        order(0, CommandKind::Move { x: 1, y: 2 }),
        order(0, CommandKind::Hold),
    ];
    assert_eq!(find_command(&commands, 0), CommandKind::Move { x: 1, y: 2 });
    assert_eq!(find_command(&commands, 1), CommandKind::Hold);
    assert_eq!(find_command(&commands, 2), CommandKind::Nothing);
    assert_eq!(find_command(&Vec::new(), 0), CommandKind::Nothing);
}

#[test]
fn a_click_becomes_a_move_order_in_world_coordinates() {
    let units = vec![unit(0, 0, true)];
    let events = DeviceEvents { move_click: Some(Position { x: 4_500, y: -300 }), hold_key: false };
    let command = read_local_inputs(Player { handle: 0 }, &events, &units);
    assert_eq!(command, order(0, CommandKind::Move { x: 4_500, y: -300 }));
}

#[test]
fn the_hold_key_becomes_a_hold_order() {
    let units = vec![unit(0, 0, true)];
    let events = DeviceEvents { move_click: None, hold_key: true };
    assert_eq!(
        read_local_inputs(Player { handle: 0 }, &events, &units),
        order(0, CommandKind::Hold)
    );
}

#[test]
fn hold_goes_before_move() {
    let units = vec![unit(0, 0, true)];
    let events = DeviceEvents { move_click: Some(Position { x: 1, y: 1 }), hold_key: true };
    assert_eq!(read_local_inputs(Player { handle: 0 }, &events, &units).kind, CommandKind::Hold);
}

#[test]
fn no_event_is_no_order() {
    let units = vec![unit(0, 0, true)];
    let events = DeviceEvents { move_click: None, hold_key: false };
    assert_eq!(
        read_local_inputs(Player { handle: 0 }, &events, &units),
        order(0, CommandKind::Nothing)
    );
}

#[test]
fn without_a_selection_there_is_no_order() {
    let units = vec![unit(0, 0, false), unit(1, 1, true)];
    let events = DeviceEvents { move_click: Some(Position { x: 1, y: 1 }), hold_key: true };
    assert_eq!(read_local_inputs(Player { handle: 0 }, &events, &units).kind, CommandKind::Nothing);
    assert_eq!(read_local_inputs(Player { handle: 1 }, &events, &units).kind, CommandKind::Hold);
    assert!(!any_selected(&units, Player { handle: 0 }));
    assert!(any_selected(&units, Player { handle: 1 }));
    assert!(!any_selected(&Vec::new(), Player { handle: 0 }));
}

#[test]
fn a_command_is_read_from_its_bytes() {
    let go = CommandKind::Move { x: -7_250, y: 12_000 };
    for kind in [CommandKind::Nothing, CommandKind::Hold, go] {
        let bytes = command_to_bytes(&order(1, kind));
        assert_eq!(bytes, GameInput::encode(kind).to_bytes());
        assert_eq!(command_from_bytes(Player { handle: 1 }, &bytes), order(1, kind));
    }
}

#[test]
fn bytes_of_no_command_carry_no_order() {
    let mut bytes = [0u8; 17];
    bytes[0] = INPUT_MOVE | INPUT_HOLD;
    assert_eq!(command_from_bytes(Player { handle: 0 }, &bytes), order(0, CommandKind::Nothing));
    bytes[0] = 1;
    assert_eq!(command_from_bytes(Player { handle: 0 }, &bytes), order(0, CommandKind::Nothing));
    bytes[0] = INPUT_HOLD;
    bytes[5] = 9;
    assert_eq!(command_from_bytes(Player { handle: 0 }, &bytes), order(0, CommandKind::Nothing));
    bytes[0] = INPUT_MOVE;
    assert_eq!(
        command_from_bytes(Player { handle: 3 }, &bytes),
        order(3, CommandKind::Move { x: 9 << 32, y: 0 })
    );
    assert_eq!(command_from_bytes(Player { handle: 0 }, &[255u8; 17]).kind, CommandKind::Nothing);
}
