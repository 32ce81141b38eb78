//! Commands: what a player asks of the selected units in one frame, and the
//! fixed-size record in which a command travels between peers.
use vstd::prelude::*;
use crate::component::{Player, Position, Unit};

verus! {

/// The one intent that a command carries.
#[derive(Clone, Copy, Debug, PartialEq, Eq, Structural)]
pub enum CommandKind {
    /// No order this frame.
    Nothing,
    /// Send the selected units to the world point `(x, y)`.
    Move { x: i64, y: i64 },
    /// Make the selected units hold their ground.
    Hold,
}

/// The order of one player for one frame.
#[derive(Clone, Copy, Debug, PartialEq, Eq, Structural)]
pub struct Command {
    pub player: Player,
    pub kind: CommandKind,
}

/// What `handle` orders in `commands`: the first entry of that player, and
/// nothing where the player has no entry.
pub open spec fn command_of(commands: Seq<Command>, handle: usize) -> CommandKind
    decreases commands.len(),
{
    if commands.len() == 0 {
        CommandKind::Nothing
    } else if commands[0].player.handle == handle {
        commands[0].kind
    } else {
        command_of(commands.drop_first(), handle)
    }
}

/// Looks up what `handle` orders in `commands`.
pub fn find_command(commands: &Vec<Command>, handle: usize) -> (kind: CommandKind)
    ensures
        kind == command_of(commands@, handle),
{
    let n: usize = commands.len();
    let mut i: usize = 0;
    assert(commands@.skip(0) =~= commands@);
    while i < n
        invariant
            i <= n,
            n == commands.len(),
            command_of(commands@, handle) == command_of(commands@.skip(i as int), handle),
        decreases n - i,
    {
        let c: Command = commands[i];
        assert(commands@.skip(i as int)[0] == c);
        if c.player.handle == handle {
            return c.kind;
        }
        assert(commands@.skip(i as int).drop_first() =~= commands@.skip(i + 1));
        i = i + 1;
    }
    CommandKind::Nothing
}

/// The bit of `GameInput::buttons` that marks a move order.
pub const INPUT_MOVE: u8 = 2;

/// The bit of `GameInput::buttons` that marks a hold order.
pub const INPUT_HOLD: u8 = 4;

/// The number of bytes of a command on the wire.
pub const RECORD_SIZE: usize = 17;

/// A command as it travels: a bit mask that names the intent, and the
/// coordinates of the target, which are zero unless the intent is a move.
///
/// The record has the same size for every command. On the wire it is the
/// mask followed by `x` and `y`, each as eight bytes in two's complement,
/// least significant byte first.
#[derive(Clone, Copy, Debug, PartialEq, Eq, Structural)]
pub struct GameInput {
    pub buttons: u8,
    pub x: i64,
    pub y: i64,
}

/// The record that carries `kind`.
pub open spec fn encoded(kind: CommandKind) -> GameInput {
    match kind {
        CommandKind::Nothing => GameInput { buttons: 0, x: 0, y: 0 },
        CommandKind::Move { x, y } => GameInput { buttons: INPUT_MOVE, x, y },
        CommandKind::Hold => GameInput { buttons: INPUT_HOLD, x: 0, y: 0 },
    }
}

/// The intent that `input` carries, if it is the record of one.
pub open spec fn decoded(input: GameInput) -> Option<CommandKind> {
    if input.buttons == INPUT_MOVE {
        Some(CommandKind::Move { x: input.x, y: input.y })
    } else if input.x != 0 || input.y != 0 {
        None
    } else if input.buttons == 0 {
        Some(CommandKind::Nothing)
    } else if input.buttons == INPUT_HOLD {
        Some(CommandKind::Hold)
    } else {
        None
    }
}

/// `x` as an unsigned 64-bit word in two's complement.
pub open spec fn word_of(x: i64) -> int {
    if x >= 0 {
        x as int
    } else {
        x + 0x1_0000_0000_0000_0000
    }
}

/// The signed value of the two's complement word `w`.
pub open spec fn value_of(w: int) -> i64 {
    if w < 0x8000_0000_0000_0000 {
        w as i64
    } else {
        (w - 0x1_0000_0000_0000_0000) as i64
    }
}

/// The eight bytes of the word `w`, least significant first.
pub open spec fn le_bytes(w: int) -> Seq<u8> {
    let w1 = w / 0x100;
    let w2 = w1 / 0x100;
    let w3 = w2 / 0x100;
    let w4 = w3 / 0x100;
    let w5 = w4 / 0x100;
    let w6 = w5 / 0x100;
    let w7 = w6 / 0x100;
    seq![
        (w % 0x100) as u8,
        (w1 % 0x100) as u8,
        (w2 % 0x100) as u8,
        (w3 % 0x100) as u8,
        (w4 % 0x100) as u8,
        (w5 % 0x100) as u8,
        (w6 % 0x100) as u8,
        (w7 % 0x100) as u8,
    ]
}

/// The word whose bytes, least significant first, are the eight bytes of
/// `b` from `at` on.
pub open spec fn le_word(b: Seq<u8>, at: int) -> int {
    b[at] + 0x100 * (b[at + 1] + 0x100 * (b[at + 2] + 0x100 * (b[at + 3] + 0x100 * (b[at + 4]
        + 0x100 * (b[at + 5] + 0x100 * (b[at + 6] + 0x100 * b[at + 7]))))))
}

/// The bytes of `input` on the wire.
pub open spec fn record_bytes(input: GameInput) -> Seq<u8> {
    seq![input.buttons] + le_bytes(word_of(input.x)) + le_bytes(word_of(input.y))
}

/// The record that the seventeen bytes `b` hold.
pub open spec fn record_of(b: Seq<u8>) -> GameInput {
    GameInput { buttons: b[0], x: value_of(le_word(b, 1)), y: value_of(le_word(b, 9)) }
}

impl GameInput {
    /// The record that carries `kind`.
    pub fn encode(kind: CommandKind) -> (input: GameInput)
        ensures
            input == encoded(kind),
            decoded(input) == Some(kind),
    {
        match kind {
            CommandKind::Nothing => GameInput { buttons: 0, x: 0, y: 0 },
            CommandKind::Move { x, y } => GameInput { buttons: INPUT_MOVE, x, y },
            CommandKind::Hold => GameInput { buttons: INPUT_HOLD, x: 0, y: 0 },
        }
    }

    /// The intent that the record carries. `None` for a record that no
    /// command encodes to: a mask other than zero, `INPUT_MOVE` or
    /// `INPUT_HOLD`, or coordinates other than zero without `INPUT_MOVE`.
    pub fn decode(&self) -> (kind: Option<CommandKind>)
        ensures
            kind == decoded(*self),
            kind is Some ==> encoded(kind->0) == *self,
    {
        if self.buttons == INPUT_MOVE {
            Some(CommandKind::Move { x: self.x, y: self.y })
        } else if self.x != 0 || self.y != 0 {
            None
        } else if self.buttons == 0 {
            Some(CommandKind::Nothing)
        } else if self.buttons == INPUT_HOLD {
            Some(CommandKind::Hold)
        } else {
            None
        }
    }

    /// The bytes of the record on the wire.
    pub fn to_bytes(&self) -> (bytes: [u8; 17])
        ensures
            bytes@ == record_bytes(*self),
            record_of(bytes@) == *self,
    {
        let a: [u8; 8] = word_to_le(self.x);
        let b: [u8; 8] = word_to_le(self.y);
        let bytes: [u8; 17] = [
            self.buttons,
            a[0],
            a[1],
            a[2],
            a[3],
            a[4],
            a[5],
            a[6],
            a[7],
            b[0],
            b[1],
            b[2],
            b[3],
            b[4],
            b[5],
            b[6],
            b[7],
        ];
        proof {
            assert(bytes@ =~= record_bytes(*self));
            lemma_word_round_trip(self.x);
            lemma_word_round_trip(self.y);
            assert(le_word(bytes@, 1) == le_word(a@, 0));
            assert(le_word(bytes@, 9) == le_word(b@, 0));
        }
        bytes
    }

    /// The record that seventeen bytes from the wire hold.
    pub fn from_bytes(bytes: &[u8; 17]) -> (input: GameInput)
        ensures
            input == record_of(bytes@),
            record_bytes(input) == bytes@,
    {
        let x: i64 = word_from_le(
            bytes[1],
            bytes[2],
            bytes[3],
            bytes[4],
            bytes[5],
            bytes[6],
            bytes[7],
            bytes[8],
        );
        let y: i64 = word_from_le(
            bytes[9],
            bytes[10],
            bytes[11],
            bytes[12],
            bytes[13],
            bytes[14],
            bytes[15],
            bytes[16],
        );
        let input = GameInput { buttons: bytes[0], x, y };
        proof {
            lemma_bytes_round_trip(bytes@, 1);
            lemma_bytes_round_trip(bytes@, 9);
            assert(record_bytes(input) =~= bytes@);
        }
        input
    }
}

/// A value survives the trip through its eight bytes.
pub proof fn lemma_word_round_trip(x: i64)
    ensures
        value_of(le_word(le_bytes(word_of(x)), 0)) == x,
        0 <= word_of(x) < 0x1_0000_0000_0000_0000,
{
    let w = word_of(x);
    let w1 = w / 0x100;
    let w2 = w1 / 0x100;
    let w3 = w2 / 0x100;
    let w4 = w3 / 0x100;
    let w5 = w4 / 0x100;
    let w6 = w5 / 0x100;
    let w7 = w6 / 0x100;
    assert(0 <= w7 < 0x100);
    assert(w6 == w6 % 0x100 + 0x100 * w7);
    assert(w5 == w5 % 0x100 + 0x100 * w6);
    assert(w4 == w4 % 0x100 + 0x100 * w5);
    assert(w3 == w3 % 0x100 + 0x100 * w4);
    assert(w2 == w2 % 0x100 + 0x100 * w3);
    assert(w1 == w1 % 0x100 + 0x100 * w2);
    assert(w == w % 0x100 + 0x100 * w1);
    assert(le_word(le_bytes(w), 0) == w);
}

/// Eight bytes survive the trip through the value they hold.
pub proof fn lemma_bytes_round_trip(b: Seq<u8>, at: int)
    requires
        0 <= at,
        at + 8 <= b.len(),
    ensures
        le_bytes(word_of(value_of(le_word(b, at)))) =~= b.subrange(at, at + 8),
        0 <= le_word(b, at) < 0x1_0000_0000_0000_0000,
{
    let w = le_word(b, at);
    let t7 = b[at + 7] as int;
    let t6 = b[at + 6] + 0x100 * t7;
    let t5 = b[at + 5] + 0x100 * t6;
    let t4 = b[at + 4] + 0x100 * t5;
    let t3 = b[at + 3] + 0x100 * t4;
    let t2 = b[at + 2] + 0x100 * t3;
    let t1 = b[at + 1] + 0x100 * t2;
    assert(w == b[at] + 0x100 * t1);
    assert(w / 0x100 == t1 && w % 0x100 == b[at]);
    assert(t1 / 0x100 == t2 && t1 % 0x100 == b[at + 1]);
    assert(t2 / 0x100 == t3 && t2 % 0x100 == b[at + 2]);
    assert(t3 / 0x100 == t4 && t3 % 0x100 == b[at + 3]);
    assert(t4 / 0x100 == t5 && t4 % 0x100 == b[at + 4]);
    assert(t5 / 0x100 == t6 && t5 % 0x100 == b[at + 5]);
    assert(t6 / 0x100 == t7 && t6 % 0x100 == b[at + 6]);
    assert(word_of(value_of(w)) == w);
}

/// The eight bytes of `x` in two's complement, least significant first.
fn word_to_le(x: i64) -> (bytes: [u8; 8])
    ensures
        bytes@ == le_bytes(word_of(x)),
{
    let w: u64 = if x >= 0 {
        x as u64
    } else {
        (x - i64::MIN) as u64 + 0x8000_0000_0000_0000
    };
    let w1: u64 = w / 0x100;
    let w2: u64 = w1 / 0x100;
    let w3: u64 = w2 / 0x100;
    let w4: u64 = w3 / 0x100;
    let w5: u64 = w4 / 0x100;
    let w6: u64 = w5 / 0x100;
    let w7: u64 = w6 / 0x100;
    let bytes: [u8; 8] = [
        (w % 0x100) as u8,
        (w1 % 0x100) as u8,
        (w2 % 0x100) as u8,
        (w3 % 0x100) as u8,
        (w4 % 0x100) as u8,
        (w5 % 0x100) as u8,
        (w6 % 0x100) as u8,
        (w7 % 0x100) as u8,
    ];
    assert(bytes@ =~= le_bytes(word_of(x)));
    bytes
}

/// The value whose two's complement bytes, least significant first, are
/// `b0` to `b7`.
fn word_from_le(b0: u8, b1: u8, b2: u8, b3: u8, b4: u8, b5: u8, b6: u8, b7: u8) -> (x: i64)
    ensures
        x == value_of(le_word(seq![b0, b1, b2, b3, b4, b5, b6, b7], 0)),
{
    let t7: u64 = b7 as u64;
    let t6: u64 = b6 as u64 + 0x100 * t7;
    let t5: u64 = b5 as u64 + 0x100 * t6;
    let t4: u64 = b4 as u64 + 0x100 * t5;
    let t3: u64 = b3 as u64 + 0x100 * t4;
    let t2: u64 = b2 as u64 + 0x100 * t3;
    let t1: u64 = b1 as u64 + 0x100 * t2;
    let w: u64 = b0 as u64 + 0x100 * t1;
    if w < 0x8000_0000_0000_0000 {
        w as i64
    } else {
        (w - 0x8000_0000_0000_0000) as i64 + i64::MIN
    }
}

/// The order that seventeen bytes from the wire carry: the intent of the
/// record they hold, and no order where that record is the record of no
/// command.
pub open spec fn received(bytes: Seq<u8>) -> CommandKind {
    match decoded(record_of(bytes)) {
        Some(kind) => kind,
        None => CommandKind::Nothing,
    }
}

/// The bytes of the command `kind` on the wire.
pub open spec fn sent_bytes(kind: CommandKind) -> Seq<u8> {
    record_bytes(encoded(kind))
}

/// The command of `player` that seventeen bytes from the wire carry.
///
/// Bytes that no command encodes to carry no order: a peer that sends
/// them orders nothing.
pub fn command_from_bytes(player: Player, bytes: &[u8; 17]) -> (command: Command)
    ensures
        command.player == player,
        command.kind == received(bytes@),
{
    let kind: CommandKind = match GameInput::from_bytes(bytes).decode() {
        Some(kind) => kind,
        None => CommandKind::Nothing,
    };
    Command { player, kind }
}

/// The bytes of a command on the wire.
pub fn command_to_bytes(command: &Command) -> (bytes: [u8; 17])
    ensures
        bytes@ == sent_bytes(command.kind),
        received(bytes@) == command.kind,
{
    let input: GameInput = GameInput::encode(command.kind);
    input.to_bytes()
}

/// `x` as an unsigned 64-bit word in two's complement.
pub fn to_word(x: i64) -> (w: u64)
    ensures
        w == word_of(x),
{
    if x >= 0 {
        x as u64
    } else {
        (x - i64::MIN) as u64 + 0x8000_0000_0000_0000
    }
}

/// What the local devices report in one frame. Points are points of the
/// world: the view transform has been applied before.
#[derive(Clone, Copy, Debug, PartialEq, Eq, Structural)]
pub struct DeviceEvents {
    /// Where the button that orders a move was pressed, if it was.
    pub move_click: Option<Position>,
    /// Whether the key that orders a hold was pressed.
    pub hold_key: bool,
}

/// `player` has a selected unit among `units`.
pub open spec fn has_selection(units: Seq<Unit>, player: Player) -> bool {
    exists|i: int| 0 <= i < units.len() && selected_by(#[trigger] units[i], player)
}

/// `u` is a selected unit of `player`.
pub open spec fn selected_by(u: Unit, player: Player) -> bool {
    u.player == player && u.selected
}

/// The intent of the events of one frame: nothing without a selection;
/// else a hold if its key was pressed; else a move to the point of the click,
/// if there was one; else nothing.
pub open spec fn intent(events: DeviceEvents, selection: bool) -> CommandKind {
    if !selection {
        CommandKind::Nothing
    } else if events.hold_key {
        CommandKind::Hold
    } else {
        match events.move_click {
            Some(p) => CommandKind::Move { x: p.x, y: p.y },
            None => CommandKind::Nothing,
        }
    }
}

/// Whether `player` has a selected unit among `units`.
pub fn any_selected(units: &Vec<Unit>, player: Player) -> (b: bool)
    ensures
        b == has_selection(units@, player),
{
    let n: usize = units.len();
    let mut i: usize = 0;
    while i < n
        invariant
            i <= n,
            n == units.len(),
            forall|k: int| 0 <= k < i ==> !selected_by(#[trigger] units@[k], player),
        decreases n - i,
    {
        if units[i].player.handle == player.handle && units[i].selected {
            assert(selected_by(units@[i as int], player));
            return true;
        }
        i = i + 1;
    }
    false
}

/// Turns the local events of one frame into the command of `player`.
///
/// The command carries world coordinates. Picking units is no command: it
/// changes the selection, which stays with the peer.
pub fn read_local_inputs(player: Player, events: &DeviceEvents, units: &Vec<Unit>) -> (command:
    Command)
    ensures
        command.player == player,
        command.kind == intent(*events, has_selection(units@, player)),
{
    let kind: CommandKind = if !any_selected(units, player) {
        CommandKind::Nothing
    } else if events.hold_key {
        CommandKind::Hold
    } else {
        match events.move_click {
            Some(p) => CommandKind::Move { x: p.x, y: p.y },
            None => CommandKind::Nothing,
        }
    };
    Command { player, kind }
}

/// Every command survives the trip through its record, and a record that
/// holds a command is the record of that command: no two records stand for
/// one command.
pub proof fn lemma_record_is_canonical(kind: CommandKind, input: GameInput)
    ensures
        decoded(encoded(kind)) == Some(kind),
        decoded(input) == Some(kind) ==> input == encoded(kind),
{
}

/// Every record survives the trip through its bytes, and seventeen bytes
/// survive the trip through the record they hold: the bytes of a command are
/// the same on every peer.
pub proof fn lemma_bytes_are_canonical(input: GameInput, bytes: Seq<u8>)
    requires
        bytes.len() == RECORD_SIZE,
    ensures
        record_bytes(input).len() == RECORD_SIZE,
        record_of(record_bytes(input)) == input,
        record_bytes(record_of(bytes)) == bytes,
{
    lemma_word_round_trip(input.x);
    lemma_word_round_trip(input.y);
    let wire = record_bytes(input);
    assert(le_word(wire, 1) == le_word(le_bytes(word_of(input.x)), 0));
    assert(le_word(wire, 9) == le_word(le_bytes(word_of(input.y)), 0));
    lemma_bytes_round_trip(bytes, 1);
    lemma_bytes_round_trip(bytes, 9);
    assert(record_bytes(record_of(bytes)) =~= bytes);
}

} // verus!
