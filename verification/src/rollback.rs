//! The rollback coordinator.
//!
//! The coordinator owns the head world and advances it frame by frame. For
//! each player it keeps the commands that are confirmed, frame by frame from
//! frame 0. A frame for which a player's command is not yet confirmed is
//! simulated with a prediction: the player's last confirmed command. When a
//! confirmed command arrives for a frame that was simulated with another
//! one, the coordinator goes back to the snapshot of that frame and
//! simulates again up to the head.
//!
//! The selection of the local player enters the session through picks. A
//! pick is no command and never leaves the peer, but it belongs to a frame:
//! the coordinator keeps it and applies it again whenever that frame is
//! reached again.
use vstd::prelude::*;
use crate::component::{Player, Position, Unit};
use crate::desync::{check_due, checksum_spec, mismatch, DesyncReport};
use crate::input::{command_of, Command, CommandKind};
use crate::snapshot::{
    holds_window, lemma_saved_again, lemma_saved_head, oldest_stored, saved, SnapshotStore,
};
use crate::unit::{lemma_pick_replaces, select, select_spec, units_valid, units_wf};
use crate::world::{run_spec, step_spec, World, WorldState};

verus! {

/// The parameters of a session.
#[derive(Clone, Copy, Debug, PartialEq, Eq, Structural)]
pub struct SessionConfig {
    /// How many players take part.
    pub num_players: usize,
    /// How many frames the head may run ahead of the last frame for which
    /// every player's command is confirmed.
    pub max_prediction_window: u32,
    /// How many frames pass between the capture of a local command and the
    /// frame it applies to.
    pub input_delay: u32,
    /// Every how many frames peers exchange checksums; zero for never.
    pub desync_interval: u32,
    /// How many snapshots are kept.
    pub snapshot_depth: usize,
}

/// What can go wrong in a session.
#[derive(Clone, Copy, Debug, PartialEq, Eq, Structural)]
pub enum SessionError {
    /// The parameters do not describe a session. Fatal at startup.
    ConfigurationError,
    /// The head is a full prediction window ahead of the confirmed frames.
    /// The tick is skipped; the session goes on once confirmations arrive.
    PredictionWindowExceeded,
    /// The frame to go back to is no longer stored. Fatal: the head can no
    /// longer be corrected.
    SnapshotUnavailable,
    /// A peer reports another checksum for a frame. Not fatal: the session
    /// goes on, diverged.
    ChecksumMismatch,
}

/// What became of a confirmed command.
#[derive(Clone, Copy, Debug, PartialEq, Eq, Structural)]
pub enum Outcome {
    /// Not the next command of a player of the session: nothing changed.
    Ignored,
    /// Recorded; the frames simulated so far stand.
    Confirmed,
    /// Recorded; the frames from `from` up to the head were simulated again.
    Resimulated { from: u32 },
}

/// Where a session stands.
#[derive(Clone, Copy, Debug, PartialEq, Eq, Structural)]
pub enum SessionPhase {
    /// Players are still missing.
    WaitingForPlayers,
    /// The head is ahead of the confirmed frames.
    Predicting,
    /// Frames are being simulated again after a wrong prediction.
    Resimulating,
    /// Every simulated frame is confirmed.
    Steady,
}

/// The default parameters: a window of 12 frames, a delay of 2 frames,
/// checksums every 10 frames, and as many snapshots as the window is long.
pub fn default_config(num_players: usize) -> (config: SessionConfig)
    ensures
        config == (SessionConfig {
            num_players,
            max_prediction_window: 12,
            input_delay: 2,
            desync_interval: 10,
            snapshot_depth: 12,
        }),
{
    SessionConfig {
        num_players,
        max_prediction_window: 12,
        input_delay: 2,
        desync_interval: 10,
        snapshot_depth: 12,
    }
}

/// The parameters describe a session: at least one player, a prediction
/// window of at least one frame, and at least one snapshot.
pub open spec fn config_valid(config: SessionConfig) -> bool {
    &&& config.num_players > 0
    &&& config.max_prediction_window > 0
    &&& config.snapshot_depth > 0
}

/// The snapshots reach back as far as the prediction window.
pub open spec fn config_consistent(config: SessionConfig) -> bool {
    config.snapshot_depth >= config.max_prediction_window
}

/// Checks the parameters of a session.
pub fn validate(config: &SessionConfig) -> (r: Result<(), SessionError>)
    ensures
        r is Ok <==> config_valid(*config),
        r is Err ==> r->Err_0 == SessionError::ConfigurationError,
{
    if config.num_players > 0 && config.max_prediction_window > 0 && config.snapshot_depth > 0 {
        Ok(())
    } else {
        Err(SessionError::ConfigurationError)
    }
}

/// The command of a player at `frame`, given the player's confirmed
/// commands: the confirmed one where there is one, else the last confirmed
/// one, else nothing.
pub open spec fn predicted_kind(log: Seq<CommandKind>, frame: int) -> CommandKind {
    if 0 <= frame < log.len() {
        log[frame]
    } else if log.len() > 0 {
        log.last()
    } else {
        CommandKind::Nothing
    }
}

/// The command set of `frame`: one command for each player, in order of
/// handle.
pub open spec fn command_set(logs: Seq<Seq<CommandKind>>, frame: int) -> Seq<Command> {
    Seq::new(
        logs.len(),
        |p: int| Command { player: Player { handle: p as usize }, kind: predicted_kind(logs[p], frame) },
    )
}

/// The command sets of the frames before `frames`.
pub open spec fn history(logs: Seq<Seq<CommandKind>>, frames: int) -> Seq<Seq<Command>> {
    Seq::new(frames as nat, |f: int| command_set(logs, f))
}

/// The number of frames from frame 0 on for which every player's command is
/// confirmed.
pub open spec fn confirmed_frames(logs: Seq<Seq<CommandKind>>) -> int
    decreases logs.len(),
{
    if logs.len() == 0 {
        0
    } else if logs.len() == 1 {
        logs[0].len() as int
    } else {
        let rest = confirmed_frames(logs.drop_last());
        if logs.last().len() < rest {
            logs.last().len() as int
        } else {
            rest
        }
    }
}

/// `log` extended to `frames` frames by its own predictions.
pub open spec fn padded(log: Seq<CommandKind>, frames: int) -> Seq<CommandKind> {
    Seq::new(frames as nat, |f: int| predicted_kind(log, f))
}

/// `world` after the pick of its frame, if there was one: the units under
/// the cursor are selected, and no others.
pub open spec fn with_pick(world: World, pick: Option<Position>) -> World {
    match pick {
        Some(cursor) => World { units: select_spec(world.units, cursor), ..world },
        None => world,
    }
}

/// Where the local player picked at the start of `frame`, if at all.
pub open spec fn pick_at(picks: Seq<Option<Position>>, frame: int) -> Option<Position> {
    if 0 <= frame < picks.len() {
        picks[frame]
    } else {
        None
    }
}

/// The world that `start` becomes under the command sets `sets`, one step
/// for each, where the pick of a frame is applied as soon as the world is at
/// that frame. The pick of the frame of `start` is taken to be applied
/// already.
pub open spec fn resumed(start: World, sets: Seq<Seq<Command>>, picks: Seq<Option<Position>>) -> World
    decreases sets.len(),
{
    if sets.len() == 0 {
        start
    } else {
        let stepped = step_spec(resumed(start, sets.drop_last(), picks), sets.last());
        with_pick(stepped, pick_at(picks, stepped.frame))
    }
}

/// The world of a session that started from `origin`, after the command
/// sets `sets` and the picks `picks`.
pub open spec fn session_world(
    origin: World,
    sets: Seq<Seq<Command>>,
    picks: Seq<Option<Position>>,
) -> World {
    resumed(with_pick(origin, pick_at(picks, origin.frame)), sets, picks)
}

/// `picks` after a pick at `cursor` at the start of `frame`: the last pick of
/// a frame counts.
pub open spec fn recorded(picks: Seq<Option<Position>>, frame: int, cursor: Position) -> Seq<
    Option<Position>,
> {
    Seq::new(
        if picks.len() > frame {
            picks.len()
        } else {
            (frame + 1) as nat
        },
        |f: int|
            if f == frame {
                Some(cursor)
            } else {
                pick_at(picks, f)
            },
    )
}

/// The views of the logs.
pub open spec fn logs_view(logs: Seq<Vec<CommandKind>>) -> Seq<Seq<CommandKind>> {
    Seq::new(logs.len(), |p: int| logs[p]@)
}

/// The rollback coordinator of one peer.
pub struct Coordinator {
    config: SessionConfig,
    world: WorldState,
    logs: Vec<Vec<CommandKind>>,
    store: SnapshotStore,
    picks: Vec<Option<Position>>,
    origin: Ghost<World>,
}

impl Coordinator {
    /// The parameters of the session.
    pub closed spec fn config(&self) -> SessionConfig {
        self.config
    }

    /// The head world.
    pub closed spec fn world(&self) -> World {
        self.world@
    }

    /// The world at frame 0.
    pub closed spec fn origin(&self) -> World {
        self.origin@
    }

    /// The confirmed commands of each player, frame by frame from frame 0.
    pub closed spec fn logs(&self) -> Seq<Seq<CommandKind>> {
        logs_view(self.logs@)
    }

    /// Where the local player picked, by frame; a frame beyond the end has
    /// no pick.
    pub closed spec fn picks(&self) -> Seq<Option<Position>> {
        self.picks@
    }

    /// The stored worlds, by frame.
    pub closed spec fn snapshots(&self) -> Map<int, World> {
        self.store@
    }

    /// The number of the frame that is simulated next.
    pub open spec fn frame(&self) -> int {
        self.world().frame
    }

    /// What the coordinator maintains. See `lemma_invariant` for what it
    /// says.
    pub closed spec fn wf(&self) -> bool {
        &&& config_valid(self.config)
        &&& self.logs.len() == self.config.num_players
        &&& self.world.wf()
        &&& self.origin@.frame == 0
        &&& units_wf(self.origin@.units)
        &&& self.world@ == session_world(self.origin@, history(self.logs(), self.world.frame as int), self.picks@)
        &&& self.store.wf()
        &&& self.store.depth() == self.config.snapshot_depth
        &&& holds_window(self.store@, self.world.frame as int, self.config.snapshot_depth as int)
        &&& forall|g: int| #[trigger]
            self.store@.contains_key(g) ==> self.store@[g] == session_world(self.origin@, history(self.logs(), g), self.picks@)
        &&& self.world.frame - confirmed_frames(self.logs()) <= self.config.max_prediction_window
        &&& self.picks.len() <= self.world.frame + 1
    }

    /// What holds of a coordinator between any two operations, whatever
    /// commands arrived in whatever order and however often it went back:
    ///
    /// - the head world is the world that a straight run from frame 0
    ///   reaches under the command sets in force, which hold each player's
    ///   confirmed commands and predictions for the rest, and under the
    ///   picks of the local player, each applied at the start of its frame;
    /// - each stored world is the world that this run passes at its frame;
    /// - the stored frames are the last `snapshot_depth` frames before the
    ///   head;
    /// - the head is at most a prediction window ahead of the confirmed
    ///   frames;
    /// - while the snapshots reach back as far as the prediction window, a
    ///   world leaves the ring only after every command that led to it is
    ///   confirmed.
    pub proof fn lemma_invariant(&self)
        requires
            self.wf(),
        ensures
            config_valid(self.config()),
            self.logs().len() == self.config().num_players,
            self.origin().frame == 0,
            0 <= self.frame() <= u32::MAX,
            units_wf(self.world().units),
            self.world() == session_world(self.origin(), history(self.logs(), self.frame()), self.picks()),
            holds_window(self.snapshots(), self.frame(), self.config().snapshot_depth as int),
            forall|g: int| #[trigger]
                self.snapshots().contains_key(g) ==> self.snapshots()[g] == session_world(self.origin(), history(self.logs(), g), self.picks()),
            forall|g: int| #[trigger]
                self.snapshots().contains_key(g) ==> self.snapshots()[g].frame == g && units_wf(
                    self.snapshots()[g].units,
                ),
            self.frame() - confirmed_frames(self.logs()) <= self.config().max_prediction_window,
            self.picks().len() <= self.frame() + 1,
            config_consistent(self.config()) ==> oldest_stored(
                self.frame(),
                self.config().snapshot_depth as int,
            ) <= confirmed_frames(self.logs()),
    {
        lemma_confirmed_frames_bounds(self.logs());
        self.store.lemma_stored_worlds();
    }

    /// A session at frame 0 with the given units, no command confirmed and
    /// no snapshot stored.
    pub fn new(config: SessionConfig, units: Vec<Unit>) -> (r: Result<Coordinator, SessionError>)
        ensures
            r is Ok <==> config_valid(config) && units_wf(units@),
            r is Err ==> r->Err_0 == SessionError::ConfigurationError,
            r is Ok ==> {
                let c = r->Ok_0;
                &&& c.wf()
                &&& c.config() == config
                &&& c.world() == (World { frame: 0, units: units@ })
                &&& c.origin() == c.world()
                &&& c.logs() == Seq::new(config.num_players as nat, |p: int| Seq::<CommandKind>::empty())
                &&& c.snapshots() == Map::<int, World>::empty()
                &&& c.picks() == Seq::<Option<Position>>::empty()
            },
    {
        if validate(&config).is_err() {
            return Err(SessionError::ConfigurationError);
        }
        if !units_valid(&units) {
            return Err(SessionError::ConfigurationError);
        }
        let store: SnapshotStore = match SnapshotStore::new(config.snapshot_depth) {
            Some(s) => s,
            None => {
                return Err(SessionError::ConfigurationError);
            },
        };
        let mut logs: Vec<Vec<CommandKind>> = Vec::new();
        let mut p: usize = 0;
        while p < config.num_players
            invariant
                p <= config.num_players,
                logs.len() == p,
                forall|q: int| 0 <= q < p ==> (#[trigger] logs@[q])@ == Seq::<CommandKind>::empty(),
            decreases config.num_players - p,
        {
            logs.push(Vec::new());
            p = p + 1;
        }
        let world = WorldState { frame: 0, units };
        let c = Coordinator {
            config,
            world,
            logs,
            store,
            picks: Vec::new(),
            origin: Ghost(world@),
        };
        proof {
            assert(c.logs() =~= Seq::new(
                config.num_players as nat,
                |p: int| Seq::<CommandKind>::empty(),
            ));
            assert(history(c.logs(), 0) =~= Seq::<Seq<Command>>::empty());
            lemma_confirmed_frames_bounds(c.logs());
        }
        Ok(c)
    }

    /// The number of the frame that is simulated next.
    pub fn current_frame(&self) -> (f: u32)
        ensures
            f == self.frame(),
    {
        self.world.frame
    }

    /// The head world.
    pub fn head(&self) -> (w: &WorldState)
        ensures
            w@ == self.world(),
    {
        &self.world
    }
}

/// The confirmed frames are the length of the shortest log.
pub proof fn lemma_confirmed_frames_bounds(logs: Seq<Seq<CommandKind>>)
    ensures
        0 <= confirmed_frames(logs),
        forall|p: int| 0 <= p < logs.len() ==> confirmed_frames(logs) <= (#[trigger] logs[p]).len(),
        logs.len() > 0 ==> exists|p: int|
            0 <= p < logs.len() && confirmed_frames(logs) == (#[trigger] logs[p]).len(),
    decreases logs.len(),
{
    if logs.len() > 1 {
        let rest = logs.drop_last();
        lemma_confirmed_frames_bounds(rest);
        assert forall|p: int| 0 <= p < logs.len() implies confirmed_frames(logs) <= (
        #[trigger] logs[p]).len() by {
            if p < rest.len() {
                assert(rest[p] == logs[p]);
            }
        }
        let q = choose|q: int| 0 <= q < rest.len() && confirmed_frames(rest) == (#[trigger] rest[q]).len();
        assert(rest[q] == logs[q]);
        if logs.last().len() < confirmed_frames(rest) {
            assert(confirmed_frames(logs) == logs[logs.len() - 1].len());
        } else {
            assert(confirmed_frames(logs) == logs[q].len());
        }
    } else if logs.len() == 1 {
        assert(confirmed_frames(logs) == logs[0].len());
    }
}

/// The command of a player at `frame`, given the player's confirmed
/// commands.
pub fn predict(log: &Vec<CommandKind>, frame: u32) -> (kind: CommandKind)
    ensures
        kind == predicted_kind(log@, frame as int),
{
    let n: usize = log.len();
    if (frame as usize) < n {
        log[frame as usize]
    } else if n > 0 {
        log[n - 1]
    } else {
        CommandKind::Nothing
    }
}

/// The command set of `frame` is the last of the history up to it.
pub proof fn lemma_history_grows(logs: Seq<Seq<CommandKind>>, frame: int)
    requires
        0 <= frame,
    ensures
        history(logs, frame + 1).drop_last() == history(logs, frame),
        history(logs, frame + 1).last() == command_set(logs, frame),
{
    assert(history(logs, frame + 1).drop_last() =~= history(logs, frame));
}

/// A resumed run ends as many frames after its start as it has command sets.
pub proof fn lemma_resumed_frame(
    start: World,
    sets: Seq<Seq<Command>>,
    picks: Seq<Option<Position>>,
)
    ensures
        resumed(start, sets, picks).frame == start.frame + sets.len(),
    decreases sets.len(),
{
    if sets.len() > 0 {
        lemma_resumed_frame(start, sets.drop_last(), picks);
    }
}

/// One more step of a session: the world of the next frame is the step of
/// the world of this frame, with the pick of the next frame applied.
pub proof fn lemma_session_grows(
    origin: World,
    logs: Seq<Seq<CommandKind>>,
    picks: Seq<Option<Position>>,
    frame: int,
)
    requires
        0 <= frame,
        origin.frame == 0,
    ensures
        session_world(origin, history(logs, frame + 1), picks) == with_pick(
            step_spec(
                session_world(origin, history(logs, frame), picks),
                command_set(logs, frame),
            ),
            pick_at(picks, frame + 1),
        ),
{
    lemma_history_grows(logs, frame);
    lemma_resumed_frame(
        with_pick(origin, pick_at(picks, origin.frame)),
        history(logs, frame),
        picks,
    );
}

/// A resumed run depends on the picks of the frames it passes, and on no
/// others.
pub proof fn lemma_picks_agree(
    start: World,
    sets: Seq<Seq<Command>>,
    first: Seq<Option<Position>>,
    second: Seq<Option<Position>>,
)
    requires
        forall|f: int|
            start.frame < f <= start.frame + sets.len() ==> pick_at(first, f) == pick_at(second, f),
    ensures
        resumed(start, sets, first) == resumed(start, sets, second),
    decreases sets.len(),
{
    if sets.len() > 0 {
        lemma_picks_agree(start, sets.drop_last(), first, second);
        lemma_resumed_frame(start, sets.drop_last(), first);
    }
}

/// A resumed run over command sets is the run over the first of them,
/// resumed over the rest.
pub proof fn lemma_resumed_split(
    start: World,
    sets: Seq<Seq<Command>>,
    picks: Seq<Option<Position>>,
    f: int,
)
    requires
        0 <= f <= sets.len(),
    ensures
        resumed(start, sets, picks) == resumed(
            resumed(start, sets.take(f), picks),
            sets.skip(f),
            picks,
        ),
    decreases sets.len(),
{
    if f == sets.len() {
        assert(sets.take(f) =~= sets);
        assert(sets.skip(f) =~= Seq::<Seq<Command>>::empty());
    } else {
        let shorter = sets.drop_last();
        lemma_resumed_split(start, shorter, picks, f);
        assert(shorter.take(f) =~= sets.take(f));
        assert(shorter.skip(f) =~= sets.skip(f).drop_last());
        assert(sets.skip(f).last() == sets.last());
    }
}

/// Without picks a session is a straight run.
pub proof fn lemma_without_picks(start: World, sets: Seq<Seq<Command>>)
    ensures
        resumed(start, sets, Seq::<Option<Position>>::empty()) == run_spec(start, sets),
        session_world(start, sets, Seq::<Option<Position>>::empty()) == run_spec(start, sets),
    decreases sets.len(),
{
    if sets.len() > 0 {
        lemma_without_picks(start, sets.drop_last());
    }
}

impl Coordinator {
    /// The command set of `frame`: each player's confirmed command, or the
    /// prediction where none is confirmed.
    pub fn commands_at(&self, frame: u32) -> (set: Vec<Command>)
        ensures
            set@ == command_set(self.logs(), frame as int),
    {
        let n: usize = self.logs.len();
        let mut set: Vec<Command> = Vec::new();
        let mut p: usize = 0;
        while p < n
            invariant
                p <= n,
                n == self.logs.len(),
                set.len() == p,
                forall|q: int|
                    0 <= q < p ==> set@[q] == (Command {
                        player: Player { handle: q as usize },
                        kind: predicted_kind(self.logs@[q]@, frame as int),
                    }),
            decreases n - p,
        {
            let kind: CommandKind = predict(&self.logs[p], frame);
            set.push(Command { player: Player { handle: p }, kind });
            p = p + 1;
        }
        assert(set@ =~= command_set(self.logs(), frame as int));
        set
    }

    /// The number of frames from frame 0 on for which every player's
    /// command is confirmed.
    pub fn confirmed(&self) -> (n: usize)
        requires
            self.wf(),
        ensures
            n == confirmed_frames(self.logs()),
    {
        let players: usize = self.logs.len();
        let mut least: usize = self.logs[0].len();
        let mut p: usize = 1;
        assert(self.logs().take(1) =~= seq![self.logs()[0]]);
        while p < players
            invariant
                1 <= p <= players,
                players == self.logs.len(),
                least == confirmed_frames(self.logs().take(p as int)),
            decreases players - p,
        {
            let len: usize = self.logs[p].len();
            proof {
                let next = self.logs().take(p + 1);
                assert(next.drop_last() =~= self.logs().take(p as int));
                assert(next.last() == self.logs@[p as int]@);
            }
            if len < least {
                least = len;
            }
            p = p + 1;
        }
        assert(self.logs().take(players as int) =~= self.logs());
        least
    }

    /// Where the session stands: `Predicting` while the head is ahead of the
    /// confirmed frames, `Steady` otherwise.
    pub fn phase(&self) -> (phase: SessionPhase)
        requires
            self.wf(),
        ensures
            phase == if confirmed_frames(self.logs()) < self.frame() {
                SessionPhase::Predicting
            } else {
                SessionPhase::Steady
            },
    {
        phase_of(true, false, self.world.frame, self.confirmed())
    }

    /// Simulates the next frame, unless the head is a full prediction window
    /// ahead of the confirmed frames.
    ///
    /// The frame runs under the command set in force: confirmed commands,
    /// and predictions for the players whose command is not confirmed yet.
    /// Before the step the head world is stored as the snapshot of the
    /// frame. The result says whether the frame was speculative, that is
    /// whether a prediction went into it.
    pub fn advance(&mut self) -> (r: Result<bool, SessionError>)
        requires
            old(self).wf(),
            old(self).frame() < u32::MAX,
        ensures
            final(self).wf(),
            final(self).config() == old(self).config(),
            final(self).origin() == old(self).origin(),
            final(self).logs() == old(self).logs(),
            final(self).picks() == old(self).picks(),
            old(self).frame() - confirmed_frames(old(self).logs()) >= old(
                self,
            ).config().max_prediction_window ==> {
                &&& r == Err::<bool, SessionError>(SessionError::PredictionWindowExceeded)
                &&& final(self).world() == old(self).world()
                &&& final(self).snapshots() == old(self).snapshots()
            },
            old(self).frame() - confirmed_frames(old(self).logs()) < old(
                self,
            ).config().max_prediction_window ==> {
                &&& r == Ok::<bool, SessionError>(
                    confirmed_frames(old(self).logs()) <= old(self).frame(),
                )
                &&& final(self).world() == step_spec(
                    old(self).world(),
                    command_set(old(self).logs(), old(self).frame()),
                )
                &&& final(self).snapshots() == saved(
                    old(self).snapshots(),
                    old(self).config().snapshot_depth as int,
                    old(self).frame(),
                    old(self).world(),
                )
            },
    {
        let head: u32 = self.world.frame;
        let done: usize = self.confirmed();
        if (head as usize) >= done && (head as usize) - done >= self.config.max_prediction_window as usize {
            return Err(SessionError::PredictionWindowExceeded);
        }
        let speculative: bool = done <= head as usize;
        let set: Vec<Command> = self.commands_at(head);
        self.store.save(&self.world);
        self.world.step(&set);
        proof {
            let logs = self.logs();
            lemma_session_grows(self.origin@, logs, self.picks@, head as int);
            lemma_saved_head(
                old(self).store@,
                self.config.snapshot_depth as int,
                head as int,
                old(self).world@,
            );
            assert forall|g: int| #[trigger] self.store@.contains_key(g) implies self.store@[g]
                == session_world(self.origin@, history(logs, g), self.picks@) by {
                if g != head {
                    assert(old(self).store@.contains_key(g));
                }
            }
        }
        Ok(speculative)
    }
}

/// `logs` after `kind` was confirmed as the next command of `handle`.
pub open spec fn confirmed_with(logs: Seq<Seq<CommandKind>>, handle: int, kind: CommandKind) -> Seq<
    Seq<CommandKind>,
> {
    logs.update(handle, logs[handle].push(kind))
}

/// `handle` is a player of the session and `frame` is the first frame for
/// which the player's command is not confirmed.
pub open spec fn is_next(logs: Seq<Seq<CommandKind>>, handle: int, frame: int) -> bool {
    0 <= handle < logs.len() && frame == logs[handle].len()
}

/// A command confirmed for a frame leaves the command sets of the frames
/// before it as they were.
pub proof fn lemma_confirm_keeps_past(
    logs: Seq<Seq<CommandKind>>,
    handle: int,
    kind: CommandKind,
    frames: int,
)
    requires
        0 <= handle < logs.len(),
        0 <= frames <= logs[handle].len(),
    ensures
        history(confirmed_with(logs, handle, kind), frames) == history(logs, frames),
{
    let after = confirmed_with(logs, handle, kind);
    assert forall|f: int| 0 <= f < frames implies command_set(after, f) == command_set(logs, f) by {
        assert(command_set(after, f) =~= command_set(logs, f));
    }
    assert(history(after, frames) =~= history(logs, frames));
}

/// A command confirmed as it was predicted leaves every command set as it
/// was.
pub proof fn lemma_confirm_as_predicted(
    logs: Seq<Seq<CommandKind>>,
    handle: int,
    kind: CommandKind,
    frames: int,
)
    requires
        0 <= handle < logs.len(),
        kind == predicted_kind(logs[handle], logs[handle].len() as int),
        0 <= frames,
    ensures
        history(confirmed_with(logs, handle, kind), frames) == history(logs, frames),
{
    let after = confirmed_with(logs, handle, kind);
    assert forall|f: int| 0 <= f < frames implies command_set(after, f) == command_set(logs, f) by {
        assert(command_set(after, f) =~= command_set(logs, f));
    }
    assert(history(after, frames) =~= history(logs, frames));
}

/// A confirmed command does not lower the number of confirmed frames.
pub proof fn lemma_confirm_keeps_count(logs: Seq<Seq<CommandKind>>, handle: int, kind: CommandKind)
    requires
        0 <= handle < logs.len(),
    ensures
        confirmed_frames(confirmed_with(logs, handle, kind)) >= confirmed_frames(logs),
{
    let after = confirmed_with(logs, handle, kind);
    lemma_confirmed_frames_bounds(logs);
    lemma_confirmed_frames_bounds(after);
    let q = choose|q: int| 0 <= q < after.len() && confirmed_frames(after) == (#[trigger] after[q]).len();
    assert(logs[q].len() <= after[q].len());
}

/// A log padded to its own length is the log, and padding by one more frame
/// appends the prediction for that frame.
pub proof fn lemma_padded(log: Seq<CommandKind>, frames: int)
    requires
        log.len() <= frames,
    ensures
        padded(log, log.len() as int) == log,
        padded(log, frames + 1) == padded(log, frames).push(
            predicted_kind(padded(log, frames), frames),
        ),
{
    assert(padded(log, log.len() as int) =~= log);
    assert(padded(log, frames + 1) =~= padded(log, frames).push(
        predicted_kind(padded(log, frames), frames),
    ));
}

impl Coordinator {
    /// What holds while the frames from `from` up to `head` are simulated
    /// again: the world is that of a straight run up to its frame, and the
    /// stored worlds of earlier frames are those of that run.
    closed spec fn replaying(&self, head: int, from: int) -> bool {
        &&& config_valid(self.config)
        &&& self.logs.len() == self.config.num_players
        &&& self.world.wf()
        &&& self.origin@.frame == 0
        &&& units_wf(self.origin@.units)
        &&& from <= self.world.frame <= head <= u32::MAX
        &&& self.world@ == session_world(self.origin@, history(self.logs(), self.world.frame as int), self.picks@)
        &&& self.store.wf()
        &&& self.store.depth() == self.config.snapshot_depth
        &&& holds_window(self.store@, head, self.config.snapshot_depth as int)
        &&& oldest_stored(head, self.config.snapshot_depth as int) <= from
        &&& forall|g: int|
            self.store@.contains_key(g) && g < self.world.frame ==> #[trigger] self.store@[g]
                == session_world(self.origin@, history(self.logs(), g), self.picks@)
        &&& head - confirmed_frames(self.logs()) <= self.config.max_prediction_window
        &&& self.picks.len() <= head + 1
    }

    /// Simulates frame after frame until the world is at `head`, storing
    /// each world before its step.
    fn replay(&mut self, head: u32, Ghost(from): Ghost<int>)
        requires
            old(self).replaying(head as int, from),
        ensures
            final(self).wf(),
            final(self).frame() == head,
            final(self).config() == old(self).config(),
            final(self).origin() == old(self).origin(),
            final(self).logs() == old(self).logs(),
            final(self).picks() == old(self).picks(),
            final(self).world() == session_world(
                old(self).origin(),
                history(old(self).logs(), head as int),
                old(self).picks(),
            ),
    {
        let ghost depth = self.config.snapshot_depth as int;
        while self.world.frame < head
            invariant
                self.replaying(head as int, from),
                self.config == old(self).config,
                self.origin == old(self).origin,
                self.logs() == old(self).logs(),
                self.picks@ == old(self).picks@,
                depth == self.config.snapshot_depth,
            decreases head - self.world.frame,
        {
            let ghost current = self.world.frame as int;
            let ghost stored = self.store@;
            let ghost world = self.world@;
            let set: Vec<Command> = self.commands_at(self.world.frame);
            self.store.save(&self.world);
            self.world.step(&set);
            let next: usize = self.world.frame as usize;
            if next < self.picks.len() {
                match self.picks[next] {
                    Some(cursor) => {
                        select(&mut self.world.units, cursor);
                    },
                    None => {},
                }
            }
            proof {
                lemma_session_grows(self.origin@, self.logs(), self.picks@, current);
                lemma_saved_again(stored, depth, head as int, current, world);
            }
        }
    }

    /// Records a command that contradicts its prediction and puts the world
    /// back to the snapshot of the command's frame, if that is stored;
    /// changes nothing if it is not.
    fn rewind(&mut self, handle: usize, frame: u32, kind: CommandKind) -> (found: bool)
        requires
            old(self).wf(),
            is_next(old(self).logs(), handle as int, frame as int),
            frame < old(self).frame(),
        ensures
            found == old(self).snapshots().contains_key(frame as int),
            final(self).config() == old(self).config(),
            final(self).origin() == old(self).origin(),
            final(self).picks() == old(self).picks(),
            !found ==> {
                &&& final(self).wf()
                &&& final(self).logs() == old(self).logs()
                &&& final(self).world() == old(self).world()
                &&& final(self).snapshots() == old(self).snapshots()
                &&& !config_consistent(old(self).config())
            },
            found ==> {
                &&& final(self).replaying(old(self).frame(), frame as int)
                &&& final(self).logs() == confirmed_with(old(self).logs(), handle as int, kind)
                &&& final(self).world() == old(self).snapshots()[frame as int]
            },
    {
        let ghost before = self.logs();
        let ghost after = confirmed_with(before, handle as int, kind);
        proof {
            lemma_confirmed_frames_bounds(before);
            assert(confirmed_frames(before) <= before[handle as int].len());
        }
        let restored: WorldState = match self.store.nearest_at_or_before(frame) {
            Some(snapshot) => {
                proof {
                    let depth = self.config.snapshot_depth as int;
                    let head = self.world.frame as int;
                    assert(self.store@.contains_key(snapshot.frame as int));
                    assert(oldest_stored(head, depth) <= snapshot.frame);
                    assert(self.store@.contains_key(frame as int));
                }
                snapshot.world.duplicate()
            },
            None => {
                assert(!self.store@.contains_key(frame as int));
                return false;
            },
        };
        assert(restored.frame == frame);
        self.logs[handle].push(kind);
        self.world = restored;
        proof {
            assert(self.logs() =~= after);
            lemma_confirm_keeps_past(before, handle as int, kind, frame as int);
            lemma_confirm_keeps_count(before, handle as int, kind);
            assert forall|g: int|
                self.store@.contains_key(g) && g < frame implies #[trigger] self.store@[g]
                == session_world(self.origin@, history(after, g), self.picks@) by {
                lemma_confirm_keeps_past(before, handle as int, kind, g);
            }
        }
        true
    }

    /// Appends `kind` to the log of `handle`, where that changes no frame
    /// simulated so far.
    fn append(&mut self, handle: usize, kind: CommandKind)
        requires
            old(self).wf(),
            handle < old(self).logs().len(),
            old(self).logs()[handle as int].len() >= old(self).frame() || kind == predicted_kind(
                old(self).logs()[handle as int],
                old(self).logs()[handle as int].len() as int,
            ),
        ensures
            final(self).wf(),
            final(self).config() == old(self).config(),
            final(self).origin() == old(self).origin(),
            final(self).picks() == old(self).picks(),
            final(self).world() == old(self).world(),
            final(self).snapshots() == old(self).snapshots(),
            final(self).logs() == confirmed_with(old(self).logs(), handle as int, kind),
    {
        let ghost before = self.logs();
        self.logs[handle].push(kind);
        proof {
            let after = confirmed_with(before, handle as int, kind);
            assert(self.logs() =~= after);
            let head = self.world.frame as int;
            lemma_confirm_keeps_count(before, handle as int, kind);
            if before[handle as int].len() >= head {
                lemma_confirm_keeps_past(before, handle as int, kind, head);
            } else {
                lemma_confirm_as_predicted(before, handle as int, kind, head);
            }
            assert forall|g: int| #[trigger] self.store@.contains_key(g) implies self.store@[g]
                == session_world(self.origin@, history(after, g), self.picks@) by {
                if before[handle as int].len() >= head {
                    lemma_confirm_keeps_past(before, handle as int, kind, g);
                } else {
                    lemma_confirm_as_predicted(before, handle as int, kind, g);
                }
            }
        }
    }

    /// Replaces the local selection by the units of the head world under the
    /// cursor, which is given as a point of the world.
    ///
    /// A pick belongs to the frame at which it is made. It travels in no
    /// command, but it is part of the session: when frames are simulated
    /// again, each pick is applied again at the start of its frame, so a
    /// correction does not undo it. Of several picks in one frame the last
    /// counts.
    pub fn select(&mut self, cursor: Position)
        requires
            old(self).wf(),
        ensures
            final(self).wf(),
            final(self).config() == old(self).config(),
            final(self).origin() == old(self).origin(),
            final(self).logs() == old(self).logs(),
            final(self).snapshots() == old(self).snapshots(),
            final(self).picks() == recorded(old(self).picks(), old(self).frame(), cursor),
            final(self).world() == (World {
                units: select_spec(old(self).world().units, cursor),
                ..old(self).world()
            }),
    {
        let head: usize = self.world.frame as usize;
        let ghost before = self.picks@;
        let ghost logs = self.logs();
        while self.picks.len() <= head
            invariant
                head == self.world.frame,
                self.picks.len() <= head + 1,
                before.len() <= self.picks.len(),
                forall|f: int| 0 <= f < self.picks.len() ==> self.picks@[f] == pick_at(before, f),
                self.config == old(self).config,
                self.world == old(self).world,
                self.logs == old(self).logs,
                self.store == old(self).store,
                self.origin == old(self).origin,
            decreases head + 1 - self.picks.len(),
        {
            self.picks.push(None);
        }
        self.picks.set(head, Some(cursor));
        select(&mut self.world.units, cursor);
        proof {
            let after = self.picks@;
            assert(after =~= recorded(before, head as int, cursor));
            let origin = self.origin@;
            let opened = with_pick(origin, pick_at(before, 0));
            let reopened = with_pick(origin, pick_at(after, 0));
            assert forall|g: int| 0 <= g < head implies session_world(origin, history(logs, g), after)
                == session_world(origin, history(logs, g), before) by {
                assert(opened == reopened);
                lemma_picks_agree(opened, history(logs, g), before, after);
            }
            lemma_pick_again(old(self).world@, pick_at(before, head as int), cursor);
            if head == 0 {
                assert(history(logs, 0) =~= Seq::<Seq<Command>>::empty());
                lemma_pick_again(origin, pick_at(before, 0), cursor);
            } else {
                lemma_session_grows(origin, logs, before, head - 1);
                lemma_session_grows(origin, logs, after, head - 1);
                let stepped = step_spec(
                    session_world(origin, history(logs, head - 1), before),
                    command_set(logs, head - 1),
                );
                lemma_pick_again(stepped, pick_at(before, head as int), cursor);
            }
        }
    }

    /// Records the command that `handle` gave for `frame`, and corrects the
    /// head if that frame was simulated with another command.
    ///
    /// Commands are confirmed in frame order: one that is not the next of
    /// its player is ignored. If the frame is yet to be simulated, or was
    /// simulated with this very command, the command is recorded and nothing
    /// else changes. Otherwise the prediction was wrong: the coordinator
    /// records the command, restores the snapshot of `frame` and simulates
    /// the frames from `frame` up to the head again, under the command sets
    /// now in force, storing each world on the way. The head is then the
    /// world that a straight run under these command sets reaches.
    ///
    /// If the snapshot of `frame` is no longer stored, nothing changes and
    /// the error is `SnapshotUnavailable`. This cannot happen while the
    /// snapshots reach back as far as the prediction window.
    pub fn add_remote_input(&mut self, handle: usize, frame: u32, kind: CommandKind) -> (r: Result<
        Outcome,
        SessionError,
    >)
        requires
            old(self).wf(),
        ensures
            final(self).wf(),
            final(self).config() == old(self).config(),
            final(self).origin() == old(self).origin(),
            final(self).picks() == old(self).picks(),
            final(self).frame() == old(self).frame(),
            ({
                let logs = old(self).logs();
                let accepted = is_next(logs, handle as int, frame as int);
                let mispredicted = accepted && frame < old(self).frame() && kind != predicted_kind(
                    logs[handle as int],
                    frame as int,
                );
                let stored = old(self).snapshots().contains_key(frame as int);
                &&& !accepted ==> r == Ok::<Outcome, SessionError>(Outcome::Ignored)
                &&& accepted && !mispredicted ==> r == Ok::<Outcome, SessionError>(
                    Outcome::Confirmed,
                )
                &&& mispredicted && stored ==> r == Ok::<Outcome, SessionError>(
                    Outcome::Resimulated { from: frame },
                )
                &&& mispredicted && !stored ==> r == Err::<Outcome, SessionError>(
                    SessionError::SnapshotUnavailable,
                )
                &&& r is Ok && accepted ==> final(self).logs() == confirmed_with(
                    logs,
                    handle as int,
                    kind,
                )
                &&& !(r is Ok && accepted) ==> final(self).logs() == logs
                &&& !(mispredicted && stored) ==> final(self).world() == old(self).world()
                    && final(self).snapshots() == old(self).snapshots()
                &&& mispredicted && stored ==> final(self).world() == resumed(
                    old(self).snapshots()[frame as int],
                    history(final(self).logs(), old(self).frame()).skip(frame as int),
                    old(self).picks(),
                )
                &&& r is Err ==> !config_consistent(old(self).config())
            }),
    {
        if handle >= self.logs.len() || (frame as usize) != self.logs[handle].len() {
            return Ok(Outcome::Ignored);
        }
        let head: u32 = self.world.frame;
        let expected: CommandKind = predict(&self.logs[handle], frame);
        if frame >= head || kind == expected {
            self.append(handle, kind);
            return Ok(Outcome::Confirmed);
        }
        let ghost before = self.logs();
        let ghost after = confirmed_with(before, handle as int, kind);
        if !self.rewind(handle, frame, kind) {
            return Err(SessionError::SnapshotUnavailable);
        }
        self.replay(head, Ghost(frame as int));
        proof {
            let full = history(after, head as int);
            lemma_resumed_split(
                with_pick(self.origin@, pick_at(self.picks@, 0)),
                full,
                self.picks@,
                frame as int,
            );
            assert(full.take(frame as int) =~= history(after, frame as int));
            lemma_confirm_keeps_past(before, handle as int, kind, frame as int);
        }
        Ok(Outcome::Resimulated { from: frame })
    }

    /// Records the command that the local player `handle` gives now. It
    /// applies `input_delay` frames after the head frame.
    ///
    /// The frames of the player that lie before that frame and are not
    /// confirmed yet are confirmed as they were predicted, so no frame
    /// simulated so far changes. A command for a player outside the session,
    /// or for a frame that already has one, is refused.
    pub fn add_local_input(&mut self, handle: usize, kind: CommandKind) -> (accepted: bool)
        requires
            old(self).wf(),
        ensures
            final(self).wf(),
            final(self).config() == old(self).config(),
            final(self).origin() == old(self).origin(),
            final(self).picks() == old(self).picks(),
            final(self).world() == old(self).world(),
            final(self).snapshots() == old(self).snapshots(),
            ({
                let logs = old(self).logs();
                let target = old(self).frame() + old(self).config().input_delay;
                &&& accepted == (handle < logs.len() && logs[handle as int].len() <= target)
                &&& accepted ==> final(self).logs() == logs.update(
                    handle as int,
                    padded(logs[handle as int], target).push(kind),
                )
                &&& !accepted ==> final(self).logs() == logs
            }),
    {
        if handle >= self.logs.len() {
            return false;
        }
        let target: u64 = self.world.frame as u64 + self.config.input_delay as u64;
        if self.logs[handle].len() as u64 > target {
            return false;
        }
        let ghost first = self.logs();
        let ghost log = first[handle as int];
        proof {
            lemma_padded(log, log.len() as int);
            assert(first.update(handle as int, log) =~= first);
        }
        while (self.logs[handle].len() as u64) < target
            invariant
                self.wf(),
                self.config() == old(self).config(),
                self.origin() == old(self).origin(),
                self.picks() == old(self).picks(),
                self.world() == old(self).world(),
                self.snapshots() == old(self).snapshots(),
                handle < self.logs.len(),
                first == old(self).logs(),
                log == first[handle as int],
                handle < first.len(),
                target == old(self).frame() + old(self).config().input_delay,
                log.len() <= self.logs()[handle as int].len() <= target,
                self.logs() == first.update(
                    handle as int,
                    padded(log, self.logs()[handle as int].len() as int),
                ),
            decreases target - self.logs[handle as int].len(),
        {
            let length: usize = self.logs[handle].len();
            let ghost current = self.logs();
            let next: CommandKind = if length > 0 {
                self.logs[handle][length - 1]
            } else {
                CommandKind::Nothing
            };
            proof {
                lemma_padded(log, length as int);
            }
            self.append(handle, next);
            proof {
                assert(self.logs() =~= first.update(handle as int, padded(log, length + 1)));
            }
        }
        let ghost current = self.logs();
        self.append(handle, kind);
        proof {
            assert(self.logs() =~= first.update(
                handle as int,
                padded(log, target as int).push(kind),
            ));
        }
        true
    }
}

/// The phase of a session: waiting until the roster is complete; then
/// resimulating while frames are simulated again; else predicting while the
/// head is ahead of the confirmed frames; else steady.
pub open spec fn phase_spec(roster_complete: bool, replaying: bool, head: int, confirmed: int) -> SessionPhase {
    if !roster_complete {
        SessionPhase::WaitingForPlayers
    } else if replaying {
        SessionPhase::Resimulating
    } else if confirmed < head {
        SessionPhase::Predicting
    } else {
        SessionPhase::Steady
    }
}

/// The phase of a session with the head at `head` and `confirmed` confirmed
/// frames.
pub fn phase_of(roster_complete: bool, replaying: bool, head: u32, confirmed: usize) -> (phase:
    SessionPhase)
    ensures
        phase == phase_spec(roster_complete, replaying, head as int, confirmed as int),
{
    if !roster_complete {
        SessionPhase::WaitingForPlayers
    } else if replaying {
        SessionPhase::Resimulating
    } else if confirmed < head as usize {
        SessionPhase::Predicting
    } else {
        SessionPhase::Steady
    }
}

/// A pick replaces the selection, so of the pick that a world has taken and
/// a pick that follows, only the second counts.
pub proof fn lemma_pick_again(world: World, first: Option<Position>, second: Position)
    ensures
        with_pick(with_pick(world, first), Some(second)) == with_pick(world, Some(second)),
{
    match first {
        Some(cursor) => {
            lemma_pick_replaces(world.units, cursor, second);
        },
        None => {},
    }
}

impl SessionError {
    /// Whether the session ends on this error: on a bad configuration and on
    /// a missing snapshot, not on a full prediction window or a checksum
    /// mismatch.
    pub fn is_fatal(&self) -> (fatal: bool)
        ensures
            fatal == (*self == SessionError::ConfigurationError || *self
                == SessionError::SnapshotUnavailable),
    {
        match self {
            SessionError::ConfigurationError => true,
            SessionError::SnapshotUnavailable => true,
            SessionError::PredictionWindowExceeded => false,
            SessionError::ChecksumMismatch => false,
        }
    }
}

impl Coordinator {
    /// The world of `frame` is stored and every command that led to it is
    /// confirmed, so every peer must hold the same world for that frame.
    pub open spec fn comparable(&self, frame: int) -> bool {
        frame <= confirmed_frames(self.logs()) && self.snapshots().contains_key(frame)
    }

    /// What this peer reports of `frame` to the others: the checksum of the
    /// stored world of that frame. `None` unless checksums are due at
    /// `frame` and the frame is comparable.
    pub fn report(&self, frame: u32, peer: usize) -> (r: Option<DesyncReport>)
        requires
            self.wf(),
        ensures
            r is Some <==> (self.config().desync_interval > 0 && frame
                % self.config().desync_interval == 0 && self.comparable(frame as int)),
            r is Some ==> r->0.frame == frame && r->0.peer == peer && r->0.checksum
                == checksum_spec(self.snapshots()[frame as int]),
    {
        if !check_due(frame, self.config.desync_interval) {
            return None;
        }
        if frame as usize > self.confirmed() {
            return None;
        }
        match self.store.get(frame) {
            Some(snapshot) => Some(DesyncReport { frame, peer, checksum: snapshot.checksum }),
            None => None,
        }
    }

    /// Holds the report of another peer against this peer's world of the
    /// same frame.
    ///
    /// `Ok(true)` when the checksums agree, `ChecksumMismatch` when they
    /// differ, and `Ok(false)` when the frame is not comparable here, so
    /// that nothing can be said. The coordinator is not changed: after a
    /// mismatch the session goes on.
    pub fn check_report(&self, remote: &DesyncReport) -> (r: Result<bool, SessionError>)
        requires
            self.wf(),
        ensures
            !self.comparable(remote.frame as int) ==> r == Ok::<bool, SessionError>(false),
            self.comparable(remote.frame as int) && remote.checksum == checksum_spec(
                self.snapshots()[remote.frame as int],
            ) ==> r == Ok::<bool, SessionError>(true),
            self.comparable(remote.frame as int) && remote.checksum != checksum_spec(
                self.snapshots()[remote.frame as int],
            ) ==> r == Err::<bool, SessionError>(SessionError::ChecksumMismatch),
    {
        if remote.frame as usize > self.confirmed() {
            return Ok(false);
        }
        match self.store.get(remote.frame) {
            Some(snapshot) => {
                let local = DesyncReport {
                    frame: snapshot.frame,
                    peer: remote.peer,
                    checksum: snapshot.checksum,
                };
                if mismatch(&local, remote) {
                    Err(SessionError::ChecksumMismatch)
                } else {
                    Ok(true)
                }
            },
            None => Ok(false),
        }
    }
}

/// A command set is complete: it has one entry for each player, and what a
/// step finds in it for a player is that player's confirmed or predicted
/// command.
pub proof fn lemma_command_set_complete(logs: Seq<Seq<CommandKind>>, frame: int, handle: usize)
    requires
        handle < logs.len() <= usize::MAX,
    ensures
        command_set(logs, frame).len() == logs.len(),
        command_of(command_set(logs, frame), handle) == predicted_kind(logs[handle as int], frame),
{
    let set = command_set(logs, frame);
    lemma_command_found(set, handle, 0);
    assert(set.skip(0) =~= set);
}

/// In a list whose entries are in order of handle, the entry of a player is
/// found at the player's handle.
proof fn lemma_command_found(set: Seq<Command>, handle: usize, from: int)
    requires
        0 <= from <= handle < set.len(),
        forall|p: int| 0 <= p < set.len() ==> (#[trigger] set[p]).player.handle == p,
    ensures
        command_of(set.skip(from), handle) == set[handle as int].kind,
    decreases handle - from,
{
    let rest = set.skip(from);
    assert(rest[0] == set[from]);
    if from < handle {
        assert(rest.drop_first() =~= set.skip(from + 1));
        lemma_command_found(set, handle, from + 1);
    }
}

/// The command sets of confirmed frames depend on the confirmed commands
/// alone: logs that agree on the first `frames` commands of every player, and
/// hold that many, give the same history up to `frames`.
pub proof fn lemma_confirmed_history(
    first: Seq<Seq<CommandKind>>,
    second: Seq<Seq<CommandKind>>,
    frames: int,
)
    requires
        first.len() == second.len(),
        0 <= frames <= confirmed_frames(first),
        frames <= confirmed_frames(second),
        forall|p: int, f: int|
            0 <= p < first.len() && 0 <= f < frames ==> first[p][f] == second[p][f],
    ensures
        history(first, frames) == history(second, frames),
{
    lemma_confirmed_frames_bounds(first);
    lemma_confirmed_frames_bounds(second);
    assert forall|f: int| 0 <= f < frames implies command_set(first, f) == command_set(
        second,
        f,
    ) by {
        assert forall|p: int| 0 <= p < first.len() implies command_set(first, f)[p]
            == command_set(second, f)[p] by {
            assert(f < first[p].len() && f < second[p].len());
        }
        assert(command_set(first, f) =~= command_set(second, f));
    }
    assert(history(first, frames) =~= history(second, frames));
}

/// Peers agree on confirmed frames: two coordinators that started from the
/// same world, hold the same confirmed commands for the frames before
/// `frame` and took the same picks up to `frame` store the same world for
/// `frame`, whatever they predicted on the way and however often they went
/// back. Their checksums for that frame are
/// therefore equal.
pub proof fn lemma_peers_agree(here: &Coordinator, there: &Coordinator, frame: int)
    requires
        here.wf(),
        there.wf(),
        here.origin() == there.origin(),
        here.logs().len() == there.logs().len(),
        here.comparable(frame),
        there.comparable(frame),
        forall|p: int, f: int|
            0 <= p < here.logs().len() && 0 <= f < frame ==> here.logs()[p][f]
                == there.logs()[p][f],
        forall|f: int| 0 <= f <= frame ==> pick_at(here.picks(), f) == pick_at(there.picks(), f),
    ensures
        here.snapshots()[frame] == there.snapshots()[frame],
        checksum_spec(here.snapshots()[frame]) == checksum_spec(there.snapshots()[frame]),
{
    here.lemma_invariant();
    there.lemma_invariant();
    lemma_confirmed_history(here.logs(), there.logs(), frame);
    lemma_picks_agree(
        with_pick(here.origin(), pick_at(here.picks(), 0)),
        history(here.logs(), frame),
        here.picks(),
        there.picks(),
    );
}

} // verus!
