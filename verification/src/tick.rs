//! One tick of a session.
//!
//! A tick takes what arrived since the last one, then the local commands,
//! then simulates one frame. Remote commands are taken at this boundary
//! only, never in the middle of a step, so every step sees a fixed set of
//! commands; a correction that they cause is complete before the local
//! commands of the tick are taken. Picks are made between ticks, through
//! `Coordinator::select`; a tick leaves them as they are.
use vstd::prelude::*;
use crate::input::{Command, CommandKind};
use crate::rollback::{
    config_consistent, confirmed_frames, confirmed_with, is_next, padded, predicted_kind,
    Coordinator, Outcome, SessionError,
};
use crate::snapshot::oldest_stored;

verus! {

/// A confirmed command of a player as it arrives from the transport.
#[derive(Clone, Copy, Debug, PartialEq, Eq, Structural)]
pub struct RemoteCommand {
    pub handle: usize,
    pub frame: u32,
    pub kind: CommandKind,
}

/// What a tick did besides simulating a frame.
#[derive(Clone, Copy, Debug, PartialEq, Eq, Structural)]
pub struct TickReport {
    /// The earliest frame that was simulated again, if a prediction was
    /// wrong.
    pub rewound_to: Option<u32>,
    /// Whether a prediction went into the frame that was simulated.
    pub speculative: bool,
}

/// `m` is the next command of its player, and contradicts what was predicted
/// for a frame before `head`.
pub open spec fn contradicts(logs: Seq<Seq<CommandKind>>, m: RemoteCommand, head: int) -> bool {
    &&& is_next(logs, m.handle as int, m.frame as int)
    &&& m.frame < head
    &&& m.kind != predicted_kind(logs[m.handle as int], m.frame as int)
}

/// The logs after the commands of `mailbox` were taken in order, with the
/// head at `head` and `depth` snapshots. `None` if one of them contradicts a
/// frame that is no longer stored.
pub open spec fn drained(
    logs: Seq<Seq<CommandKind>>,
    mailbox: Seq<RemoteCommand>,
    head: int,
    depth: int,
) -> Option<Seq<Seq<CommandKind>>>
    decreases mailbox.len(),
{
    if mailbox.len() == 0 {
        Some(logs)
    } else {
        match drained(logs, mailbox.drop_last(), head, depth) {
            None => None,
            Some(before) => {
                let m = mailbox.last();
                if !is_next(before, m.handle as int, m.frame as int) {
                    Some(before)
                } else if contradicts(before, m, head) && m.frame < oldest_stored(head, depth) {
                    None
                } else {
                    Some(confirmed_with(before, m.handle as int, m.kind))
                }
            },
        }
    }
}

/// The commands of `mailbox` before place `n` were taken and gave `logs`, and
/// the command at place `n` could not be taken.
pub open spec fn stops_at(
    first: Seq<Seq<CommandKind>>,
    mailbox: Seq<RemoteCommand>,
    head: int,
    depth: int,
    logs: Seq<Seq<CommandKind>>,
    n: int,
) -> bool {
    &&& 0 <= n < mailbox.len()
    &&& drained(first, mailbox.take(n), head, depth) == Some(logs)
    &&& drained(first, mailbox.take(n + 1), head, depth) is None
}

/// `logs` are the logs after the commands of `mailbox` were taken up to the
/// first that could not be.
pub open spec fn taken_before_failure(
    first: Seq<Seq<CommandKind>>,
    mailbox: Seq<RemoteCommand>,
    head: int,
    depth: int,
    logs: Seq<Seq<CommandKind>>,
) -> bool {
    exists|n: int| stops_at(first, mailbox, head, depth, logs, n)
}

/// The earliest frame that a command of `mailbox` contradicts.
pub open spec fn rewound(
    logs: Seq<Seq<CommandKind>>,
    mailbox: Seq<RemoteCommand>,
    head: int,
    depth: int,
) -> Option<u32>
    decreases mailbox.len(),
{
    if mailbox.len() == 0 {
        None
    } else {
        let earlier = rewound(logs, mailbox.drop_last(), head, depth);
        match drained(logs, mailbox.drop_last(), head, depth) {
            None => earlier,
            Some(before) => {
                let m = mailbox.last();
                if contradicts(before, m, head) && (earlier is None || m.frame < earlier->0) {
                    Some(m.frame)
                } else {
                    earlier
                }
            },
        }
    }
}

/// The logs after the local commands `local` were taken in order for the
/// frame `target`.
pub open spec fn taken(logs: Seq<Seq<CommandKind>>, local: Seq<Command>, target: int) -> Seq<
    Seq<CommandKind>,
>
    decreases local.len(),
{
    if local.len() == 0 {
        logs
    } else {
        let before = taken(logs, local.drop_last(), target);
        let c = local.last();
        let handle = c.player.handle as int;
        if handle < before.len() && before[handle].len() <= target {
            before.update(handle, padded(before[handle], target).push(c.kind))
        } else {
            before
        }
    }
}

impl Coordinator {
    /// Takes the commands that arrived, in order, and corrects the head
    /// where one contradicts a prediction.
    ///
    /// Stops at the first command whose frame is no longer stored, with
    /// `SnapshotUnavailable`; the commands before it are taken.
    pub fn drain(&mut self, mailbox: &Vec<RemoteCommand>) -> (r: Result<Option<u32>, SessionError>)
        requires
            old(self).wf(),
        ensures
            final(self).wf(),
            final(self).config() == old(self).config(),
            final(self).origin() == old(self).origin(),
            final(self).picks() == old(self).picks(),
            final(self).frame() == old(self).frame(),
            ({
                let head = old(self).frame();
                let depth = old(self).config().snapshot_depth as int;
                let logs = drained(old(self).logs(), mailbox@, head, depth);
                &&& logs is None <==> r is Err
                &&& r is Err ==> r->Err_0 == SessionError::SnapshotUnavailable
                    && !config_consistent(old(self).config())
                &&& r is Err ==> taken_before_failure(
                    old(self).logs(),
                    mailbox@,
                    head,
                    depth,
                    final(self).logs(),
                )
                &&& r is Ok ==> final(self).logs() == logs->0 && r->Ok_0 == rewound(
                    old(self).logs(),
                    mailbox@,
                    head,
                    depth,
                )
            }),
    {
        let n: usize = mailbox.len();
        let ghost first = self.logs();
        let ghost head = self.frame();
        let ghost depth = self.config().snapshot_depth as int;
        let mut earliest: Option<u32> = None;
        let mut i: usize = 0;
        assert(mailbox@.take(0) =~= Seq::<RemoteCommand>::empty());
        while i < n
            invariant
                i <= n,
                n == mailbox.len(),
                self.wf(),
                self.config() == old(self).config(),
                self.origin() == old(self).origin(),
                self.picks() == old(self).picks(),
                self.frame() == head,
                head == old(self).frame(),
                depth == old(self).config().snapshot_depth,
                first == old(self).logs(),
                drained(first, mailbox@.take(i as int), head, depth) == Some(self.logs()),
                earliest == rewound(first, mailbox@.take(i as int), head, depth),
            decreases n - i,
        {
            let m: RemoteCommand = mailbox[i];
            proof {
                self.lemma_invariant();
                let next = mailbox@.take(i + 1);
                assert(next.drop_last() =~= mailbox@.take(i as int));
                assert(next.last() == m);
            }
            match self.add_remote_input(m.handle, m.frame, m.kind) {
                Ok(Outcome::Resimulated { from }) => {
                    let sooner: bool = match earliest {
                        Some(e) => from < e,
                        None => true,
                    };
                    if sooner {
                        earliest = Some(from);
                    }
                },
                Ok(_) => {},
                Err(_) => {
                    proof {
                        lemma_drained_stays_none(first, mailbox@, i + 1, head, depth);
                        assert(stops_at(first, mailbox@, head, depth, self.logs(), i as int));
                    }
                    return Err(SessionError::SnapshotUnavailable);
                },
            }
            i = i + 1;
        }
        assert(mailbox@.take(n as int) =~= mailbox@);
        Ok(earliest)
    }

    /// Takes the local commands of this tick, each for the frame
    /// `input_delay` frames after the head. A command of a player outside the
    /// session, or of a player who has given one for that frame, is dropped.
    pub fn take_local(&mut self, local: &Vec<Command>)
        requires
            old(self).wf(),
        ensures
            final(self).wf(),
            final(self).config() == old(self).config(),
            final(self).origin() == old(self).origin(),
            final(self).picks() == old(self).picks(),
            final(self).world() == old(self).world(),
            final(self).snapshots() == old(self).snapshots(),
            final(self).logs() == taken(
                old(self).logs(),
                local@,
                old(self).frame() + old(self).config().input_delay,
            ),
    {
        let n: usize = local.len();
        let ghost target = self.frame() + self.config().input_delay;
        let mut i: usize = 0;
        assert(local@.take(0) =~= Seq::<Command>::empty());
        while i < n
            invariant
                i <= n,
                n == local.len(),
                self.wf(),
                self.config() == old(self).config(),
                self.origin() == old(self).origin(),
                self.picks() == old(self).picks(),
                self.world() == old(self).world(),
                self.snapshots() == old(self).snapshots(),
                target == old(self).frame() + old(self).config().input_delay,
                self.logs() == taken(old(self).logs(), local@.take(i as int), target),
            decreases n - i,
        {
            let c: Command = local[i];
            proof {
                let next = local@.take(i + 1);
                assert(next.drop_last() =~= local@.take(i as int));
                assert(next.last() == c);
            }
            let _accepted: bool = self.add_local_input(c.player.handle, c.kind);
            i = i + 1;
        }
        assert(local@.take(n as int) =~= local@);
    }

    /// One tick: takes the commands that arrived, then the local commands,
    /// then simulates the next frame.
    ///
    /// - `SnapshotUnavailable` if an arrived command contradicts a frame
    ///   that is no longer stored. The session cannot go on.
    /// - `PredictionWindowExceeded` if, after all commands were taken, the
    ///   head is still a full prediction window ahead of the confirmed
    ///   frames. The commands are kept and no frame is simulated; a later
    ///   tick goes on.
    /// - Else the head has advanced by one frame, and the report names the
    ///   earliest frame that was simulated again, if any.
    pub fn tick(&mut self, mailbox: &Vec<RemoteCommand>, local: &Vec<Command>) -> (r: Result<
        TickReport,
        SessionError,
    >)
        requires
            old(self).wf(),
            old(self).frame() < u32::MAX,
        ensures
            final(self).wf(),
            final(self).config() == old(self).config(),
            final(self).origin() == old(self).origin(),
            final(self).picks() == old(self).picks(),
            ({
                let head = old(self).frame();
                let config = old(self).config();
                let depth = config.snapshot_depth as int;
                let arrived = drained(old(self).logs(), mailbox@, head, depth);
                let logs = taken(arrived->0, local@, head + config.input_delay);
                let stalled = head - confirmed_frames(logs) >= config.max_prediction_window;
                &&& arrived is None ==> r == Err::<TickReport, SessionError>(
                    SessionError::SnapshotUnavailable,
                ) && final(self).frame() == head && !config_consistent(config)
                    && taken_before_failure(
                    old(self).logs(),
                    mailbox@,
                    head,
                    depth,
                    final(self).logs(),
                )
                &&& arrived is Some ==> final(self).logs() == logs
                &&& arrived is Some && stalled ==> r == Err::<TickReport, SessionError>(
                    SessionError::PredictionWindowExceeded,
                ) && final(self).frame() == head
                &&& arrived is Some && !stalled ==> r == Ok::<TickReport, SessionError>(
                    TickReport {
                        rewound_to: rewound(old(self).logs(), mailbox@, head, depth),
                        speculative: confirmed_frames(logs) <= head,
                    },
                ) && final(self).frame() == head + 1
            }),
    {
        let rewound_to: Option<u32> = match self.drain(mailbox) {
            Ok(frame) => frame,
            Err(_) => {
                return Err(SessionError::SnapshotUnavailable);
            },
        };
        self.take_local(local);
        match self.advance() {
            Ok(speculative) => Ok(TickReport { rewound_to, speculative }),
            Err(_) => Err(SessionError::PredictionWindowExceeded),
        }
    }
}

/// Once a command could not be taken, the rest of the mailbox changes
/// nothing.
pub proof fn lemma_drained_stays_none(
    logs: Seq<Seq<CommandKind>>,
    mailbox: Seq<RemoteCommand>,
    n: int,
    head: int,
    depth: int,
)
    requires
        0 <= n <= mailbox.len(),
        drained(logs, mailbox.take(n), head, depth) is None,
    ensures
        drained(logs, mailbox, head, depth) is None,
    decreases mailbox.len() - n,
{
    if n < mailbox.len() {
        let next = mailbox.take(n + 1);
        assert(next.drop_last() =~= mailbox.take(n));
        lemma_drained_stays_none(logs, mailbox, n + 1, head, depth);
    } else {
        assert(mailbox.take(n) =~= mailbox);
    }
}

} // verus!
