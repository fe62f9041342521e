//! The writer task as a state machine.  One task owns the log: it takes the
//! commands from the queue in the order in which they arrived, has each one
//! appended and flushed before it is applied, and folds the log into a
//! snapshot when it has grown past the threshold.  The machine decides; its
//! driver does what the machine asks for (it reads the queue, writes the
//! files, applies to the shared store) and reports back what happened.

use crate::db::{Command, CommandView};
use crate::error::{DbError, DbResult};
use crate::wal::{check_snapshot_needed, encode_frame, frame, is_oversize, outgrown};
use vstd::prelude::*;

verus! {

/// The number of commands that the ingestion queue holds before a sender
/// has to wait for room.
pub const QUEUE_CAPACITY: usize = 1024;

/// Where the pipeline stands in its life.
#[derive(Clone, Copy, Debug, PartialEq, Eq, Structural)]
pub enum Phase {
    /// Commands are accepted and worked off.
    Running,
    /// The queue takes nothing new; what it holds is still worked off.
    Draining,
    /// The writer has left.
    Stopped,
}

/// What the writer is waiting for.
pub enum Stage {
    /// The next command from the queue.
    Idle,
    /// The frame of this command to be appended and flushed.
    Appending(Command),
    /// The command to be applied to the shared store.
    Applying,
    /// The size of the log file.
    Measuring,
    /// The snapshot to be written and moved into place.
    Installing,
    /// The log to be cut to length zero.
    Truncating,
    /// Nothing: the writer has left.
    Stopped,
}

/// The writer task.
pub struct WalTask {
    stage: Stage,
    draining: bool,
    max_wal_size: u64,
}

/// What the driver reports to the writer.
pub enum Event {
    /// The queue handed over its next command.
    Received(Command),
    /// The queue is closed and empty.
    QueueClosed,
    /// A shutdown was asked for.
    ShutdownRequested,
    /// The frame is in the log file and flushed.
    Appended,
    /// The command has been applied to the shared store.
    Applied,
    /// The log file has this many bytes.
    Measured(u64),
    /// The snapshot has been written, flushed and moved into place.
    Installed,
    /// The log file has been cut to length zero.
    Truncated,
    /// What the writer asked for failed.
    Failed(DbError),
}

/// What the writer asks its driver to do next.
pub enum Action {
    /// Wait for the next command of the queue.
    Receive,
    /// Close the queue to new commands, then wait for the next one that it
    /// still holds.
    Close,
    /// Append these bytes to the log file and flush it.
    Append(Vec<u8>),
    /// Apply this command to the shared store, under the exclusive lock.
    Apply(Command),
    /// Measure the log file.
    Measure,
    /// Write the snapshot of the shared store to a temporary file, flush it
    /// and rename it over the snapshot file.
    Compact,
    /// Cut the log file to length zero and flush it.
    Truncate,
    /// Leave, with this result.
    Stop(DbResult<()>),
}

/// `Stage` as a mathematical value.
pub enum StageView {
    Idle,
    Appending(CommandView),
    Applying,
    Measuring,
    Installing,
    Truncating,
    Stopped,
}

/// `WalTask` as a mathematical value.
pub struct TaskView {
    pub stage: StageView,
    pub draining: bool,
    pub max_wal_size: u64,
}

/// `Event` as a mathematical value.
pub enum EventView {
    Received(CommandView),
    QueueClosed,
    ShutdownRequested,
    Appended,
    Applied,
    Measured(u64),
    Installed,
    Truncated,
    Failed(DbError),
}

/// Why the writer leaves.
pub enum Ending {
    /// The queue was closed and is worked off.
    Finished,
    /// This failure was reported to it.
    Broken(DbError),
    /// A command was too large for a frame.
    TooLarge,
    /// It was told of something that it was not waiting for.
    OutOfTurn,
}

/// `Action` as a mathematical value.
pub enum ActionView {
    Receive,
    Close,
    Append(Seq<u8>),
    Apply(CommandView),
    Measure,
    Compact,
    Truncate,
    Stop(Ending),
}

impl View for Stage {
    type V = StageView;

    open spec fn view(&self) -> StageView {
        match self {
            Stage::Idle => StageView::Idle,
            Stage::Appending(c) => StageView::Appending(c@),
            Stage::Applying => StageView::Applying,
            Stage::Measuring => StageView::Measuring,
            Stage::Installing => StageView::Installing,
            Stage::Truncating => StageView::Truncating,
            Stage::Stopped => StageView::Stopped,
        }
    }
}

impl View for WalTask {
    type V = TaskView;

    closed spec fn view(&self) -> TaskView {
        TaskView { stage: self.stage@, draining: self.draining, max_wal_size: self.max_wal_size }
    }
}

impl View for Event {
    type V = EventView;

    open spec fn view(&self) -> EventView {
        match self {
            Event::Received(c) => EventView::Received(c@),
            Event::QueueClosed => EventView::QueueClosed,
            Event::ShutdownRequested => EventView::ShutdownRequested,
            Event::Appended => EventView::Appended,
            Event::Applied => EventView::Applied,
            Event::Measured(size) => EventView::Measured(*size),
            Event::Installed => EventView::Installed,
            Event::Truncated => EventView::Truncated,
            Event::Failed(e) => EventView::Failed(*e),
        }
    }
}

impl Action {
    /// Whether this action is the action `a` of the model.
    pub open spec fn shows(self, a: ActionView) -> bool {
        match a {
            ActionView::Receive => self is Receive,
            ActionView::Close => self is Close,
            ActionView::Append(bytes) => self matches Action::Append(b) && b@ == bytes,
            ActionView::Apply(c) => self matches Action::Apply(cmd) && cmd@ == c,
            ActionView::Measure => self is Measure,
            ActionView::Compact => self is Compact,
            ActionView::Truncate => self is Truncate,
            ActionView::Stop(Ending::Finished) => self matches Action::Stop(Ok(_)),
            ActionView::Stop(Ending::Broken(e)) => self matches Action::Stop(Err(err)) && err == e,
            ActionView::Stop(Ending::TooLarge) => self matches Action::Stop(Err(err))
                && is_oversize(err),
            ActionView::Stop(Ending::OutOfTurn) => self matches Action::Stop(
                Err(DbError::ChannelClosed),
            ),
        }
    }
}

impl TaskView {
    /// The task in the given stage.
    pub open spec fn at(self, stage: StageView) -> TaskView {
        TaskView { stage, ..self }
    }

    /// Where the pipeline stands in its life.
    pub open spec fn phase(self) -> Phase {
        if self.stage is Stopped {
            Phase::Stopped
        } else if self.draining {
            Phase::Draining
        } else {
            Phase::Running
        }
    }

    /// Leaving with the ending `why`.
    pub open spec fn leave(self, why: Ending) -> (TaskView, ActionView) {
        (self.at(StageView::Stopped), ActionView::Stop(why))
    }

    /// What an idle task does with a command from the queue.  A command that
    /// changes the store goes to the log; `Shutdown` closes the queue; every
    /// other command is passed over.
    pub open spec fn take(self, c: CommandView) -> (TaskView, ActionView) {
        if c.is_mutation() {
            if c.encode().len() <= u32::MAX {
                (self.at(StageView::Appending(c)), ActionView::Append(frame(c.encode())))
            } else {
                self.leave(Ending::TooLarge)
            }
        } else if c is Shutdown {
            (TaskView { draining: true, ..self }, ActionView::Close)
        } else {
            (self, ActionView::Receive)
        }
    }

    /// The task after the event `e`, and what it asks for next.
    pub open spec fn next(self, e: EventView) -> (TaskView, ActionView) {
        match (self.stage, e) {
            (StageView::Stopped, _) => self.leave(Ending::OutOfTurn),
            (_, EventView::Failed(err)) => self.leave(Ending::Broken(err)),
            (StageView::Idle, EventView::Received(c)) => self.take(c),
            (StageView::Idle, EventView::ShutdownRequested) => (
                TaskView { draining: true, ..self },
                ActionView::Close,
            ),
            (StageView::Idle, EventView::QueueClosed) => self.leave(Ending::Finished),
            (StageView::Appending(c), EventView::Appended) => (
                self.at(StageView::Applying),
                ActionView::Apply(c),
            ),
            (StageView::Applying, EventView::Applied) => (
                self.at(StageView::Measuring),
                ActionView::Measure,
            ),
            (StageView::Measuring, EventView::Measured(size)) => if outgrown(
                size,
                self.max_wal_size,
            ) {
                (self.at(StageView::Installing), ActionView::Compact)
            } else {
                (self.at(StageView::Idle), ActionView::Receive)
            },
            (StageView::Installing, EventView::Installed) => (
                self.at(StageView::Truncating),
                ActionView::Truncate,
            ),
            (StageView::Truncating, EventView::Truncated) => (
                self.at(StageView::Idle),
                ActionView::Receive,
            ),
            _ => self.leave(Ending::OutOfTurn),
        }
    }
}

/// The place of a phase in the life of the pipeline.
pub open spec fn rank(p: Phase) -> int {
    match p {
        Phase::Running => 0,
        Phase::Draining => 1,
        Phase::Stopped => 2,
    }
}

/// The pipeline never returns to an earlier phase.
pub proof fn lemma_phase_never_goes_back(t: TaskView, e: EventView)
    ensures
        rank(t.next(e).0.phase()) >= rank(t.phase()),
{
}

/// A command is handed out to be applied only when the task was waiting for
/// its frame and the frame has been reported as appended and flushed.
pub proof fn lemma_applied_only_once_durable(t: TaskView, e: EventView, c: CommandView)
    requires
        t.next(e).1 == ActionView::Apply(c),
    ensures
        t.stage == StageView::Appending(c),
        e is Appended,
{
}

/// Only the frame of a change that the queue handed over is ever appended,
/// and the task then waits for exactly that frame.
pub proof fn lemma_appends_what_it_received(t: TaskView, e: EventView, bytes: Seq<u8>)
    requires
        t.next(e).1 == ActionView::Append(bytes),
    ensures
        e matches EventView::Received(c) && c.is_mutation() && bytes == frame(c.encode())
            && t.next(e).0.stage == StageView::Appending(c),
{
}

/// Between the append of a change and its application nothing else is
/// asked for: the task that waits for a frame applies the change of that
/// frame next, or leaves.  So changes are applied in the order in which
/// they were appended.
pub proof fn lemma_applies_what_it_appended(t: TaskView, e: EventView, c: CommandView)
    requires
        t.stage == StageView::Appending(c),
    ensures
        t.next(e).1 == ActionView::Apply(c) || t.next(e).1 is Stop,
        t.next(e).1 == ActionView::Apply(c) <==> e is Appended,
{
}

/// A change that the queue hands over while the pipeline drains is logged
/// like any other: closing the queue drops nothing that it had accepted.
pub proof fn lemma_draining_drops_nothing(t: TaskView, c: CommandView)
    requires
        t.stage is Idle,
        c.is_mutation(),
        c.encode().len() <= u32::MAX,
    ensures
        t.next(EventView::Received(c)).1 == ActionView::Append(frame(c.encode())),
{
}

/// A new writer task: running, idle, with the given threshold for the size of
/// the log.
pub fn wal_task(max_wal_size: u64) -> (task: WalTask)
    ensures
        task@ == (TaskView { stage: StageView::Idle, draining: false, max_wal_size }),
{
    WalTask { stage: Stage::Idle, draining: false, max_wal_size }
}

impl WalTask {
    /// Where the pipeline stands in its life.
    pub fn phase(&self) -> (p: Phase)
        ensures
            p == self@.phase(),
    {
        match self.stage {
            Stage::Stopped => Phase::Stopped,
            _ => if self.draining {
                Phase::Draining
            } else {
                Phase::Running
            },
        }
    }

    /// The threshold for the size of the log.
    pub fn max_wal_size(&self) -> (n: u64)
        ensures
            n == self@.max_wal_size,
    {
        self.max_wal_size
    }

    /// Takes in what the driver reports and says what it is to do next.
    pub fn step(&mut self, event: Event) -> (action: Action)
        ensures
            final(self)@ == old(self)@.next(event@).0,
            action.shows(old(self)@.next(event@).1),
    {
        let mut stage = Stage::Stopped;
        core::mem::swap(&mut self.stage, &mut stage);
        match (stage, event) {
            (Stage::Stopped, _) => Action::Stop(Err(DbError::ChannelClosed)),
            (_, Event::Failed(err)) => Action::Stop(Err(err)),
            (Stage::Idle, Event::Received(cmd)) => {
                if cmd.is_mutation() {
                    match encode_frame(&cmd) {
                        Ok(bytes) => {
                            self.stage = Stage::Appending(cmd);
                            Action::Append(bytes)
                        },
                        Err(e) => Action::Stop(Err(e)),
                    }
                } else {
                    self.stage = Stage::Idle;
                    match cmd {
                        Command::Shutdown => {
                            self.draining = true;
                            Action::Close
                        },
                        _ => Action::Receive,
                    }
                }
            },
            (Stage::Idle, Event::ShutdownRequested) => {
                self.stage = Stage::Idle;
                self.draining = true;
                Action::Close
            },
            (Stage::Idle, Event::QueueClosed) => Action::Stop(Ok(())),
            (Stage::Appending(cmd), Event::Appended) => {
                self.stage = Stage::Applying;
                Action::Apply(cmd)
            },
            (Stage::Applying, Event::Applied) => {
                self.stage = Stage::Measuring;
                Action::Measure
            },
            (Stage::Measuring, Event::Measured(size)) => {
                if check_snapshot_needed(size, self.max_wal_size) {
                    self.stage = Stage::Installing;
                    Action::Compact
                } else {
                    self.stage = Stage::Idle;
                    Action::Receive
                }
            },
            (Stage::Installing, Event::Installed) => {
                self.stage = Stage::Truncating;
                Action::Truncate
            },
            (Stage::Truncating, Event::Truncated) => {
                self.stage = Stage::Idle;
                Action::Receive
            },
            _ => Action::Stop(Err(DbError::ChannelClosed)),
        }
    }
}

} // verus!
