//! The store, its two files and the writer task taken together.  The model
//! says what a driver of the writer does to the files and to the shared
//! store; the laws say that, whatever the queue hands over and wherever the
//! process stops, a start from the files arrives at the store as the readers
//! last saw it, or at that store with the one change that was in flight.

use crate::binary::{fits_wire, lemma_read_string_fits, spec_read_string, spec_read_u32};
use crate::db::{
    apply_spec, lemma_command_round_trip, lemma_decoded_fits, lemma_encoded_fits, CommandView,
};
use crate::laws::{
    lemma_replay_appended, lemma_replay_ignores_torn_tail, lemma_replay_of_cut_log,
    lemma_replay_twice, lemma_snapshot_restores, lemma_torn_prefix, loggable,
};
use crate::snapshot::{parse_snapshot, snapshot_fits, snapshot_of, spec_read_entries};
use crate::sorted::{
    in_key_order, lemma_in_key_order, lemma_map_of_dom, lemma_map_of_entry, map_of, Entry,
};
use crate::wal::{
    absorb, frame, frame_at, frames_end, loaded, record_of, recovered, replay, replay_from, whole,
    Replayed,
};
use crate::writer::{ActionView, EventView, StageView, TaskView};
use vstd::prelude::*;

verus! {

/// Every key and every value of the store is short enough for the wire.
pub open spec fn strings_fit(m: Map<Seq<char>, Seq<char>>) -> bool {
    forall|k: Seq<char>| #[trigger] m.dom().contains(k) ==> fits_wire(k) && fits_wire(m[k])
}

/// The writer task together with what it works on.
pub struct World {
    /// The writer task.
    pub task: TaskView,
    /// The shared store, as the readers see it.
    pub store: Map<Seq<char>, Seq<char>>,
    /// The bytes of the log file.
    pub log: Seq<u8>,
    /// The bytes of the snapshot file.
    pub snapshot: Seq<u8>,
}

/// The driver has done what the action `a` asks for, nothing has failed, and
/// it reports `e`.  What the queue hands over and what size is measured is
/// left open.
pub open spec fn turn(w: World, a: ActionView, e: EventView, after: World) -> bool {
    match a {
        ActionView::Receive => after == w && (e is Received || e is QueueClosed
            || e is ShutdownRequested),
        ActionView::Close => after == w && (e is Received || e is QueueClosed),
        ActionView::Append(bytes) => after == (World { log: w.log + bytes, ..w }) && e is Appended,
        ActionView::Apply(c) => after == (World { store: apply_spec(w.store, c), ..w })
            && e is Applied,
        ActionView::Measure => after == w && e is Measured,
        ActionView::Compact => after == (World { snapshot: snapshot_of(w.store), ..w })
            && e is Installed,
        ActionView::Truncate => after == (World { log: Seq::empty(), ..w }) && e is Truncated,
        ActionView::Stop(_) => false,
    }
}

/// The files as they may be found when the action `a` failed or the process
/// stopped in the middle of it: of an append any number of its bytes may have
/// reached the log; a snapshot is moved into place at once or not at all; a
/// log is cut or left.
pub open spec fn broken(w: World, a: ActionView, snapshot: Seq<u8>, log: Seq<u8>) -> bool {
    match a {
        ActionView::Append(bytes) => snapshot == w.snapshot && exists|n: int|
            0 <= n <= bytes.len() && log == w.log + #[trigger] bytes.subrange(0, n),
        ActionView::Compact => log == w.log && (snapshot == w.snapshot || snapshot == snapshot_of(
            w.store,
        )),
        ActionView::Truncate => snapshot == w.snapshot && (log == w.log || log == Seq::<
            u8,
        >::empty()),
        _ => snapshot == w.snapshot && log == w.log,
    }
}

/// The world is in order while the task waits for the action `a` to be
/// done: the log consists of whole frames, and the files lead to the store
/// as it is, or, once a change is in the log and not yet applied, to the
/// store with that change.
pub open spec fn safe(w: World, a: ActionView) -> bool {
    &&& w.store.dom().finite()
    &&& strings_fit(w.store)
    &&& whole(w.log)
    &&& match a {
        ActionView::Receive => w.task.stage is Idle && recovered(w.snapshot, w.log) == w.store,
        ActionView::Close => w.task.stage is Idle && recovered(w.snapshot, w.log) == w.store,
        ActionView::Append(bytes) => w.task.stage matches StageView::Appending(c) && loggable(c)
            && bytes == frame(c.encode()) && recovered(w.snapshot, w.log) == w.store,
        ActionView::Apply(c) => w.task.stage is Applying && c.fits() && recovered(
            w.snapshot,
            w.log,
        ) == apply_spec(w.store, c),
        ActionView::Measure => w.task.stage is Measuring && recovered(w.snapshot, w.log)
            == w.store,
        ActionView::Compact => w.task.stage is Installing && recovered(w.snapshot, w.log)
            == w.store,
        ActionView::Truncate => w.task.stage is Truncating && recovered(w.snapshot, w.log)
            == w.store && loaded(w.snapshot) == w.store,
        ActionView::Stop(_) => w.task.stage is Stopped,
    }
}

/// The world after a start from the two files: the store is what they lead
/// to, the log is cut behind its last whole frame, and a new task waits for
/// the queue.
pub open spec fn restarted(snapshot: Seq<u8>, log: Seq<u8>, max_wal_size: u64) -> World {
    World {
        task: TaskView { stage: StageView::Idle, draining: false, max_wal_size },
        store: recovered(snapshot, log),
        log: log.subrange(0, frames_end(log, 0)),
        snapshot,
    }
}

/// Applying a command whose strings fit to a store whose strings fit leaves
/// such a store.
pub proof fn lemma_apply_keeps_fit(m: Map<Seq<char>, Seq<char>>, c: CommandView)
    requires
        m.dom().finite(),
        strings_fit(m),
        c.fits(),
    ensures
        apply_spec(m, c).dom().finite(),
        strings_fit(apply_spec(m, c)),
{
}

/// A store of at most 2^32 - 1 entries whose strings fit has a snapshot that
/// can be read back.
pub proof fn lemma_fitting_store(m: Map<Seq<char>, Seq<char>>)
    requires
        m.dom().finite(),
        strings_fit(m),
        m.len() <= u32::MAX,
    ensures
        snapshot_fits(in_key_order(m)),
{
    lemma_in_key_order(m);
    let list = in_key_order(m);
    assert forall|i: int| 0 <= i < list.len() implies fits_wire(#[trigger] list[i].0) && fits_wire(
        list[i].1,
    ) by {
        lemma_map_of_entry(list, i);
    }
}

/// The strings of the entries that were read from a snapshot fit.
proof fn lemma_read_entries_fit(bytes: Seq<u8>, at: int, count: nat)
    requires
        spec_read_entries(bytes, at, count) is Ok,
    ensures
        forall|i: int|
            0 <= i < spec_read_entries(bytes, at, count)->Ok_0.len() ==> fits_wire(
                #[trigger] spec_read_entries(bytes, at, count)->Ok_0[i].0,
            ) && fits_wire(spec_read_entries(bytes, at, count)->Ok_0[i].1),
    decreases count,
{
    if count > 0 {
        lemma_read_string_fits(bytes, at);
        let mid = spec_read_string(bytes, at).1;
        lemma_read_string_fits(bytes, mid);
        let next = spec_read_string(bytes, mid).1;
        lemma_read_entries_fit(bytes, next, (count - 1) as nat);
    }
}

/// The strings of a map fit where the strings of the entries that it was
/// made of fit.
proof fn lemma_map_of_fits(list: Seq<Entry>)
    requires
        forall|i: int| 0 <= i < list.len() ==> fits_wire(#[trigger] list[i].0) && fits_wire(list[i].1),
    ensures
        map_of(list).dom().finite(),
        strings_fit(map_of(list)),
    decreases list.len(),
{
    lemma_map_of_dom(list);
    if list.len() > 0 {
        let rest = list.drop_last();
        assert forall|i: int| 0 <= i < rest.len() implies fits_wire(#[trigger] rest[i].0)
            && fits_wire(rest[i].1) by {
            assert(rest[i] == list[i]);
        }
        lemma_map_of_fits(rest);
        assert(fits_wire(list[list.len() - 1].0));
    }
}

/// What a snapshot file holds is a finite store whose strings fit.
pub proof fn lemma_loaded_fits(snapshot: Seq<u8>)
    ensures
        loaded(snapshot).dom().finite(),
        strings_fit(loaded(snapshot)),
{
    match parse_snapshot(snapshot) {
        Ok(list) => {
            lemma_read_entries_fit(snapshot, 4, spec_read_u32(snapshot, 0).0->Ok_0 as nat);
            lemma_map_of_fits(list);
        },
        Err(_) => {},
    }
}

/// A replay keeps the store finite and its strings fitting.
pub proof fn lemma_replay_keeps_fit(r: Replayed, wal: Seq<u8>)
    requires
        r.state.dom().finite(),
        strings_fit(r.state),
    ensures
        replay_from(r, wal).state.dom().finite(),
        strings_fit(replay_from(r, wal).state),
    decreases wal.len() - r.end,
{
    match frame_at(wal, r.end) {
        None => {},
        Some(payload) => {
            match record_of(payload) {
                Some(c) => {
                    lemma_decoded_fits(payload);
                    lemma_apply_keeps_fit(r.state, c);
                },
                None => {},
            }
            lemma_replay_keeps_fit(absorb(r, payload), wal);
        },
    }
}

/// A start from any two files leads to a world that is in order.
pub proof fn lemma_restart_is_safe(snapshot: Seq<u8>, log: Seq<u8>, max_wal_size: u64)
    ensures
        safe(restarted(snapshot, log, max_wal_size), ActionView::Receive),
{
    let base = loaded(snapshot);
    lemma_loaded_fits(snapshot);
    lemma_replay_keeps_fit(Replayed { state: base, applied: 0, skipped: 0, end: 0 }, log);
    lemma_replay_of_cut_log(base, log);
}

/// Every turn of the writer leaves the world in order: when the driver has
/// done what the task asked for and the task has taken in the report, the
/// world is in order for what the task asks next.  A snapshot is taken of a
/// store of at most 2^32 - 1 entries.
pub proof fn lemma_turn_keeps_safe(w: World, a: ActionView, e: EventView, after: World)
    requires
        safe(w, a),
        turn(w, a, e, after),
        a is Compact ==> w.store.len() <= u32::MAX,
    ensures
        safe(World { task: w.task.next(e).0, ..after }, w.task.next(e).1),
{
    let base = loaded(w.snapshot);
    match a {
        ActionView::Receive => {
            if e is Received {
                let c = e->Received_0;
                if c.is_mutation() && c.encode().len() <= u32::MAX {
                    lemma_encoded_fits(c);
                }
            }
        },
        ActionView::Close => {
            if e is Received {
                let c = e->Received_0;
                if c.is_mutation() && c.encode().len() <= u32::MAX {
                    lemma_encoded_fits(c);
                }
            }
        },
        ActionView::Append(bytes) => {
            let c = w.task.stage->Appending_0;
            lemma_replay_appended(base, w.log, c.encode());
            lemma_command_round_trip(c, Seq::empty());
            assert(c.encode() + Seq::<u8>::empty() =~= c.encode());
        },
        ActionView::Apply(c) => {
            lemma_apply_keeps_fit(w.store, c);
        },
        ActionView::Measure => {},
        ActionView::Compact => {
            lemma_fitting_store(w.store);
            lemma_snapshot_restores(w.store, Seq::empty());
            assert(snapshot_of(w.store) + Seq::<u8>::empty() =~= snapshot_of(w.store));
            lemma_replay_twice(base, w.log);
        },
        ActionView::Truncate => {},
        ActionView::Stop(_) => {},
    }
}

/// Wherever the process stops, a start from the files leads to the store as
/// the readers last saw it, or to that store with the one change that the
/// task was about to apply: while a frame is being appended to either of
/// the two, once it is appended to the latter, and at every other time to
/// the former.
pub proof fn lemma_crash_recovers(w: World, a: ActionView, snapshot: Seq<u8>, log: Seq<u8>)
    requires
        safe(w, a),
        broken(w, a, snapshot, log),
        a is Compact ==> w.store.len() <= u32::MAX,
    ensures
        match a {
            ActionView::Append(_) => recovered(snapshot, log) == w.store || (
            w.task.stage matches StageView::Appending(c) && recovered(snapshot, log) == apply_spec(
                w.store,
                c,
            )),
            ActionView::Apply(c) => recovered(snapshot, log) == apply_spec(w.store, c),
            ActionView::Stop(_) => true,
            _ => recovered(snapshot, log) == w.store,
        },
{
    let base = loaded(w.snapshot);
    match a {
        ActionView::Append(bytes) => {
            let c = w.task.stage->Appending_0;
            let n = choose|n: int|
                0 <= n <= bytes.len() && log == w.log + #[trigger] bytes.subrange(0, n);
            if n == bytes.len() {
                assert(bytes.subrange(0, n) =~= bytes);
                lemma_replay_appended(base, w.log, c.encode());
                lemma_command_round_trip(c, Seq::empty());
                assert(c.encode() + Seq::<u8>::empty() =~= c.encode());
            } else {
                lemma_torn_prefix(c.encode(), n);
                lemma_replay_ignores_torn_tail(base, w.log, bytes.subrange(0, n));
            }
        },
        ActionView::Compact => {
            if snapshot != w.snapshot {
                lemma_fitting_store(w.store);
                lemma_snapshot_restores(w.store, Seq::empty());
                assert(snapshot_of(w.store) + Seq::<u8>::empty() =~= snapshot_of(w.store));
                lemma_replay_twice(base, w.log);
            }
        },
        _ => {},
    }
}

} // verus!
