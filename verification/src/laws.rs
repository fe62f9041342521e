//! What holds of the store as a whole: the round trips of its two formats,
//! and that a replayed log gives back the state that the log recorded, also
//! when its tail is torn and also when it is replayed a second time.

use crate::binary::{be_bytes, lemma_be_round_trip, spec_read_u32};
use crate::db::{apply_spec, lemma_command_round_trip, CommandView};
use crate::error::Fault;
use crate::snapshot::{lemma_snapshot_round_trip, parse_snapshot, snapshot_fits, snapshot_of};
use crate::sorted::{in_key_order, lemma_in_key_order, map_of, Entry};
use crate::wal::{
    absorb, frame, frame_at, frames_end, record_of, replay, replay_from, whole, Replayed,
};
use vstd::prelude::*;

verus! {

/// The command can stand in the log: it changes the store, and its strings
/// and its encoding are short enough for their lengths to be written down.
pub open spec fn loggable(c: CommandView) -> bool {
    c.is_mutation() && c.fits() && c.encode().len() <= u32::MAX
}

/// The log that holds the records of `cs`, one frame after another.
pub open spec fn log_of(cs: Seq<CommandView>) -> Seq<u8>
    decreases cs.len(),
{
    if cs.len() == 0 {
        Seq::empty()
    } else {
        frame(cs[0].encode()) + log_of(cs.drop_first())
    }
}

/// The store after the commands `cs` have been applied to `m` in order.
pub open spec fn apply_all(m: Map<Seq<char>, Seq<char>>, cs: Seq<CommandView>) -> Map<
    Seq<char>,
    Seq<char>,
>
    decreases cs.len(),
{
    if cs.len() == 0 {
        m
    } else {
        apply_all(apply_spec(m, cs[0]), cs.drop_first())
    }
}

/// The bytes do not start with a whole frame: a write of one was cut short,
/// or nothing was written at all.
pub open spec fn torn(tail: Seq<u8>) -> bool {
    frame_at(tail, 0) is None
}

/// Some command of `cs` sets or deletes the key `k`.
pub open spec fn touches(cs: Seq<CommandView>, k: Seq<char>) -> bool {
    exists|i: int| 0 <= i < cs.len() && #[trigger] writes(cs[i], k)
}

/// The command `c` sets or deletes the key `k`.
pub open spec fn writes(c: CommandView, k: Seq<char>) -> bool {
    match c {
        CommandView::Put { key, .. } => key == k,
        CommandView::Delete { key } => key == k,
        _ => false,
    }
}

/// The maps `a` and `b` hold the same under the key `k`, or both nothing.
pub open spec fn same_at(
    a: Map<Seq<char>, Seq<char>>,
    b: Map<Seq<char>, Seq<char>>,
    k: Seq<char>,
) -> bool {
    &&& a.dom().contains(k) <==> b.dom().contains(k)
    &&& a.dom().contains(k) ==> a[k] == b[k]
}

/// Applying a command a second time changes nothing.
pub proof fn lemma_apply_idempotent(m: Map<Seq<char>, Seq<char>>, c: CommandView)
    ensures
        apply_spec(apply_spec(m, c), c) == apply_spec(m, c),
{
    assert(apply_spec(apply_spec(m, c), c) =~= apply_spec(m, c));
}

/// Of two writes to one key the later one decides what the store holds.
pub proof fn lemma_last_write_wins(
    m: Map<Seq<char>, Seq<char>>,
    k: Seq<char>,
    first: Seq<char>,
    second: Seq<char>,
)
    ensures
        apply_spec(
            apply_spec(m, CommandView::Put { key: k, value: first }),
            CommandView::Put { key: k, value: second },
        ) == apply_spec(m, CommandView::Put { key: k, value: second }),
{
    assert(m.insert(k, first).insert(k, second) =~= m.insert(k, second));
}

/// Decoding the snapshot of a store gives that store back.
pub proof fn lemma_snapshot_restores(m: Map<Seq<char>, Seq<char>>, after: Seq<u8>)
    requires
        m.dom().finite(),
        snapshot_fits(in_key_order(m)),
    ensures
        parse_snapshot(snapshot_of(m) + after) == Ok::<Seq<Entry>, Fault>(in_key_order(m)),
        map_of(in_key_order(m)) == m,
{
    lemma_in_key_order(m);
    lemma_snapshot_round_trip(in_key_order(m), after);
}

/// A frame that was written is the frame that is read, whatever stands
/// before and after it.
pub proof fn lemma_frame_at_written(before: Seq<u8>, payload: Seq<u8>, after: Seq<u8>)
    requires
        payload.len() <= u32::MAX,
    ensures
        frame_at(before + frame(payload) + after, before.len() as int) == Some(payload),
        frame(payload).len() == 4 + payload.len(),
{
    let wal = before + frame(payload) + after;
    let at = before.len() as int;
    let len = payload.len() as u32;
    lemma_be_round_trip(len);
    assert(wal.subrange(at, at + 4) =~= be_bytes(len));
    assert(wal.subrange(at + 4, at + 4 + len) =~= payload);
}

/// What stands before a place in the log has no part in what is read there.
pub proof fn lemma_frame_at_shift(before: Seq<u8>, tail: Seq<u8>)
    ensures
        frame_at(before + tail, before.len() as int) == frame_at(tail, 0),
{
    let wal = before + tail;
    let at = before.len() as int;
    if tail.len() >= 4 {
        assert(wal.subrange(at, at + 4) =~= tail.subrange(0, 4));
        let len = spec_read_u32(tail, 0).0->Ok_0;
        if 4 + len <= tail.len() {
            assert(wal.subrange(at + 4, at + 4 + len) =~= tail.subrange(4, 4 + len));
        }
    }
}

/// A replay that has come to the start of a written log carries on as a
/// replay that has applied every record of it.
pub proof fn lemma_replay_log(r: Replayed, before: Seq<u8>, cs: Seq<CommandView>, after: Seq<u8>)
    requires
        r.end == before.len(),
        forall|i: int| 0 <= i < cs.len() ==> loggable(#[trigger] cs[i]),
    ensures
        replay_from(r, before + log_of(cs) + after) == replay_from(
            Replayed {
                state: apply_all(r.state, cs),
                applied: r.applied + cs.len(),
                skipped: r.skipped,
                end: r.end + log_of(cs).len(),
            },
            before + log_of(cs) + after,
        ),
    decreases cs.len(),
{
    let wal = before + log_of(cs) + after;
    if cs.len() > 0 {
        let c = cs[0];
        let rest = cs.drop_first();
        let payload = c.encode();
        assert(loggable(cs[0]));
        lemma_frame_at_written(before, payload, log_of(rest) + after);
        assert(wal =~= before + frame(payload) + (log_of(rest) + after));
        lemma_command_round_trip(c, Seq::empty());
        assert(payload + Seq::<u8>::empty() =~= payload);
        assert(record_of(payload) == Some(c));
        let next = absorb(r, payload);
        assert forall|i: int| 0 <= i < rest.len() implies loggable(#[trigger] rest[i]) by {
            assert(rest[i] == cs[i + 1]);
        }
        lemma_replay_log(next, before + frame(payload), rest, after);
        assert(wal =~= before + frame(payload) + log_of(rest) + after);
    }
}

/// A log whose last frame was cut short replays every record before it and
/// passes over nothing but the torn tail.
pub proof fn lemma_torn_tail_tolerated(
    m: Map<Seq<char>, Seq<char>>,
    cs: Seq<CommandView>,
    tail: Seq<u8>,
)
    requires
        forall|i: int| 0 <= i < cs.len() ==> loggable(#[trigger] cs[i]),
        torn(tail),
    ensures
        replay(m, log_of(cs) + tail) == (Replayed {
            state: apply_all(m, cs),
            applied: cs.len(),
            skipped: 0,
            end: log_of(cs).len() as int,
        }),
{
    let start = Replayed { state: m, applied: 0, skipped: 0, end: 0 };
    let wal = log_of(cs) + tail;
    lemma_replay_log(start, Seq::empty(), cs, tail);
    assert(wal =~= Seq::<u8>::empty() + log_of(cs) + tail);
    lemma_frame_at_shift(log_of(cs), tail);
}

/// A log that was written whole replays to the store that its commands
/// lead to.
pub proof fn lemma_replay_restores(m: Map<Seq<char>, Seq<char>>, cs: Seq<CommandView>)
    requires
        forall|i: int| 0 <= i < cs.len() ==> loggable(#[trigger] cs[i]),
    ensures
        replay(m, log_of(cs)).state == apply_all(m, cs),
        replay(m, log_of(cs)).applied == cs.len(),
        replay(m, log_of(cs)).skipped == 0,
{
    lemma_torn_tail_tolerated(m, cs, Seq::empty());
    assert(log_of(cs) + Seq::<u8>::empty() =~= log_of(cs));
}

/// After a compaction the snapshot decodes to the store as it was, and the
/// emptied log replayed on top of it changes nothing.
pub proof fn lemma_compaction_keeps_state(m: Map<Seq<char>, Seq<char>>)
    requires
        m.dom().finite(),
        snapshot_fits(in_key_order(m)),
    ensures
        parse_snapshot(snapshot_of(m)) matches Ok(list) && map_of(list) == m && replay(
            map_of(list),
            Seq::empty(),
        ) == (Replayed { state: m, applied: 0, skipped: 0, end: 0 }),
{
    lemma_snapshot_restores(m, Seq::empty());
    assert(snapshot_of(m) + Seq::<u8>::empty() =~= snapshot_of(m));
}

/// The records that a replay of `wal` applies from the place `at` on.
pub open spec fn records_from(wal: Seq<u8>, at: int) -> Seq<CommandView>
    decreases wal.len() - at,
{
    match frame_at(wal, at) {
        None => Seq::empty(),
        Some(payload) => {
            let rest = records_from(wal, at + 4 + payload.len());
            match record_of(payload) {
                Some(c) => seq![c] + rest,
                None => rest,
            }
        },
    }
}

/// A replay leaves the store that its records lead to.
pub proof fn lemma_replay_applies_records(r: Replayed, wal: Seq<u8>)
    ensures
        replay_from(r, wal).state == apply_all(r.state, records_from(wal, r.end)),
    decreases wal.len() - r.end,
{
    match frame_at(wal, r.end) {
        None => {},
        Some(payload) => {
            lemma_replay_applies_records(absorb(r, payload), wal);
            let rest = records_from(wal, r.end + 4 + payload.len());
            match record_of(payload) {
                Some(c) => {
                    let all = seq![c] + rest;
                    assert(all[0] == c);
                    assert(all.drop_first() =~= rest);
                },
                None => {},
            }
        },
    }
}

/// A key that no command writes keeps what it held.
pub proof fn lemma_apply_all_untouched(
    m: Map<Seq<char>, Seq<char>>,
    cs: Seq<CommandView>,
    k: Seq<char>,
)
    requires
        !touches(cs, k),
    ensures
        same_at(apply_all(m, cs), m, k),
    decreases cs.len(),
{
    if cs.len() > 0 {
        let rest = cs.drop_first();
        assert(!writes(cs[0], k));
        if touches(rest, k) {
            let i = choose|i: int| 0 <= i < rest.len() && #[trigger] writes(rest[i], k);
            assert(writes(cs[i + 1], k));
        }
        lemma_apply_all_untouched(apply_spec(m, cs[0]), rest, k);
    }
}

/// What a run of commands leaves depends on the store it starts from only
/// under the keys that none of them writes.
pub proof fn lemma_apply_all_agree(
    a: Map<Seq<char>, Seq<char>>,
    b: Map<Seq<char>, Seq<char>>,
    cs: Seq<CommandView>,
)
    requires
        forall|k: Seq<char>| !touches(cs, k) ==> same_at(a, b, k),
    ensures
        apply_all(a, cs) == apply_all(b, cs),
    decreases cs.len(),
{
    if cs.len() == 0 {
        assert forall|k: Seq<char>| a.dom().contains(k) <==> b.dom().contains(k) by {
            assert(!touches(cs, k));
            assert(same_at(a, b, k));
        }
        assert forall|k: Seq<char>| a.dom().contains(k) implies a[k] == b[k] by {
            assert(!touches(cs, k));
            assert(same_at(a, b, k));
        }
        assert(a =~= b);
    } else {
        let c = cs[0];
        let rest = cs.drop_first();
        let a1 = apply_spec(a, c);
        let b1 = apply_spec(b, c);
        assert forall|k: Seq<char>| !touches(rest, k) implies same_at(a1, b1, k) by {
            if !writes(c, k) {
                if touches(cs, k) {
                    let i = choose|i: int| 0 <= i < cs.len() && #[trigger] writes(cs[i], k);
                    assert(writes(rest[i - 1], k));
                }
                assert(same_at(a, b, k));
            }
        }
        lemma_apply_all_agree(a1, b1, rest);
    }
}

/// Applying a run of commands a second time changes nothing.
pub proof fn lemma_apply_all_twice(m: Map<Seq<char>, Seq<char>>, cs: Seq<CommandView>)
    ensures
        apply_all(apply_all(m, cs), cs) == apply_all(m, cs),
{
    let once = apply_all(m, cs);
    assert forall|k: Seq<char>| !touches(cs, k) implies same_at(once, m, k) by {
        lemma_apply_all_untouched(m, cs, k);
    }
    lemma_apply_all_agree(once, m, cs);
}

/// Replaying a log on top of the store that it already led to changes
/// nothing: records that a snapshot has taken in may be replayed again.
pub proof fn lemma_replay_twice(m: Map<Seq<char>, Seq<char>>, wal: Seq<u8>)
    ensures
        replay(replay(m, wal).state, wal).state == replay(m, wal).state,
{
    let first = Replayed { state: m, applied: 0, skipped: 0, end: 0 };
    let second = Replayed { state: replay(m, wal).state, applied: 0, skipped: 0, end: 0 };
    lemma_replay_applies_records(first, wal);
    lemma_replay_applies_records(second, wal);
    lemma_apply_all_twice(m, records_from(wal, 0));
}

/// A replay ends where the frames end, whatever they hold.
pub proof fn lemma_replay_end(r: Replayed, wal: Seq<u8>)
    ensures
        replay_from(r, wal).end == frames_end(wal, r.end),
    decreases wal.len() - r.end,
{
    match frame_at(wal, r.end) {
        None => {},
        Some(payload) => {
            lemma_replay_end(absorb(r, payload), wal);
        },
    }
}

/// The frames end inside the log, not before the place they are counted
/// from.
pub proof fn lemma_frames_end_bounds(wal: Seq<u8>, at: int)
    requires
        0 <= at <= wal.len(),
    ensures
        at <= frames_end(wal, at) <= wal.len(),
    decreases wal.len() - at,
{
    match frame_at(wal, at) {
        None => {},
        Some(payload) => {
            lemma_frames_end_bounds(wal, at + 4 + payload.len());
        },
    }
}

/// A whole frame of a log is the same frame when more is written behind the
/// log.
pub proof fn lemma_frame_at_prefix(wal: Seq<u8>, more: Seq<u8>, at: int)
    requires
        frame_at(wal, at) is Some,
    ensures
        frame_at(wal + more, at) == frame_at(wal, at),
{
    let longer = wal + more;
    assert(longer.subrange(at, at + 4) =~= wal.subrange(at, at + 4));
    let len = spec_read_u32(wal, at).0->Ok_0;
    assert(longer.subrange(at + 4, at + 4 + len) =~= wal.subrange(at + 4, at + 4 + len));
}

/// Replaying a log that has grown is replaying what it was and then going
/// on from there.
pub proof fn lemma_replay_extend(r: Replayed, wal: Seq<u8>, more: Seq<u8>)
    ensures
        replay_from(r, wal + more) == replay_from(replay_from(r, wal), wal + more),
    decreases wal.len() - r.end,
{
    match frame_at(wal, r.end) {
        None => {},
        Some(payload) => {
            lemma_frame_at_prefix(wal, more, r.end);
            lemma_replay_extend(absorb(r, payload), wal, more);
        },
    }
}

/// One frame more at the end of a whole log is one record more in its
/// replay.
pub proof fn lemma_replay_appended(m: Map<Seq<char>, Seq<char>>, wal: Seq<u8>, payload: Seq<u8>)
    requires
        whole(wal),
        payload.len() <= u32::MAX,
    ensures
        replay(m, wal + frame(payload)) == absorb(replay(m, wal), payload),
        whole(wal + frame(payload)),
{
    let start = Replayed { state: m, applied: 0, skipped: 0, end: 0 };
    let longer = wal + frame(payload);
    let reached = replay(m, wal);
    lemma_replay_end(start, wal);
    lemma_replay_extend(start, wal, frame(payload));
    lemma_frame_at_written(wal, payload, Seq::empty());
    assert(wal + frame(payload) + Seq::<u8>::empty() =~= longer);
    let next = absorb(reached, payload);
    assert(next.end == longer.len());
    assert(frame_at(longer, next.end) is None);
    assert(replay_from(next, longer) == next);
    lemma_replay_end(start, longer);
}

/// The first bytes of a frame, short of the whole frame, are a torn tail.
pub proof fn lemma_torn_prefix(payload: Seq<u8>, n: int)
    requires
        payload.len() <= u32::MAX,
        0 <= n < 4 + payload.len(),
    ensures
        torn(frame(payload).subrange(0, n)),
{
    let cut = frame(payload).subrange(0, n);
    if n >= 4 {
        let len = payload.len() as u32;
        lemma_be_round_trip(len);
        assert(cut.subrange(0, 4) =~= be_bytes(len));
    }
}

/// A torn tail behind a whole log changes nothing of its replay.
pub proof fn lemma_replay_ignores_torn_tail(
    m: Map<Seq<char>, Seq<char>>,
    wal: Seq<u8>,
    tail: Seq<u8>,
)
    requires
        whole(wal),
        torn(tail),
    ensures
        replay(m, wal + tail) == replay(m, wal),
{
    let start = Replayed { state: m, applied: 0, skipped: 0, end: 0 };
    lemma_replay_end(start, wal);
    lemma_replay_extend(start, wal, tail);
    lemma_frame_at_shift(wal, tail);
}

/// Cutting a log behind its last whole frame changes nothing of its replay,
/// and leaves a whole log.
pub proof fn lemma_replay_of_cut_log(m: Map<Seq<char>, Seq<char>>, wal: Seq<u8>)
    ensures
        0 <= frames_end(wal, 0) <= wal.len(),
        replay(m, wal.subrange(0, frames_end(wal, 0))) == replay(m, wal),
        whole(wal.subrange(0, frames_end(wal, 0))),
{
    let start = Replayed { state: m, applied: 0, skipped: 0, end: 0 };
    let end = frames_end(wal, 0);
    lemma_frames_end_bounds(wal, 0);
    let cut = wal.subrange(0, end);
    let rest = wal.subrange(end, wal.len() as int);
    assert(cut + rest =~= wal);
    lemma_cut_keeps_frames(start, wal, end);
    lemma_replay_end(start, cut);
    lemma_replay_end(start, wal);
}

/// A replay that stays before the place `end` takes the same frames from the
/// log cut at `end`.
proof fn lemma_cut_keeps_frames(r: Replayed, wal: Seq<u8>, end: int)
    requires
        0 <= r.end <= end <= wal.len(),
        frames_end(wal, r.end) == end,
    ensures
        replay_from(r, wal.subrange(0, end)) == replay_from(r, wal),
    decreases wal.len() - r.end,
{
    let cut = wal.subrange(0, end);
    match frame_at(wal, r.end) {
        None => {
            assert(r.end == end);
            assert(frame_at(cut, r.end) is None);
        },
        Some(payload) => {
            let next = r.end + 4 + payload.len();
            lemma_frames_end_bounds(wal, next);
            assert(cut.subrange(r.end, r.end + 4) =~= wal.subrange(r.end, r.end + 4));
            assert(cut.subrange(r.end + 4, next) =~= wal.subrange(r.end + 4, next));
            assert(frame_at(cut, r.end) == Some(payload));
            lemma_cut_keeps_frames(absorb(r, payload), wal, end);
        },
    }
}

} // verus!
