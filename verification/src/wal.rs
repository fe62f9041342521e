//! The write-ahead log: its frames, the replay that rebuilds the store from
//! them, and the rule for when the log is folded into a snapshot.

use crate::binary::{
    be_bytes, read_exact, read_u32, spec_read_exact, spec_read_u32, write_u32,
};
use crate::db::{apply_spec, decode_command, Command, CommandView, KvState};
use crate::error::{DbError, DbResult};
use crate::snapshot::parse_snapshot;
use crate::sorted::map_of;
use vstd::prelude::*;

verus! {

/// The default name of the log file.
pub const WAL_FILEPATH: &'static str = "wal.bin";

/// The default name of the snapshot file.
pub const SNAP_FILEPATH: &'static str = "snap.bin";

/// A record as it stands in the log: the length of the payload in four
/// big-endian bytes, then the payload.
pub open spec fn frame(payload: Seq<u8>) -> Seq<u8>
    recommends
        payload.len() <= u32::MAX,
{
    be_bytes(payload.len() as u32) + payload
}

/// The payload of the frame that starts at `at`, where a whole frame stands
/// there.
pub open spec fn frame_at(wal: Seq<u8>, at: int) -> Option<Seq<u8>> {
    match spec_read_u32(wal, at) {
        (Err(_), _) => None,
        (Ok(len), body) => match spec_read_exact(wal, body, len as int) {
            (Err(_), _) => None,
            (Ok(payload), _) => Some(payload),
        },
    }
}

/// The command that a payload stands for, where it is the record of a
/// change to the store.
pub open spec fn record_of(payload: Seq<u8>) -> Option<CommandView> {
    match decode_command(payload) {
        Ok(c) => if c.is_mutation() {
            Some(c)
        } else {
            None
        },
        Err(_) => None,
    }
}

/// How far a replay has come.
pub struct Replayed {
    /// The store after the records applied so far.
    pub state: Map<Seq<char>, Seq<char>>,
    /// The number of records applied.
    pub applied: nat,
    /// The number of frames passed over because they hold no record.
    pub skipped: nat,
    /// The place in the log behind the last whole frame.
    pub end: int,
}

/// The replay `r` after the frame with `payload` that stands at its end.
pub open spec fn absorb(r: Replayed, payload: Seq<u8>) -> Replayed {
    match record_of(payload) {
        Some(c) => Replayed {
            state: apply_spec(r.state, c),
            applied: r.applied + 1,
            skipped: r.skipped,
            end: r.end + 4 + payload.len(),
        },
        None => Replayed {
            state: r.state,
            applied: r.applied,
            skipped: r.skipped + 1,
            end: r.end + 4 + payload.len(),
        },
    }
}

/// The replay `r` carried on through `wal` until no whole frame is left.
pub open spec fn replay_from(r: Replayed, wal: Seq<u8>) -> Replayed
    decreases wal.len() - r.end,
{
    match frame_at(wal, r.end) {
        None => r,
        Some(payload) => replay_from(absorb(r, payload), wal),
    }
}

/// The place behind the last whole frame of `wal`, counted from `at`.
pub open spec fn frames_end(wal: Seq<u8>, at: int) -> int
    decreases wal.len() - at,
{
    match frame_at(wal, at) {
        None => at,
        Some(payload) => frames_end(wal, at + 4 + payload.len()),
    }
}

/// The log consists of whole frames: nothing is left behind the last one.
pub open spec fn whole(wal: Seq<u8>) -> bool {
    frames_end(wal, 0) == wal.len()
}

/// The store that a snapshot file holds, or the empty store where its bytes
/// do not decode.
pub open spec fn loaded(snapshot: Seq<u8>) -> Map<Seq<char>, Seq<char>> {
    match parse_snapshot(snapshot) {
        Ok(list) => map_of(list),
        Err(_) => Map::empty(),
    }
}

/// The store that a start from the two files arrives at: the snapshot is
/// loaded, then the log is replayed on top of it.
pub open spec fn recovered(snapshot: Seq<u8>, wal: Seq<u8>) -> Map<Seq<char>, Seq<char>> {
    replay(loaded(snapshot), wal).state
}

/// The replay of `wal` on top of the store `m`.
pub open spec fn replay(m: Map<Seq<char>, Seq<char>>, wal: Seq<u8>) -> Replayed {
    replay_from(Replayed { state: m, applied: 0, skipped: 0, end: 0 }, wal)
}

/// What a replay found.
#[derive(Clone, Copy, Debug, PartialEq, Eq)]
pub struct ReplayReport {
    /// The number of records applied to the store.
    pub applied: usize,
    /// The number of frames passed over because they hold no record.
    pub skipped: usize,
    /// The length of the part of the log that consists of whole frames; what
    /// lies behind it is a torn tail.
    pub valid_len: usize,
}

impl ReplayReport {
    /// Whether the report says what the replay `r` found.
    pub open spec fn tells(self, r: Replayed) -> bool {
        &&& self.applied == r.applied
        &&& self.skipped == r.skipped
        &&& self.valid_len == r.end
    }
}

/// The error for a record whose payload is too long for a frame.
pub open spec fn is_oversize(e: DbError) -> bool {
    e matches DbError::InvalidCommand { input } && input@ == "record too large"@
}

/// Puts a command into a frame, ready to be appended to the log.  A command
/// whose encoding is longer than a frame can say is refused.
pub fn encode_frame(cmd: &Command) -> (r: DbResult<Vec<u8>>)
    ensures
        match r {
            Ok(bytes) => cmd@.encode().len() <= u32::MAX && bytes@ == frame(cmd@.encode()),
            Err(e) => cmd@.encode().len() > u32::MAX && is_oversize(e),
        },
{
    let payload = match cmd.serialize() {
        Ok(bytes) => bytes,
        Err(e) => { return Err(e); },
    };
    if payload.len() > u32::MAX as usize {
        return Err(DbError::InvalidCommand { input: "record too large".to_owned() });
    }
    let mut out: Vec<u8> = Vec::new();
    write_u32(&mut out, payload.len() as u32);
    out.extend_from_slice(payload.as_slice());
    assert(out@ =~= frame(cmd@.encode()));
    Ok(out)
}

/// Replays a log on top of `state`.  Frames are taken one after another;
/// each one that holds the record of a change is applied, each other one is
/// passed over, and what is left when no whole frame remains is ignored.
pub fn read_wal(state: &mut KvState, wal: &[u8]) -> (report: ReplayReport)
    ensures
        final(state)@ == replay(old(state)@, wal@).state,
        report.tells(replay(old(state)@, wal@)),
{
    let mut cursor: usize = 0;
    let mut applied: usize = 0;
    let mut skipped: usize = 0;
    let ghost goal = replay(state@, wal@);
    loop
        invariant
            cursor <= wal@.len(),
            4 * (applied + skipped) <= cursor,
            goal == replay_from(
                Replayed {
                    state: state@,
                    applied: applied as nat,
                    skipped: skipped as nat,
                    end: cursor as int,
                },
                wal@,
            ),
        ensures
            goal == (Replayed {
                state: state@,
                applied: applied as nat,
                skipped: skipped as nat,
                end: cursor as int,
            }),
        decreases wal@.len() - cursor,
    {
        let ghost start = cursor;
        let len: u32 = match read_u32(wal, &mut cursor) {
            Ok(n) => n,
            Err(_) => { break ; },
        };
        let payload: &[u8] = match read_exact(wal, &mut cursor, len as usize) {
            Ok(p) => p,
            Err(_) => {
                cursor = cursor - 4;
                break ;
            },
        };
        match Command::deserialize(payload) {
            Ok(cmd) => {
                if cmd.is_mutation() {
                    state.apply(cmd);
                    applied = applied + 1;
                } else {
                    skipped = skipped + 1;
                }
            },
            Err(_) => {
                skipped = skipped + 1;
            },
        }
    }
    ReplayReport { applied, skipped, valid_len: cursor }
}

/// The store that a snapshot file holds, or the empty store where its bytes
/// do not decode.
pub fn try_read_snapshot(bytes: &[u8]) -> (state: KvState)
    ensures
        state@ == loaded(bytes@),
{
    match KvState::deserialize(bytes) {
        Ok(state) => state,
        Err(_) => KvState::new(),
    }
}

/// A log of `wal_size` bytes has outgrown the threshold.
pub open spec fn outgrown(wal_size: u64, max_wal_size: u64) -> bool {
    wal_size > max_wal_size
}

/// Whether a log of `wal_size` bytes has outgrown the threshold and is to be
/// folded into a snapshot.
pub fn check_snapshot_needed(wal_size: u64, max_wal_size: u64) -> (r: bool)
    ensures
        r == outgrown(wal_size, max_wal_size),
{
    wal_size > max_wal_size
}

} // verus!
