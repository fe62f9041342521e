//! The snapshot format: a count in four big-endian bytes, then that many
//! entries, each a length-prefixed key and a length-prefixed value.

use crate::binary::{
    be_bytes, fits_wire, lemma_be_round_trip, lemma_read_written_string, spec_read_string,
    spec_read_u32, wire_string,
};
use crate::error::Fault;
use crate::sorted::{in_key_order, Entry};
use vstd::prelude::*;

verus! {

/// The entries on the wire, one after another.
pub open spec fn entries_bytes(s: Seq<Entry>) -> Seq<u8>
    decreases s.len(),
{
    if s.len() == 0 {
        Seq::empty()
    } else {
        wire_string(s[0].0) + wire_string(s[0].1) + entries_bytes(s.drop_first())
    }
}

/// The snapshot of a listing: the number of entries (reduced modulo 2^32),
/// then the entries.
pub open spec fn snapshot_bytes(s: Seq<Entry>) -> Seq<u8> {
    be_bytes((s.len() % 0x1_0000_0000) as u32) + entries_bytes(s)
}

/// The snapshot of a store: that of its entries in key order.
pub open spec fn snapshot_of(m: Map<Seq<char>, Seq<char>>) -> Seq<u8> {
    snapshot_bytes(in_key_order(m))
}

/// The listing is small enough for its snapshot to be read back: its count
/// and the length of each string fit in four bytes.
pub open spec fn snapshot_fits(s: Seq<Entry>) -> bool {
    &&& s.len() <= u32::MAX
    &&& forall|i: int| 0 <= i < s.len() ==> fits_wire(#[trigger] s[i].0) && fits_wire(s[i].1)
}

/// What reading `count` entries at `at` yields: the entries, or the fault of
/// the first string that does not read.
pub open spec fn spec_read_entries(bytes: Seq<u8>, at: int, count: nat) -> Result<Seq<Entry>, Fault>
    decreases count,
{
    if count == 0 {
        Ok(Seq::empty())
    } else {
        match spec_read_string(bytes, at) {
            (Err(f), _) => Err(f),
            (Ok(key), mid) => match spec_read_string(bytes, mid) {
                (Err(f), _) => Err(f),
                (Ok(value), next) => then_read(
                    seq![(key, value)],
                    spec_read_entries(bytes, next, (count - 1) as nat),
                ),
            },
        }
    }
}

/// The entries `done` followed by what the rest of a read yields.
pub open spec fn then_read(done: Seq<Entry>, rest: Result<Seq<Entry>, Fault>) -> Result<
    Seq<Entry>,
    Fault,
> {
    match rest {
        Ok(more) => Ok(done + more),
        Err(f) => Err(f),
    }
}

/// The entries that a snapshot lists, in the order in which it lists them.
/// Bytes behind the last entry are not looked at.
pub open spec fn parse_snapshot(bytes: Seq<u8>) -> Result<Seq<Entry>, Fault> {
    match spec_read_u32(bytes, 0) {
        (Err(f), _) => Err(f),
        (Ok(count), at) => spec_read_entries(bytes, at, count as nat),
    }
}

/// Joining five byte strings gives the same whichever way they are grouped.
proof fn lemma_regroup(a: Seq<u8>, b: Seq<u8>, c: Seq<u8>, d: Seq<u8>, e: Seq<u8>)
    ensures
        a + b + (c + d + e) == a + b + c + d + e,
{
    assert(a + b + (c + d + e) =~= a + b + c + d + e);
}

/// One more entry at the end of a listing adds its two strings at the end of
/// the bytes.
pub proof fn lemma_entries_bytes_push(s: Seq<Entry>, e: Entry)
    ensures
        entries_bytes(s.push(e)) == entries_bytes(s) + wire_string(e.0) + wire_string(e.1),
    decreases s.len(),
{
    let t = s.push(e);
    let key = wire_string(e.0);
    let value = wire_string(e.1);
    if s.len() == 0 {
        assert(t.drop_first() =~= Seq::<Entry>::empty());
        assert(t[0] == e);
        assert(entries_bytes(s) == Seq::<u8>::empty());
        assert(entries_bytes(t.drop_first()) == Seq::<u8>::empty());
        assert(entries_bytes(t) == key + value + Seq::<u8>::empty());
        assert(key + value + Seq::<u8>::empty() =~= Seq::<u8>::empty() + key + value);
    } else {
        lemma_entries_bytes_push(s.drop_first(), e);
        assert(t.drop_first() =~= s.drop_first().push(e));
        assert(t[0] == s[0]);
        lemma_regroup(
            wire_string(s[0].0),
            wire_string(s[0].1),
            entries_bytes(s.drop_first()),
            key,
            value,
        );
    }
}

/// A reader that stands before the wire form of a listing takes exactly that
/// listing, whatever bytes come before and after.
pub proof fn lemma_read_written_entries(before: Seq<u8>, s: Seq<Entry>, after: Seq<u8>)
    requires
        forall|i: int| 0 <= i < s.len() ==> fits_wire(#[trigger] s[i].0) && fits_wire(s[i].1),
    ensures
        spec_read_entries(before + entries_bytes(s) + after, before.len() as int, s.len())
            == Ok::<Seq<Entry>, Fault>(s),
    decreases s.len(),
{
    let bytes = before + entries_bytes(s) + after;
    if s.len() == 0 {
        assert(s =~= Seq::<Entry>::empty());
    } else {
        let key = s[0].0;
        let value = s[0].1;
        let rest = s.drop_first();
        let tail = entries_bytes(rest) + after;
        assert(fits_wire(s[0].0) && fits_wire(s[0].1));
        lemma_read_written_string(before, key, wire_string(value) + tail);
        assert(bytes =~= before + wire_string(key) + (wire_string(value) + tail));
        lemma_read_written_string(before + wire_string(key), value, tail);
        assert(bytes =~= (before + wire_string(key)) + wire_string(value) + tail);
        let next = before + wire_string(key) + wire_string(value);
        assert forall|i: int| 0 <= i < rest.len() implies fits_wire(#[trigger] rest[i].0)
            && fits_wire(rest[i].1) by {
            assert(rest[i] == s[i + 1]);
        }
        lemma_read_written_entries(next, rest, after);
        assert(bytes =~= next + entries_bytes(rest) + after);
        assert(s =~= seq![(key, value)] + rest);
    }
}

/// Parsing the snapshot of a listing gives the listing back, whatever bytes
/// follow the snapshot.
pub proof fn lemma_snapshot_round_trip(s: Seq<Entry>, after: Seq<u8>)
    requires
        snapshot_fits(s),
    ensures
        parse_snapshot(snapshot_bytes(s) + after) == Ok::<Seq<Entry>, Fault>(s),
{
    let count = s.len() as u32;
    let bytes = snapshot_bytes(s) + after;
    lemma_be_round_trip(count);
    assert(bytes.subrange(0, 4) =~= be_bytes(count));
    lemma_read_written_entries(be_bytes(count), s, after);
}

} // verus!
