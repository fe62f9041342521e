//! The command model and the state store.

use crate::binary::{
    be_bytes, fits_wire, lemma_read_string_fits, lemma_read_written_string, lemma_wire_string_len,
    read_exact, read_string, read_u32, spec_read_string, wire_string, write_string, write_u32,
};
use crate::error::{DbError, DbResult, Fault};
use crate::order::{
    compare, key_le, key_lt, lemma_key_lt_transitive, lemma_key_order_exclusive, Order,
};
use crate::sorted::{
    in_key_order, is_gap, key_has, keys_of, lemma_filter_run, lemma_gap_absent,
    lemma_in_key_order_of, lemma_insert_at_gap, lemma_map_of_dom, lemma_map_of_entry,
    lemma_map_of_len,
    lemma_remove_at, lemma_update_at, map_of, range_of, strictly_sorted, value_has, values_of,
    within, Entry,
};
use crate::snapshot::{
    entries_bytes, lemma_entries_bytes_push, parse_snapshot, snapshot_of, spec_read_entries,
    then_read,
};
use crate::text::contains;
use vstd::prelude::*;
use vstd::string::StringExecFns;

verus! {

/// One operation on the store.
#[derive(Clone, Debug, PartialEq, Eq)]
pub enum Command {
    Put { key: String, value: String },
    Delete { key: String },
    Get { key: String },
    Range { start: String, end: String },
    Keys { needle: String },
    Values { needle: String },
    Amount,
    DumpAll,
    Shutdown,
}

/// A command as a mathematical value: its strings as sequences of
/// characters.
pub enum CommandView {
    Put { key: Seq<char>, value: Seq<char> },
    Delete { key: Seq<char> },
    Get { key: Seq<char> },
    Range { start: Seq<char>, end: Seq<char> },
    Keys { needle: Seq<char> },
    Values { needle: Seq<char> },
    Amount,
    DumpAll,
    Shutdown,
}

impl View for Command {
    type V = CommandView;

    open spec fn view(&self) -> CommandView {
        match self {
            Command::Put { key, value } => CommandView::Put { key: key@, value: value@ },
            Command::Delete { key } => CommandView::Delete { key: key@ },
            Command::Get { key } => CommandView::Get { key: key@ },
            Command::Range { start, end } => CommandView::Range { start: start@, end: end@ },
            Command::Keys { needle } => CommandView::Keys { needle: needle@ },
            Command::Values { needle } => CommandView::Values { needle: needle@ },
            Command::Amount => CommandView::Amount,
            Command::DumpAll => CommandView::DumpAll,
            Command::Shutdown => CommandView::Shutdown,
        }
    }
}

impl CommandView {
    /// Whether the command changes the store, and so has to reach the log
    /// before it takes effect.
    pub open spec fn is_mutation(self) -> bool {
        self is Put || self is Delete
    }

    /// The byte that stands for the variant on the wire.
    pub open spec fn opcode(self) -> u8 {
        match self {
            CommandView::Put { .. } => 0,
            CommandView::Delete { .. } => 1,
            CommandView::Get { .. } => 2,
            CommandView::Range { .. } => 3,
            CommandView::Amount => 4,
            CommandView::DumpAll => 5,
            CommandView::Shutdown => 6,
            CommandView::Keys { .. } => 7,
            CommandView::Values { .. } => 8,
        }
    }

    /// The operands on the wire, in their fixed order.
    pub open spec fn operands(self) -> Seq<u8> {
        match self {
            CommandView::Put { key, value } => wire_string(key) + wire_string(value),
            CommandView::Delete { key } => wire_string(key),
            CommandView::Get { key } => wire_string(key),
            CommandView::Range { start, end } => wire_string(start) + wire_string(end),
            CommandView::Keys { needle } => wire_string(needle),
            CommandView::Values { needle } => wire_string(needle),
            CommandView::Amount => Seq::empty(),
            CommandView::DumpAll => Seq::empty(),
            CommandView::Shutdown => Seq::empty(),
        }
    }

    /// The command on the wire: its opcode, then its operands.
    pub open spec fn encode(self) -> Seq<u8> {
        seq![self.opcode()] + self.operands()
    }

    /// Every string of the command is short enough for the wire.
    pub open spec fn fits(self) -> bool {
        match self {
            CommandView::Put { key, value } => fits_wire(key) && fits_wire(value),
            CommandView::Delete { key } => fits_wire(key),
            CommandView::Get { key } => fits_wire(key),
            CommandView::Range { start, end } => fits_wire(start) && fits_wire(end),
            CommandView::Keys { needle } => fits_wire(needle),
            CommandView::Values { needle } => fits_wire(needle),
            CommandView::Amount => true,
            CommandView::DumpAll => true,
            CommandView::Shutdown => true,
        }
    }

    /// The command as a line of text.
    pub open spec fn text(self) -> Seq<char> {
        match self {
            CommandView::Put { key, value } => "PUT key="@ + key + " value="@ + value,
            CommandView::Delete { key } => "DELETE key="@ + key,
            CommandView::Get { key } => "GET key="@ + key,
            CommandView::Range { start, end } => "RANGE start="@ + start + " end="@ + end,
            CommandView::Keys { needle } => "KEYS needle="@ + needle,
            CommandView::Values { needle } => "VALUES needle="@ + needle,
            CommandView::Amount => "AMOUNT"@,
            CommandView::DumpAll => "DUMP_ALL"@,
            CommandView::Shutdown => "SHUTDOWN"@,
        }
    }
}

/// The one string that follows the opcode.
pub open spec fn decode_one(bytes: Seq<u8>) -> Result<Seq<char>, Fault> {
    spec_read_string(bytes, 1).0
}

/// The two strings that follow the opcode.
pub open spec fn decode_two(bytes: Seq<u8>) -> Result<(Seq<char>, Seq<char>), Fault> {
    match spec_read_string(bytes, 1) {
        (Err(f), _) => Err(f),
        (Ok(first), next) => match spec_read_string(bytes, next).0 {
            Err(f) => Err(f),
            Ok(second) => Ok((first, second)),
        },
    }
}

/// The command that `bytes` start with.  The first byte selects the variant;
/// its operands follow; bytes behind the last operand are not looked at.
pub open spec fn decode_command(bytes: Seq<u8>) -> Result<CommandView, Fault> {
    if bytes.len() == 0 {
        Err(Fault::Truncated)
    } else if bytes[0] == 0 {
        match decode_two(bytes) {
            Ok((key, value)) => Ok(CommandView::Put { key, value }),
            Err(f) => Err(f),
        }
    } else if bytes[0] == 1 {
        match decode_one(bytes) {
            Ok(key) => Ok(CommandView::Delete { key }),
            Err(f) => Err(f),
        }
    } else if bytes[0] == 2 {
        match decode_one(bytes) {
            Ok(key) => Ok(CommandView::Get { key }),
            Err(f) => Err(f),
        }
    } else if bytes[0] == 3 {
        match decode_two(bytes) {
            Ok((start, end)) => Ok(CommandView::Range { start, end }),
            Err(f) => Err(f),
        }
    } else if bytes[0] == 4 {
        Ok(CommandView::Amount)
    } else if bytes[0] == 5 {
        Ok(CommandView::DumpAll)
    } else if bytes[0] == 6 {
        Ok(CommandView::Shutdown)
    } else if bytes[0] == 7 {
        match decode_one(bytes) {
            Ok(needle) => Ok(CommandView::Keys { needle }),
            Err(f) => Err(f),
        }
    } else if bytes[0] == 8 {
        match decode_one(bytes) {
            Ok(needle) => Ok(CommandView::Values { needle }),
            Err(f) => Err(f),
        }
    } else {
        Err(Fault::UnknownOpcode(bytes[0]))
    }
}

/// Decoding what a command encodes to gives the command back, whatever
/// bytes follow it.
pub proof fn lemma_command_round_trip(c: CommandView, after: Seq<u8>)
    requires
        c.fits(),
    ensures
        decode_command(c.encode() + after) == Ok::<CommandView, Fault>(c),
{
    let head = seq![c.opcode()];
    let bytes = c.encode() + after;
    assert(bytes[0] == c.opcode());
    match c {
        CommandView::Put { key, value } => {
            lemma_two_strings(head, key, value, after);
        },
        CommandView::Range { start, end } => {
            lemma_two_strings(head, start, end, after);
        },
        CommandView::Delete { key } => {
            lemma_read_written_string(head, key, after);
        },
        CommandView::Get { key } => {
            lemma_read_written_string(head, key, after);
        },
        CommandView::Keys { needle } => {
            lemma_read_written_string(head, needle, after);
        },
        CommandView::Values { needle } => {
            lemma_read_written_string(head, needle, after);
        },
        _ => {},
    }
}

/// A command that was decoded has strings short enough to be encoded.
pub proof fn lemma_decoded_fits(bytes: Seq<u8>)
    requires
        decode_command(bytes) is Ok,
    ensures
        decode_command(bytes)->Ok_0.fits(),
{
    if bytes.len() > 0 {
        if spec_read_string(bytes, 1).0 is Ok {
            lemma_read_string_fits(bytes, 1);
            let next = spec_read_string(bytes, 1).1;
            if spec_read_string(bytes, next).0 is Ok {
                lemma_read_string_fits(bytes, next);
            }
        }
    }
}

/// A command whose encoding is short enough for a frame has strings short
/// enough for the wire.
pub proof fn lemma_encoded_fits(c: CommandView)
    requires
        c.encode().len() <= u32::MAX,
    ensures
        c.fits(),
{
    match c {
        CommandView::Put { key, value } => {
            lemma_wire_string_len(key);
            lemma_wire_string_len(value);
        },
        CommandView::Range { start, end } => {
            lemma_wire_string_len(start);
            lemma_wire_string_len(end);
        },
        CommandView::Delete { key } => {
            lemma_wire_string_len(key);
        },
        CommandView::Get { key } => {
            lemma_wire_string_len(key);
        },
        CommandView::Keys { needle } => {
            lemma_wire_string_len(needle);
        },
        CommandView::Values { needle } => {
            lemma_wire_string_len(needle);
        },
        _ => {},
    }
}

proof fn lemma_two_strings(head: Seq<u8>, a: Seq<char>, b: Seq<char>, after: Seq<u8>)
    requires
        head.len() == 1,
        fits_wire(a),
        fits_wire(b),
    ensures
        decode_two(head + (wire_string(a) + wire_string(b)) + after) == Ok::<
            (Seq<char>, Seq<char>),
            Fault,
        >((a, b)),
{
    let bytes = head + (wire_string(a) + wire_string(b)) + after;
    lemma_read_written_string(head, a, wire_string(b) + after);
    assert(bytes =~= head + wire_string(a) + (wire_string(b) + after));
    lemma_read_written_string(head + wire_string(a), b, after);
    assert(bytes =~= (head + wire_string(a)) + wire_string(b) + after);
}

impl Command {
    /// Whether the command changes the store.
    pub fn is_mutation(&self) -> (r: bool)
        ensures
            r == self@.is_mutation(),
    {
        match self {
            Command::Put { .. } => true,
            Command::Delete { .. } => true,
            _ => false,
        }
    }

    /// The byte that stands for the variant on the wire.
    pub fn opcode(&self) -> (r: u8)
        ensures
            r == self@.opcode(),
    {
        match self {
            Command::Put { .. } => 0,
            Command::Delete { .. } => 1,
            Command::Get { .. } => 2,
            Command::Range { .. } => 3,
            Command::Amount => 4,
            Command::DumpAll => 5,
            Command::Shutdown => 6,
            Command::Keys { .. } => 7,
            Command::Values { .. } => 8,
        }
    }

    /// Encodes the command: its opcode, then its operands.
    pub fn serialize(&self) -> (r: DbResult<Vec<u8>>)
        ensures
            r matches Ok(bytes) && bytes@ == self@.encode(),
    {
        let mut buf: Vec<u8> = Vec::new();
        buf.push(self.opcode());
        match self {
            Command::Put { key, value } => {
                write_string(&mut buf, key.as_str());
                write_string(&mut buf, value.as_str());
            },
            Command::Delete { key } => {
                write_string(&mut buf, key.as_str());
            },
            Command::Get { key } => {
                write_string(&mut buf, key.as_str());
            },
            Command::Range { start, end } => {
                write_string(&mut buf, start.as_str());
                write_string(&mut buf, end.as_str());
            },
            Command::Keys { needle } => {
                write_string(&mut buf, needle.as_str());
            },
            Command::Values { needle } => {
                write_string(&mut buf, needle.as_str());
            },
            Command::Amount => {},
            Command::DumpAll => {},
            Command::Shutdown => {},
        }
        assert(buf@ =~= self@.encode());
        Ok(buf)
    }

    /// Decodes the command that `bytes` start with.
    pub fn deserialize(bytes: &[u8]) -> (r: DbResult<Command>)
        ensures
            match r {
                Ok(c) => decode_command(bytes@) == Ok::<CommandView, Fault>(c@),
                Err(e) => decode_command(bytes@) matches Err(f) && e.reports(f),
            },
    {
        let mut cursor: usize = 0;
        let head = read_exact(bytes, &mut cursor, 1)?;
        let opcode: u8 = head[0];
        assert(opcode == bytes@[0]);
        match opcode {
            0 => {
                let key = read_string(bytes, &mut cursor)?;
                let value = read_string(bytes, &mut cursor)?;
                Ok(Command::Put { key, value })
            },
            1 => {
                let key = read_string(bytes, &mut cursor)?;
                Ok(Command::Delete { key })
            },
            2 => {
                let key = read_string(bytes, &mut cursor)?;
                Ok(Command::Get { key })
            },
            3 => {
                let start = read_string(bytes, &mut cursor)?;
                let end = read_string(bytes, &mut cursor)?;
                Ok(Command::Range { start, end })
            },
            4 => Ok(Command::Amount),
            5 => Ok(Command::DumpAll),
            6 => Ok(Command::Shutdown),
            7 => {
                let needle = read_string(bytes, &mut cursor)?;
                Ok(Command::Keys { needle })
            },
            8 => {
                let needle = read_string(bytes, &mut cursor)?;
                Ok(Command::Values { needle })
            },
            _ => Err(DbError::unknown_opcode(opcode)),
        }
    }

    /// The command as a line of text.
    pub fn to_string(&self) -> (r: String)
        ensures
            r@ == self@.text(),
    {
        let mut s = String::new();
        match self {
            Command::Put { key, value } => {
                s.append("PUT key=");
                s.append(key.as_str());
                s.append(" value=");
                s.append(value.as_str());
            },
            Command::Delete { key } => {
                s.append("DELETE key=");
                s.append(key.as_str());
            },
            Command::Get { key } => {
                s.append("GET key=");
                s.append(key.as_str());
            },
            Command::Range { start, end } => {
                s.append("RANGE start=");
                s.append(start.as_str());
                s.append(" end=");
                s.append(end.as_str());
            },
            Command::Keys { needle } => {
                s.append("KEYS needle=");
                s.append(needle.as_str());
            },
            Command::Values { needle } => {
                s.append("VALUES needle=");
                s.append(needle.as_str());
            },
            Command::Amount => {
                s.append("AMOUNT");
            },
            Command::DumpAll => {
                s.append("DUMP_ALL");
            },
            Command::Shutdown => {
                s.append("SHUTDOWN");
            },
        }
        assert(s@ =~= self@.text());
        s
    }
}

/// The store after the command `c` has been applied to the store `m`: `Put`
/// sets the value under its key, `Delete` takes its key out, and the commands
/// that only read leave the store as it is.
pub open spec fn apply_spec(m: Map<Seq<char>, Seq<char>>, c: CommandView) -> Map<
    Seq<char>,
    Seq<char>,
> {
    match c {
        CommandView::Put { key, value } => m.insert(key, value),
        CommandView::Delete { key } => m.remove(key),
        _ => m,
    }
}

/// The in-memory store: an ordered map from keys to values.  It is held as a
/// list of entries whose keys rise strictly in byte order.
pub struct KvState {
    entries: Vec<(String, String)>,
}

impl View for KvState {
    type V = Map<Seq<char>, Seq<char>>;

    closed spec fn view(&self) -> Map<Seq<char>, Seq<char>> {
        map_of(self.pairs())
    }
}

impl KvState {
    /// The entries as they are stored.
    spec fn pairs(&self) -> Seq<Entry> {
        self.entries.deep_view()
    }

    #[verifier::type_invariant]
    spec fn well_formed(&self) -> bool {
        strictly_sorted(self.pairs())
    }

    /// The store holds finitely many entries.
    pub proof fn lemma_finite(&self)
        ensures
            self@.dom().finite(),
    {
        lemma_map_of_dom(self.pairs());
    }

    /// The empty store.
    pub fn new() -> (s: KvState)
        ensures
            s@ == Map::<Seq<char>, Seq<char>>::empty(),
    {
        let s = KvState { entries: Vec::new() };
        assert(s.pairs() =~= Seq::<Entry>::empty());
        s
    }

    /// Moves the entries out and leaves the store empty, so that they can be
    /// changed and put back.
    fn take_entries(&mut self) -> (entries: Vec<(String, String)>)
        ensures
            entries == old(self).entries,
            final(self).entries@.len() == 0,
    {
        let mut entries: Vec<(String, String)> = Vec::new();
        core::mem::swap(&mut self.entries, &mut entries);
        assert(self.pairs() =~= Seq::<Entry>::empty());
        entries
    }

    /// Looks for `key`: whether an entry holds it, and the place of that
    /// entry, or else the place where such an entry would stand.
    fn locate(&self, key: &str) -> (r: (bool, usize))
        ensures
            r.1 <= self.pairs().len(),
            r.0 ==> r.1 < self.pairs().len() && self.pairs()[r.1 as int].0 == key@,
            !r.0 ==> is_gap(self.pairs(), key@, r.1 as int),
    {
        proof {
            use_type_invariant(self);
        }
        let ghost s = self.pairs();
        let mut lo: usize = 0;
        let mut hi: usize = self.entries.len();
        while lo < hi
            invariant
                lo <= hi <= s.len(),
                s == self.pairs(),
                s.len() == self.entries@.len(),
                strictly_sorted(s),
                forall|i: int| 0 <= i < lo ==> key_lt(#[trigger] s[i].0, key@),
                forall|i: int| hi <= i < s.len() ==> key_lt(key@, #[trigger] s[i].0),
            decreases hi - lo,
        {
            let mid: usize = lo + (hi - lo) / 2;
            let here = compare(self.entries[mid].0.as_str(), key);
            assert(s[mid as int].0 == self.entries@[mid as int].0@);
            match here {
                Order::Equal => {
                    return (true, mid);
                },
                Order::Less => {
                    proof {
                        assert forall|i: int| 0 <= i < mid + 1 implies key_lt(
                            #[trigger] s[i].0,
                            key@,
                        ) by {
                            if i < mid {
                                assert(key_lt(s[i].0, s[mid as int].0));
                                lemma_key_lt_transitive(s[i].0, s[mid as int].0, key@);
                            }
                        }
                    }
                    lo = mid + 1;
                },
                Order::Greater => {
                    proof {
                        assert forall|i: int| mid <= i < s.len() implies key_lt(
                            key@,
                            #[trigger] s[i].0,
                        ) by {
                            if i > mid {
                                assert(key_lt(s[mid as int].0, s[i].0));
                                lemma_key_lt_transitive(key@, s[mid as int].0, s[i].0);
                            }
                        }
                    }
                    hi = mid;
                },
            }
        }
        (false, lo)
    }

    /// Applies one command.  `Put` sets, `Delete` removes, and every other
    /// command leaves the store unchanged.
    pub fn apply(&mut self, cmd: Command)
        ensures
            final(self)@ == apply_spec(old(self)@, cmd@),
    {
        proof {
            use_type_invariant(&*self);
        }
        let ghost before = self.pairs();
        match cmd {
            Command::Put { key, value } => {
                let (found, at) = self.locate(key.as_str());
                if found {
                    proof {
                        lemma_update_at(before, at as int, value@);
                    }
                    let mut entries = self.take_entries();
                    entries.set(at, (key, value));
                    assert(entries.deep_view() =~= before.update(
                        at as int,
                        (before[at as int].0, value@),
                    ));
                    self.entries = entries;
                } else {
                    proof {
                        lemma_insert_at_gap(before, at as int, key@, value@);
                    }
                    let mut entries = self.take_entries();
                    entries.insert(at, (key, value));
                    assert(entries.deep_view() =~= before.insert(at as int, (key@, value@)));
                    self.entries = entries;
                }
            },
            Command::Delete { key } => {
                let (found, at) = self.locate(key.as_str());
                if found {
                    proof {
                        lemma_remove_at(before, at as int);
                    }
                    let mut entries = self.take_entries();
                    entries.remove(at);
                    assert(entries.deep_view() =~= before.remove(at as int));
                    self.entries = entries;
                } else {
                    proof {
                        lemma_gap_absent(before, key@, at as int);
                    }
                }
            },
            _ => {},
        }
    }

    /// The value under `key`, if the store holds one.
    pub fn get(&self, key: &str) -> (r: Option<&String>)
        ensures
            match r {
                Some(v) => self@.contains_key(key@) && self@[key@] == v@,
                None => !self@.contains_key(key@),
            },
    {
        proof {
            use_type_invariant(self);
        }
        let (found, at) = self.locate(key);
        if found {
            proof {
                lemma_map_of_entry(self.pairs(), at as int);
            }
            Some(&self.entries[at].1)
        } else {
            proof {
                lemma_gap_absent(self.pairs(), key@, at as int);
            }
            None
        }
    }

    /// The number of entries.
    pub fn len(&self) -> (n: usize)
        ensures
            self@.dom().finite(),
            n == self@.len(),
    {
        proof {
            use_type_invariant(self);
            lemma_map_of_len(self.pairs());
        }
        self.entries.len()
    }

    /// The entries with a key from `start` to `end`, both included, in key
    /// order.
    pub fn range(&self, start: &str, end: &str) -> (r: Vec<(String, String)>)
        ensures
            r.deep_view() == range_of(self@, start@, end@),
    {
        proof {
            use_type_invariant(self);
            lemma_in_key_order_of(self.pairs());
        }
        let ghost s = self.pairs();
        let (found, first) = self.locate(start);
        let mut out: Vec<(String, String)> = Vec::new();
        let mut i: usize = first;
        let mut open: bool = true;
        while open && i < self.entries.len()
            invariant
                first <= i <= s.len(),
                s == self.pairs(),
                s.len() == self.entries@.len(),
                strictly_sorted(s),
                out.deep_view() == s.subrange(first as int, i as int),
                forall|j: int| first <= j < i ==> key_le(#[trigger] s[j].0, end@),
                !open ==> i < s.len() && key_lt(end@, s[i as int].0),
            decreases s.len() - i + if open { 1int } else { 0int },
        {
            let here = compare(self.entries[i].0.as_str(), end);
            assert(s[i as int].0 == self.entries@[i as int].0@);
            match here {
                Order::Greater => {
                    open = false;
                },
                _ => {
                    let key = self.entries[i].0.clone();
                    let value = self.entries[i].1.clone();
                    out.push((key, value));
                    assert(out.deep_view() =~= s.subrange(first as int, i as int).push(s[i as int]));
                    assert(s.subrange(first as int, i + 1) =~= s.subrange(first as int, i as int).push(
                        s[i as int],
                    ));
                    i += 1;
                },
            }
        }
        proof {
            let p = within(start@, end@);
            assert forall|j: int| 0 <= j < s.len() implies (p(#[trigger] s[j]) <==> first <= j
                < i) by {
                lemma_key_order_exclusive(start@, s[j].0);
                lemma_key_order_exclusive(s[j].0, start@);
                lemma_key_order_exclusive(end@, s[j].0);
                lemma_key_order_exclusive(s[j].0, end@);
                if j < first {
                    if found {
                        assert(key_lt(s[j].0, s[first as int].0));
                    }
                } else if j < i {
                    if found && j > first {
                        assert(key_lt(s[first as int].0, s[j].0));
                    }
                } else {
                    if j > i {
                        assert(key_lt(s[i as int].0, s[j].0));
                        lemma_key_lt_transitive(end@, s[i as int].0, s[j].0);
                    }
                }
            }
            lemma_filter_run(s, p, first as int, i as int);
        }
        out
    }

    /// The keys that hold `needle`, in key order.
    pub fn keys_with(&self, needle: &str) -> (r: Vec<String>)
        ensures
            r.deep_view() == keys_of(self@, needle@),
    {
        proof {
            use_type_invariant(self);
            lemma_in_key_order_of(self.pairs());
        }
        let ghost s = self.pairs();
        let ghost p = key_has(needle@);
        let ghost f = |e: Entry| e.0;
        let mut out: Vec<String> = Vec::new();
        let mut i: usize = 0;
        assert(s.subrange(0, 0).filter(p) =~= Seq::<Entry>::empty()) by {
            reveal(Seq::filter);
        }
        while i < self.entries.len()
            invariant
                i <= s.len(),
                s == self.pairs(),
                s.len() == self.entries@.len(),
                p == key_has(needle@),
                f == |e: Entry| e.0,
                out.deep_view() == s.subrange(0, i as int).filter(p).map_values(f),
            decreases s.len() - i,
        {
            proof {
                assert(s.subrange(0, i + 1) =~= s.subrange(0, i as int).push(s[i as int]));
                s.subrange(0, i as int).lemma_filter_push(s[i as int], p);
            }
            assert(s[i as int].0 == self.entries@[i as int].0@);
            if contains(self.entries[i].0.as_str(), needle) {
                let ghost kept = s.subrange(0, i as int).filter(p);
                let key = self.entries[i].0.clone();
                out.push(key);
                assert(out.deep_view() =~= kept.map_values(f).push(s[i as int].0));
                assert(kept.push(s[i as int]).map_values(f) =~= kept.map_values(f).push(
                    s[i as int].0,
                ));
            }
            i += 1;
        }
        assert(s.subrange(0, i as int) =~= s);
        out
    }

    /// The values that hold `needle`, in the order of their keys.
    pub fn values_with(&self, needle: &str) -> (r: Vec<String>)
        ensures
            r.deep_view() == values_of(self@, needle@),
    {
        proof {
            use_type_invariant(self);
            lemma_in_key_order_of(self.pairs());
        }
        let ghost s = self.pairs();
        let ghost p = value_has(needle@);
        let ghost f = |e: Entry| e.1;
        let mut out: Vec<String> = Vec::new();
        let mut i: usize = 0;
        assert(s.subrange(0, 0).filter(p) =~= Seq::<Entry>::empty()) by {
            reveal(Seq::filter);
        }
        while i < self.entries.len()
            invariant
                i <= s.len(),
                s == self.pairs(),
                s.len() == self.entries@.len(),
                p == value_has(needle@),
                f == |e: Entry| e.1,
                out.deep_view() == s.subrange(0, i as int).filter(p).map_values(f),
            decreases s.len() - i,
        {
            proof {
                assert(s.subrange(0, i + 1) =~= s.subrange(0, i as int).push(s[i as int]));
                s.subrange(0, i as int).lemma_filter_push(s[i as int], p);
            }
            assert(s[i as int].1 == self.entries@[i as int].1@);
            if contains(self.entries[i].1.as_str(), needle) {
                let ghost kept = s.subrange(0, i as int).filter(p);
                let value = self.entries[i].1.clone();
                out.push(value);
                assert(out.deep_view() =~= kept.map_values(f).push(s[i as int].1));
                assert(kept.push(s[i as int]).map_values(f) =~= kept.map_values(f).push(
                    s[i as int].1,
                ));
            }
            i += 1;
        }
        assert(s.subrange(0, i as int) =~= s);
        out
    }

    /// All entries, in key order.
    pub fn entries(&self) -> (r: Vec<(String, String)>)
        ensures
            r.deep_view() == in_key_order(self@),
    {
        proof {
            use_type_invariant(self);
            lemma_in_key_order_of(self.pairs());
        }
        let ghost s = self.pairs();
        let mut out: Vec<(String, String)> = Vec::new();
        let mut i: usize = 0;
        while i < self.entries.len()
            invariant
                i <= s.len(),
                s == self.pairs(),
                s.len() == self.entries@.len(),
                out.deep_view() == s.subrange(0, i as int),
            decreases s.len() - i,
        {
            let key = self.entries[i].0.clone();
            let value = self.entries[i].1.clone();
            out.push((key, value));
            assert(s[i as int] == (key@, value@));
            assert(out.deep_view() =~= s.subrange(0, i as int).push(s[i as int]));
            assert(s.subrange(0, i + 1) =~= s.subrange(0, i as int).push(s[i as int]));
            i += 1;
        }
        assert(s.subrange(0, i as int) =~= s);
        out
    }

    /// Encodes the whole store as a snapshot: the number of entries, then
    /// the entries in key order.
    pub fn serialize(&self) -> (r: DbResult<Vec<u8>>)
        ensures
            r matches Ok(bytes) && bytes@ == snapshot_of(self@),
    {
        proof {
            use_type_invariant(self);
            lemma_in_key_order_of(self.pairs());
        }
        let ghost s = self.pairs();
        let mut buf: Vec<u8> = Vec::new();
        let count: u32 = (self.entries.len() as u64 % 0x1_0000_0000u64) as u32;
        write_u32(&mut buf, count);
        let mut i: usize = 0;
        assert(buf@ =~= be_bytes(count) + entries_bytes(s.subrange(0, 0)));
        while i < self.entries.len()
            invariant
                i <= s.len(),
                s == self.pairs(),
                s.len() == self.entries@.len(),
                buf@ == be_bytes(count) + entries_bytes(s.subrange(0, i as int)),
            decreases s.len() - i,
        {
            let ghost head = buf@;
            write_string(&mut buf, self.entries[i].0.as_str());
            write_string(&mut buf, self.entries[i].1.as_str());
            proof {
                let done = s.subrange(0, i as int);
                assert(s[i as int] == (self.entries@[i as int].0@, self.entries@[i as int].1@));
                lemma_entries_bytes_push(done, s[i as int]);
                assert(s.subrange(0, i + 1) =~= done.push(s[i as int]));
                assert(buf@ =~= be_bytes(count) + entries_bytes(s.subrange(0, i + 1)));
            }
            i += 1;
        }
        assert(s.subrange(0, i as int) =~= s);
        Ok(buf)
    }

    /// Decodes a snapshot.  The entries are put into an empty store in the
    /// order in which the snapshot lists them.
    pub fn deserialize(bytes: &[u8]) -> (r: DbResult<KvState>)
        ensures
            match r {
                Ok(state) => parse_snapshot(bytes@) matches Ok(list) && state@ == map_of(list),
                Err(e) => parse_snapshot(bytes@) matches Err(f) && e.reports(f),
            },
    {
        let mut cursor: usize = 0;
        let count: u32 = read_u32(bytes, &mut cursor)?;
        let mut state = KvState::new();
        let ghost done: Seq<Entry> = Seq::empty();
        let mut i: u32 = 0;
        assert(then_read(done, spec_read_entries(bytes@, cursor as int, count as nat))
            == parse_snapshot(bytes@)) by {
            let rest = spec_read_entries(bytes@, cursor as int, count as nat);
            if rest is Ok {
                assert(done + rest->Ok_0 =~= rest->Ok_0);
            }
        }
        while i < count
            invariant
                i <= count,
                state@ == map_of(done),
                then_read(done, spec_read_entries(bytes@, cursor as int, (count - i) as nat))
                    == parse_snapshot(bytes@),
            decreases count - i,
        {
            let ghost at = cursor as int;
            let key = read_string(bytes, &mut cursor)?;
            let value = read_string(bytes, &mut cursor)?;
            proof {
                let entry = (key@, value@);
                let rest = spec_read_entries(bytes@, cursor as int, (count - i - 1) as nat);
                assert(spec_read_entries(bytes@, at, (count - i) as nat) == then_read(
                    seq![entry],
                    rest,
                ));
                if rest is Ok {
                    assert(done + (seq![entry] + rest->Ok_0) =~= done.push(entry) + rest->Ok_0);
                }
                assert(done.push(entry).drop_last() =~= done);
                done = done.push(entry);
            }
            state.apply(Command::Put { key, value });
            i += 1;
        }
        assert(done + Seq::<Entry>::empty() =~= done);
        Ok(state)
    }
}

} // verus!
