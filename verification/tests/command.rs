use durable_kv::db::Command;
use durable_kv::error::DbError;

fn put(key: &str, value: &str) -> Command {
    Command::Put { key: key.to_string(), value: value.to_string() }
}

fn all_kinds() -> Vec<Command> {
    vec![
        put("k", "v"),
        Command::Delete { key: "k".to_string() },
        Command::Get { key: "k".to_string() },
        Command::Range { start: "a".to_string(), end: "z".to_string() },
        Command::Keys { needle: "x".to_string() },
        Command::Values { needle: "y".to_string() },
        Command::Amount,
        Command::DumpAll,
        Command::Shutdown,
    ]
}

fn is_truncated(e: &DbError) -> bool {
    matches!(e, DbError::CorruptLog { line } if line == "<truncated>")
}

#[test]
fn only_put_and_delete_are_mutations() {
    let expected = [true, true, false, false, false, false, false, false, false];
    for (c, want) in all_kinds().iter().zip(expected) {
        assert_eq!(c.is_mutation(), want, "{:?}", c);
    }
}

#[test]
fn opcodes_are_stable() {
    let expected = [0u8, 1, 2, 3, 7, 8, 4, 5, 6];
    for (c, want) in all_kinds().iter().zip(expected) {
        assert_eq!(c.opcode(), want, "{:?}", c);
    }
}

#[test]
fn put_encodes_opcode_key_value() {
    let bytes = put("ab", "xyz").serialize().unwrap();
    assert_eq!(bytes, vec![0, 0, 0, 0, 2, b'a', b'b', 0, 0, 0, 3, b'x', b'y', b'z']);
}

#[test]
fn delete_encodes_opcode_key() {
    let bytes = Command::Delete { key: "ab".to_string() }.serialize().unwrap();
    assert_eq!(bytes, vec![1, 0, 0, 0, 2, b'a', b'b']);
}

#[test]
fn read_commands_encode_too() {
    assert_eq!(Command::Get { key: "k".to_string() }.serialize().unwrap(), vec![2, 0, 0, 0, 1, b'k']);
    assert_eq!(
        Command::Range { start: "a".to_string(), end: "b".to_string() }.serialize().unwrap(),
        vec![3, 0, 0, 0, 1, b'a', 0, 0, 0, 1, b'b']
    );
    assert_eq!(Command::Amount.serialize().unwrap(), vec![4]);
    assert_eq!(Command::DumpAll.serialize().unwrap(), vec![5]);
    assert_eq!(Command::Shutdown.serialize().unwrap(), vec![6]);
    assert_eq!(Command::Keys { needle: "".to_string() }.serialize().unwrap(), vec![7, 0, 0, 0, 0]);
    assert_eq!(Command::Values { needle: "v".to_string() }.serialize().unwrap(), vec![8, 0, 0, 0, 1, b'v']);
}

#[test]
fn decode_of_encode_is_the_command() {
    for c in all_kinds() {
        let bytes = c.serialize().unwrap();
        assert_eq!(Command::deserialize(&bytes).unwrap(), c);
    }
}

#[test]
fn round_trip_keeps_arbitrary_text() {
    let c = put("key with\nnewline and \0 nul", "välue — 値 \u{1F600}");
    let bytes = c.serialize().unwrap();
    assert_eq!(Command::deserialize(&bytes).unwrap(), c);
    let empty = put("", "");
    assert_eq!(Command::deserialize(&empty.serialize().unwrap()).unwrap(), empty);
}

#[test]
fn decode_ignores_bytes_behind_the_command() {
    let mut bytes = Command::Delete { key: "k".to_string() }.serialize().unwrap();
    bytes.extend_from_slice(&[9, 9, 9]);
    assert_eq!(Command::deserialize(&bytes).unwrap(), Command::Delete { key: "k".to_string() });
    assert_eq!(Command::deserialize(&[4, 1, 2]).unwrap(), Command::Amount);
}

#[test]
fn decode_of_nothing_is_truncated() {
    assert!(is_truncated(&Command::deserialize(&[]).unwrap_err()));
}

#[test]
fn decode_of_cut_operands_is_truncated() {
    let bytes = put("ab", "xyz").serialize().unwrap();
    for cut in 1..bytes.len() {
        let e = Command::deserialize(&bytes[..cut]).unwrap_err();
        assert!(is_truncated(&e), "cut at {}", cut);
    }
    assert!(is_truncated(&Command::deserialize(&[1]).unwrap_err()));
    assert!(is_truncated(&Command::deserialize(&[3, 0, 0, 0, 1, b'a']).unwrap_err()));
}

#[test]
fn decode_of_bad_utf8_is_invalid_encoding() {
    let e = Command::deserialize(&[1, 0, 0, 0, 1, 0xff]).unwrap_err();
    assert!(matches!(e, DbError::CorruptLog { line } if line == "<utf8>"));
    let e = Command::deserialize(&[0, 0, 0, 0, 1, b'k', 0, 0, 0, 2, 0xC3, 0x28]).unwrap_err();
    assert!(matches!(e, DbError::CorruptLog { line } if line == "<utf8>"));
}

#[test]
fn unknown_opcode_is_invalid_command() {
    let e = Command::deserialize(&[9, 0, 0, 0, 1, b'k']).unwrap_err();
    assert!(matches!(e, DbError::InvalidCommand { input } if input == "unknown opcode 9"));
    let e = Command::deserialize(&[255]).unwrap_err();
    assert!(matches!(e, DbError::InvalidCommand { input } if input == "unknown opcode 255"));
    let e = Command::deserialize(&[100]).unwrap_err();
    assert!(matches!(e, DbError::InvalidCommand { input } if input == "unknown opcode 100"));
}

#[test]
fn commands_show_as_text() {
    let expected = [
        "PUT key=k value=v",
        "DELETE key=k",
        "GET key=k",
        "RANGE start=a end=z",
        "KEYS needle=x",
        "VALUES needle=y",
        "AMOUNT",
        "DUMP_ALL",
        "SHUTDOWN",
    ];
    for (c, want) in all_kinds().iter().zip(expected) {
        assert_eq!(c.to_string(), want);
    }
}
