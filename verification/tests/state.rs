use durable_kv::db::{Command, KvState};
use durable_kv::error::DbError;

fn put(key: &str, value: &str) -> Command {
    Command::Put { key: key.to_string(), value: value.to_string() }
}

fn del(key: &str) -> Command {
    Command::Delete { key: key.to_string() }
}

fn pair(key: &str, value: &str) -> (String, String) {
    (key.to_string(), value.to_string())
}

fn state_of(pairs: &[(&str, &str)]) -> KvState {
    let mut s = KvState::new();
    for (k, v) in pairs {
        s.apply(put(k, v));
    }
    s
}

#[test]
fn new_state_is_empty() {
    let s = KvState::new();
    assert_eq!(s.len(), 0);
    assert_eq!(s.get("a"), None);
    assert!(s.entries().is_empty());
}

#[test]
fn put_inserts_and_overwrites() {
    let mut s = KvState::new();
    s.apply(put("a", "1"));
    assert_eq!(s.get("a"), Some(&"1".to_string()));
    s.apply(put("a", "2"));
    assert_eq!(s.get("a"), Some(&"2".to_string()));
    assert_eq!(s.len(), 1);
}

#[test]
fn delete_removes_and_ignores_absent_keys() {
    let mut s = state_of(&[("a", "1"), ("b", "2")]);
    s.apply(del("a"));
    assert_eq!(s.get("a"), None);
    assert_eq!(s.len(), 1);
    s.apply(del("zzz"));
    assert_eq!(s.entries(), vec![pair("b", "2")]);
}

#[test]
fn read_commands_leave_the_state_alone() {
    let mut s = state_of(&[("a", "1")]);
    for c in [
        Command::Get { key: "a".to_string() },
        Command::Range { start: "a".to_string(), end: "b".to_string() },
        Command::Keys { needle: "a".to_string() },
        Command::Values { needle: "1".to_string() },
        Command::Amount,
        Command::DumpAll,
        Command::Shutdown,
    ] {
        s.apply(c);
    }
    assert_eq!(s.entries(), vec![pair("a", "1")]);
}

#[test]
fn applying_twice_is_applying_once() {
    for c in [put("a", "9"), del("a"), del("missing"), put("new", "x")] {
        let mut once = state_of(&[("a", "1"), ("b", "2")]);
        once.apply(c.clone());
        let mut twice = state_of(&[("a", "1"), ("b", "2")]);
        twice.apply(c.clone());
        twice.apply(c);
        assert_eq!(once.entries(), twice.entries());
    }
}

#[test]
fn entries_come_in_byte_order() {
    let s = state_of(&[("b", "2"), ("a", "1"), ("B", "3"), ("ab", "4"), ("", "5"), ("é", "6"), ("z", "7")]);
    let keys: Vec<String> = s.entries().into_iter().map(|e| e.0).collect();
    assert_eq!(keys, vec!["", "B", "a", "ab", "b", "z", "é"]);
    assert_eq!(s.len(), 7);
}

#[test]
fn many_keys_in_any_order() {
    let mut s = KvState::new();
    let mut n: u32 = 7;
    for _ in 0..500 {
        n = n.wrapping_mul(1_103_515_245).wrapping_add(12_345);
        s.apply(put(&format!("k{:05}", n % 1000), &format!("{}", n)));
    }
    let got = s.entries();
    for w in got.windows(2) {
        assert!(w[0].0.as_bytes() < w[1].0.as_bytes());
    }
    assert_eq!(got.len(), s.len());
    for (k, v) in &got {
        assert_eq!(s.get(k), Some(v));
    }
}

#[test]
fn range_includes_both_ends() {
    let s = state_of(&[("a", "1"), ("b", "2"), ("c", "3"), ("d", "4")]);
    assert_eq!(s.range("b", "c"), vec![pair("b", "2"), pair("c", "3")]);
    assert_eq!(s.range("a", "a"), vec![pair("a", "1")]);
    assert_eq!(s.range("aa", "cz"), vec![pair("b", "2"), pair("c", "3")]);
    assert_eq!(s.range("", "zzz").len(), 4);
    assert_eq!(s.range("e", "z"), vec![]);
    assert_eq!(s.range("", ""), vec![]);
}

#[test]
fn range_with_end_before_start_is_empty() {
    let s = state_of(&[("a", "1"), ("b", "2"), ("c", "3")]);
    assert_eq!(s.range("c", "a"), vec![]);
    assert_eq!(s.range("b", "a"), vec![]);
}

#[test]
fn keys_with_finds_substrings() {
    let s = state_of(&[("apple", "1"), ("grape", "2"), ("plum", "3")]);
    assert_eq!(s.keys_with("ap"), vec!["apple", "grape"]);
    assert_eq!(s.keys_with("plum"), vec!["plum"]);
    assert_eq!(s.keys_with("x"), Vec::<String>::new());
    assert_eq!(s.keys_with(""), vec!["apple", "grape", "plum"]);
    assert_eq!(s.keys_with("apples"), Vec::<String>::new());
}

#[test]
fn values_with_finds_substrings_in_key_order() {
    let s = state_of(&[("c", "red fox"), ("a", "fox red"), ("b", "blue")]);
    assert_eq!(s.values_with("red"), vec!["fox red", "red fox"]);
    assert_eq!(s.values_with("ue"), vec!["blue"]);
    assert_eq!(s.values_with("é"), Vec::<String>::new());
}

#[test]
fn snapshot_of_empty_state_is_a_zero_count() {
    assert_eq!(KvState::new().serialize().unwrap(), vec![0, 0, 0, 0]);
}

#[test]
fn snapshot_lists_count_then_entries_in_key_order() {
    let s = state_of(&[("b", "22"), ("a", "1")]);
    assert_eq!(
        s.serialize().unwrap(),
        vec![0, 0, 0, 2, 0, 0, 0, 1, b'a', 0, 0, 0, 1, b'1', 0, 0, 0, 1, b'b', 0, 0, 0, 2, b'2', b'2']
    );
}

#[test]
fn snapshot_round_trip() {
    let s = state_of(&[("b", "2"), ("a", "1"), ("ü", "line\nfeed"), ("", "")]);
    let bytes = s.serialize().unwrap();
    let back = KvState::deserialize(&bytes).unwrap();
    assert_eq!(back.entries(), s.entries());
    assert_eq!(back.serialize().unwrap(), bytes);
}

#[test]
fn snapshot_round_trip_of_many() {
    let mut s = KvState::new();
    for i in 0..300 {
        s.apply(put(&format!("key{}", (i * 37) % 300), &format!("value{}", i)));
    }
    let back = KvState::deserialize(&s.serialize().unwrap()).unwrap();
    assert_eq!(back.entries(), s.entries());
}

#[test]
fn deserialize_takes_entries_in_any_order_and_the_last_of_equal_keys() {
    let bytes = vec![
        0, 0, 0, 3, 0, 0, 0, 1, b'b', 0, 0, 0, 1, b'1', 0, 0, 0, 1, b'a', 0, 0, 0, 1, b'2', 0, 0, 0, 1, b'b', 0, 0,
        0, 1, b'3',
    ];
    let s = KvState::deserialize(&bytes).unwrap();
    assert_eq!(s.entries(), vec![pair("a", "2"), pair("b", "3")]);
}

#[test]
fn deserialize_ignores_bytes_behind_the_last_entry() {
    let s = KvState::deserialize(&[0, 0, 0, 0, 1, 2, 3]).unwrap();
    assert_eq!(s.len(), 0);
}

#[test]
fn deserialize_of_cut_snapshot_is_truncated() {
    let bytes = state_of(&[("a", "1"), ("b", "2")]).serialize().unwrap();
    for cut in 0..bytes.len() {
        match KvState::deserialize(&bytes[..cut]) {
            Err(DbError::CorruptLog { line }) => assert_eq!(line, "<truncated>"),
            _ => panic!("cut at {} decoded", cut),
        }
    }
}

#[test]
fn deserialize_with_count_past_the_entries_is_truncated() {
    let e = KvState::deserialize(&[0, 0, 0, 2, 0, 0, 0, 1, b'a', 0, 0, 0, 1, b'1']).err().unwrap();
    assert!(matches!(e, DbError::CorruptLog { line } if line == "<truncated>"));
    let e = KvState::deserialize(&[0xff, 0xff, 0xff, 0xff]).err().unwrap();
    assert!(matches!(e, DbError::CorruptLog { line } if line == "<truncated>"));
}

#[test]
fn deserialize_of_bad_utf8_is_invalid_encoding() {
    let e = KvState::deserialize(&[0, 0, 0, 1, 0, 0, 0, 1, 0x80, 0, 0, 0, 0]).err().unwrap();
    assert!(matches!(e, DbError::CorruptLog { line } if line == "<utf8>"));
}
