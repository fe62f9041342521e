use durable_kv::cli::{answer, command_from, is_exit, parse_command, response_line, split_words};
use durable_kv::db::{Command, KvState};
use durable_kv::error::DbError;

fn put(key: &str, value: &str) -> Command {
    Command::Put { key: key.to_string(), value: value.to_string() }
}

fn state_of(pairs: &[(&str, &str)]) -> KvState {
    let mut s = KvState::new();
    for (k, v) in pairs {
        s.apply(put(k, v));
    }
    s
}

fn words(list: &[&str]) -> Vec<String> {
    list.iter().map(|s| s.to_string()).collect()
}

#[test]
fn split_words_on_any_whitespace() {
    assert_eq!(split_words("put a b"), vec!["put", "a", "b"]);
    assert_eq!(split_words("  put\t a \r\n b  "), vec!["put", "a", "b"]);
    assert_eq!(split_words(""), Vec::<String>::new());
    assert_eq!(split_words(" \t\n"), Vec::<String>::new());
    assert_eq!(split_words("one"), vec!["one"]);
    assert_eq!(split_words("a\u{3000}b\u{a0}c\u{2003}d"), vec!["a", "b", "c", "d"]);
    assert_eq!(split_words("é ü\u{85}ß"), vec!["é", "ü", "ß"]);
    assert_eq!(split_words("no\u{200b}break"), vec!["no\u{200b}break"]);
}

#[test]
fn command_from_words() {
    assert_eq!(command_from(&words(&["put", "k", "v"])), Some(put("k", "v")));
    assert_eq!(command_from(&words(&["delete", "k"])), Some(Command::Delete { key: "k".to_string() }));
    assert_eq!(command_from(&words(&["get", "k"])), Some(Command::Get { key: "k".to_string() }));
    assert_eq!(
        command_from(&words(&["range", "a", "b"])),
        Some(Command::Range { start: "a".to_string(), end: "b".to_string() })
    );
    assert_eq!(command_from(&words(&["keys", "n"])), Some(Command::Keys { needle: "n".to_string() }));
    assert_eq!(command_from(&words(&["values", "n"])), Some(Command::Values { needle: "n".to_string() }));
    assert_eq!(command_from(&words(&["amount"])), Some(Command::Amount));
    assert_eq!(command_from(&words(&["dump_all"])), Some(Command::DumpAll));
    assert_eq!(command_from(&words(&["shutdown"])), Some(Command::Shutdown));
}

#[test]
fn command_from_rejects_other_shapes() {
    for bad in [
        vec![],
        vec!["put"],
        vec!["put", "k"],
        vec!["put", "k", "v", "w"],
        vec!["delete"],
        vec!["delete", "a", "b"],
        vec!["get"],
        vec!["range", "a"],
        vec!["keys"],
        vec!["values", "a", "b"],
        vec!["amount", "x"],
        vec!["dump_all", "x"],
        vec!["shutdown", "now"],
        vec!["PUT", "k", "v"],
        vec!["puts", "k", "v"],
        vec!["pu", "k", "v"],
        vec!["exit"],
        vec!["", "k"],
    ] {
        assert_eq!(command_from(&words(&bad)), None, "{:?}", bad);
    }
}

#[test]
fn parse_command_reads_every_command() {
    assert_eq!(parse_command("put key value"), Ok(put("key", "value")));
    assert_eq!(parse_command("  delete   key "), Ok(Command::Delete { key: "key".to_string() }));
    assert_eq!(parse_command("get\tkey\n"), Ok(Command::Get { key: "key".to_string() }));
    assert_eq!(
        parse_command("range a z"),
        Ok(Command::Range { start: "a".to_string(), end: "z".to_string() })
    );
    assert_eq!(parse_command("keys ab"), Ok(Command::Keys { needle: "ab".to_string() }));
    assert_eq!(parse_command("values ab"), Ok(Command::Values { needle: "ab".to_string() }));
    assert_eq!(parse_command("amount"), Ok(Command::Amount));
    assert_eq!(parse_command("dump_all"), Ok(Command::DumpAll));
    assert_eq!(parse_command("shutdown"), Ok(Command::Shutdown));
}

#[test]
fn parse_command_shows_what_it_could_not_read() {
    assert_eq!(parse_command(""), Err("[]".to_string()));
    assert_eq!(parse_command("bogus x"), Err("[\"bogus\", \"x\"]".to_string()));
    assert_eq!(parse_command("put a"), Err("[\"put\", \"a\"]".to_string()));
    assert_eq!(parse_command("put a b c"), Err("[\"put\", \"a\", \"b\", \"c\"]".to_string()));
    assert_eq!(parse_command("say \"hi\""), Err("[\"say\", \"\\\"hi\\\"\"]".to_string()));
}

#[test]
fn exit_is_the_single_word() {
    assert!(is_exit("exit"));
    assert!(is_exit("  exit \r\n"));
    assert!(!is_exit("exit now"));
    assert!(!is_exit("EXIT"));
    assert!(!is_exit(""));
    assert!(!is_exit("ex it"));
    assert!(!is_exit("exits"));
}

#[test]
fn get_answers_with_the_value_or_key_not_found() {
    let s = state_of(&[("a", "1")]);
    assert_eq!(answer(&s, &Command::Get { key: "a".to_string() }).unwrap(), "1");
    let e = answer(&s, &Command::Get { key: "b".to_string() }).unwrap_err();
    assert!(matches!(e, DbError::KeyNotFound));
}

#[test]
fn range_answers_one_line_per_entry() {
    let s = state_of(&[("a", "1"), ("b", "2"), ("c", "3")]);
    let r = answer(&s, &Command::Range { start: "a".to_string(), end: "b".to_string() }).unwrap();
    assert_eq!(r, "key: a, val: 1\nkey: b, val: 2\n");
    let r = answer(&s, &Command::Range { start: "x".to_string(), end: "z".to_string() }).unwrap();
    assert_eq!(r, "");
    let r = answer(&s, &Command::Range { start: "c".to_string(), end: "a".to_string() }).unwrap();
    assert_eq!(r, "");
}

#[test]
fn keys_and_values_answer_one_line_per_match() {
    let s = state_of(&[("apple", "red"), ("grape", "green"), ("plum", "dark red")]);
    assert_eq!(answer(&s, &Command::Keys { needle: "ap".to_string() }).unwrap(), "key: apple\nkey: grape\n");
    assert_eq!(answer(&s, &Command::Values { needle: "red".to_string() }).unwrap(), "val: red\nval: dark red\n");
    assert_eq!(answer(&s, &Command::Keys { needle: "zz".to_string() }).unwrap(), "");
}

#[test]
fn amount_answers_with_the_count() {
    assert_eq!(answer(&KvState::new(), &Command::Amount).unwrap(), "Amount of keys: 0");
    let s = state_of(&[("a", "1"), ("b", "2"), ("c", "3")]);
    assert_eq!(answer(&s, &Command::Amount).unwrap(), "Amount of keys: 3");
    let mut big = KvState::new();
    for i in 0..120 {
        big.apply(put(&format!("{}", i), "x"));
    }
    assert_eq!(answer(&big, &Command::Amount).unwrap(), "Amount of keys: 120");
}

#[test]
fn dump_answers_with_every_entry() {
    let s = state_of(&[("b", "2"), ("a", "1")]);
    assert_eq!(answer(&s, &Command::DumpAll).unwrap(), "DEBUG: key: a, val: 1\nDEBUG: key: b, val: 2\n");
    assert_eq!(answer(&KvState::new(), &Command::DumpAll).unwrap(), "");
}

#[test]
fn other_commands_are_acknowledged() {
    let s = state_of(&[("a", "1")]);
    assert_eq!(answer(&s, &put("a", "2")).unwrap(), "OK");
    assert_eq!(answer(&s, &Command::Delete { key: "a".to_string() }).unwrap(), "OK");
    assert_eq!(answer(&s, &Command::Shutdown).unwrap(), "OK");
    assert_eq!(s.get("a"), Some(&"1".to_string()));
}

#[test]
fn response_lines() {
    assert_eq!(response_line(&Ok("OK".to_string())), "OK\n");
    assert_eq!(response_line(&Ok(String::new())), "\n");
    assert_eq!(response_line(&Err(DbError::KeyNotFound)), "ERR: key not found\n");
    assert_eq!(response_line(&Err(DbError::ChannelClosed)), "ERR: task channel was closed\n");
    assert_eq!(
        response_line(&Err(DbError::InvalidCommand { input: "[\"x\"]".to_string() })),
        "ERR: invalid command: [\"x\"]\n"
    );
}
