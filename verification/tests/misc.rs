use durable_kv::config::Config;
use durable_kv::error::DbError;
use durable_kv::order::{compare, Order};
use durable_kv::text::{contains, push_decimal, str_eq};

#[test]
fn default_config() {
    let c = Config::default();
    assert_eq!(c.port, 4210);
    assert_eq!(c.max_wal_size, 102_400);
}

#[test]
fn errors_show_as_text() {
    assert_eq!(DbError::KeyNotFound.to_string(), "key not found");
    assert_eq!(DbError::ChannelClosed.to_string(), "task channel was closed");
    assert_eq!(DbError::CorruptLog { line: "<utf8>".to_string() }.to_string(), "corrupt log entry: <utf8>");
    assert_eq!(DbError::InvalidCommand { input: "x y".to_string() }.to_string(), "invalid command: x y");
    assert_eq!(DbError::truncated().to_string(), "corrupt log entry: <truncated>");
    assert_eq!(DbError::invalid_encoding().to_string(), "corrupt log entry: <utf8>");
    assert_eq!(DbError::unknown_opcode(42).to_string(), "invalid command: unknown opcode 42");
    let io = DbError::Io(std::io::Error::new(std::io::ErrorKind::NotFound, "gone"));
    assert_eq!(io.to_string(), "disk error: gone");
    assert_eq!(io.render("why"), "disk error: why");
    assert_eq!(DbError::KeyNotFound.render("ignored"), "key not found");
}

#[test]
fn compare_orders_by_bytes() {
    assert_eq!(compare("a", "b"), Order::Less);
    assert_eq!(compare("b", "a"), Order::Greater);
    assert_eq!(compare("a", "a"), Order::Equal);
    assert_eq!(compare("", ""), Order::Equal);
    assert_eq!(compare("", "a"), Order::Less);
    assert_eq!(compare("a", ""), Order::Greater);
    assert_eq!(compare("ab", "abc"), Order::Less);
    assert_eq!(compare("abd", "abc"), Order::Greater);
    assert_eq!(compare("Z", "a"), Order::Less);
    assert_eq!(compare("z", "é"), Order::Less);
    assert_eq!(compare("é", "\u{1F600}"), Order::Less);
    assert_eq!(compare("10", "9"), Order::Less);
}

#[test]
fn compare_agrees_with_std() {
    let samples = ["", "a", "A", "ab", "abc", "b", "é", "z", "\u{1F600}", "a\0", "a b"];
    for x in samples {
        for y in samples {
            let want = match x.as_bytes().cmp(y.as_bytes()) {
                std::cmp::Ordering::Less => Order::Less,
                std::cmp::Ordering::Equal => Order::Equal,
                std::cmp::Ordering::Greater => Order::Greater,
            };
            assert_eq!(compare(x, y), want, "{:?} {:?}", x, y);
        }
    }
}

#[test]
fn str_eq_is_equality() {
    assert!(str_eq("", ""));
    assert!(str_eq("abc", "abc"));
    assert!(!str_eq("abc", "abd"));
    assert!(!str_eq("abc", "ab"));
    assert!(!str_eq("", "a"));
    assert!(str_eq("é", "\u{e9}"));
    assert!(!str_eq("e\u{301}", "\u{e9}"));
}

#[test]
fn contains_is_substring_search() {
    assert!(contains("hello", "ell"));
    assert!(contains("hello", "hello"));
    assert!(contains("hello", ""));
    assert!(contains("", ""));
    assert!(contains("hello", "o"));
    assert!(contains("hello", "h"));
    assert!(!contains("hello", "hellos"));
    assert!(!contains("hello", "lle"));
    assert!(!contains("", "a"));
    assert!(contains("aaab", "aab"));
    assert!(contains("grüße", "üß"));
    assert!(!contains("grüße", "us"));
}

#[test]
fn contains_agrees_with_std() {
    let samples = ["", "a", "ab", "ba", "aab", "abab", "é", "aé", "éa", "\u{1F600}x"];
    for hay in samples {
        for needle in samples {
            assert_eq!(contains(hay, needle), hay.contains(needle), "{:?} {:?}", hay, needle);
        }
    }
}

#[test]
fn push_decimal_writes_numerals() {
    for (n, want) in [
        (0u64, "0"),
        (7, "7"),
        (9, "9"),
        (10, "10"),
        (42, "42"),
        (100, "100"),
        (1_234_567_890, "1234567890"),
        (u64::MAX, "18446744073709551615"),
    ] {
        let mut s = String::from("n=");
        push_decimal(&mut s, n);
        assert_eq!(s, format!("n={}", want));
    }
}
