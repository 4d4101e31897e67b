use bytes::Bytes;
use scm_core::bytes_map::{
    checked_strip, checked_strip_offsets, is_space, memchr, strip, strip_offsets,
};
use scm_core::config::ConfigSet;

fn b(text: &str) -> Bytes {
    Bytes::from(text)
}

#[test]
fn test_empty() {
    let cfg = ConfigSet::new();
    assert!(cfg.sections().is_empty());
    assert!(cfg.keys(b("foo")).is_empty());
    assert!(cfg.get(b("foo"), b("bar")).is_none());
    assert!(cfg.get_sources(b("foo"), b("bar")).is_empty());
    assert!(cfg.errors().is_empty());
}

#[test]
fn test_set() {
    let mut cfg = ConfigSet::new();
    cfg.set(b("y"), b("b"), Some(b"1"), b("set1"));
    cfg.set(b("y"), b("b"), Some(b"2"), b("set2"));
    cfg.set(b("y"), b("a"), Some(b"3"), b("set3"));
    cfg.set(b("z"), b("p"), Some(b"4"), b("set4"));
    cfg.set(b("z"), b("p"), None, b("set5"));
    assert_eq!(cfg.sections(), vec![Bytes::from("y"), Bytes::from("z")]);
    assert_eq!(cfg.keys(b("y")), vec![Bytes::from("b"), Bytes::from("a")]);
    assert_eq!(cfg.get(b("y"), b("b")), Some(Bytes::from("2")));
    assert_eq!(cfg.get(b("y"), b("a")), Some(Bytes::from("3")));
    assert_eq!(cfg.get(b("z"), b("p")), None);

    let sources = cfg.get_sources(b("z"), b("p"));
    assert_eq!(sources.len(), 2);
    assert_eq!(sources[0].value(), &Some(Bytes::from("4")));
    assert_eq!(sources[1].value(), &None);
    assert_eq!(sources[0].source(), "set4");
    assert_eq!(sources[1].source(), "set5");
    assert_eq!(sources[0].location(), None);
    assert_eq!(sources[1].location(), None);
}

#[test]
fn test_set_keeps_other_items_and_the_history() {
    let mut cfg = ConfigSet::new();
    cfg.set(b("s"), b("x"), Some(b"1"), b("first"));
    cfg.set(b("t"), b("x"), Some(b"2"), b("second"));
    cfg.set(b("s"), b("y"), Some(b""), b("third"));
    cfg.set(b("s"), b("x"), Some(b"3"), b("fourth"));
    assert_eq!(cfg.sections(), vec![b("s"), b("t")]);
    assert_eq!(cfg.keys(b("s")), vec![b("x"), b("y")]);
    assert_eq!(cfg.keys(b("t")), vec![b("x")]);
    assert_eq!(cfg.keys(b("u")), Vec::<Bytes>::new());
    assert_eq!(cfg.get(b("s"), b("x")), Some(b("3")));
    assert_eq!(cfg.get(b("t"), b("x")), Some(b("2")));
    assert_eq!(cfg.get(b("s"), b("y")), Some(b("")));
    assert_eq!(cfg.get(b("t"), b("y")), None);
    assert_eq!(cfg.get(b("x"), b("s")), None);
    let history = cfg.get_sources(b("s"), b("x"));
    assert_eq!(history.len(), 2);
    assert_eq!(history[0].value(), &Some(b("1")));
    assert_eq!(history[0].source(), "first");
    assert_eq!(history[1].value(), &Some(b("3")));
    assert_eq!(history[1].source(), "fourth");
    let copy = history[1].clone();
    assert_eq!(copy.value(), &Some(b("3")));
    assert_eq!(copy.source(), "fourth");
    assert_eq!(copy.location(), None);
    assert!(cfg.errors().is_empty());
}

#[test]
fn test_memchr() {
    assert_eq!(memchr(b'=', b"a = b = c"), Some(2));
    assert_eq!(memchr(b'a', b"a = b"), Some(0));
    assert_eq!(memchr(b'c', b"a = c"), Some(4));
    assert_eq!(memchr(b'x', b"a = b"), None);
    assert_eq!(memchr(b'x', b""), None);
}

#[test]
fn test_is_space() {
    for byte in 0..=255u8 {
        assert_eq!(is_space(byte), b" \t\r\n".contains(&byte), "byte {}", byte);
    }
}

#[test]
fn test_strip_offsets() {
    let buf = b("  ab c \t\r\n");
    assert_eq!(strip_offsets(&buf, 0, buf.len()), (2, 6));
    assert_eq!(strip_offsets(&buf, 2, 6), (2, 6));
    assert_eq!(strip_offsets(&buf, 3, 5), (3, 4));
    assert_eq!(strip_offsets(&buf, 4, 5), (5, 5));
    assert_eq!(strip_offsets(&buf, 6, 10), (10, 10));
    assert_eq!(strip_offsets(&buf, 0, 2), (2, 2));
    assert_eq!(strip_offsets(&buf, 3, 3), (3, 3));
    assert_eq!(strip_offsets(&buf, 5, 2), (5, 2));
    assert_eq!(strip_offsets(&b(""), 0, 0), (0, 0));
}

#[test]
fn test_strip() {
    let buf = b("  ab c \t\r\n");
    assert_eq!(strip(&buf, 0, buf.len()), b("ab c"));
    assert_eq!(strip(&buf, 3, 7), b("b c"));
    assert_eq!(strip(&buf, 6, 10), b(""));
    assert_eq!(strip(&buf, 4, 4), b(""));
    let long = b("   a value that is longer than what fits in line, with blanks around    ");
    assert_eq!(
        strip(&long, 0, long.len()),
        b("a value that is longer than what fits in line, with blanks around")
    );
}

#[test]
fn test_checked_strip() {
    let buf = b(" ab ");
    assert_eq!(checked_strip_offsets(&buf, 0, 4), Some((1, 3)));
    assert_eq!(checked_strip_offsets(&buf, 0, 5), None);
    assert_eq!(checked_strip_offsets(&buf, 7, 5), Some((7, 5)));
    assert_eq!(checked_strip_offsets(&buf, 9, 9), Some((9, 9)));
    assert_eq!(checked_strip(&buf, 0, 4), Some(b("ab")));
    assert_eq!(checked_strip(&buf, 4, 4), Some(b("")));
    assert_eq!(checked_strip(&buf, 0, 5), None);
    assert_eq!(checked_strip(&buf, 3, 2), None);
}
