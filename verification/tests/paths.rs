use ffs::prelude::{white_space, InodePath, InodePathParseError};
use ffs::text::{path_order, read_number, text_order, write_number, Order};

fn segments(text: &str) -> Vec<String> {
    InodePath::from_str(text)
        .unwrap()
        .iter()
        .into_iter()
        .map(str::to_string)
        .collect()
}

#[test]
fn paths_are_read() {
    assert_eq!(segments("a/b/c"), vec!["a", "b", "c"]);
    assert_eq!(segments("/a/b/"), vec!["a", "b"]);
    assert_eq!(segments(" \t/a b/ä \n"), vec!["a b", "ä"]);
    assert_eq!(segments("\u{3000}x\u{85}"), vec!["x"]);
    assert_eq!(segments("/ a"), vec![" a"]);
    assert!(segments("").is_empty());
    assert!(segments("/").is_empty());
    assert!(segments("//").is_empty());
    assert!(segments("  / ").is_empty());
    assert!(InodePath::default().iter().is_empty());
}

#[test]
fn empty_segments_are_refused() {
    for text in ["a//b", "//a", "a//", "///"] {
        assert!(matches!(
            InodePath::from_str(text),
            Err(InodePathParseError::SegmentEmpty)
        ));
    }
}

#[test]
fn long_segments_are_refused() {
    assert_eq!(segments(&"a".repeat(255)), vec!["a".repeat(255)]);
    assert!(matches!(
        InodePath::from_str(&"a".repeat(256)),
        Err(InodePathParseError::SegmentTooLong)
    ));
    // Bytes count, not characters.
    assert_eq!(segments(&"ä".repeat(127)).len(), 1);
    assert!(matches!(
        InodePath::from_str(&"ä".repeat(128)),
        Err(InodePathParseError::SegmentTooLong)
    ));
    assert!(matches!(
        InodePath::from_str(&format!("{}//", "a".repeat(300))),
        Err(InodePathParseError::SegmentTooLong)
    ));
    assert!(matches!(
        InodePath::from_str(&format!("b//{}", "a".repeat(300))),
        Err(InodePathParseError::SegmentEmpty)
    ));
}

#[test]
fn path_errors_are_worded() {
    assert_eq!(
        InodePathParseError::SegmentTooLong.message(),
        "Path segment length exceeds 255 bytes"
    );
    assert_eq!(InodePathParseError::SegmentEmpty.message(), "Path segment was empty");
}

#[test]
fn the_last_segment_is_popped() {
    let mut path = InodePath::from_str("a/b").unwrap();
    let copy = path.clone();
    assert_eq!(path.pop(), Some("b".to_string()));
    assert_eq!(path.as_slice(), ["a".to_string()]);
    assert_eq!(path.pop(), Some("a".to_string()));
    assert_eq!(path.pop(), None);
    assert_eq!(copy.iter(), vec!["a", "b"]);
    let made = InodePath::from_segments(vec!["x".to_string(), "y z".to_string()]);
    assert_eq!(made.iter(), vec!["x", "y z"]);
}

#[test]
fn white_space_is_that_of_unicode() {
    for n in 0..=0x10FFFFu32 {
        if let Some(c) = char::from_u32(n) {
            assert_eq!(white_space(c), c.is_whitespace(), "{n:x}");
        }
    }
}

#[test]
fn texts_and_paths_are_ordered() {
    assert_eq!(text_order("a", "b"), Order::Less);
    assert_eq!(text_order("b", "a"), Order::Greater);
    assert_eq!(text_order("a", "a"), Order::Equal);
    assert_eq!(text_order("a", "ab"), Order::Less);
    assert_eq!(text_order("", ""), Order::Equal);
    assert_eq!(text_order("z", "ä"), Order::Less);
    let a = InodePath::from_str("a/z").unwrap();
    let ab = InodePath::from_str("ab").unwrap();
    assert_eq!(path_order(a.as_slice(), ab.as_slice()), Order::Less);
    assert_eq!(path_order(ab.as_slice(), a.as_slice()), Order::Greater);
    assert_eq!(path_order(a.as_slice(), a.as_slice()), Order::Equal);
    assert_eq!(path_order(&[], a.as_slice()), Order::Less);
}

#[test]
fn numbers_are_written_and_read() {
    for n in [0u64, 1, 9, 10, 99, 100, 4294967296, u64::MAX - 1, u64::MAX] {
        assert_eq!(write_number(n), n.to_string());
        assert_eq!(read_number(&n.to_string()), Some(n));
    }
    for text in
        ["", "+", "-", "-1", "+7", "007", "1 ", " 1", "1.0", "a", "18446744073709551616", "++1", "٣"]
    {
        assert_eq!(read_number(text), text.parse::<u64>().ok(), "{text}");
    }
}
