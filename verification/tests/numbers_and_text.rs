use trace4d::decimal::{parse_u16, parse_usize};
use trace4d::text::{split_fields, split_words};

fn bytes(s: &str) -> Vec<u8> {
    s.as_bytes().to_vec()
}

#[test]
fn usize_plain_digits() {
    assert_eq!(parse_usize(b"42"), Some(42));
    assert_eq!(parse_usize(b"0"), Some(0));
    assert_eq!(parse_usize(b"0012"), Some(12));
}

#[test]
fn usize_plus_sign_accepted() {
    assert_eq!(parse_usize(b"+7"), Some(7));
    assert_eq!(parse_usize(b"+"), None);
    assert_eq!(parse_usize(b"++7"), None);
}

#[test]
fn usize_rejects_other_text() {
    assert_eq!(parse_usize(b""), None);
    assert_eq!(parse_usize(b"-1"), None);
    assert_eq!(parse_usize(b" 1"), None);
    assert_eq!(parse_usize(b"1 "), None);
    assert_eq!(parse_usize(b"4\r"), None);
    assert_eq!(parse_usize(b"1a"), None);
}

#[test]
fn usize_matches_std_at_the_limit() {
    let max = usize::MAX.to_string();
    assert_eq!(parse_usize(max.as_bytes()), Some(usize::MAX));
    let over = format!("{}0", usize::MAX);
    assert_eq!(parse_usize(over.as_bytes()), None);
    assert_eq!(over.parse::<usize>().ok(), None);
}

#[test]
fn u16_limits() {
    assert_eq!(parse_u16(b"65535"), Some(65535));
    assert_eq!(parse_u16(b"65536"), None);
    assert_eq!(parse_u16(b"+00065535"), Some(65535));
    assert_eq!(parse_u16(b""), None);
}

#[test]
fn u16_agrees_with_std() {
    for s in ["0", "1", "+1", "-1", "", "+", "65535", "65536", "007", "1/2", "99999999999999999999999"] {
        assert_eq!(parse_u16(s.as_bytes()), s.parse::<u16>().ok(), "{:?}", s);
    }
}

#[test]
fn words_drop_empty_pieces() {
    let ws = split_words(&bytes("  a bb  c "), 0);
    assert_eq!(ws, vec![bytes("a"), bytes("bb"), bytes("c")]);
    let ws = split_words(&bytes("v 1 2"), 2);
    assert_eq!(ws, vec![bytes("1"), bytes("2")]);
    assert!(split_words(&bytes("   "), 0).is_empty());
    assert!(split_words(&bytes("ab"), 2).is_empty());
}

#[test]
fn fields_keep_empty_pieces() {
    let fs = split_fields(&bytes("1//3"), b'/');
    assert_eq!(fs, vec![bytes("1"), bytes(""), bytes("3")]);
    assert_eq!(split_fields(&bytes(""), b'/'), vec![bytes("")]);
    assert_eq!(split_fields(&bytes("/"), b'/'), vec![bytes(""), bytes("")]);
}

#[test]
fn fields_and_words_agree_with_std() {
    for s in ["a/b/c", "//", "x", "a b", " a  b "] {
        let fs: Vec<Vec<u8>> = s.split('/').map(|p| p.as_bytes().to_vec()).collect();
        assert_eq!(split_fields(&bytes(s), b'/'), fs);
        let ws: Vec<Vec<u8>> = s.split(' ').filter(|c| !c.is_empty()).map(|p| p.as_bytes().to_vec()).collect();
        assert_eq!(split_words(&bytes(s), 0), ws);
    }
}
