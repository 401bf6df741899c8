use counting_homomorphisms::text::lines;
use counting_homomorphisms::text::parse_number;
use counting_homomorphisms::text::split;

fn bytes(words: &[&str]) -> Vec<Vec<u8>> {
    words.iter().map(|w| w.as_bytes().to_vec()).collect()
}

#[test]
fn split_keeps_empty_pieces() {
    assert_eq!(split(b"n 1 l 2", 32), bytes(&["n", "1", "l", "2"]));
    assert_eq!(split(b"", 32), bytes(&[""]));
    assert_eq!(split(b" ", 32), bytes(&["", ""]));
    assert_eq!(split(b"a  b ", 32), bytes(&["a", "", "b", ""]));
    assert_eq!(split(b"a b", 10), bytes(&["a b"]));
}

#[test]
fn lines_end_at_line_feeds_and_at_the_end_of_the_text() {
    assert_eq!(lines(b"a\nb\n"), bytes(&["a", "b"]));
    assert_eq!(lines(b"a\nb"), bytes(&["a", "b"]));
    assert_eq!(lines(b"a\n\nb\n"), bytes(&["a", "", "b"]));
    assert_eq!(lines(b"a\n\n"), bytes(&["a", ""]));
    assert_eq!(lines(b"a\r\nb\r\n"), bytes(&["a", "b"]));
    assert_eq!(lines(b"a\rb\r"), bytes(&["a\rb"]));
    assert_eq!(lines(b""), bytes(&[]));
    assert_eq!(lines(b"\n"), bytes(&[""]));
}

#[test]
fn numbers_are_words_of_digits_that_fit() {
    assert_eq!(parse_number(&b"0".to_vec()), Some(0));
    assert_eq!(parse_number(&b"007".to_vec()), Some(7));
    assert_eq!(parse_number(&b"1280".to_vec()), Some(1280));
    assert_eq!(parse_number(&b"18446744073709551615".to_vec()), Some(u64::MAX));
    assert_eq!(parse_number(&b"18446744073709551616".to_vec()), None);
    assert_eq!(parse_number(&b"99999999999999999999".to_vec()), None);
    assert_eq!(parse_number(&b"184467440737095516150".to_vec()), None);
    assert_eq!(parse_number(&b"".to_vec()), None);
    assert_eq!(parse_number(&b"-1".to_vec()), None);
    assert_eq!(parse_number(&b"+1".to_vec()), None);
    assert_eq!(parse_number(&b"1a".to_vec()), None);
    assert_eq!(parse_number(&b"1 ".to_vec()), None);
}
