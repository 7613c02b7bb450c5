use codingchallenges::wc::{add_counts, count, count_text, format_count, render_counts, Counts, WcOptions};

#[test]
fn counts_ascii() {
    let c = count(b"hello world\nsecond line\n");
    assert_eq!(c.bytes, 24);
    assert_eq!(c.lines, 2);
    assert_eq!(c.words, 4);
    assert_eq!(c.chars, 24);
}

#[test]
fn counts_multibyte() {
    let c = count("héllo wörld".as_bytes());
    assert_eq!(c.bytes, 13);
    assert_eq!(c.chars, 11);
    assert_eq!(c.words, 2);
    assert_eq!(c.lines, 0);
}

#[test]
fn counts_invalid_utf8() {
    let c = count(&[b'a', 0xff, b' ', b'b']);
    assert_eq!(c.bytes, 4);
    assert_eq!(c.chars, 4);
    assert_eq!(c.words, 2);
}

#[test]
fn counts_empty() {
    let c = count(b"");
    assert_eq!((c.bytes, c.lines, c.words, c.chars), (0, 0, 0, 0));
}

#[test]
fn unicode_space_separates_words() {
    let c = count("a\u{3000}b\u{a0}c".as_bytes());
    assert_eq!(c.words, 3);
}

#[test]
fn format_pads_to_eight() {
    assert_eq!(format_count(0), "       0");
    assert_eq!(format_count(42), "      42");
    assert_eq!(format_count(123456789), "123456789");
}

#[test]
fn report_default_and_chosen() {
    let c = Counts { bytes: 30, lines: 2, words: 5, chars: 28 };
    let none = WcOptions { show_bytes: false, show_lines: false, show_words: false, show_chars: false };
    assert_eq!(render_counts(&c, &none, "f.txt"), "       2       5      30 f.txt");
    let some = WcOptions { show_bytes: true, show_lines: false, show_words: false, show_chars: true };
    assert_eq!(render_counts(&c, &some, ""), "      30      28");
}

#[test]
fn totals_add_up() {
    let a = Counts { bytes: 1, lines: 2, words: 3, chars: 4 };
    let b = Counts { bytes: 10, lines: 20, words: 30, chars: 40 };
    let t = add_counts(&a, &b);
    assert_eq!((t.bytes, t.lines, t.words, t.chars), (11, 22, 33, 44));
}

#[test]
fn truncated_sequence_is_one_character() {
    let c = count(&[0xE2, 0x82]);
    assert_eq!(c.bytes, 2);
    assert_eq!(c.chars, 1);
    assert!(c.chars <= c.bytes);
}

#[test]
fn counts_given_characters() {
    let c = count_text("é b\n".as_bytes(), &['é', ' ', 'b', '\n']);
    assert_eq!((c.bytes, c.lines, c.words, c.chars), (5, 1, 2, 4));
}
