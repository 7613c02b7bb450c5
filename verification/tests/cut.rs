use codingchallenges::cut::{cut_line, parse_fields};

#[test]
fn fields_are_sorted_and_deduplicated() {
    assert_eq!(parse_fields("3,1 2,3"), vec![1, 2, 3]);
}

#[test]
fn fields_skip_junk() {
    assert_eq!(parse_fields("1,,x, +4\t-2 5a"), vec![1, 4]);
    assert_eq!(parse_fields(""), Vec::<usize>::new());
}

#[test]
fn field_list_too_large_is_skipped() {
    assert_eq!(parse_fields("99999999999999999999999999,7"), vec![7]);
}

#[test]
fn cut_selects_fields() {
    assert_eq!(cut_line("a\tb\tc", '\t', &[1, 3]), "a\tc");
    assert_eq!(cut_line("a,b,c", ',', &[2]), "b");
}

#[test]
fn cut_keeps_field_order_and_skips_missing() {
    assert_eq!(cut_line("a,b,c", ',', &[3, 1, 9]), "c,a");
}

#[test]
fn cut_empty_fields() {
    assert_eq!(cut_line("a,,c", ',', &[2, 3]), ",c");
    assert_eq!(cut_line("", ',', &[1]), "");
    assert_eq!(cut_line("abc", ',', &[2]), "");
}

#[test]
fn cut_multibyte_delimiter() {
    assert_eq!(cut_line("x→y→z", '→', &[2, 3]), "y→z");
}

#[test]
fn cut_all_fields_gives_line_back() {
    assert_eq!(cut_line("a,b,,c", ',', &[1, 2, 3, 4]), "a,b,,c");
    assert_eq!(cut_line("one", ',', &[1]), "one");
}

#[test]
fn field_zero_is_no_field() {
    assert_eq!(parse_fields("0"), Vec::<usize>::new());
    assert_eq!(parse_fields("0,2 00 1"), vec![1, 2]);
}
