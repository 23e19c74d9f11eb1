use renraku::text::{
    chars_of, field_count, is_whitespace, numeric_fields, parse_usize, piece_end, push_decimal,
    string_of, Separator,
};

fn chars(s: &str) -> Vec<char> {
    s.chars().collect()
}

fn number(s: &str) -> Option<usize> {
    let c = chars(s);
    parse_usize(&c, 0, c.len())
}

fn numbers(s: &str, skip: usize) -> Vec<usize> {
    let c = chars(s);
    numeric_fields(&c, 0, c.len(), skip)
}

#[test]
fn white_space_is_what_the_standard_library_calls_so() {
    for code in 0..=0x10FFFFu32 {
        if let Some(c) = char::from_u32(code) {
            assert_eq!(is_whitespace(c), c.is_whitespace(), "U+{:04X}", code);
        }
    }
}

#[test]
fn the_characters_of_a_text_come_in_order() {
    assert_eq!(chars_of("e 1 2"), vec!['e', ' ', '1', ' ', '2']);
    assert_eq!(chars_of(""), Vec::<char>::new());
    assert_eq!(chars_of("é\u{3000}z"), vec!['é', '\u{3000}', 'z']);
}

#[test]
fn a_string_is_built_from_a_range_of_characters() {
    let c = chars("hello world");
    assert_eq!(string_of(&c, 0, 5), "hello");
    assert_eq!(string_of(&c, 6, 11), "world");
    assert_eq!(string_of(&c, 3, 3), "");
}

#[test]
fn a_number_is_digits_with_an_optional_plus() {
    assert_eq!(number("0"), Some(0));
    assert_eq!(number("42"), Some(42));
    assert_eq!(number("+42"), Some(42));
    assert_eq!(number("007"), Some(7));
    assert_eq!(number(""), None);
    assert_eq!(number("+"), None);
    assert_eq!(number("-"), None);
    assert_eq!(number("-5"), None);
    assert_eq!(number("++5"), None);
    assert_eq!(number("5+"), None);
    assert_eq!(number("4x"), None);
    assert_eq!(number("x4"), None);
    assert_eq!(number("1.5"), None);
    assert_eq!(number("１２"), None);
}

#[test]
fn a_number_agrees_with_the_standard_library() {
    let samples = [
        "0", "1", "9", "10", "+10", "-10", "", "+", "a", "1a", "a1", "00", "+0", "0x10", "1_000",
        " 1", "1 ", "18446744073709551615", "18446744073709551616", "99999999999999999999999",
        "+18446744073709551615", "4294967295", "4294967296",
    ];
    for s in samples {
        assert_eq!(number(s), s.parse::<usize>().ok(), "{:?}", s);
    }
}

#[test]
fn the_largest_number_is_read_and_the_next_is_not() {
    let max = usize::MAX.to_string();
    assert_eq!(number(&max), Some(usize::MAX));
    let mut over: Vec<char> = max.chars().collect();
    let last = over.len() - 1;
    over[last] = char::from_digit(over[last].to_digit(10).unwrap() + 1, 10).unwrap();
    assert_eq!(parse_usize(&over, 0, over.len()), None);
    let longer = format!("{}0", max);
    assert_eq!(number(&longer), None);
}

#[test]
fn a_number_is_read_from_the_middle_of_a_buffer() {
    let c = chars("e 12 345");
    assert_eq!(parse_usize(&c, 2, 4), Some(12));
    assert_eq!(parse_usize(&c, 5, 8), Some(345));
    assert_eq!(parse_usize(&c, 5, 7), Some(34));
    assert_eq!(parse_usize(&c, 1, 4), None);
}

#[test]
fn a_piece_ends_at_the_next_separator() {
    let c = chars("ab cd\nef");
    assert_eq!(piece_end(Separator::Blank, &c, 0, c.len()), 2);
    assert_eq!(piece_end(Separator::Blank, &c, 3, c.len()), 5);
    assert_eq!(piece_end(Separator::LineFeed, &c, 0, c.len()), 5);
    assert_eq!(piece_end(Separator::LineFeed, &c, 6, c.len()), 8);
    assert_eq!(piece_end(Separator::Blank, &c, 2, c.len()), 2);
    assert_eq!(piece_end(Separator::Blank, &c, 0, 1), 1);
}

#[test]
fn the_numbers_of_a_line_leave_out_the_first_fields() {
    assert_eq!(numbers("p edge 3 4", 2), vec![3, 4]);
    assert_eq!(numbers("e 1 2", 1), vec![1, 2]);
    assert_eq!(numbers("e 1 2", 0), vec![1, 2]);
    assert_eq!(numbers("1 2 3", 1), vec![2, 3]);
    assert_eq!(numbers("1 2 3", 3), Vec::<usize>::new());
    assert_eq!(numbers("1 2 3", 7), Vec::<usize>::new());
    assert_eq!(numbers("", 0), Vec::<usize>::new());
    assert_eq!(numbers("   ", 0), Vec::<usize>::new());
}

#[test]
fn a_field_that_is_no_number_is_passed_over() {
    assert_eq!(numbers("e 1 x 2", 1), vec![1, 2]);
    assert_eq!(numbers("e one two", 1), Vec::<usize>::new());
    assert_eq!(numbers("e -1 2", 1), vec![2]);
    assert_eq!(numbers("e 1 99999999999999999999999 2", 1), vec![1, 2]);
}

#[test]
fn fields_are_parted_by_any_white_space() {
    assert_eq!(numbers("e\t1\u{a0}2", 1), vec![1, 2]);
    assert_eq!(numbers("  e   1    2   ", 1), vec![1, 2]);
    assert_eq!(numbers("e\u{3000}7\r8", 1), vec![7, 8]);
    assert_eq!(numbers("e1 2 3", 1), vec![2, 3]);
}

#[test]
fn the_numbers_of_a_line_agree_with_the_standard_library() {
    let lines = [
        "p edge 5 7", "p 5 7", "e 1 2", "e 1 2 3", "e  12\t13 ", "p edge x 5 y 7", "e", "p",
        "e +1 -2 3", "   e 1", "e 1\u{2003}2",
    ];
    for line in lines {
        for skip in 0..4usize {
            let expected: Vec<usize> =
                line.split_whitespace().skip(skip).filter_map(|f| f.parse().ok()).collect();
            assert_eq!(numbers(line, skip), expected, "{:?} skip {}", line, skip);
        }
    }
}

#[test]
fn a_number_is_written_in_base_ten() {
    for n in [0usize, 1, 9, 10, 11, 99, 100, 12345, usize::MAX] {
        let mut out = String::from("n=");
        push_decimal(&mut out, n);
        assert_eq!(out, format!("n={}", n));
    }
}

#[test]
fn what_is_written_is_read_back() {
    for n in [0usize, 7, 10, 4096, usize::MAX - 1, usize::MAX] {
        let mut out = String::new();
        push_decimal(&mut out, n);
        assert_eq!(number(&out), Some(n));
    }
}

#[test]
fn the_fields_of_a_line_are_counted_after_those_passed_over() {
    let count = |s: &str, skip: usize| {
        let c = chars(s);
        field_count(&c, 0, c.len(), skip)
    };
    assert_eq!(count("e 1 2", 0), 3);
    assert_eq!(count("e 1 2", 1), 2);
    assert_eq!(count("e 1 x 2", 1), 3);
    assert_eq!(count("p edge 3 4", 2), 2);
    assert_eq!(count("p edge", 2), 0);
    assert_eq!(count("p", 2), 0);
    assert_eq!(count("", 0), 0);
    assert_eq!(count("  \t ", 0), 0);
    assert_eq!(count(" a  b\u{3000}c ", 0), 3);
    for line in ["e 1 2", " e  1 x 2 ", "p edge 5 7", "", "abc", "a b c d e f"] {
        for skip in 0..8usize {
            assert_eq!(count(line, skip), line.split_whitespace().skip(skip).count());
        }
    }
}
