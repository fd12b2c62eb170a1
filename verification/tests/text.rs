use raytracer::text::{
    check_decimal, check_numeral, copy_range, is_space_byte, parse_numeral, split_lines,
    split_words,
};

fn bytes(words: &[&str]) -> Vec<Vec<u8>> {
    words.iter().map(|w| w.as_bytes().to_vec()).collect()
}

#[test]
fn white_space_is_the_six_ascii_blanks() {
    for b in 0..=255u8 {
        let expected = matches!(b, b' ' | b'\t' | b'\n' | 0x0b | 0x0c | b'\r');
        assert_eq!(is_space_byte(b), expected, "byte {}", b);
    }
}

#[test]
fn copy_range_takes_the_middle() {
    assert_eq!(copy_range(b"abcdef", 2, 5), b"cde".to_vec());
    assert_eq!(copy_range(b"abcdef", 3, 3), Vec::<u8>::new());
    assert_eq!(copy_range(b"abcdef", 0, 6), b"abcdef".to_vec());
}

#[test]
fn words_are_maximal_runs_between_blanks() {
    assert_eq!(split_words(b"v 1.0  2.5\t-3e2"), bytes(&["v", "1.0", "2.5", "-3e2"]));
    assert_eq!(split_words(b"   lead and trail  \r"), bytes(&["lead", "and", "trail"]));
    assert_eq!(split_words(b""), bytes(&[]));
    assert_eq!(split_words(b" \t "), bytes(&[]));
    assert_eq!(split_words(b"one"), bytes(&["one"]));
}

#[test]
fn lines_are_split_at_line_feeds() {
    assert_eq!(split_lines(b"a\nbc\n\nd"), bytes(&["a", "bc", "", "d"]));
    assert_eq!(split_lines(b"a\n"), bytes(&["a", ""]));
    assert_eq!(split_lines(b""), bytes(&[""]));
    assert_eq!(split_lines(b"x\r\ny"), bytes(&["x\r", "y"]));
}

#[test]
fn numerals_are_digits_with_an_optional_plus() {
    assert!(check_numeral(b"0"));
    assert!(check_numeral(b"0042"));
    assert!(check_numeral(b"+7"));
    assert!(!check_numeral(b""));
    assert!(!check_numeral(b"+"));
    assert!(!check_numeral(b"-1"));
    assert!(!check_numeral(b"1.5"));
    assert!(!check_numeral(b"12a"));
    assert!(!check_numeral(b"++1"));
}

#[test]
fn numerals_are_read_in_base_ten() {
    assert_eq!(parse_numeral(b"0"), Some(0));
    assert_eq!(parse_numeral(b"1234"), Some(1234));
    assert_eq!(parse_numeral(b"+007"), Some(7));
    assert_eq!(parse_numeral(b"x"), None);
    assert_eq!(parse_numeral(b"-3"), None);
    assert_eq!(parse_numeral(b""), None);
}

#[test]
fn numerals_that_do_not_fit_are_refused() {
    let max = usize::MAX.to_string();
    assert_eq!(parse_numeral(max.as_bytes()), Some(usize::MAX));
    let too_long = format!("{}0", max);
    assert!(check_numeral(too_long.as_bytes()));
    assert_eq!(parse_numeral(too_long.as_bytes()), None);
    let mut above = max.into_bytes();
    let last = above.len() - 1;
    above[last] += 1;
    assert_eq!(parse_numeral(&above), None);
}

#[test]
fn numerals_agree_with_the_standard_parser() {
    let samples = ["0", "1", "+1", "10", "999", "+0", "18446744073709551615", "18446744073709551616", "1e3", " 1", "1 ", "١"];
    for s in samples {
        assert_eq!(parse_numeral(s.as_bytes()), s.parse::<usize>().ok(), "{:?}", s);
    }
}

#[test]
fn decimal_numbers() {
    for good in ["0", "12", "1.5", "-3e2", "+.5", "5.", "1E-7", "1e+07", "-0.0", "007.250", ".0e0"] {
        assert!(check_decimal(good.as_bytes()), "{:?}", good);
    }
    for bad in ["", "+", "-", ".", "-.", "e5", "1e", "1e+", "1.2.3", "1 ", " 1", "1,5", "0x10", "1e5.0", "--1", "1f", "abc"] {
        assert!(!check_decimal(bad.as_bytes()), "{:?}", bad);
    }
}

#[test]
fn decimal_numbers_are_what_the_standard_parser_reads_as_finite_notation() {
    let samples = [
        "0", "-0", "1", "+1", "1.", ".1", "+.1e1", "1e5", "1E5", "1e-5", "1.e5", "3.7416575",
        "", ".", "+", "e", "1e", "e1", ".e1", "1..2", "1e1e1", "12a", "a12", "1_000", "٣", "1e1.5",
        "100000000000000000000000000000000000000000000000000", "0.00000000000000000000000000001",
    ];
    for s in samples {
        assert_eq!(check_decimal(s.as_bytes()), s.parse::<f32>().is_ok(), "{:?}", s);
    }
    for word in ["inf", "-inf", "infinity", "nan", "NaN", "+Infinity"] {
        assert!(word.parse::<f32>().is_ok());
        assert!(!check_decimal(word.as_bytes()), "{:?}", word);
    }
}
