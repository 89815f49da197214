use parsync::number::{decimal_text, hex_text, padded_decimal_text, parse_usize, NumberError};
use parsync::order::{bytes_before, sort};
use parsync::text::{comma_list, same_bytes, same_text, strip_prefix, white_space};
use parsync::timing::{middle_of, Middle};

#[test]
fn numbers_are_read_like_the_standard_library_does() {
    let samples = [
        "", "0", "7", "+7", "++7", "+", "-", "-1", "007", "12a", "a12", " 1", "1 ", "1.5", "१",
        "18446744073709551615", "18446744073709551616", "99999999999999999999999", "+0",
        "18446744073709551616x", "18446744073709551615x",
    ];
    for sample in samples {
        match (parse_usize(sample), sample.parse::<usize>()) {
            (Ok(a), Ok(b)) => assert_eq!(a, b, "{sample:?}"),
            (Err(a), Err(b)) => assert_eq!(a.message(), b.to_string(), "{sample:?}"),
            (a, b) => panic!("{sample:?}: {a:?} and {b:?}"),
        }
    }
}

#[test]
fn number_errors_are_told_apart() {
    assert_eq!(parse_usize("").unwrap_err(), NumberError::Empty);
    assert_eq!(parse_usize("x").unwrap_err(), NumberError::InvalidDigit);
    assert_eq!(parse_usize("184467440737095516150").unwrap_err(), NumberError::TooLarge);
    assert_eq!(parse_usize("42").unwrap(), 42);
}

#[test]
fn numbers_are_written_like_the_standard_library_does() {
    for n in [0u64, 1, 9, 10, 15, 16, 99, 100, 255, 256, 999_999, 1_000_000, 0xdeadbeef, u64::MAX] {
        assert_eq!(decimal_text(n), format!("{n}"));
        assert_eq!(hex_text(n), format!("{n:x}"));
        assert_eq!(padded_decimal_text(n, 3), format!("{n:03}"));
        assert_eq!(padded_decimal_text(n, 6), format!("{n:06}"));
        assert_eq!(padded_decimal_text(n, 0), format!("{n}"));
    }
}

#[test]
fn what_is_written_is_read_back() {
    for n in [0u64, 3, 10, 4096, 18446744073709551615] {
        assert_eq!(parse_usize(&decimal_text(n)).unwrap() as u64, n);
        assert_eq!(parse_usize(&padded_decimal_text(n, 6)).unwrap() as u64, n);
    }
}

#[test]
fn white_space_agrees_with_the_standard_library() {
    for code in 0..=0x10ffffu32 {
        if let Some(c) = char::from_u32(code) {
            assert_eq!(white_space(c), c.is_whitespace(), "{code:x}");
        }
    }
}

#[test]
fn lists_are_cut_like_the_standard_library_does() {
    let samples = [
        "", ",", "a", "a,b", " a , b ", ",a,,b,", "\u{2003}x\u{3000},y", "a b,c", " , ", "ä,ö",
        "\u{200b}z",
    ];
    for sample in samples {
        let theirs: Vec<String> = sample
            .split(',')
            .map(|s| s.trim().to_string())
            .filter(|s| !s.is_empty())
            .collect();
        assert_eq!(comma_list(sample), theirs, "{sample:?}");
    }
}

#[test]
fn prefixes_agree_with_the_standard_library() {
    for s in ["", "--jobs=", "--jobs=4", "--job", "ä=b", "--jobs"] {
        for prefix in ["", "--jobs=", "ä", "ä="] {
            assert_eq!(strip_prefix(s, prefix), s.strip_prefix(prefix));
        }
    }
}

#[test]
fn texts_and_bytes_are_compared() {
    assert!(same_text("ab", "ab"));
    assert!(!same_text("ab", "ac"));
    assert!(!same_text("ab", "abc"));
    assert!(same_bytes(b"", b""));
    assert!(!same_bytes(b"a", b""));
    for a in ["", "a", "ab", "b", "\u{ff}"] {
        for b in ["", "a", "ab", "b", "\u{ff}"] {
            assert_eq!(bytes_before(a.as_bytes(), b.as_bytes()), a.as_bytes() < b.as_bytes());
        }
    }
}

#[test]
fn times_are_sorted() {
    let mut times: Vec<u128> = vec![5, 3, 9, 3, 0, u128::MAX, 7];
    let sorted = sort(times.clone());
    times.sort();
    assert_eq!(sorted, times);
}

#[test]
fn middle_of_times() {
    assert_eq!(middle_of(&vec![]), Middle::Nothing);
    assert_eq!(middle_of(&vec![4]), Middle::One(4));
    assert_eq!(middle_of(&vec![9, 1]), Middle::Two(1, 9));
    assert_eq!(middle_of(&vec![9, 1, 5]), Middle::One(5));
    assert_eq!(middle_of(&vec![9, 1, 5, 5]), Middle::Two(5, 5));
    assert_eq!(middle_of(&vec![1, 2, 3, 4]), Middle::Two(2, 3));
}

#[test]
fn middle_does_not_depend_on_order() {
    assert_eq!(middle_of(&vec![8, 6, 7, 5]), middle_of(&vec![5, 6, 7, 8]));
}
