use retrycheck::factor::denotes_factor;
use retrycheck::text::{
    begins_with, characters, parse_number, push_decimal, same, split_at_comma, trim, white_space,
};

/// Every text of at most `length` characters from `alphabet`.
fn texts(alphabet: &[char], length: usize) -> Vec<String> {
    let mut all = vec![String::new()];
    let mut latest = all.clone();
    for _ in 0..length {
        let mut longer = Vec::new();
        for text in &latest {
            for c in alphabet {
                let mut next = text.clone();
                next.push(*c);
                longer.push(next);
            }
        }
        all.extend(longer.iter().cloned());
        latest = longer;
    }
    all
}

#[test]
fn white_space_is_the_unicode_property() {
    for code in 0..=0x10ffffu32 {
        if let Some(c) = char::from_u32(code) {
            assert_eq!(white_space(c), c.is_whitespace(), "{code:x}");
        }
    }
}

#[test]
fn trimming_agrees_with_the_standard_library() {
    for s in texts(&[' ', '\t', 'a', ',', '\u{2009}', '\u{e9}'], 5) {
        assert_eq!(trim(&s), s.trim());
    }
}

#[test]
fn splitting_agrees_with_the_standard_library() {
    for s in texts(&[',', 'a', '\u{e9}'], 6) {
        assert_eq!(split_at_comma(&s), s.split_once(','));
        assert_eq!(begins_with(&s, ','), s.starts_with(','));
        assert_eq!(characters(&s), s.chars().collect::<Vec<char>>());
        assert!(same(&s, &s.clone()));
        assert!(!same(&s, &format!("{s}x")));
    }
}

#[test]
fn integers_are_read_as_the_standard_library_reads_them() {
    for s in texts(&['+', '-', '0', '7', ' ', 'x', '\u{661}'], 5) {
        assert_eq!(parse_number(&s, u64::MAX), s.parse::<u64>().ok(), "{s:?}");
    }
    for s in [
        "18446744073709551615",
        "18446744073709551616",
        "18446744073709551620",
        "99999999999999999999",
        "184467440737095516150",
        "0000000000000000000000000000000000001",
    ] {
        assert_eq!(parse_number(s, u64::MAX), s.parse::<u64>().ok());
    }
    for s in ["4294967295", "4294967296", "4294967299", "42949672950", "5"] {
        let small = s.parse::<u32>().ok().map(u64::from);
        assert_eq!(parse_number(s, u64::from(u32::MAX)), small);
    }
    assert_eq!(parse_number("0", 0), Some(0));
    assert_eq!(parse_number("1", 0), None);
}

#[test]
fn numbers_are_written_in_base_ten() {
    for n in [0u128, 7, 10, 99, 100, 18446744073709551615, u128::MAX] {
        let mut out = String::from("n=");
        push_decimal(&mut out, n);
        assert_eq!(out, format!("n={n}"));
    }
}

#[test]
fn growth_factors_are_those_the_standard_library_reads() {
    for s in texts(&['+', '-', '.', '0', '9', 'e', 'E', ' '], 6) {
        assert_eq!(denotes_factor(&s), s.parse::<f64>().is_ok(), "{s:?}");
    }
    for s in texts(&['i', 'N', 'f', 'a', 'n', '+'], 5) {
        assert_eq!(denotes_factor(&s), s.parse::<f64>().is_ok(), "{s:?}");
    }
    for s in [
        "inf", "-INF", "+Infinity", "infinit", "infinityy", "NaN", "-nan", "2.5E-10", "1_000",
        "0x10", "\u{661}", "1e400", "1e-400", "in\u{66}", "\u{130}nf",
    ] {
        assert_eq!(denotes_factor(s), s.parse::<f64>().is_ok(), "{s:?}");
    }
}
