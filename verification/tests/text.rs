//! Characters, lines, numbers and digests.

use tokenuse_skylark::cost::{read_cost, CostReading};
use tokenuse_skylark::digest::fnv1a64_hex;
use tokenuse_skylark::digits::digits_end;
use tokenuse_skylark::text::{
    chars_of, lines_of, push_decimal, same_text, string_of, trim_chars, white_space,
};

fn chars(text: &str) -> Vec<char> {
    text.chars().collect()
}

#[test]
fn white_space_is_what_unicode_says() {
    for code in 0..=0x10ffffu32 {
        if let Some(c) = char::from_u32(code) {
            assert_eq!(white_space(c), c.is_whitespace(), "{code:x}");
        }
    }
}

#[test]
fn trimming_drops_the_space_at_the_ends() {
    for text in ["", " ", " a ", "a b", "\u{3000}x\u{a0}\n", "\u{200b}x", "\t\ty"] {
        assert_eq!(trim_chars(&chars(text)), chars(text.trim()).as_slice(), "{text:?}");
    }
}

#[test]
fn lines_end_in_a_line_feed() {
    for text in [
        "",
        "\n",
        "a",
        "a\n",
        "a\nb",
        "a\r\nb\r",
        "\r\n\r\n",
        "a\r\r\n",
        "\n\na\n\n",
        "\u{2028}a\u{b}b\n",
    ] {
        let expected: Vec<String> = text.lines().map(str::to_string).collect();
        assert_eq!(lines_of(text), expected, "{text:?}");
    }
}

#[test]
fn strings_and_characters_are_the_same_text() {
    for text in ["", "a", "\u{e9}\u{1f600}z"] {
        assert_eq!(chars_of(text), chars(text));
        assert_eq!(string_of(&chars(text)), text);
        assert!(same_text(text, text));
        assert!(!same_text(text, "other"));
    }
    assert!(!same_text("ab", "abc"));
    assert!(!same_text("abc", "ab"));
}

#[test]
fn decimals_are_written_without_leading_zeros() {
    for n in [0, 9, 10, 99, 100, 1_234_567_890, u64::MAX] {
        let mut out = "n=".to_string();
        push_decimal(&mut out, n);
        assert_eq!(out, format!("n={n}"));
    }
}

#[test]
fn a_run_of_digits_ends_where_the_digits_do() {
    let text = chars("12a34");
    assert_eq!(digits_end(&text, 0), 2);
    assert_eq!(digits_end(&text, 2), 2);
    assert_eq!(digits_end(&text, 3), 5);
    assert_eq!(digits_end(&text, 5), 5);
}

fn expected(text: &str) -> CostReading {
    match text.parse::<f64>() {
        Err(_) => CostReading::Unreadable,
        Ok(x) if x == 0.0 => CostReading::Zero,
        Ok(_) => CostReading::Figure,
    }
}

#[test]
fn a_cost_reads_as_a_float_does() {
    for text in [
        "", "+", "-", ".", "+.", "-.", "e", "e5", ".e5", "0", "-0", "+0", "00", "0.", ".0", "0.0", "-.0",
        "1", "1.", ".1", "1.5", "+1.5", "-1.5", "++1", "+-1", "1e5", "1E5", "1e+5", "1e-5", "1e", "1e+",
        "1e-", "1e5.0", "1e 5", " 1", "1 ", "1_000", "1,5", "0x10", "0b1", "1f", "1f64", "inf", "INF",
        "Inf", "+inf", "-inf", "infinity", "Infinity", "-INFINITY", "infi", "infinit", "infinityy", "nan",
        "NaN", "NAN", "+nan", "-nan", "nan0", "n", "0e0", "0e5", "0e-5", "0.0e999999999", ".0e-1",
        "0.008700", "0.000000", "99.000000", "1e308", "1e309", "1e400", "-1e400", "1e-307", "1e-323",
        "4.9e-324", "5e-324", "2.5e-324", "2.47e-324", "2.48e-324", "2e-324", "1e-324", "1e-325", "1e-400",
        "-1e-400", "0.1e-323", "0.01e-323", "100e-326", "1000e-326", "247e-326", "248e-326",
        "2.4703282292062327e-324", "2.4703282292062328e-324", "2.4703282292062327208e-324",
        "2.4703282292062327209e-324", "1e99999999999999999999", "1e-99999999999999999999",
        "0e99999999999999999999", "1e0000000000000000000000001", "\u{661}", "1\u{a0}", "\u{2212}1", "\u{221e}",
    ] {
        assert_eq!(read_cost(&chars(text)), expected(text), "{text:?}");
    }
}

#[test]
fn a_cost_at_the_edge_of_zero_reads_as_a_float_does() {
    let half_least = "24703282292062327208299439352";
    for tail in ["", "0", "1", "9", "00000001"] {
        for text in [
            format!("{half_least}{tail}e-352"),
            format!("2.{}{tail}e-324", &half_least[1..]),
            format!("0.{}{half_least}{tail}", "0".repeat(323)),
            format!("{}e-4000", "9".repeat(3676)),
            format!("{}e-4000", "9".repeat(3677)),
            format!("{}{}", half_least, "0".repeat(50)),
        ] {
            assert_eq!(read_cost(&chars(&text)), expected(&text), "{text}");
        }
    }
}

#[test]
fn every_short_text_reads_as_a_float_does() {
    let alphabet = ['0', '1', '.', 'e', 'E', '+', '-', ' ', 'i', 'n', 'f', 'a'];
    for length in 1..=4u32 {
        for code in 0..(alphabet.len() as u32).pow(length) {
            let mut rest = code;
            let mut text = String::new();
            for _ in 0..length {
                text.push(alphabet[(rest % alphabet.len() as u32) as usize]);
                rest /= alphabet.len() as u32;
            }
            assert_eq!(read_cost(&chars(&text)), expected(&text), "{text:?}");
        }
    }
}

#[test]
fn the_digest_is_fnv1a() {
    assert_eq!(fnv1a64_hex(b""), "cbf29ce484222325");
    assert_eq!(fnv1a64_hex(b"a"), "af63dc4c8601ec8c");
    assert_eq!(fnv1a64_hex(b"foobar"), "85944171f73967e8");
}

#[test]
fn one_changed_byte_changes_the_digest() {
    let bytes = b"one changed byte".to_vec();
    for at in 0..bytes.len() {
        for bit in 0..8 {
            let mut other = bytes.clone();
            other[at] ^= 1 << bit;
            assert_ne!(fnv1a64_hex(&bytes), fnv1a64_hex(&other));
        }
    }
}
