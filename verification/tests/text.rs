use tz::text::{
    append_digit, is_space_byte, is_space_pair_bytes, is_space_triple_bytes, leading_space_width,
    parse_size, push_decimal, split, trailing_space_width, trim,
};

#[test]
fn split_cuts_at_every_separator() {
    let parts = split(b"a,bc,,d", b',');
    assert_eq!(parts, vec![&b"a"[..], &b"bc"[..], &b""[..], &b"d"[..]]);
}

#[test]
fn split_of_nothing_is_one_empty_part() {
    assert_eq!(split(b"", b','), vec![&b""[..]]);
}

#[test]
fn split_without_separator_is_the_input() {
    assert_eq!(split(b"abc", b','), vec![&b"abc"[..]]);
}

#[test]
fn split_keeps_empty_parts_at_both_ends() {
    assert_eq!(split(b",a,", b','), vec![&b""[..], &b"a"[..], &b""[..]]);
    assert_eq!(split(b",", b','), vec![&b""[..], &b""[..]]);
}

#[test]
fn split_and_join_give_the_input_back() {
    let input: &[u8] = b"line one\n\nline three\n";
    let parts = split(input, b'\n');
    assert_eq!(parts.len(), 4);
    assert_eq!(parts.join(&b'\n'), input.to_vec());
    for part in parts {
        assert!(!part.contains(&b'\n'));
    }
}

#[test]
fn white_space_of_one_byte_is_the_ascii_set() {
    for byte in [b' ', b'\t', b'\n', 11u8, 12u8, b'\r'] {
        assert!(is_space_byte(byte));
    }
    for byte in [0u8, 8, 14, 31, 33, b'a', b'0', 0x85, 0xa0, 255] {
        assert!(!is_space_byte(byte));
    }
}

#[test]
fn trim_strips_both_ends() {
    assert_eq!(trim(b"  a b \t\r\n"), b"a b");
    assert_eq!(trim(b"a"), b"a");
    assert_eq!(trim(b"\x0b\x0ca"), b"a");
}

#[test]
fn trim_of_white_space_alone_is_empty() {
    assert_eq!(trim(b" \t \n"), b"");
    assert_eq!(trim(b""), b"");
}

#[test]
fn trim_keeps_white_space_inside() {
    assert_eq!(trim(b" a  b "), b"a  b");
}

#[test]
fn parse_size_reads_decimal_digits() {
    assert_eq!(parse_size(b"0"), Some(0));
    assert_eq!(parse_size(b"7"), Some(7));
    assert_eq!(parse_size(b"1234567890"), Some(1234567890));
    assert_eq!(parse_size(b"000"), Some(0));
    assert_eq!(parse_size(b"0042"), Some(42));
}

#[test]
fn parse_size_allows_one_plus_sign() {
    assert_eq!(parse_size(b"+5"), Some(5));
    assert_eq!(parse_size(b"++5"), None);
    assert_eq!(parse_size(b"+"), None);
    assert_eq!(parse_size(b"5+"), None);
}

#[test]
fn parse_size_refuses_what_is_no_number() {
    assert_eq!(parse_size(b""), None);
    assert_eq!(parse_size(b"-1"), None);
    assert_eq!(parse_size(b" 1"), None);
    assert_eq!(parse_size(b"1 "), None);
    assert_eq!(parse_size(b"12a"), None);
    assert_eq!(parse_size(b"a12"), None);
    assert_eq!(parse_size(b"1.0"), None);
    assert_eq!(parse_size(b"/"), None);
    assert_eq!(parse_size(b":"), None);
}

#[test]
fn parse_size_agrees_with_the_standard_parser_at_the_limit() {
    let max = format!("{}", usize::MAX);
    assert_eq!(parse_size(max.as_bytes()), Some(usize::MAX));
    let mut over = max.clone().into_bytes();
    let last = over.len() - 1;
    over[last] += 1;
    assert_eq!(parse_size(&over), None);
    let longer = format!("{}0", usize::MAX);
    assert_eq!(parse_size(longer.as_bytes()), None);
    let padded = format!("000{}", usize::MAX);
    assert_eq!(parse_size(padded.as_bytes()), Some(usize::MAX));
}

#[test]
fn parse_size_agrees_with_the_standard_parser_on_samples() {
    let samples: [&str; 12] =
        ["", "0", "+0", "-0", "10", "+10", "010", "1_0", "٣", "18446744073709551616", "9", "+-1"];
    for sample in samples {
        assert_eq!(parse_size(sample.as_bytes()), sample.parse::<usize>().ok());
    }
}

#[test]
fn push_decimal_appends_the_digits() {
    let mut out = b"n=".to_vec();
    push_decimal(&mut out, 0);
    push_decimal(&mut out, 9);
    push_decimal(&mut out, 10);
    push_decimal(&mut out, 12345);
    assert_eq!(out, b"n=091012345".to_vec());
}

#[test]
fn push_decimal_writes_the_largest_size() {
    let mut out: Vec<u8> = Vec::new();
    push_decimal(&mut out, usize::MAX);
    assert_eq!(out, format!("{}", usize::MAX).into_bytes());
}

#[test]
fn decimal_reads_back() {
    for n in [0usize, 1, 9, 10, 99, 100, 255, 256, 65535, 1000000, usize::MAX] {
        let mut out: Vec<u8> = Vec::new();
        push_decimal(&mut out, n);
        assert_eq!(parse_size(&out), Some(n));
    }
}

#[test]
fn append_digit_shifts_and_adds() {
    assert_eq!(append_digit(0, 0), Some(0));
    assert_eq!(append_digit(0, 7), Some(7));
    assert_eq!(append_digit(12, 3), Some(123));
}

#[test]
fn append_digit_stops_at_the_limit() {
    let tenth = usize::MAX / 10;
    let last = (usize::MAX % 10) as u8;
    assert_eq!(append_digit(tenth, last), Some(usize::MAX));
    assert_eq!(append_digit(tenth, last + 1), None);
    assert_eq!(append_digit(tenth + 1, 0), None);
    assert_eq!(append_digit(usize::MAX, 0), None);
}

#[test]
fn white_space_of_several_bytes_is_the_unicode_set() {
    for code in 0u32..=0xFFFF {
        if let Some(c) = char::from_u32(code) {
            let mut buffer = [0u8; 4];
            let bytes = c.encode_utf8(&mut buffer).as_bytes();
            let found = match bytes.len() {
                1 => is_space_byte(bytes[0]),
                2 => is_space_pair_bytes(bytes[0], bytes[1]),
                _ => is_space_triple_bytes(bytes[0], bytes[1], bytes[2]),
            };
            assert_eq!(found, c.is_whitespace());
        }
    }
}

#[test]
fn white_space_widths_are_measured_in_bytes() {
    assert_eq!(leading_space_width(b" a"), 1);
    assert_eq!(leading_space_width("\u{a0}a".as_bytes()), 2);
    assert_eq!(leading_space_width("\u{3000}a".as_bytes()), 3);
    assert_eq!(leading_space_width(b"a "), 0);
    assert_eq!(leading_space_width(b""), 0);
    assert_eq!(leading_space_width(&[0xC2]), 0);
    assert_eq!(leading_space_width(&[0xE2, 0x80]), 0);
    assert_eq!(trailing_space_width(b"a\t"), 1);
    assert_eq!(trailing_space_width("a\u{85}".as_bytes()), 2);
    assert_eq!(trailing_space_width("a\u{2028}".as_bytes()), 3);
    assert_eq!(trailing_space_width(b" a"), 0);
    assert_eq!(trailing_space_width(b""), 0);
    assert_eq!(trailing_space_width(&[0xA0]), 0);
    assert_eq!(trailing_space_width(&[0x80, 0x80]), 0);
}

#[test]
fn trim_strips_unicode_white_space() {
    assert_eq!(trim(&[0xC2, 0xA0, 0x78]), b"x");
    assert_eq!(trim("f:3\u{3000}".as_bytes()), b"f:3");
    assert_eq!(trim("\u{2003}\u{85} a\u{1680}b \u{205f}\u{202f}".as_bytes()), "a\u{1680}b".as_bytes());
    assert_eq!(trim("\u{2000}\u{200a}\u{2029}".as_bytes()), b"");
}

#[test]
fn trim_keeps_what_only_resembles_white_space() {
    assert_eq!(trim(&[0xA0, 0x78, 0xC2]), &[0xA0, 0x78, 0xC2]);
    assert_eq!(trim(&[0x80, 0x80, 0x78, 0xE2, 0x80]), &[0x80, 0x80, 0x78, 0xE2, 0x80]);
    assert_eq!(trim("\u{200b}x\u{feff}".as_bytes()), "\u{200b}x\u{feff}".as_bytes());
    assert_eq!(trim("\u{2020}".as_bytes()), "\u{2020}".as_bytes());
}

#[test]
fn trim_agrees_with_the_standard_trim_on_text() {
    let samples: [&str; 10] = [
        "",
        "  plain  ",
        "\u{a0}nbsp\u{a0}",
        "\u{3000}wide\u{3000}\n",
        "\u{2000}\u{2001}\u{2002}a b\u{2008}\u{2009}\u{200a}",
        "\t\u{85}\u{1680}x\u{2028}\u{2029}\r",
        "\u{200b}zero width\u{200b}",
        "caf\u{e9}\u{a0}",
        "\u{e9} \u{e9}",
        "\u{202f}\u{205f}",
    ];
    for sample in samples {
        assert_eq!(trim(sample.as_bytes()), sample.trim().as_bytes());
    }
}

#[test]
fn trim_agrees_with_the_standard_trim_on_bytes_that_are_no_text() {
    let samples: [&[u8]; 6] = [
        &[0xE2, 0xC2, 0xA0],
        &[0xC2, 0xA0, 0x85],
        &[0xFF, 0x20, 0xE3, 0x80, 0x80],
        &[0xC2, 0x20],
        &[0xF0, 0xE2, 0x80, 0x80],
        &[0x20, 0xC2],
    ];
    for sample in samples {
        let text = String::from_utf8_lossy(sample);
        let kept = trim(sample);
        assert_eq!(String::from_utf8_lossy(kept).as_ref(), text.trim());
    }
}
