use bittorrent::decimal::{
    append_decimal, append_int_decimal, push_decimal, push_int_decimal, read_canonical_int,
    read_length,
};
use bittorrent::encoding::display::append_repeated;
use bittorrent::encoding::errors::BencodingError;
use bittorrent::encoding::parser::{
    check_leader, parse_dictionary, parse_integer, parse_list, parse_string, split_on_delimiter,
};
use bittorrent::encoding::text::{decode_text, is_utf8, next_char};
use bittorrent::encoding::types::{key_position, BTypes, DictInner, Position};

fn decimal(n: u64) -> Vec<u8> {
    let mut out = vec![b'#'];
    push_decimal(n, &mut out);
    out
}

fn signed(n: isize) -> Vec<u8> {
    let mut out = Vec::new();
    push_int_decimal(n, &mut out);
    out
}

#[test]
fn decimal_text_is_canonical() {
    assert_eq!(decimal(0), b"#0");
    assert_eq!(decimal(7), b"#7");
    assert_eq!(decimal(10), b"#10");
    assert_eq!(decimal(1002003), b"#1002003");
    assert_eq!(decimal(u64::MAX), b"#18446744073709551615");
    assert_eq!(signed(0), b"0");
    assert_eq!(signed(-1), b"-1");
    assert_eq!(signed(-120), b"-120");
    assert_eq!(signed(isize::MAX), isize::MAX.to_string().as_bytes());
    assert_eq!(signed(isize::MIN), isize::MIN.to_string().as_bytes());
    let mut text = "n=".to_string();
    append_decimal(&mut text, 305);
    append_int_decimal(&mut text, -40);
    append_repeated(&mut text, '.', 2);
    assert_eq!(text, "n=305-40..");
}

#[test]
fn canonical_integers_are_read_and_nothing_else() {
    assert_eq!(read_canonical_int(b"0"), Some(0));
    assert_eq!(read_canonical_int(b"-1"), Some(-1));
    assert_eq!(read_canonical_int(b"12"), Some(12));
    assert_eq!(read_canonical_int(b"1000"), Some(1000));
    assert_eq!(
        read_canonical_int(isize::MAX.to_string().as_bytes()),
        Some(isize::MAX)
    );
    assert_eq!(
        read_canonical_int(isize::MIN.to_string().as_bytes()),
        Some(isize::MIN)
    );
    for text in [
        "", "-", "00", "01", "-0", "--0", "-01", "+1", "1a", " 1", "1 ", "1_0", "0x1", "-+1",
    ] {
        assert_eq!(read_canonical_int(text.as_bytes()), None, "{text}");
    }
    let above = (isize::MAX as i128 + 1).to_string();
    let below = (isize::MIN as i128 - 1).to_string();
    assert_eq!(read_canonical_int(above.as_bytes()), None);
    assert_eq!(read_canonical_int(below.as_bytes()), None);
    assert_eq!(read_canonical_int(b"123456789012345678901234567890"), None);
}

#[test]
fn canonical_lengths_are_read_and_nothing_else() {
    assert_eq!(read_length(b"0"), Some(0));
    assert_eq!(read_length(b"7"), Some(7));
    assert_eq!(read_length(b"12"), Some(12));
    assert_eq!(read_length(b"100"), Some(100));
    assert_eq!(read_length(usize::MAX.to_string().as_bytes()), Some(usize::MAX));
    let above = (usize::MAX as u128 + 1).to_string();
    assert_eq!(read_length(above.as_bytes()), None);
    for text in [
        "", "00", "007", "03", "+7", "+", "-1", "-0", "1a", "++1", " 1", "1+", "1 ",
    ] {
        assert_eq!(read_length(text.as_bytes()), None, "{text}");
    }
}

#[test]
fn next_char_takes_one_scalar_of_each_width() {
    assert_eq!(next_char(b"ab"), Some(('a', &b"b"[..])));
    assert_eq!(next_char(b"\x00"), Some(('\0', &b""[..])));
    assert_eq!(next_char(b"\x7f"), Some(('\u{7f}', &b""[..])));
    assert_eq!(next_char(b"\xc2\x80z"), Some(('\u{80}', &b"z"[..])));
    assert_eq!(next_char(b"\xdf\xbf"), Some(('\u{7ff}', &b""[..])));
    assert_eq!(next_char(b"\xe0\xa0\x80"), Some(('\u{800}', &b""[..])));
    assert_eq!(next_char(b"\xed\x9f\xbf"), Some(('\u{d7ff}', &b""[..])));
    assert_eq!(next_char(b"\xee\x80\x80"), Some(('\u{e000}', &b""[..])));
    assert_eq!(next_char(b"\xef\xbf\xbf!"), Some(('\u{ffff}', &b"!"[..])));
    assert_eq!(next_char(b"\xf0\x90\x80\x80"), Some(('\u{10000}', &b""[..])));
    assert_eq!(next_char(b"\xf4\x8f\xbf\xbf"), Some(('\u{10ffff}', &b""[..])));
}

#[test]
fn next_char_refuses_what_is_no_scalar() {
    let bad: [&[u8]; 15] = [
        b"",
        b"\x80",
        b"\xbf",
        b"\xc2",
        b"\xc2\x41",
        b"\xc0\x80",
        b"\xc1\xbf",
        b"\xe0\x9f\xbf",
        b"\xe2\x82",
        b"\xed\xa0\x80",
        b"\xed\xbf\xbf",
        b"\xf0\x8f\xbf\xbf",
        b"\xf4\x90\x80\x80",
        b"\xf8\x88\x80\x80",
        b"\xff",
    ];
    for bytes in bad {
        assert_eq!(next_char(bytes), None, "{bytes:?}");
        if !bytes.is_empty() {
            assert_eq!(decode_text(bytes), None);
            assert!(!is_utf8(bytes));
        }
    }
}

#[test]
fn text_is_read_exactly_when_std_reads_it() {
    let samples: [&[u8]; 8] = [
        b"",
        b"plain",
        "h\u{e9}llo \u{20ac} \u{1f600}".as_bytes(),
        b"ab\xffcd",
        b"\xe2\x82",
        b"\xc3\xa9\xc3",
        b"\xf0\x9f\x98",
        b"\xed\xa0\x80",
    ];
    for bytes in samples {
        let expected = std::str::from_utf8(bytes).ok().map(|s| s.to_owned());
        assert_eq!(decode_text(bytes), expected);
        assert_eq!(is_utf8(bytes), expected.is_some());
    }
}

#[test]
fn keys_are_ordered_by_their_bytes() {
    assert_eq!(key_position("a", "b"), Position::Before);
    assert_eq!(key_position("b", "a"), Position::After);
    assert_eq!(key_position("a", "a"), Position::Same);
    assert_eq!(key_position("", ""), Position::Same);
    assert_eq!(key_position("", "a"), Position::Before);
    assert_eq!(key_position("a", "ab"), Position::Before);
    assert_eq!(key_position("ab", "a"), Position::After);
    assert_eq!(key_position("Z", "a"), Position::Before);
    assert_eq!(key_position("z", "\u{e9}"), Position::Before);
    assert_eq!(key_position("\u{ffff}", "\u{10000}"), Position::Before);
    for (a, b) in [("abc", "abd"), ("x", "xy"), ("\u{e9}", "e"), ("same", "same")] {
        let expected = if a.as_bytes() < b.as_bytes() {
            Position::Before
        } else if a.as_bytes() == b.as_bytes() {
            Position::Same
        } else {
            Position::After
        };
        assert_eq!(key_position(a, b), expected);
    }
}

#[test]
fn split_on_delimiter_splits_at_the_first_match() {
    assert_eq!(
        split_on_delimiter(b"ab:cd:e", b':'),
        Ok((&b"ab"[..], &b"cd:e"[..]))
    );
    assert_eq!(split_on_delimiter(b":x", b':'), Ok((&b""[..], &b"x"[..])));
    assert_eq!(split_on_delimiter(b"x:", b':'), Ok((&b"x"[..], &b""[..])));
    assert_eq!(
        split_on_delimiter(b"abc", b':'),
        Err(BencodingError::CharacterNotFound(':'))
    );
    assert_eq!(
        split_on_delimiter(b"", b'e'),
        Err(BencodingError::CharacterNotFound('e'))
    );
}

#[test]
fn check_leader_looks_at_the_first_byte() {
    assert_eq!(check_leader(b"e", b'e'), Ok(true));
    assert_eq!(check_leader(b"ie", b'e'), Ok(false));
    assert_eq!(check_leader(b"", b'e'), Err(BencodingError::OutOfBounds));
}

#[test]
fn the_parsers_of_each_form_do_not_inspect_the_first_byte() {
    assert_eq!(
        parse_integer(b"x42erest"),
        Ok((BTypes::Integer(42), &b"rest"[..]))
    );
    assert_eq!(
        parse_list(b"xi1eerest"),
        Ok((BTypes::List(vec![BTypes::Integer(1)]), &b"rest"[..]))
    );
    assert_eq!(
        parse_dictionary(b"xerest"),
        Ok((BTypes::Dict(DictInner::new()), &b"rest"[..]))
    );
    assert_eq!(
        parse_string(b"2:abrest"),
        Ok((BTypes::TextString("ab".to_owned()), &b"rest"[..]))
    );
    assert_eq!(
        parse_string(b"+2:abrest"),
        Err(BencodingError::ParseIntFailure)
    );
    assert_eq!(
        parse_string(b"02:abrest"),
        Err(BencodingError::ParseIntFailure)
    );
    assert_eq!(
        parse_integer(b""),
        Err(BencodingError::MissingInputType(vec![]))
    );
    assert_eq!(parse_list(b""), Err(BencodingError::MissingInputType(vec![])));
    assert_eq!(
        parse_dictionary(b""),
        Err(BencodingError::MissingInputType(vec![]))
    );
    assert_eq!(parse_string(b""), Err(BencodingError::CharacterNotFound(':')));
}
