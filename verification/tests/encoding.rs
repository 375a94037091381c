use bittorrent::encoding::errors::BencodingError;
use bittorrent::encoding::parser::bdecode;
use bittorrent::encoding::types::BTypes;
use bittorrent::encoding::types::BTypes::{ByteString, Dict, Integer, List, TextString};
use bittorrent::encoding::types::DictInner;

#[test]
fn btype_string() {
    const STRING_GOOD: [(&str, &str); 4] = [
        ("eggs", "4:eggs"),
        ("bacon", "5:bacon"),
        ("ham", "3:ham"),
        ("coffee", "6:coffee"),
    ];

    for (plain, encoded) in STRING_GOOD {
        assert_eq!(
            BTypes::TextString(plain.to_owned()).bencode(),
            encoded.as_bytes()
        );
    }

    for (plain, encoded) in STRING_GOOD {
        assert_eq!(
            BTypes::bdecode(&encoded.as_bytes().to_owned()),
            Ok(BTypes::TextString(plain.to_owned()))
        )
    }

    let mut test: Vec<u8>;

    test = vec![
        '2' as u8, '0' as u8, ':' as u8, 0xb8, 0x9e, 0xaa, 0xc7, 0xe6, 0x14, 0x17, 0x34, 0x1b,
        0x71, 0x0b, 0x72, 0x77, 0x68, 0x29, 0x4d, 0x0e, 0x6a, 0x27, 0x7b,
    ];
    assert_eq!(Ok(ByteString(test[3..].to_owned())), BTypes::bdecode(&test));

    test = vec![
        '6' as u8, ':' as u8, 'a' as u8, 'b' as u8, 0xb8, 0x9e, 0xaa, 0xc7,
    ];
    assert_eq!(Ok(ByteString(test[2..].to_owned())), BTypes::bdecode(&test));

    test = vec![
        '6' as u8, ':' as u8, 0xb8, 0x9e, 0xaa, 0xc7, 'a' as u8, 'b' as u8,
    ];
    assert_eq!(Ok(ByteString(test[2..].to_owned())), BTypes::bdecode(&test));
}

#[test]
fn btype_string_bad() {
    const STRINGS: [&str; 4] = ["3eggs", "6:bacon", "3ham", ":coffee"];

    for encoded in STRINGS {
        assert!(BTypes::bdecode(&encoded.as_bytes().to_owned()).is_err());
    }
}

#[test]
fn btype_integer() {
    const INTEGER_GOOD: [(isize, &str); 6] = [
        (1, "i1e"),
        (0, "i0e"),
        (-1, "i-1e"),
        (10, "i10e"),
        (12, "i12e"),
        (-20, "i-20e"),
    ];

    for (plain, encoded) in INTEGER_GOOD {
        assert_eq!(BTypes::Integer(plain).bencode(), encoded.as_bytes());
    }

    for (plain, encoded) in INTEGER_GOOD {
        assert_eq!(
            BTypes::bdecode(&encoded.as_bytes().to_owned()),
            Ok(BTypes::Integer(plain))
        );
    }
}

#[test]
fn btype_integer_bad() {
    const INTEGER_BAD: [&str; 7] = ["i00e", "i01e", "i-0e", "i--0e", "i-01e", "i---1e", "k0e"];

    for encoded in INTEGER_BAD {
        assert!(BTypes::bdecode(&encoded.as_bytes().to_owned()).is_err());
    }
}

#[test]
fn btype_list() {
    let lists: Vec<(BTypes, &str)> = vec![
        (
            List(vec![Integer(-1), Integer(10), Integer(12), Integer(-20)]),
            "li-1ei10ei12ei-20ee",
        ),
        (
            List(vec![
                TextString(String::from("eggs")),
                TextString(String::from("bacon")),
                TextString(String::from("ham")),
                TextString(String::from("coffee")),
            ]),
            "l4:eggs5:bacon3:ham6:coffeee",
        ),
        (
            List(vec![
                Integer(-1),
                TextString(String::from("eggs")),
                Integer(-20),
            ]),
            "li-1e4:eggsi-20ee",
        ),
    ];

    for (plain, encoded) in lists {
        assert_eq!(plain.bencode(), encoded.as_bytes().to_owned());
        assert_eq!(BTypes::bdecode(&encoded.as_bytes().to_owned()), Ok(plain));
    }
}

#[test]
fn btype_dict() {
    let dict = Dict({
        let mut map = DictInner::new();

        map.insert("Breakfast".to_owned(), TextString("Beans".to_owned()));
        map.insert("Servings".to_owned(), Integer(5));

        map
    });

    let encoded = "d9:Breakfast5:Beans8:Servingsi5ee";

    assert_eq!(dict.bencode(), encoded.as_bytes().to_owned());
    assert_eq!(BTypes::bdecode(&encoded.as_bytes().to_owned()), Ok(dict));

    let dict = Dict({
        let mut map = DictInner::new();

        map.insert("Breakfast".to_owned(), TextString("Beans".to_owned()));
        map.insert(
            "Servings".to_owned(),
            List(vec![
                Integer(-1),
                TextString("eggs".to_owned()),
                Integer(-20),
            ]),
        );

        map
    });

    let encoded = "d9:Breakfast5:Beans8:Servingsli-1e4:eggsi-20eee";

    assert_eq!(dict.bencode(), encoded.as_bytes().to_owned());
    assert_eq!(BTypes::bdecode(&encoded.as_bytes().to_owned()), Ok(dict));
}

fn decode(text: &[u8]) -> Result<BTypes, BencodingError> {
    BTypes::bdecode(&text.to_vec())
}

fn sample_value() -> BTypes {
    let mut inner = DictInner::new();
    inner.insert("n".to_owned(), Integer(isize::MIN));
    inner.insert("raw".to_owned(), ByteString(vec![0xff, 0x00, 0x61]));
    let mut outer = DictInner::new();
    outer.insert("list".to_owned(), List(vec![Integer(0), List(vec![]), Dict(inner)]));
    outer.insert("text".to_owned(), TextString("h\u{e9}llo \u{1f600}".to_owned()));
    outer.insert("".to_owned(), Dict(DictInner::new()));
    Dict(outer)
}

#[test]
fn value_reads_back_from_its_encoding() {
    let value = sample_value();
    let bytes = value.bencode();
    assert_eq!(decode(&bytes), Ok(value.clone()));
    assert_eq!(decode(&bytes).unwrap().bencode(), bytes);
}

#[test]
fn decode_hands_back_what_follows_the_value() {
    let (value, rest) = bdecode(b"i7e4:eggs").unwrap();
    assert_eq!(value, Integer(7));
    assert_eq!(rest, b"4:eggs");
    let (value, rest) = bdecode(rest).unwrap();
    assert_eq!(value, TextString("eggs".to_owned()));
    assert!(rest.is_empty());
    assert_eq!(decode(b"i7etrailing"), Ok(Integer(7)));
}

#[test]
fn integer_limits_are_written_and_read_exactly() {
    let low = format!("i{}e", isize::MIN);
    let high = format!("i{}e", isize::MAX);
    assert_eq!(Integer(isize::MIN).bencode(), low.as_bytes());
    assert_eq!(Integer(isize::MAX).bencode(), high.as_bytes());
    assert_eq!(decode(low.as_bytes()), Ok(Integer(isize::MIN)));
    assert_eq!(decode(high.as_bytes()), Ok(Integer(isize::MAX)));
    assert_eq!(
        decode(b"i99999999999999999999999999e"),
        Err(BencodingError::ParseIntFailure)
    );
    assert_eq!(decode(b"i+5e"), Err(BencodingError::ParseIntFailure));
    assert_eq!(decode(b"ie"), Err(BencodingError::ParseIntFailure));
    assert_eq!(decode(b"i-e"), Err(BencodingError::ParseIntFailure));
    assert_eq!(decode(b"i1 e"), Err(BencodingError::ParseIntFailure));
}

#[test]
fn string_length_counts_bytes_not_characters() {
    assert_eq!(TextString("\u{e9}".to_owned()).bencode(), b"2:\xc3\xa9");
    assert_eq!(decode(b"2:\xc3\xa9"), Ok(TextString("\u{e9}".to_owned())));
    assert_eq!(
        decode(b"4:\xf0\x9f\x98\x80"),
        Ok(TextString("\u{1f600}".to_owned()))
    );
    assert_eq!(
        decode(b"3:\xe2\x82\xac"),
        Ok(TextString("\u{20ac}".to_owned()))
    );
    assert_eq!(decode(b"0:"), Ok(TextString(String::new())));
    assert_eq!(decode(b"10:0123456789"), Ok(TextString("0123456789".to_owned())));
}

#[test]
fn string_length_must_be_canonical() {
    assert_eq!(decode(b"03:ham"), Err(BencodingError::ParseIntFailure));
    assert_eq!(decode(b"04:eggs"), Err(BencodingError::ParseIntFailure));
    assert_eq!(decode(b"00:"), Err(BencodingError::ParseIntFailure));
    assert_eq!(decode(b"0x3:ham"), Err(BencodingError::ParseIntFailure));
    assert_eq!(decode(b"3 :ham"), Err(BencodingError::ParseIntFailure));
    assert_eq!(decode(b"3:ham"), Ok(TextString("ham".to_owned())));
    let too_long = format!("{}0:", usize::MAX);
    assert_eq!(decode(too_long.as_bytes()), Err(BencodingError::ParseIntFailure));
}

#[test]
fn payload_with_an_invalid_byte_stays_raw() {
    assert_eq!(decode(b"3:ab\xff"), Ok(ByteString(vec![0x61, 0x62, 0xff])));
    assert_eq!(decode(b"3:a\xffb"), Ok(ByteString(vec![0x61, 0xff, 0x62])));
    // a scalar cut off by the declared length
    assert_eq!(decode(b"1:\xc3\xa9"), Ok(ByteString(vec![0xc3])));
    // an overlong form, a surrogate, a number above the last scalar
    assert_eq!(decode(b"2:\xc0\x80"), Ok(ByteString(vec![0xc0, 0x80])));
    assert_eq!(
        decode(b"3:\xed\xa0\x80"),
        Ok(ByteString(vec![0xed, 0xa0, 0x80]))
    );
    assert_eq!(
        decode(b"4:\xf4\x90\x80\x80"),
        Ok(ByteString(vec![0xf4, 0x90, 0x80, 0x80]))
    );
    assert_eq!(ByteString(vec![0x61, 0xff]).bencode(), b"2:a\xff");
}

#[test]
fn dictionary_keys_are_written_in_ascending_byte_order() {
    let mut forward = DictInner::new();
    forward.insert("a".to_owned(), Integer(1));
    forward.insert("b".to_owned(), Integer(2));
    forward.insert("ab".to_owned(), Integer(3));
    forward.insert("B".to_owned(), Integer(4));
    let mut backward = DictInner::new();
    backward.insert("B".to_owned(), Integer(4));
    backward.insert("ab".to_owned(), Integer(3));
    backward.insert("b".to_owned(), Integer(2));
    backward.insert("a".to_owned(), Integer(1));
    assert_eq!(forward, backward);
    assert_eq!(Dict(forward).bencode(), b"d1:Bi4e1:ai1e2:abi3e1:bi2ee");
    assert_eq!(Dict(backward).bencode(), b"d1:Bi4e1:ai1e2:abi3e1:bi2ee");
}

#[test]
fn dictionary_is_read_in_any_key_order_and_the_last_entry_wins() {
    let read = decode(b"d1:bi2e1:ai1e1:bi3ee").unwrap();
    let mut expected = DictInner::new();
    expected.insert("a".to_owned(), Integer(1));
    expected.insert("b".to_owned(), Integer(3));
    assert_eq!(read, Dict(expected));
    assert_eq!(read.bencode(), b"d1:ai1e1:bi3ee");
}

#[test]
fn dictionary_operations() {
    let mut map = DictInner::new();
    assert_eq!(map.len(), 0);
    assert_eq!(map.insert("k".to_owned(), Integer(1)), None);
    assert_eq!(map.insert("k".to_owned(), Integer(2)), Some(Integer(1)));
    assert_eq!(map.len(), 1);
    assert!(map.contains_key("k"));
    assert!(!map.contains_key("j"));
    assert_eq!(map.get("k"), Some(&Integer(2)));
    assert_eq!(map.get("j"), None);
    assert_eq!(map.entry_at(0), Some(("k", &Integer(2))));
    assert_eq!(map.entry_at(1), None);
    let mut more = DictInner::new();
    more.insert("k".to_owned(), Integer(3));
    more.insert("a".to_owned(), Integer(0));
    map.extend(more);
    assert_eq!(map.entry_at(0), Some(("a", &Integer(0))));
    assert_eq!(map.entry_at(1), Some(("k", &Integer(3))));
    assert_eq!(map.remove("a"), Some(Integer(0)));
    assert_eq!(map.remove("a"), None);
    assert_eq!(map.len(), 1);
}

#[test]
fn each_decoding_failure() {
    assert_eq!(decode(b""), Err(BencodingError::MissingInputType(vec![])));
    assert_eq!(decode(b"d1:a"), Err(BencodingError::MissingInputType(vec![])));
    assert_eq!(decode(b"i12"), Err(BencodingError::CharacterNotFound('e')));
    assert_eq!(decode(b"3eggs"), Err(BencodingError::CharacterNotFound(':')));
    assert_eq!(decode(b"i01e"), Err(BencodingError::ParseIntFailure));
    assert_eq!(decode(b"1x:a"), Err(BencodingError::ParseIntFailure));
    assert_eq!(decode(b"i\xffe"), Err(BencodingError::CouldNotParseUTF8));
    assert_eq!(decode(b"1\xff:a"), Err(BencodingError::CouldNotParseUTF8));
    assert_eq!(decode(b"k0e"), Err(BencodingError::InvalidType('k')));
    assert_eq!(decode(b"\xe9"), Err(BencodingError::InvalidType('\u{e9}')));
    assert_eq!(decode(b"6:bacon"), Err(BencodingError::OutOfBounds));
    assert_eq!(decode(b"li1e"), Err(BencodingError::OutOfBounds));
    assert_eq!(decode(b"d"), Err(BencodingError::OutOfBounds));
    assert_eq!(
        decode(b"di1ei2ee"),
        Err(BencodingError::InvalidBType(Integer(1)))
    );
    assert_eq!(
        decode(b"d2:\xff\xfei2ee"),
        Err(BencodingError::InvalidBType(ByteString(vec![0xff, 0xfe])))
    );
    // a key that is no text fails before its value is read
    assert_eq!(
        decode(b"di1ek"),
        Err(BencodingError::InvalidBType(Integer(1)))
    );
    assert_eq!(
        decode(b"dlei1ee"),
        Err(BencodingError::InvalidBType(List(vec![])))
    );
    // a key that is text is followed by its value, whose failure then decides
    assert_eq!(decode(b"d1:ak"), Err(BencodingError::InvalidType('k')));
}

#[test]
fn typed_accessors() {
    assert_eq!(Integer(3).expect_int(), Ok(3));
    assert_eq!(List(vec![]).expect_int(), Err(BencodingError::NotInt));
    assert_eq!(TextString("t".to_owned()).expect_text_str(), Ok("t".to_owned()));
    assert_eq!(Integer(3).expect_text_str(), Err(BencodingError::NotTextStr));
    assert_eq!(ByteString(vec![1]).expect_byte_str(), Ok(vec![1]));
    assert_eq!(Integer(3).expect_byte_str(), Err(BencodingError::NotByteStr));
    assert_eq!(List(vec![Integer(1)]).expect_list(), Ok(vec![Integer(1)]));
    assert_eq!(Integer(3).expect_list(), Err(BencodingError::NotList));
    assert_eq!(Dict(DictInner::new()).expect_dict(), Ok(DictInner::new()));
    assert_eq!(Integer(3).expect_dict(), Err(BencodingError::NotDict));
}

fn record() -> BTypes {
    let mut map = DictInner::new();
    map.insert("int".to_owned(), Integer(9));
    map.insert("text".to_owned(), TextString("t".to_owned()));
    map.insert("bytes".to_owned(), ByteString(vec![0xff]));
    map.insert("list".to_owned(), List(vec![Integer(1)]));
    map.insert("dict".to_owned(), Dict(DictInner::new()));
    Dict(map)
}

fn record_without(key: &str) -> BTypes {
    let mut map = record().expect_dict().unwrap();
    map.remove(key);
    Dict(map)
}

#[test]
fn keyed_accessors_take_the_entry_and_leave_the_rest() {
    assert_eq!(record().keyed_int("int"), Ok((9, record_without("int"))));
    assert_eq!(
        record().keyed_text_str("text"),
        Ok(("t".to_owned(), record_without("text")))
    );
    assert_eq!(
        record().keyed_byte_str("bytes"),
        Ok((vec![0xff], record_without("bytes")))
    );
    assert_eq!(
        record().keyed_list("list"),
        Ok((vec![Integer(1)], record_without("list")))
    );
    assert_eq!(
        record().keyed_dict("dict"),
        Ok((DictInner::new(), record_without("dict")))
    );
    assert_eq!(
        record().keyed("int"),
        Ok((Integer(9), record_without("int")))
    );
}

#[test]
fn keyed_accessors_fail_on_a_missing_key_or_a_wrong_kind() {
    assert_eq!(
        record().keyed_int("none"),
        Err(BencodingError::KeyNotFound("none".to_owned()))
    );
    assert_eq!(Integer(1).keyed_int("int"), Err(BencodingError::NotDict));
    assert_eq!(record().keyed_int("text"), Err(BencodingError::NotInt));
    assert_eq!(record().keyed_text_str("int"), Err(BencodingError::NotTextStr));
    assert_eq!(record().keyed_byte_str("int"), Err(BencodingError::NotByteStr));
    assert_eq!(record().keyed_list("int"), Err(BencodingError::NotList));
    assert_eq!(record().keyed_dict("int"), Err(BencodingError::NotDict));
}

#[test]
fn rendering_is_exact() {
    assert_eq!(Integer(-12).to_string(0), "Integer(-12)");
    assert_eq!(
        TextString("h\u{e9}".to_owned()).to_string(0),
        "TextString(3)(\"h\u{e9}\")"
    );
    assert_eq!(
        ByteString(vec![0, 10, 16, 255]).to_string(0),
        "ByteString(4)(0x0, 0xa, 0x10, 0xff)"
    );
    assert_eq!(ByteString(vec![]).to_string(0), "ByteString(0)()");
    assert_eq!(
        List(vec![Integer(1), List(vec![]), Integer(2)]).to_string(4),
        "List[Integer(1), List[], Integer(2)]"
    );
    let mut inner = DictInner::new();
    inner.insert("k".to_owned(), Integer(1));
    let mut outer = DictInner::new();
    outer.insert("a".to_owned(), Integer(5));
    outer.insert("b".to_owned(), Dict(inner));
    assert_eq!(
        Dict(outer).to_string(1),
        "Dict(2)(\n   \"a\": Integer(5)\n   \"b\": Dict(1)(\n     \"k\": Integer(1)\n   )\n )"
    );
    assert_eq!(Dict(DictInner::new()).to_string(0), "Dict(0)(\n\n)");
}

#[test]
fn rendering_shows_the_first_hundred_items() {
    let bytes = ByteString(vec![1u8; 150]).to_string(0);
    assert!(bytes.starts_with("ByteString(150)(0x1, 0x1"));
    assert_eq!(bytes.matches("0x1").count(), 100);
    let items = List(vec![Integer(7); 101]).to_string(0);
    assert_eq!(items.matches("Integer(7)").count(), 100);
}
