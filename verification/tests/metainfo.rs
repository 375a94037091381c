use bittorrent::encoding::types::BTypes;
use bittorrent::encoding::types::DictInner;
use bittorrent::metainfo::DownloadTypes::{Multiple, Single};
use bittorrent::metainfo::{
    Bencodeable, DataParseError, DownloadTypes, Meta, MetaInfo, MultipleFileInner,
};

#[test]
fn single() {
    let test_value = Meta {
        announce: "www.example.com".to_string(),
        info: MetaInfo {
            name: "The test file".to_string(),
            piece_length: 4,
            pieces: vec![0x12, 0x43, 0x76, 0xaf],
            files: Single { length: 80 },
            leftovers: DictInner::new(),
        },
        leftovers: DictInner::new(),
    };

    assert_eq!(Ok(test_value.clone()), Meta::bdecode(test_value.bencode()));
}

#[test]
fn multi() {
    let test_value = Meta {
        announce: "www.example.com".to_string(),
        info: MetaInfo {
            name: "The test file".to_string(),
            piece_length: 4,
            pieces: vec![0x12, 0x43, 0x76, 0xaf],
            files: Multiple {
                files: vec![
                    MultipleFileInner {
                        length: 15,
                        path: vec!["foo".to_string(), "bar".to_string(), "baz".to_string()],
                    },
                    MultipleFileInner {
                        length: 24,
                        path: vec!["best file ever TM".to_string()],
                    },
                ],
            },

            leftovers: DictInner::new(),
        },
        leftovers: DictInner::new(),
    };

    assert_eq!(Ok(test_value.clone()), Meta::bdecode(test_value.bencode()));
}

fn dict(entries: Vec<(&str, BTypes)>) -> DictInner {
    let mut map = DictInner::new();
    for (key, value) in entries {
        map.insert(key.to_owned(), value);
    }
    map
}

fn text(s: &str) -> BTypes {
    BTypes::TextString(s.to_owned())
}

fn sample(files: DownloadTypes) -> Meta {
    Meta {
        announce: "http://tracker.example/announce".to_string(),
        info: MetaInfo {
            name: "sample".to_string(),
            piece_length: 16384,
            pieces: vec![0xaa; 40],
            files,
            leftovers: dict(vec![
                ("private", BTypes::Integer(1)),
                ("source", text("somewhere")),
            ]),
        },
        leftovers: dict(vec![
            ("comment", text("made by hand")),
            ("creation date", BTypes::Integer(1700000000)),
            ("announce-list", BTypes::List(vec![BTypes::List(vec![text("x")])])),
        ]),
    }
}

fn two_files() -> DownloadTypes {
    Multiple {
        files: vec![
            MultipleFileInner { length: 1, path: vec!["a".to_string(), "b".to_string()] },
            MultipleFileInner { length: 0, path: vec![] },
        ],
    }
}

#[test]
fn metainfo_with_leftovers_reads_back() {
    for files in [Single { length: 12345 }, two_files()] {
        let meta = sample(files);
        assert_eq!(Meta::bdecode(meta.clone().bencode()), Ok(meta.clone()));
        let bytes = meta.clone().bencode().bencode();
        let read = BTypes::bdecode(&bytes).unwrap();
        assert_eq!(Meta::bdecode(read), Ok(meta));
    }
}

#[test]
fn metainfo_is_written_key_by_key() {
    let meta = Meta {
        announce: "u".to_string(),
        info: MetaInfo {
            name: "n".to_string(),
            piece_length: 4,
            pieces: vec![0xff],
            files: two_files(),
            leftovers: dict(vec![("x", BTypes::Integer(1))]),
        },
        leftovers: dict(vec![("z", BTypes::Integer(2))]),
    };
    assert_eq!(
        meta.bencode().bencode(),
        b"d8:announce1:u4:infod5:filesld6:lengthi1e4:pathl1:a1:beed6:lengthi0e4:pathleee\
4:name1:n12:piece lengthi4e6:pieces1:\xff1:xi1ee1:zi2ee"
            .to_vec()
    );
}

fn negative_length(n: isize) -> DataParseError {
    DataParseError::BadKey("length".to_owned(), Some(BTypes::Integer(n)))
}

#[test]
fn a_length_below_zero_is_refused_with_the_integer() {
    let only_length = |n: isize| BTypes::Dict(dict(vec![("length", BTypes::Integer(n))]));
    assert_eq!(DownloadTypes::dbencode(only_length(-1)), Err(negative_length(-1)));
    assert_eq!(
        DownloadTypes::dbencode(only_length(isize::MIN)),
        Err(negative_length(isize::MIN))
    );
    assert_eq!(
        DownloadTypes::dbencode(only_length(0)),
        Ok((Single { length: 0 }, BTypes::Dict(DictInner::new())))
    );
    let entry = |n: isize| {
        BTypes::Dict(dict(vec![
            ("length", BTypes::Integer(n)),
            ("path", BTypes::List(vec![])),
        ]))
    };
    assert_eq!(MultipleFileInner::dbencode(entry(-1)), Err(negative_length(-1)));
    // the length is tested before the path is looked at
    assert_eq!(
        MultipleFileInner::dbencode(BTypes::Dict(dict(vec![("length", BTypes::Integer(-5))]))),
        Err(negative_length(-5))
    );
    assert_eq!(
        MultipleFileInner::dbencode(entry(0)),
        Ok(MultipleFileInner { length: 0, path: vec![] })
    );
    let files = BTypes::Dict(dict(vec![(
        "files",
        BTypes::List(vec![entry(3), entry(-2)]),
    )]));
    assert_eq!(DownloadTypes::dbencode(files), Err(negative_length(-2)));
    let info = BTypes::Dict(dict(vec![
        ("name", text("n")),
        ("piece length", BTypes::Integer(4)),
        ("pieces", BTypes::ByteString(vec![0xff])),
        ("length", BTypes::Integer(-1)),
    ]));
    assert_eq!(MetaInfo::bdecode(info), Err(negative_length(-1)));
}

#[test]
fn the_largest_size_of_the_wire_is_written_and_read() {
    let largest = isize::MAX as usize;
    let file = MultipleFileInner { length: largest, path: vec![] };
    assert!(file.is_writable());
    let value = file.clone().bencode();
    assert_eq!(
        value,
        BTypes::Dict(dict(vec![
            ("length", BTypes::Integer(isize::MAX)),
            ("path", BTypes::List(vec![])),
        ]))
    );
    assert_eq!(MultipleFileInner::dbencode(value), Ok(file));
    assert_eq!(Single { length: largest }.bencode(), BTypes::Integer(isize::MAX));
}

#[test]
fn a_size_above_the_wire_integer_is_not_writable() {
    let above = isize::MAX as usize + 1;
    assert!(!MultipleFileInner { length: above, path: vec![] }.is_writable());
    assert!(!MultipleFileInner { length: usize::MAX, path: vec![] }.is_writable());
    assert!(!Single { length: above }.is_writable());
    assert!(Single { length: 0 }.is_writable());
    let mixed = Multiple {
        files: vec![
            MultipleFileInner { length: 1, path: vec![] },
            MultipleFileInner { length: above, path: vec![] },
        ],
    };
    assert!(!mixed.is_writable());
    assert!(two_files().is_writable());
    assert!(Multiple { files: vec![] }.is_writable());
    let mut meta = sample(Single { length: 1 });
    assert!(meta.is_writable() && meta.info.is_writable());
    meta.info.piece_length = above;
    assert!(!meta.is_writable() && !meta.info.is_writable());
    meta.info.piece_length = 1;
    meta.info.files = mixed;
    assert!(!meta.is_writable());
    // what was read can always be written
    let read = Meta::bdecode(sample(two_files()).bencode()).unwrap();
    assert!(read.is_writable());
}

fn info_dict(piece_length: BTypes) -> BTypes {
    BTypes::Dict(dict(vec![
        ("name", text("n")),
        ("piece length", piece_length),
        ("pieces", BTypes::ByteString(vec![0xff])),
        ("length", BTypes::Integer(1)),
    ]))
}

#[test]
fn piece_length_must_be_above_zero() {
    assert_eq!(
        MetaInfo::bdecode(info_dict(BTypes::Integer(0))),
        Err(DataParseError::BadPieceLength(0))
    );
    assert_eq!(
        MetaInfo::bdecode(info_dict(BTypes::Integer(-7))),
        Err(DataParseError::BadPieceLength(-7))
    );
    assert_eq!(
        MetaInfo::bdecode(info_dict(BTypes::Integer(isize::MIN))),
        Err(DataParseError::BadPieceLength(isize::MIN))
    );
    assert!(MetaInfo::bdecode(info_dict(BTypes::Integer(1))).is_ok());
    let whole = BTypes::Dict(dict(vec![
        ("announce", text("u")),
        ("info", info_dict(BTypes::Integer(0))),
    ]));
    assert_eq!(Meta::bdecode(whole), Err(DataParseError::BadPieceLength(0)));
}

fn without(value: BTypes, key: &str) -> BTypes {
    let mut map = value.expect_dict().unwrap();
    map.remove(key);
    BTypes::Dict(map)
}

fn with(value: BTypes, key: &str, new: BTypes) -> BTypes {
    let mut map = value.expect_dict().unwrap();
    map.insert(key.to_owned(), new);
    BTypes::Dict(map)
}

#[test]
fn each_schema_failure_of_info() {
    let good = info_dict(BTypes::Integer(4));
    assert_eq!(MetaInfo::bdecode(text("x")), Err(DataParseError::ExpectedDict));
    assert_eq!(
        MetaInfo::bdecode(without(good.clone(), "name")),
        Err(DataParseError::BadKey("info.name".to_owned(), None))
    );
    assert_eq!(
        MetaInfo::bdecode(with(good.clone(), "name", BTypes::Integer(1))),
        Err(DataParseError::BadKey("info.name".to_owned(), None))
    );
    assert_eq!(
        MetaInfo::bdecode(without(good.clone(), "piece length")),
        Err(DataParseError::BadKey("info.piece length".to_owned(), None))
    );
    assert_eq!(
        MetaInfo::bdecode(without(good.clone(), "pieces")),
        Err(DataParseError::BadKey("info.pieces".to_owned(), None))
    );
    assert_eq!(
        MetaInfo::bdecode(with(good.clone(), "pieces", text("valid text"))),
        Err(DataParseError::BadKey("info.pieces".to_owned(), None))
    );
    assert_eq!(
        MetaInfo::bdecode(without(good.clone(), "length")),
        Err(DataParseError::BadKey("info.length and info.files".to_owned(), None))
    );
    assert_eq!(
        MetaInfo::bdecode(with(good.clone(), "files", BTypes::List(vec![]))),
        Err(DataParseError::BadKeyPair(
            "length".to_owned(),
            Some(BTypes::Integer(1)),
            "files".to_owned(),
            Some(BTypes::List(vec![]))
        ))
    );
    assert_eq!(
        MetaInfo::bdecode(with(good.clone(), "length", text("1"))),
        Err(DataParseError::ExpectedInteger)
    );
    assert_eq!(
        MetaInfo::bdecode(with(without(good.clone(), "length"), "files", text("1"))),
        Err(DataParseError::ExpectedList)
    );
    // the name is looked at before the piece length
    assert_eq!(
        MetaInfo::bdecode(without(info_dict(BTypes::Integer(0)), "name")),
        Err(DataParseError::BadKey("info.name".to_owned(), None))
    );
}

#[test]
fn each_schema_failure_of_a_file_entry() {
    let entry = |path: BTypes| {
        BTypes::Dict(dict(vec![("length", BTypes::Integer(5)), ("path", path)]))
    };
    assert_eq!(
        MultipleFileInner::dbencode(entry(BTypes::List(vec![text("a")]))),
        Ok(MultipleFileInner { length: 5, path: vec!["a".to_string()] })
    );
    assert_eq!(
        MultipleFileInner::dbencode(entry(BTypes::List(vec![]))),
        Ok(MultipleFileInner { length: 5, path: vec![] })
    );
    assert_eq!(
        MultipleFileInner::dbencode(BTypes::Integer(1)),
        Err(DataParseError::ExpectedDict)
    );
    assert_eq!(
        MultipleFileInner::dbencode(without(entry(BTypes::List(vec![])), "length")),
        Err(DataParseError::BadKey("length".to_owned(), None))
    );
    assert_eq!(
        MultipleFileInner::dbencode(entry(text("a"))),
        Err(DataParseError::BadKey("path".to_owned(), None))
    );
    assert_eq!(
        MultipleFileInner::dbencode(entry(BTypes::List(vec![text("a"), BTypes::Integer(1)]))),
        Err(DataParseError::ExpectedTextString)
    );
    let files = BTypes::Dict(dict(vec![(
        "files",
        BTypes::List(vec![entry(BTypes::List(vec![])), BTypes::Integer(3)]),
    )]));
    assert_eq!(DownloadTypes::dbencode(files), Err(DataParseError::ExpectedDict));
}

#[test]
fn each_schema_failure_of_the_top_level() {
    let good = sample(Single { length: 1 }).bencode();
    assert_eq!(Meta::bdecode(BTypes::Integer(1)), Err(DataParseError::ExpectedDict));
    assert_eq!(
        Meta::bdecode(without(good.clone(), "announce")),
        Err(DataParseError::BadKey("announce".to_owned(), None))
    );
    assert_eq!(
        Meta::bdecode(with(good.clone(), "announce", BTypes::ByteString(vec![0xff]))),
        Err(DataParseError::BadKey("announce".to_owned(), None))
    );
    assert_eq!(
        Meta::bdecode(without(good.clone(), "info")),
        Err(DataParseError::BadKey("info".to_owned(), None))
    );
    assert_eq!(
        Meta::bdecode(with(good.clone(), "info", BTypes::Integer(1))),
        Err(DataParseError::ExpectedDict)
    );
}

#[test]
fn download_reader_hands_back_the_other_keys() {
    let input = BTypes::Dict(dict(vec![
        ("length", BTypes::Integer(3)),
        ("other", BTypes::Integer(4)),
    ]));
    assert_eq!(
        DownloadTypes::dbencode(input),
        Ok((
            Single { length: 3 },
            BTypes::Dict(dict(vec![("other", BTypes::Integer(4))]))
        ))
    );
}

#[test]
fn a_leftover_that_bears_a_field_name_replaces_the_field() {
    let mut meta = sample(Single { length: 1 });
    meta.info.leftovers.insert("name".to_owned(), text("other"));
    let read = MetaInfo::bdecode(meta.info.clone().bencode()).unwrap();
    assert_eq!(read.name, "other");
    assert_eq!(read.leftovers.get("name"), None);
}

#[test]
fn info_hash_is_the_sha1_of_the_encoded_info() {
    let meta = Meta {
        announce: "www.example.com".to_string(),
        info: MetaInfo {
            name: "The test file".to_string(),
            piece_length: 4,
            pieces: vec![0x12, 0x43, 0x76, 0xaf],
            files: Single { length: 80 },
            leftovers: DictInner::new(),
        },
        leftovers: DictInner::new(),
    };
    assert_eq!(
        meta.info.clone().bencode().bencode(),
        b"d6:lengthi80e4:name13:The test file12:piece lengthi4e6:pieces4:\x12\x43\x76\xafe"
            .to_vec()
    );
    assert_eq!(
        meta.info_hash(),
        [94, 203, 99, 43, 249, 99, 27, 159, 175, 201, 23, 43, 162, 240, 122, 57, 77, 10, 33, 62]
    );
}

fn hashed(announce: &str, leftovers: DictInner, length: usize) -> Meta {
    Meta {
        announce: announce.to_string(),
        info: MetaInfo {
            name: "The test file".to_string(),
            piece_length: 4,
            pieces: vec![0x12, 0x43, 0x76, 0xaf],
            files: Single { length },
            leftovers,
        },
        leftovers: DictInner::new(),
    }
}

#[test]
fn info_hash_hangs_on_info_alone() {
    let forward = dict(vec![("extra", BTypes::Integer(7)), ("zebra", text("zoo"))]);
    let backward = dict(vec![("zebra", text("zoo")), ("extra", BTypes::Integer(7))]);
    let expected = [
        125, 117, 93, 74, 115, 118, 83, 112, 72, 232, 235, 54, 182, 12, 253, 228, 222, 20, 196, 5,
    ];
    assert_eq!(hashed("a", forward.clone(), 80).info_hash(), expected);
    assert_eq!(hashed("a", backward, 80).info_hash(), expected);
    assert_eq!(hashed("another", forward.clone(), 80).info_hash(), expected);
    let mut other = hashed("a", forward.clone(), 80);
    other.leftovers.insert("comment".to_owned(), text("c"));
    assert_eq!(other.info_hash(), expected);
    assert_ne!(hashed("a", forward.clone(), 81).info_hash(), expected);
    assert_ne!(hashed("a", DictInner::new(), 80).info_hash(), expected);
}

#[test]
fn a_leftover_held_as_text_or_as_the_same_bytes_is_written_alike() {
    let as_text = hashed("a", dict(vec![("k", text("zoo"))]), 80);
    let as_bytes = hashed("a", dict(vec![("k", BTypes::ByteString(b"zoo".to_vec()))]), 80);
    assert_ne!(as_text, as_bytes);
    assert_eq!(
        as_text.info.clone().bencode().bencode(),
        as_bytes.info.clone().bencode().bencode()
    );
    assert_eq!(as_text.info_hash(), as_bytes.info_hash());
    let other_bytes = hashed("a", dict(vec![("k", BTypes::ByteString(b"zo\xff".to_vec()))]), 80);
    assert_ne!(
        as_text.info.clone().bencode().bencode(),
        other_bytes.info.clone().bencode().bencode()
    );
}
