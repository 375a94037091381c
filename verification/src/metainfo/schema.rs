//! The metainfo schema as plain mathematics: what each structure is written as, and what a
//! value reads as.

use vstd::prelude::*;
use crate::encoding::model::{dict_extend, dict_get, dict_insert, dict_remove, Value};

verus! {

/// One file of a download of many files: what a `MultipleFileInner` denotes.
pub struct FileView {
    pub length: usize,
    pub path: Seq<Seq<char>>,
}

/// What a `DownloadTypes` denotes.
pub enum DownloadView {
    Single { length: usize },
    Multiple { files: Seq<FileView> },
}

/// What a `MetaInfo` denotes.
pub struct InfoView {
    pub name: Seq<char>,
    pub piece_length: usize,
    pub pieces: Seq<u8>,
    pub files: DownloadView,
    pub leftovers: Seq<(Seq<char>, Value)>,
}

/// What a `Meta` denotes.
pub struct MetaView {
    pub announce: Seq<char>,
    pub info: InfoView,
    pub leftovers: Seq<(Seq<char>, Value)>,
}

/// Why a value does not fit the schema: what a `DataParseError` denotes.
pub enum ParseFault {
    ExpectedDict,
    ExpectedInteger,
    ExpectedList,
    ExpectedTextString,
    BadKey(Seq<char>, Option<Value>),
    BadKeyPair(Seq<char>, Option<Value>, Seq<char>, Option<Value>),
    BadPieceLength(isize),
}

/// A size that the integers of the wire can hold.
pub open spec fn size_fits(size: usize) -> bool {
    size <= isize::MAX
}

/// A size as the integer that stands for it on the wire.
pub open spec fn size_value(size: usize) -> Value {
    Value::Integer(size as int)
}

/// The size that a wire integer stands for, where the integer is not negative.
pub open spec fn value_size(n: int) -> usize {
    n as usize
}

/// The failure for a `length` below zero; it carries the integer.
pub open spec fn negative_length(n: int) -> ParseFault {
    ParseFault::BadKey("length"@, Some(Value::Integer(n)))
}

/// The length of the file fits the wire.
pub open spec fn file_fits(file: FileView) -> bool {
    size_fits(file.length)
}

/// The length of every file fits the wire.
pub open spec fn files_fit(files: Seq<FileView>) -> bool {
    forall|i: int| 0 <= i < files.len() ==> #[trigger] file_fits(files[i])
}

/// Every size in the download fits the wire.
pub open spec fn download_fits(download: DownloadView) -> bool {
    match download {
        DownloadView::Single { length } => size_fits(length),
        DownloadView::Multiple { files } => files_fit(files),
    }
}

/// Every size in the `info` fits the wire: the piece length and each file's length.
pub open spec fn info_fits(info: InfoView) -> bool {
    size_fits(info.piece_length) && download_fits(info.files)
}

/// Each text as a text string value.
pub open spec fn text_values(texts: Seq<Seq<char>>) -> Seq<Value> {
    Seq::new(texts.len(), |i: int| Value::TextString(texts[i]))
}

/// The dictionary that stands for a file: `length` and `path`.
pub open spec fn file_to_value(file: FileView) -> Value {
    Value::Dict(
        dict_insert(
            dict_insert(Seq::empty(), "length"@, size_value(file.length)),
            "path"@,
            Value::List(text_values(file.path)),
        ),
    )
}

/// Each file as the dictionary that stands for it.
pub open spec fn file_values(files: Seq<FileView>) -> Seq<Value> {
    Seq::new(files.len(), |i: int| file_to_value(files[i]))
}

/// The value stored under `length` or under `files`.
pub open spec fn download_to_value(files: DownloadView) -> Value {
    match files {
        DownloadView::Single { length } => size_value(length),
        DownloadView::Multiple { files } => Value::List(file_values(files)),
    }
}

/// The key under which a download is stored.
pub open spec fn download_key(files: DownloadView) -> Seq<char> {
    match files {
        DownloadView::Single { .. } => "length"@,
        DownloadView::Multiple { .. } => "files"@,
    }
}

/// The `info` dictionary. The leftovers go in last, so one of them that bears the name of a
/// field replaces that field.
pub open spec fn info_to_value(info: InfoView) -> Value {
    Value::Dict(
        dict_extend(
            dict_insert(
                dict_insert(
                    dict_insert(
                        dict_insert(Seq::empty(), "name"@, Value::TextString(info.name)),
                        "piece length"@,
                        size_value(info.piece_length),
                    ),
                    "pieces"@,
                    Value::ByteString(info.pieces),
                ),
                download_key(info.files),
                download_to_value(info.files),
            ),
            info.leftovers,
        ),
    )
}

/// The whole metainfo dictionary.
pub open spec fn meta_to_value(meta: MetaView) -> Value {
    Value::Dict(
        dict_extend(
            dict_insert(
                dict_insert(Seq::empty(), "announce"@, Value::TextString(meta.announce)),
                "info"@,
                info_to_value(meta.info),
            ),
            meta.leftovers,
        ),
    )
}

/// The texts of `items`, after those in `done`; the first item that is no text fails.
pub open spec fn texts_from(items: Seq<Value>, done: Seq<Seq<char>>) -> Result<
    Seq<Seq<char>>,
    ParseFault,
>
    decreases items.len(),
{
    if items.len() == 0 {
        Ok(done)
    } else {
        match items[0] {
            Value::TextString(s) => texts_from(items.drop_first(), done.push(s)),
            _ => Err(ParseFault::ExpectedTextString),
        }
    }
}

/// Reads one entry of `files`: `length`, which must not be below zero, then `path`. Other
/// keys are dropped.
pub open spec fn file_from_value(v: Value) -> Result<FileView, ParseFault> {
    match v {
        Value::Dict(d) => match dict_get(d, "length"@) {
            Some(Value::Integer(length)) => if length < 0 {
                Err(negative_length(length))
            } else {
                match dict_get(d, "path"@) {
                    Some(Value::List(items)) => match texts_from(items, Seq::empty()) {
                        Ok(path) => Ok(FileView { length: value_size(length), path }),
                        Err(fault) => Err(fault),
                    },
                    _ => Err(ParseFault::BadKey("path"@, None)),
                }
            },
            _ => Err(ParseFault::BadKey("length"@, None)),
        },
        _ => Err(ParseFault::ExpectedDict),
    }
}

/// The files that `items` read as, after those in `done`; the first item that fails decides.
pub open spec fn files_from(items: Seq<Value>, done: Seq<FileView>) -> Result<
    Seq<FileView>,
    ParseFault,
>
    decreases items.len(),
{
    if items.len() == 0 {
        Ok(done)
    } else {
        match file_from_value(items[0]) {
            Ok(file) => files_from(items.drop_first(), done.push(file)),
            Err(fault) => Err(fault),
        }
    }
}

/// Reads `length` or `files` off a dictionary: exactly one of them must be there, and a
/// `length` must not be below zero. Gives the download and the dictionary without the two
/// keys.
pub open spec fn download_from_value(v: Value) -> Result<(DownloadView, Value), ParseFault> {
    match v {
        Value::Dict(d) => {
            let left = Value::Dict(dict_remove(dict_remove(d, "length"@), "files"@));
            match (dict_get(d, "length"@), dict_get(d, "files"@)) {
                (None, None) => Err(ParseFault::BadKey("info.length and info.files"@, None)),
                (None, Some(Value::List(items))) => match files_from(items, Seq::empty()) {
                    Ok(files) => Ok((DownloadView::Multiple { files }, left)),
                    Err(fault) => Err(fault),
                },
                (None, Some(_)) => Err(ParseFault::ExpectedList),
                (Some(Value::Integer(length)), None) => if length < 0 {
                    Err(negative_length(length))
                } else {
                    Ok((DownloadView::Single { length: value_size(length) }, left))
                },
                (Some(_), None) => Err(ParseFault::ExpectedInteger),
                (Some(l), Some(f)) => Err(
                    ParseFault::BadKeyPair("length"@, Some(l), "files"@, Some(f)),
                ),
            }
        },
        _ => Err(ParseFault::ExpectedDict),
    }
}

/// Reads an `info` dictionary: `name`, `piece length`, which must be above zero, `pieces`,
/// then the download. The first of them that fails decides. Every other key is a leftover.
pub open spec fn info_from_value(v: Value) -> Result<InfoView, ParseFault> {
    match v {
        Value::Dict(d) => match dict_get(d, "name"@) {
            Some(Value::TextString(name)) => match dict_get(d, "piece length"@) {
                Some(Value::Integer(piece_length)) => if piece_length <= 0 {
                    Err(ParseFault::BadPieceLength(piece_length as isize))
                } else {
                    match dict_get(d, "pieces"@) {
                        Some(Value::ByteString(pieces)) => match download_from_value(
                            Value::Dict(
                                dict_remove(
                                    dict_remove(dict_remove(d, "name"@), "piece length"@),
                                    "pieces"@,
                                ),
                            ),
                        ) {
                            Ok((files, Value::Dict(leftovers))) => Ok(
                                InfoView {
                                    name,
                                    piece_length: value_size(piece_length),
                                    pieces,
                                    files,
                                    leftovers,
                                },
                            ),
                            Ok(_) => Err(ParseFault::ExpectedDict),
                            Err(fault) => Err(fault),
                        },
                        _ => Err(ParseFault::BadKey("info.pieces"@, None)),
                    }
                },
                _ => Err(ParseFault::BadKey("info.piece length"@, None)),
            },
            _ => Err(ParseFault::BadKey("info.name"@, None)),
        },
        _ => Err(ParseFault::ExpectedDict),
    }
}

/// Reads a metainfo dictionary: `announce`, then `info`. Every other key is a leftover.
pub open spec fn meta_from_value(v: Value) -> Result<MetaView, ParseFault> {
    match v {
        Value::Dict(d) => match dict_get(d, "announce"@) {
            Some(Value::TextString(announce)) => match dict_get(d, "info"@) {
                Some(info_value) => match info_from_value(info_value) {
                    Ok(info) => Ok(
                        MetaView {
                            announce,
                            info,
                            leftovers: dict_remove(dict_remove(d, "announce"@), "info"@),
                        },
                    ),
                    Err(fault) => Err(fault),
                },
                None => Err(ParseFault::BadKey("info"@, None)),
            },
            _ => Err(ParseFault::BadKey("announce"@, None)),
        },
        _ => Err(ParseFault::ExpectedDict),
    }
}

} // verus!
