//! The structure of a metainfo (.torrent) file over bencode values.

use sha1::{Digest, Sha1};
use vstd::prelude::*;
use vstd::string::StringExecFns;
use crate::decimal::{append_int_decimal, int_text};
use crate::encoding::display::render;
use crate::encoding::grammar::encode;
use crate::encoding::model::{lemma_remove_sorted, Value};
use crate::encoding::types::{items_view, lemma_list_view, BTypes, DictInner};
use crate::metainfo::schema::{
    download_fits, download_from_value, download_to_value, file_fits, file_from_value,
    file_to_value, file_values, files_from, info_fits, info_from_value, info_to_value,
    meta_from_value, meta_to_value, negative_length, size_fits, size_value, text_values,
    texts_from, value_size, DownloadView, FileView, InfoView, MetaView, ParseFault,
};

pub mod laws;
pub mod schema;

verus! {

/// Why a value does not fit the metainfo schema.
#[derive(Debug, PartialEq, Eq)]
pub enum DataParseError {
    ExpectedDict,
    ExpectedInteger,
    ExpectedList,
    ExpectedTextString,
    /// A required key is missing or holds a value of the wrong kind.
    BadKey(String, Option<BTypes>),
    /// Two keys that exclude each other are both present.
    BadKeyPair(String, Option<BTypes>, String, Option<BTypes>),
    /// The piece length is not above zero.
    BadPieceLength(isize),
}

/// What an optional value denotes.
pub open spec fn option_view(value: Option<BTypes>) -> Option<Value> {
    match value {
        Some(v) => Some(v@),
        None => None,
    }
}

impl View for DataParseError {
    type V = ParseFault;

    open spec fn view(&self) -> ParseFault {
        match self {
            DataParseError::ExpectedDict => ParseFault::ExpectedDict,
            DataParseError::ExpectedInteger => ParseFault::ExpectedInteger,
            DataParseError::ExpectedList => ParseFault::ExpectedList,
            DataParseError::ExpectedTextString => ParseFault::ExpectedTextString,
            DataParseError::BadKey(k, v) => ParseFault::BadKey(k@, option_view(*v)),
            DataParseError::BadKeyPair(k1, v1, k2, v2) => ParseFault::BadKeyPair(
                k1@,
                option_view(*v1),
                k2@,
                option_view(*v2),
            ),
            DataParseError::BadPieceLength(n) => ParseFault::BadPieceLength(*n),
        }
    }
}

fn clone_option(value: &Option<BTypes>) -> (copy: Option<BTypes>)
    ensures
        option_view(copy) == option_view(*value),
{
    match value {
        Some(v) => Some(v.clone()),
        None => None,
    }
}

impl Clone for DataParseError {
    fn clone(&self) -> (copy: Self)
        ensures
            copy@ == self@,
    {
        match self {
            DataParseError::ExpectedDict => DataParseError::ExpectedDict,
            DataParseError::ExpectedInteger => DataParseError::ExpectedInteger,
            DataParseError::ExpectedList => DataParseError::ExpectedList,
            DataParseError::ExpectedTextString => DataParseError::ExpectedTextString,
            DataParseError::BadKey(k, v) => DataParseError::BadKey(k.clone(), clone_option(v)),
            DataParseError::BadKeyPair(k1, v1, k2, v2) => DataParseError::BadKeyPair(
                k1.clone(),
                clone_option(v1),
                k2.clone(),
                clone_option(v2),
            ),
            DataParseError::BadPieceLength(n) => DataParseError::BadPieceLength(*n),
        }
    }
}

/// One file of a download of many files.
#[derive(Debug, PartialEq, Eq)]
pub struct MultipleFileInner {
    /// The length of the file, in bytes.
    pub length: usize,
    /// The names of the directories that lead to the file, then the file's own name.
    pub path: Vec<String>,
}

/// What a list of stored texts denotes.
pub open spec fn path_view(path: Seq<String>) -> Seq<Seq<char>> {
    Seq::new(path.len(), |i: int| path[i]@)
}

impl View for MultipleFileInner {
    type V = FileView;

    open spec fn view(&self) -> FileView {
        FileView { length: self.length, path: path_view(self.path@) }
    }
}

impl Clone for MultipleFileInner {
    fn clone(&self) -> (copy: Self)
        ensures
            copy@ == self@,
    {
        let mut path: Vec<String> = Vec::new();
        let mut i: usize = 0;
        while i < self.path.len()
            invariant
                i <= self.path@.len(),
                path@.len() == i,
                forall|j: int| 0 <= j < i ==> path@[j]@ == self.path@[j]@,
            decreases self.path@.len() - i,
        {
            path.push(self.path[i].clone());
            i += 1;
        }
        assert(path_view(path@) =~= path_view(self.path@));
        MultipleFileInner { length: self.length, path }
    }
}

/// What is downloaded: one file, or several that go into a directory.
#[derive(Debug, PartialEq, Eq)]
pub enum DownloadTypes {
    Single {
        /// The length of the file, in bytes.
        length: usize,
    },
    Multiple {
        /// The files, in the order in which their contents follow each other.
        files: Vec<MultipleFileInner>,
    },
}

/// What a list of stored files denotes.
pub open spec fn files_view(files: Seq<MultipleFileInner>) -> Seq<FileView> {
    Seq::new(files.len(), |i: int| files[i]@)
}

impl View for DownloadTypes {
    type V = DownloadView;

    open spec fn view(&self) -> DownloadView {
        match self {
            DownloadTypes::Single { length } => DownloadView::Single { length: *length },
            DownloadTypes::Multiple { files } => DownloadView::Multiple {
                files: files_view(files@),
            },
        }
    }
}

impl Clone for DownloadTypes {
    fn clone(&self) -> (copy: Self)
        ensures
            copy@ == self@,
    {
        match self {
            DownloadTypes::Single { length } => DownloadTypes::Single { length: *length },
            DownloadTypes::Multiple { files } => {
                let mut copies: Vec<MultipleFileInner> = Vec::new();
                let mut i: usize = 0;
                while i < files.len()
                    invariant
                        i <= files@.len(),
                        copies@.len() == i,
                        forall|j: int| 0 <= j < i ==> copies@[j]@ == files@[j]@,
                    decreases files@.len() - i,
                {
                    copies.push(files[i].clone());
                    i += 1;
                }
                assert(files_view(copies@) =~= files_view(files@));
                DownloadTypes::Multiple { files: copies }
            },
        }
    }
}

/// The `info` dictionary of a metainfo file.
#[derive(Debug, PartialEq, Eq)]
pub struct MetaInfo {
    /// The suggested name of the file or directory to save as.
    pub name: String,
    /// The number of bytes in each piece; above zero.
    pub piece_length: usize,
    /// The SHA-1 digests of the pieces, twenty bytes each, one after the other.
    pub pieces: Vec<u8>,
    /// One file or several.
    pub files: DownloadTypes,
    /// The keys of the dictionary that this structure has no field for.
    pub leftovers: DictInner,
}

impl View for MetaInfo {
    type V = InfoView;

    open spec fn view(&self) -> InfoView {
        InfoView {
            name: self.name@,
            piece_length: self.piece_length,
            pieces: self.pieces@,
            files: self.files@,
            leftovers: self.leftovers@,
        }
    }
}

impl Clone for MetaInfo {
    fn clone(&self) -> (copy: Self)
        ensures
            copy@ == self@,
    {
        MetaInfo {
            name: self.name.clone(),
            piece_length: self.piece_length,
            pieces: self.pieces.clone(),
            files: self.files.clone(),
            leftovers: self.leftovers.clone(),
        }
    }
}

/// A metainfo file.
#[derive(Debug, PartialEq, Eq)]
pub struct Meta {
    /// The URL of the tracker.
    pub announce: String,
    /// The description of the download.
    pub info: MetaInfo,
    /// The keys of the dictionary that this structure has no field for.
    pub leftovers: DictInner,
}

impl View for Meta {
    type V = MetaView;

    open spec fn view(&self) -> MetaView {
        MetaView { announce: self.announce@, info: self.info@, leftovers: self.leftovers@ }
    }
}

impl Clone for Meta {
    fn clone(&self) -> (copy: Self)
        ensures
            copy@ == self@,
    {
        Meta {
            announce: self.announce.clone(),
            info: self.info.clone(),
            leftovers: self.leftovers.clone(),
        }
    }
}

/// A text as `Debug` shows it: in double quotes, its special characters escaped.
pub uninterp spec fn quoted_text(text: Seq<char>) -> Seq<char>;

/// `format!` of the standard library with `{:?}` on a string slice: the `Debug` form of the
/// text. The form is named, not computed, in contracts. Not proved here.
#[verifier::external_body]
fn quote(text: &str) -> (quoted: String)
    ensures
        quoted@ == quoted_text(text@),
{
    format!("{:?}", text)
}

/// An optional value in a message.
pub open spec fn option_text(value: Option<Value>) -> Seq<char> {
    match value {
        Some(v) => "Some("@ + render(v, 0) + ")"@,
        None => "None"@,
    }
}

/// The message for a key that failed, given the key in quotes.
pub open spec fn bad_key_text(quoted: Seq<char>, value: Option<Value>) -> Seq<char> {
    "Expected key & value not met, "@ + quoted + " "@ + option_text(value)
}

/// The message for two keys that exclude each other, given the keys in quotes.
pub open spec fn bad_key_pair_text(
    first: Seq<char>,
    first_value: Option<Value>,
    second: Seq<char>,
    second_value: Option<Value>,
) -> Seq<char> {
    "Expected keys & values not met, "@ + first + " "@ + option_text(first_value) + ", "@ + second
        + ", "@ + option_text(second_value)
}

/// The message for a failure of the schema.
pub open spec fn parse_fault_text(fault: ParseFault) -> Seq<char> {
    match fault {
        ParseFault::ExpectedDict => "Expected Dict, got other"@,
        ParseFault::ExpectedInteger => "Expected Integer, got other"@,
        ParseFault::ExpectedList => "Expected List, got other"@,
        ParseFault::ExpectedTextString => "Expected TextString, got other"@,
        ParseFault::BadKey(k, v) => bad_key_text(quoted_text(k), v),
        ParseFault::BadKeyPair(k1, v1, k2, v2) => bad_key_pair_text(
            quoted_text(k1),
            v1,
            quoted_text(k2),
            v2,
        ),
        ParseFault::BadPieceLength(n) => "Piece length invalid "@ + int_text(n as int),
    }
}

fn append_option(text: &mut String, value: &Option<BTypes>)
    ensures
        final(text)@ == old(text)@ + option_text(option_view(*value)),
{
    match value {
        Some(v) => {
            text.append("Some(");
            v.render_into(0, text);
            text.append(")");
        },
        None => {
            text.append("None");
        },
    }
    assert(final(text)@ =~= old(text)@ + option_text(option_view(*value)));
}

/// The message for a key that failed, given the key in quotes.
pub fn bad_key_message(quoted: &str, value: &Option<BTypes>) -> (text: String)
    ensures
        text@ == bad_key_text(quoted@, option_view(*value)),
{
    let mut text = String::from_str("Expected key & value not met, ");
    text.append(quoted);
    text.append(" ");
    append_option(&mut text, value);
    text
}

/// The message for two keys that exclude each other, given the keys in quotes.
pub fn bad_key_pair_message(
    first: &str,
    first_value: &Option<BTypes>,
    second: &str,
    second_value: &Option<BTypes>,
) -> (text: String)
    ensures
        text@ == bad_key_pair_text(
            first@,
            option_view(*first_value),
            second@,
            option_view(*second_value),
        ),
{
    let mut text = String::from_str("Expected keys & values not met, ");
    text.append(first);
    text.append(" ");
    append_option(&mut text, first_value);
    text.append(", ");
    text.append(second);
    text.append(", ");
    append_option(&mut text, second_value);
    text
}

impl DataParseError {
    /// The message for this failure.
    pub fn to_string(&self) -> (text: String)
        ensures
            text@ == parse_fault_text(self@),
    {
        match self {
            DataParseError::ExpectedDict => String::from_str("Expected Dict, got other"),
            DataParseError::ExpectedInteger => String::from_str("Expected Integer, got other"),
            DataParseError::ExpectedList => String::from_str("Expected List, got other"),
            DataParseError::ExpectedTextString => String::from_str(
                "Expected TextString, got other",
            ),
            DataParseError::BadKey(k, v) => bad_key_message(quote(k.as_str()).as_str(), v),
            DataParseError::BadKeyPair(k1, v1, k2, v2) => bad_key_pair_message(
                quote(k1.as_str()).as_str(),
                v1,
                quote(k2.as_str()).as_str(),
                v2,
            ),
            DataParseError::BadPieceLength(n) => {
                let mut text = String::from_str("Piece length invalid ");
                append_int_decimal(&mut text, *n);
                text
            },
        }
    }
}

/// A size as the integer that stands for it on the wire.
fn size_to_wire(size: usize) -> (value: BTypes)
    requires
        size_fits(size),
    ensures
        value@ == size_value(size),
{
    BTypes::Integer(size as isize)
}

/// The size that a wire integer stands for.
fn wire_to_size(n: isize) -> (size: usize)
    requires
        n >= 0,
    ensures
        size == value_size(n as int),
        size_fits(size),
{
    n as usize
}

/// Whether a size fits the integers of the wire.
fn fits_wire(size: usize) -> (fits: bool)
    ensures
        fits == size_fits(size),
{
    size <= isize::MAX as usize
}

/// The failure for a `length` below zero; it carries the integer.
fn negative_length_error(n: isize) -> (error: DataParseError)
    ensures
        error@ == negative_length(n as int),
{
    DataParseError::BadKey("length".to_owned(), Some(BTypes::Integer(n)))
}

/// The keys of the schema are all different from each other.
pub proof fn lemma_keys_distinct()
    ensures
        "announce"@ != "info"@,
        "name"@ != "piece length"@,
        "name"@ != "pieces"@,
        "name"@ != "length"@,
        "name"@ != "files"@,
        "piece length"@ != "pieces"@,
        "piece length"@ != "length"@,
        "piece length"@ != "files"@,
        "pieces"@ != "length"@,
        "pieces"@ != "files"@,
        "length"@ != "files"@,
        "length"@ != "path"@,
{
    reveal_strlit("announce");
    reveal_strlit("info");
    reveal_strlit("name");
    reveal_strlit("piece length");
    reveal_strlit("pieces");
    reveal_strlit("length");
    reveal_strlit("files");
    reveal_strlit("path");
    assert("announce"@.len() == 8 && "info"@.len() == 4 && "name"@.len() == 4);
    assert("piece length"@.len() == 12 && "pieces"@.len() == 6 && "length"@.len() == 6);
    assert("files"@.len() == 5 && "path"@.len() == 4);
    assert("pieces"@[0] != "length"@[0]);
}

impl MultipleFileInner {
    /// Whether the length fits the integers of the wire, so that the file can be written.
    pub fn is_writable(&self) -> (writable: bool)
        ensures
            writable == size_fits(self.length),
    {
        fits_wire(self.length)
    }

    /// The dictionary that stands for this file: `length` and `path`. The length must fit
    /// the integers of the wire.
    #[verifier::loop_isolation(false)]
    pub fn bencode(self) -> (value: BTypes)
        requires
            size_fits(self.length),
        ensures
            value@ == file_to_value(self@),
    {
        let ghost texts = path_view(self.path@);
        let mut map = DictInner::new();
        map.insert("length".to_owned(), size_to_wire(self.length));
        let mut segments: Vec<BTypes> = Vec::new();
        for segment in it: self.path.into_iter()
            invariant
                texts == path_view(it.seq()),
                segments@.len() == it.index(),
                forall|j: int|
                    0 <= j < segments@.len() ==> (#[trigger] segments@[j])@ == Value::TextString(
                        texts[j],
                    ),
        {
            assert(texts[it.index() as int] == segment@);
            segments.push(BTypes::TextString(segment));
        }
        assert(items_view(segments@) =~= text_values(texts));
        proof {
            lemma_list_view(segments);
        }
        map.insert("path".to_owned(), BTypes::List(segments));
        BTypes::Dict(map)
    }

    /// Reads one entry of `files`. A length below zero is refused.
    #[verifier::loop_isolation(false)]
    pub fn dbencode(input: BTypes) -> (result: Result<Self, DataParseError>)
        ensures
            match file_from_value(input@) {
                Ok(file) => result matches Ok(r) && r@ == file,
                Err(fault) => result matches Err(e) && e@ == fault,
            },
            result matches Ok(r) ==> size_fits(r.length),
    {
        let mut info = match input {
            BTypes::Dict(d) => d,
            _ => {
                return Err(DataParseError::ExpectedDict);
            },
        };
        proof {
            use_type_invariant(&info);
            lemma_keys_distinct();
            lemma_remove_sorted(info@, "length"@);
        }
        let length: isize = match info.remove("length") {
            Some(BTypes::Integer(l)) => l,
            _ => {
                return Err(DataParseError::BadKey("length".to_owned(), None));
            },
        };
        if length < 0 {
            return Err(negative_length_error(length));
        }
        let path_list = match info.remove("path") {
            Some(BTypes::List(items)) => {
                proof {
                    lemma_list_view(items);
                }
                items
            },
            _ => {
                return Err(DataParseError::BadKey("path".to_owned(), None));
            },
        };
        let ghost all = items_view(path_list@);
        let mut path: Vec<String> = Vec::new();
        assert(all.subrange(0, all.len() as int) =~= all);
        assert(path_view(path@) =~= Seq::<Seq<char>>::empty());
        for item in it: path_list.into_iter()
            invariant
                all == items_view(it.seq()),
                texts_from(all, Seq::empty()) == texts_from(
                    all.subrange(it.index() as int, all.len() as int),
                    path_view(path@),
                ),
        {
            let ghost i = it.index() as int;
            assert(all.subrange(i, all.len() as int)[0] == item@);
            assert(all.subrange(i, all.len() as int).drop_first() =~= all.subrange(
                i + 1,
                all.len() as int,
            ));
            match item {
                BTypes::TextString(segment) => {
                    assert(path_view(path@.push(segment)) =~= path_view(path@).push(segment@));
                    path.push(segment);
                },
                _ => {
                    return Err(DataParseError::ExpectedTextString);
                },
            }
        }
        assert(all.subrange(all.len() as int, all.len() as int) =~= Seq::<Value>::empty());
        Ok(MultipleFileInner { length: wire_to_size(length), path })
    }
}

impl DownloadTypes {
    /// Whether every length fits the integers of the wire, so that the download can be
    /// written.
    #[verifier::loop_isolation(false)]
    pub fn is_writable(&self) -> (writable: bool)
        ensures
            writable == download_fits(self@),
    {
        match self {
            DownloadTypes::Single { length } => fits_wire(*length),
            DownloadTypes::Multiple { files } => {
                let mut i: usize = 0;
                while i < files.len()
                    invariant
                        i <= files@.len(),
                        forall|j: int| 0 <= j < i ==> size_fits((#[trigger] files@[j]).length),
                    decreases files@.len() - i,
                {
                    if !files[i].is_writable() {
                        proof {
                            let view = files_view(files@);
                            assert(self@ == DownloadView::Multiple { files: view });
                            assert(view[i as int].length == files@[i as int].length);
                            assert(!file_fits(view[i as int]));
                        }
                        return false;
                    }
                    i += 1;
                }
                let ghost view = files_view(files@);
                assert forall|j: int| 0 <= j < view.len() implies #[trigger] file_fits(view[j]) by {
                    assert(size_fits(files@[j].length));
                }
                true
            },
        }
    }

    /// The value stored for this download: the length of the one file, or the list of files.
    /// Every length must fit the integers of the wire.
    #[verifier::loop_isolation(false)]
    pub fn bencode(self) -> (value: BTypes)
        requires
            download_fits(self@),
        ensures
            value@ == download_to_value(self@),
    {
        match self {
            DownloadTypes::Single { length } => size_to_wire(length),
            DownloadTypes::Multiple { files } => {
                let ghost all = files_view(files@);
                let mut values: Vec<BTypes> = Vec::new();
                for file in it: files.into_iter()
                    invariant
                        all == files_view(it.seq()),
                        values@.len() == it.index(),
                        forall|j: int|
                            0 <= j < values@.len() ==> (#[trigger] values@[j])@ == file_to_value(
                                all[j],
                            ),
                {
                    assert(all[it.index() as int] == file@);
                    assert(file_fits(all[it.index() as int]));
                    values.push(file.bencode());
                }
                assert(items_view(values@) =~= file_values(all));
                proof {
                    lemma_list_view(values);
                }
                BTypes::List(values)
            },
        }
    }

    /// Reads `length` or `files` off a dictionary; gives the download and the dictionary
    /// without the two keys. A length below zero is refused.
    #[verifier::loop_isolation(false)]
    pub fn dbencode(input: BTypes) -> (result: Result<(Self, BTypes), DataParseError>)
        ensures
            match download_from_value(input@) {
                Ok((files, left)) => result matches Ok((r, l)) && r@ == files && l@ == left,
                Err(fault) => result matches Err(e) && e@ == fault,
            },
            result matches Ok((r, _)) ==> download_fits(r@),
    {
        let mut info = match input {
            BTypes::Dict(d) => d,
            _ => {
                return Err(DataParseError::ExpectedDict);
            },
        };
        proof {
            use_type_invariant(&info);
            lemma_keys_distinct();
            lemma_remove_sorted(info@, "length"@);
        }
        let length = info.remove("length");
        let files = info.remove("files");
        let download_type = match (length, files) {
            (None, None) => {
                return Err(
                    DataParseError::BadKey("info.length and info.files".to_owned(), None),
                );
            },
            (None, Some(f)) => {
                let list = match f {
                    BTypes::List(list) => {
                        proof {
                            lemma_list_view(list);
                        }
                        list
                    },
                    _ => {
                        return Err(DataParseError::ExpectedList);
                    },
                };
                let ghost all = items_view(list@);
                let mut file_list: Vec<MultipleFileInner> = Vec::new();
                assert(all.subrange(0, all.len() as int) =~= all);
                assert(files_view(file_list@) =~= Seq::<FileView>::empty());
                for item in it: list.into_iter()
                    invariant
                        all == items_view(it.seq()),
                        files_from(all, Seq::empty()) == files_from(
                            all.subrange(it.index() as int, all.len() as int),
                            files_view(file_list@),
                        ),
                        forall|j: int|
                            0 <= j < file_list@.len() ==> size_fits(
                                (#[trigger] file_list@[j]).length,
                            ),
                {
                    let ghost i = it.index() as int;
                    assert(all.subrange(i, all.len() as int)[0] == item@);
                    assert(all.subrange(i, all.len() as int).drop_first() =~= all.subrange(
                        i + 1,
                        all.len() as int,
                    ));
                    match MultipleFileInner::dbencode(item) {
                        Ok(file) => {
                            assert(files_view(file_list@.push(file)) =~= files_view(
                                file_list@,
                            ).push(file@));
                            file_list.push(file);
                        },
                        Err(e) => {
                            return Err(e);
                        },
                    }
                }
                assert(all.subrange(all.len() as int, all.len() as int) =~= Seq::<Value>::empty());
                DownloadTypes::Multiple { files: file_list }
            },
            (Some(l), None) => {
                match l {
                    BTypes::Integer(i) => {
                        if i < 0 {
                            return Err(negative_length_error(i));
                        }
                        DownloadTypes::Single { length: wire_to_size(i) }
                    },
                    _ => {
                        return Err(DataParseError::ExpectedInteger);
                    },
                }
            },
            (Some(l), Some(f)) => {
                return Err(
                    DataParseError::BadKeyPair(
                        "length".to_owned(),
                        Some(l),
                        "files".to_owned(),
                        Some(f),
                    ),
                );
            },
        };
        Ok((download_type, BTypes::Dict(info)))
    }
}

/// A structure of the schema: it can be written as a bencode value and read from one.
pub trait Bencodeable: Sized + View {
    /// The value that a structure is written as.
    spec fn to_value(model: Self::V) -> Value;

    /// The structure that a value reads as, or why it reads as none.
    spec fn from_value(input: Value) -> Result<Self::V, ParseFault>;

    /// Every size in the structure fits the integers of the wire.
    spec fn writable(model: Self::V) -> bool;

    /// Writes the structure as a value. Every size in it must fit the integers of the wire.
    fn bencode(self) -> (value: BTypes)
        requires
            Self::writable(self@),
        ensures
            value@ == Self::to_value(self@),
    ;

    /// Reads the structure from a value. What is read can be written again.
    fn bdecode(input: BTypes) -> (result: Result<Self, DataParseError>)
        ensures
            match Self::from_value(input@) {
                Ok(model) => result matches Ok(r) && r@ == model,
                Err(fault) => result matches Err(e) && e@ == fault,
            },
            result matches Ok(r) ==> Self::writable(r@),
    ;
}

impl Bencodeable for MetaInfo {
    open spec fn to_value(model: InfoView) -> Value {
        info_to_value(model)
    }

    open spec fn from_value(input: Value) -> Result<InfoView, ParseFault> {
        info_from_value(input)
    }

    open spec fn writable(model: InfoView) -> bool {
        info_fits(model)
    }

    fn bencode(self) -> (value: BTypes) {
        let MetaInfo { name, piece_length, pieces, files, leftovers } = self;
        let mut dict = DictInner::new();
        dict.insert("name".to_owned(), BTypes::TextString(name));
        dict.insert(
            "piece length".to_owned(),
            size_to_wire(piece_length),
        );
        dict.insert("pieces".to_owned(), BTypes::ByteString(pieces));
        let key = match &files {
            DownloadTypes::Single { .. } => "length",
            DownloadTypes::Multiple { .. } => "files",
        };
        dict.insert(key.to_owned(), files.bencode());
        dict.extend(leftovers);
        BTypes::Dict(dict)
    }

    fn bdecode(input: BTypes) -> (result: Result<Self, DataParseError>) {
        let mut dict = match input {
            BTypes::Dict(d) => d,
            _ => {
                return Err(DataParseError::ExpectedDict);
            },
        };
        proof {
            use_type_invariant(&dict);
            lemma_keys_distinct();
            lemma_remove_sorted(dict@, "name"@);
        }
        let name = match dict.remove("name") {
            Some(BTypes::TextString(name)) => name,
            _ => {
                return Err(DataParseError::BadKey("info.name".to_owned(), None));
            },
        };
        proof {
            lemma_remove_sorted(dict@, "piece length"@);
        }
        let piece_length: isize = match dict.remove("piece length") {
            Some(BTypes::Integer(piece_length)) => piece_length,
            _ => {
                return Err(DataParseError::BadKey("info.piece length".to_owned(), None));
            },
        };
        if piece_length <= 0 {
            return Err(DataParseError::BadPieceLength(piece_length));
        }
        let pieces = match dict.remove("pieces") {
            Some(BTypes::ByteString(pieces)) => pieces,
            _ => {
                return Err(DataParseError::BadKey("info.pieces".to_owned(), None));
            },
        };
        let (files, leftover_info) = match DownloadTypes::dbencode(BTypes::Dict(dict)) {
            Ok(pair) => pair,
            Err(e) => {
                return Err(e);
            },
        };
        let leftovers = match leftover_info {
            BTypes::Dict(leftovers) => leftovers,
            _ => {
                return Err(DataParseError::ExpectedDict);
            },
        };
        Ok(
            MetaInfo {
                name,
                piece_length: wire_to_size(piece_length),
                pieces,
                files,
                leftovers,
            },
        )
    }
}

impl Bencodeable for Meta {
    open spec fn to_value(model: MetaView) -> Value {
        meta_to_value(model)
    }

    open spec fn from_value(input: Value) -> Result<MetaView, ParseFault> {
        meta_from_value(input)
    }

    open spec fn writable(model: MetaView) -> bool {
        info_fits(model.info)
    }

    fn bencode(self) -> (value: BTypes) {
        let Meta { announce, info, leftovers } = self;
        let mut dict = DictInner::new();
        dict.insert("announce".to_owned(), BTypes::TextString(announce));
        dict.insert("info".to_owned(), info.bencode());
        dict.extend(leftovers);
        BTypes::Dict(dict)
    }

    fn bdecode(input: BTypes) -> (result: Result<Self, DataParseError>) {
        let mut dict = match input {
            BTypes::Dict(d) => d,
            _ => {
                return Err(DataParseError::ExpectedDict);
            },
        };
        proof {
            use_type_invariant(&dict);
            lemma_keys_distinct();
            lemma_remove_sorted(dict@, "announce"@);
        }
        let announce = match dict.remove("announce") {
            Some(BTypes::TextString(announce)) => announce,
            _ => {
                return Err(DataParseError::BadKey("announce".to_owned(), None));
            },
        };
        let info = match dict.remove("info") {
            Some(info) => info,
            None => {
                return Err(DataParseError::BadKey("info".to_owned(), None));
            },
        };
        let info = match MetaInfo::bdecode(info) {
            Ok(info) => info,
            Err(e) => {
                return Err(e);
            },
        };
        Ok(Meta { announce, info, leftovers: dict })
    }
}

/// The SHA-1 digest of a byte string, twenty bytes long.
pub uninterp spec fn sha1_digest(data: Seq<u8>) -> Seq<u8>;

/// `Sha1` of the `sha1` crate, fed `data` in one piece and finalized: the SHA-1 digest of
/// `data`. The digest is named, not computed, in contracts. Not proved here.
#[verifier::external_body]
fn sha1_of(data: &[u8]) -> (digest: [u8; 20])
    ensures
        digest@ == sha1_digest(data@),
{
    let mut hasher = Sha1::new();
    hasher.update(data);
    hasher.finalize().into()
}

/// The bytes that identify a torrent are hashed from: the canonical encoding of the `info`
/// dictionary alone.
pub open spec fn info_bytes(meta: MetaView) -> Seq<u8> {
    encode(info_to_value(meta.info))
}

impl MetaInfo {
    /// Whether every size fits the integers of the wire, so that the `info` can be written.
    pub fn is_writable(&self) -> (writable: bool)
        ensures
            writable == info_fits(self@),
    {
        fits_wire(self.piece_length) && self.files.is_writable()
    }
}

impl Meta {
    /// Whether every size fits the integers of the wire, so that the metainfo can be
    /// written and hashed.
    pub fn is_writable(&self) -> (writable: bool)
        ensures
            writable == info_fits(self@.info),
    {
        self.info.is_writable()
    }

    /// The identity of the torrent: the SHA-1 digest of the canonical encoding of `info`.
    /// Every size in `info` must fit the integers of the wire.
    pub fn info_hash(&self) -> (hash: [u8; 20])
        requires
            info_fits(self@.info),
        ensures
            hash@ == sha1_digest(info_bytes(self@)),
    {
        let info = self.info.clone();
        let bytes = info.bencode().bencode();
        sha1_of(bytes.as_slice())
    }
}

} // verus!
