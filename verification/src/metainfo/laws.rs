//! What holds of the schema as a whole: a structure read back from the value it was written
//! as is the structure again, and the torrent's identity hangs on `info` alone.

use vstd::prelude::*;
use vstd::utf8::*;
use crate::encoding::grammar::{classify_payload, encode};
use crate::encoding::laws::{
    canonical, canonical_entries, lemma_encode_determines_normal, lemma_insert_canonical,
    lemma_normal_entries_index, lemma_normal_of_canonical, lemma_normal_of_canonical_entries,
    lemma_writable_entries_index, normal, normal_entries, writable, writable_entries,
};
use crate::encoding::model::{
    dict_extend, dict_get, dict_insert, dict_remove, find_key, lemma_empty_dict,
    lemma_extend_sorted_get, lemma_find_key, lemma_find_key_unique, lemma_insert_sorted,
    lemma_remove_sorted, lemma_sorted_extensional, sorted_keys, Value,
};
use crate::encoding::order::key_lt;
use crate::metainfo::schema::{
    download_fits, download_from_value, download_key, download_to_value, file_fits,
    file_from_value, file_to_value, file_values, files_from, info_fits, info_from_value,
    info_to_value, meta_from_value, meta_to_value, size_value, text_values, texts_from,
    value_size, DownloadView, FileView, InfoView, MetaView, ParseFault,
};
use crate::metainfo::{info_bytes, lemma_keys_distinct, sha1_digest};

verus! {

/// An `info` that reads back as itself: the piece length is above zero, every size fits the
/// integers of the wire, and no leftover bears the name of a field.
pub open spec fn valid_info(info: InfoView) -> bool {
    &&& 0 < info.piece_length
    &&& info_fits(info)
    &&& sorted_keys(info.leftovers)
    &&& dict_get(info.leftovers, "name"@) is None
    &&& dict_get(info.leftovers, "piece length"@) is None
    &&& dict_get(info.leftovers, "pieces"@) is None
    &&& dict_get(info.leftovers, "length"@) is None
    &&& dict_get(info.leftovers, "files"@) is None
}

/// A metainfo that reads back as itself.
pub open spec fn valid_meta(meta: MetaView) -> bool {
    &&& valid_info(meta.info)
    &&& sorted_keys(meta.leftovers)
    &&& dict_get(meta.leftovers, "announce"@) is None
    &&& dict_get(meta.leftovers, "info"@) is None
}

/// A size survives the way to the wire integer and back.
pub proof fn lemma_size_round_trip(size: usize)
    ensures
        size_value(size) == Value::Integer(size as int),
        value_size(size as int) == size,
{
}

proof fn lemma_texts_round_trip(texts: Seq<Seq<char>>, done: Seq<Seq<char>>)
    ensures
        texts_from(text_values(texts), done) == Ok::<Seq<Seq<char>>, ParseFault>(done + texts),
    decreases texts.len(),
{
    let values = text_values(texts);
    if texts.len() == 0 {
        assert(done + texts =~= done);
    } else {
        assert(values.drop_first() =~= text_values(texts.drop_first()));
        lemma_texts_round_trip(texts.drop_first(), done.push(texts[0]));
        assert(done.push(texts[0]) + texts.drop_first() =~= done + texts);
    }
}

/// A file reads back from the dictionary it was written as.
pub proof fn lemma_file_round_trip(file: FileView)
    ensures
        file_from_value(file_to_value(file)) == Ok::<FileView, ParseFault>(file),
{
    lemma_keys_distinct();
    lemma_empty_dict();
    let d1 = dict_insert(Seq::empty(), "length"@, size_value(file.length));
    lemma_insert_sorted(Seq::empty(), "length"@, size_value(file.length));
    lemma_insert_sorted(d1, "path"@, Value::List(text_values(file.path)));
    lemma_size_round_trip(file.length);
    lemma_texts_round_trip(file.path, Seq::empty());
    assert(Seq::<Seq<char>>::empty() + file.path =~= file.path);
}

proof fn lemma_files_round_trip(files: Seq<FileView>, done: Seq<FileView>)
    ensures
        files_from(file_values(files), done) == Ok::<Seq<FileView>, ParseFault>(done + files),
    decreases files.len(),
{
    let values = file_values(files);
    if files.len() == 0 {
        assert(done + files =~= done);
    } else {
        lemma_file_round_trip(files[0]);
        assert(values.drop_first() =~= file_values(files.drop_first()));
        lemma_files_round_trip(files.drop_first(), done.push(files[0]));
        assert(done.push(files[0]) + files.drop_first() =~= done + files);
    }
}

/// An `info` reads back from the dictionary it was written as, leftovers and all.
pub proof fn lemma_info_round_trip(info: InfoView)
    requires
        valid_info(info),
    ensures
        info_from_value(info_to_value(info)) == Ok::<InfoView, ParseFault>(info),
{
    lemma_keys_distinct();
    lemma_empty_dict();
    let key = download_key(info.files);
    let d1 = dict_insert(Seq::empty(), "name"@, Value::TextString(info.name));
    let d2 = dict_insert(d1, "piece length"@, size_value(info.piece_length));
    let d3 = dict_insert(d2, "pieces"@, Value::ByteString(info.pieces));
    let d4 = dict_insert(d3, key, download_to_value(info.files));
    let all = dict_extend(d4, info.leftovers);
    lemma_insert_sorted(Seq::empty(), "name"@, Value::TextString(info.name));
    lemma_insert_sorted(d1, "piece length"@, size_value(info.piece_length));
    lemma_insert_sorted(d2, "pieces"@, Value::ByteString(info.pieces));
    lemma_insert_sorted(d3, key, download_to_value(info.files));
    lemma_extend_sorted_get(d4, info.leftovers);
    lemma_size_round_trip(info.piece_length);
    let r1 = dict_remove(all, "name"@);
    let r2 = dict_remove(r1, "piece length"@);
    let r3 = dict_remove(r2, "pieces"@);
    let r4 = dict_remove(r3, "length"@);
    let r5 = dict_remove(r4, "files"@);
    lemma_remove_sorted(all, "name"@);
    lemma_remove_sorted(r1, "piece length"@);
    lemma_remove_sorted(r2, "pieces"@);
    lemma_remove_sorted(r3, "length"@);
    lemma_remove_sorted(r4, "files"@);
    assert(dict_get(all, "name"@) == Some(Value::TextString(info.name)));
    assert(dict_get(all, "piece length"@) == Some(size_value(info.piece_length)));
    assert(dict_get(all, "pieces"@) == Some(Value::ByteString(info.pieces)));
    assert(dict_get(r3, key) == Some(download_to_value(info.files)));
    match info.files {
        DownloadView::Single { length } => {
            lemma_size_round_trip(length);
            assert(dict_get(r3, "files"@) is None);
        },
        DownloadView::Multiple { files } => {
            lemma_files_round_trip(files, Seq::empty());
            assert(Seq::<FileView>::empty() + files =~= files);
            assert(dict_get(r3, "length"@) is None);
        },
    }
    assert forall|k: Seq<char>| dict_get(r5, k) == dict_get(info.leftovers, k) by {
        if k == "files"@ {
        } else if k == "length"@ {
            assert(dict_get(r5, k) == dict_get(r4, k));
        } else if k == "pieces"@ {
            assert(dict_get(r5, k) == dict_get(r4, k));
            assert(dict_get(r4, k) == dict_get(r3, k));
        } else if k == "piece length"@ {
            assert(dict_get(r5, k) == dict_get(r4, k));
            assert(dict_get(r4, k) == dict_get(r3, k));
            assert(dict_get(r3, k) == dict_get(r2, k));
        } else if k == "name"@ {
            assert(dict_get(r5, k) == dict_get(r4, k));
            assert(dict_get(r4, k) == dict_get(r3, k));
            assert(dict_get(r3, k) == dict_get(r2, k));
            assert(dict_get(r2, k) == dict_get(r1, k));
        } else {
            assert(dict_get(r5, k) == dict_get(r4, k));
            assert(dict_get(r4, k) == dict_get(r3, k));
            assert(dict_get(r3, k) == dict_get(r2, k));
            assert(dict_get(r2, k) == dict_get(r1, k));
            assert(dict_get(r1, k) == dict_get(all, k));
            assert(dict_get(d4, k) == dict_get(d3, k));
            assert(dict_get(d3, k) == dict_get(d2, k));
            assert(dict_get(d2, k) == dict_get(d1, k));
            assert(dict_get(d1, k) is None);
        }
    }
    lemma_sorted_extensional(r5, info.leftovers);
    assert(download_from_value(Value::Dict(r3)) == Ok::<(DownloadView, Value), ParseFault>(
        (info.files, Value::Dict(info.leftovers)),
    ));
}

/// A metainfo reads back from the dictionary it was written as, with either kind of
/// download and with leftovers at both levels.
pub proof fn lemma_meta_round_trip(meta: MetaView)
    requires
        valid_meta(meta),
    ensures
        meta_from_value(meta_to_value(meta)) == Ok::<MetaView, ParseFault>(meta),
{
    lemma_keys_distinct();
    lemma_empty_dict();
    lemma_info_round_trip(meta.info);
    let d1 = dict_insert(Seq::empty(), "announce"@, Value::TextString(meta.announce));
    let d2 = dict_insert(d1, "info"@, info_to_value(meta.info));
    let all = dict_extend(d2, meta.leftovers);
    lemma_insert_sorted(Seq::empty(), "announce"@, Value::TextString(meta.announce));
    lemma_insert_sorted(d1, "info"@, info_to_value(meta.info));
    lemma_extend_sorted_get(d2, meta.leftovers);
    let r1 = dict_remove(all, "announce"@);
    let r2 = dict_remove(r1, "info"@);
    lemma_remove_sorted(all, "announce"@);
    lemma_remove_sorted(r1, "info"@);
    assert(dict_get(all, "announce"@) == Some(Value::TextString(meta.announce)));
    assert(dict_get(all, "info"@) == Some(info_to_value(meta.info)));
    assert forall|k: Seq<char>| dict_get(r2, k) == dict_get(meta.leftovers, k) by {
        if k == "info"@ {
        } else if k == "announce"@ {
            assert(dict_get(r2, k) == dict_get(r1, k));
        } else {
            assert(dict_get(r2, k) == dict_get(r1, k));
            assert(dict_get(r1, k) == dict_get(all, k));
            assert(dict_get(d2, k) == dict_get(d1, k));
            assert(dict_get(d1, k) is None);
        }
    }
    lemma_sorted_extensional(r2, meta.leftovers);
}

/// A piece length that is not above zero is refused, and the refusal carries it.
pub proof fn lemma_bad_piece_length(d: Seq<(Seq<char>, Value)>, name: Seq<char>, n: int)
    requires
        dict_get(d, "name"@) == Some(Value::TextString(name)),
        dict_get(d, "piece length"@) == Some(Value::Integer(n)),
        n <= 0,
    ensures
        info_from_value(Value::Dict(d)) == Err::<InfoView, ParseFault>(
            ParseFault::BadPieceLength(n as isize),
        ),
{
}

/// The identity of a torrent hangs on `info` alone: two metainfos with the same `info` have
/// the same identity, whatever their `announce` and their other keys.
pub proof fn lemma_info_hash_of_info(a: MetaView, b: MetaView)
    requires
        a.info == b.info,
    ensures
        sha1_digest(info_bytes(a)) == sha1_digest(info_bytes(b)),
{
}

/// Two payloads that classify alike are the same payload.
pub proof fn lemma_classify_injective(p: Seq<u8>, q: Seq<u8>)
    requires
        classify_payload(p) == classify_payload(q),
    ensures
        p == q,
{
    if valid_utf8(p) {
        decode_utf8_encode_utf8(p);
        decode_utf8_encode_utf8(q);
    }
}

/// The keys of the schema are short enough to be written.
pub proof fn lemma_schema_keys_fit()
    ensures
        encode_utf8("name"@).len() <= usize::MAX,
        encode_utf8("piece length"@).len() <= usize::MAX,
        encode_utf8("pieces"@).len() <= usize::MAX,
        encode_utf8("length"@).len() <= usize::MAX,
        encode_utf8("files"@).len() <= usize::MAX,
        encode_utf8("path"@).len() <= usize::MAX,
{
    reveal_strlit("name");
    reveal_strlit("piece length");
    reveal_strlit("pieces");
    reveal_strlit("length");
    reveal_strlit("files");
    reveal_strlit("path");
    is_ascii_chars_encode_utf8("name"@);
    is_ascii_chars_encode_utf8("piece length"@);
    is_ascii_chars_encode_utf8("pieces"@);
    is_ascii_chars_encode_utf8("length"@);
    is_ascii_chars_encode_utf8("files"@);
    is_ascii_chars_encode_utf8("path"@);
}

/// Every segment of the path of every file is short enough to be written.
pub open spec fn writable_paths(files: Seq<FileView>) -> bool {
    forall|i: int, j: int|
        0 <= i < files.len() && 0 <= j < files[i].path.len() ==> encode_utf8(
            #[trigger] files[i].path[j],
        ).len() <= usize::MAX
}

/// Every segment of every path in the download is short enough to be written.
pub open spec fn writable_download(download: DownloadView) -> bool {
    match download {
        DownloadView::Single { .. } => true,
        DownloadView::Multiple { files } => writable_paths(files),
    }
}

proof fn lemma_download_canonical(files: DownloadView)
    requires
        writable_download(files),
        download_fits(files),
    ensures
        canonical(download_to_value(files)),
{
    match files {
        DownloadView::Single { length } => {},
        DownloadView::Multiple { files } => {
            let values = file_values(files);
            assert forall|i: int| 0 <= i < values.len() implies canonical(#[trigger] values[i]) by {
                let file = files[i];
                assert(file_fits(files[i]));
                lemma_empty_dict();
                lemma_schema_keys_fit();
                let texts = text_values(file.path);
                assert forall|j: int| 0 <= j < texts.len() implies canonical(
                    #[trigger] texts[j],
                ) by {
                    assert(texts[j] == Value::TextString(files[i].path[j]));
                }
                let d1 = dict_insert(Seq::empty(), "length"@, size_value(file.length));
                lemma_insert_sorted(Seq::empty(), "length"@, size_value(file.length));
                lemma_insert_canonical(Seq::empty(), "length"@, size_value(file.length));
                lemma_insert_sorted(d1, "path"@, Value::List(texts));
                lemma_insert_canonical(d1, "path"@, Value::List(texts));
            }
        },
    }
}

/// What the dictionary of an `info` binds each key to.
pub open spec fn info_binding(info: InfoView, k: Seq<char>) -> Option<Value> {
    if k == "name"@ {
        Some(Value::TextString(info.name))
    } else if k == "piece length"@ {
        Some(size_value(info.piece_length))
    } else if k == "pieces"@ {
        Some(Value::ByteString(info.pieces))
    } else if k == download_key(info.files) {
        Some(download_to_value(info.files))
    } else {
        dict_get(info.leftovers, k)
    }
}

/// The dictionary of a valid `info` is sorted and binds each field under its key, and every
/// other key as the leftovers do.
pub proof fn lemma_info_dict(info: InfoView)
    requires
        valid_info(info),
    ensures
        info_to_value(info) is Dict,
        sorted_keys(info_to_value(info)->Dict_0),
        forall|k: Seq<char>| #[trigger]
            dict_get(info_to_value(info)->Dict_0, k) == info_binding(info, k),
{
    lemma_keys_distinct();
    lemma_empty_dict();
    let key = download_key(info.files);
    let d1 = dict_insert(Seq::empty(), "name"@, Value::TextString(info.name));
    let d2 = dict_insert(d1, "piece length"@, size_value(info.piece_length));
    let d3 = dict_insert(d2, "pieces"@, Value::ByteString(info.pieces));
    let d4 = dict_insert(d3, key, download_to_value(info.files));
    let all = dict_extend(d4, info.leftovers);
    lemma_insert_sorted(Seq::empty(), "name"@, Value::TextString(info.name));
    lemma_insert_sorted(d1, "piece length"@, size_value(info.piece_length));
    lemma_insert_sorted(d2, "pieces"@, Value::ByteString(info.pieces));
    lemma_insert_sorted(d3, key, download_to_value(info.files));
    lemma_extend_sorted_get(d4, info.leftovers);
    assert forall|k: Seq<char>| #[trigger] dict_get(all, k) == info_binding(info, k) by {
        if k == "name"@ {
            assert(dict_get(d4, k) == dict_get(d3, k));
            assert(dict_get(d3, k) == dict_get(d2, k));
            assert(dict_get(d2, k) == dict_get(d1, k));
        } else if k == "piece length"@ {
            assert(dict_get(d4, k) == dict_get(d3, k));
            assert(dict_get(d3, k) == dict_get(d2, k));
        } else if k == "pieces"@ {
            assert(dict_get(d4, k) == dict_get(d3, k));
        } else if k == key {
        } else {
            assert(dict_get(d4, k) == dict_get(d3, k));
            assert(dict_get(d3, k) == dict_get(d2, k));
            assert(dict_get(d2, k) == dict_get(d1, k));
            assert(dict_get(d1, k) is None);
        }
    }
}

/// An `info` that can be written and read back: it reads back as itself from its value,
/// its texts and bytes are short enough to be written, and its leftovers can be written.
pub open spec fn writable_info(info: InfoView) -> bool {
    &&& valid_info(info)
    &&& encode_utf8(info.name).len() <= usize::MAX
    &&& info.pieces.len() <= usize::MAX
    &&& writable_download(info.files)
    &&& writable_entries(info.leftovers)
}

/// An `info` that its encoding determines: it can be written, and its leftovers are
/// canonical, so that none of them holds valid UTF-8 as a byte string.
pub open spec fn canonical_info(info: InfoView) -> bool {
    &&& valid_info(info)
    &&& encode_utf8(info.name).len() <= usize::MAX
    &&& info.pieces.len() <= usize::MAX
    &&& writable_download(info.files)
    &&& canonical_entries(info.leftovers)
}

/// Two infos that are alike but for leftovers that hold the same bytes, at any depth, once
/// as text and once as a byte string.
pub open spec fn alike_but_for_text(a: InfoView, b: InfoView) -> bool {
    &&& a.name == b.name
    &&& a.piece_length == b.piece_length
    &&& a.pieces == b.pieces
    &&& a.files == b.files
    &&& normal_entries(a.leftovers) == normal_entries(b.leftovers)
}

/// A sorted list whose every binding can be written is a list of entries that can be
/// written.
pub proof fn lemma_writable_by_get(d: Seq<(Seq<char>, Value)>)
    requires
        sorted_keys(d),
        forall|k: Seq<char>| #[trigger]
            dict_get(d, k) is Some ==> encode_utf8(k).len() <= usize::MAX && writable(
                dict_get(d, k)->0,
            ),
    ensures
        writable_entries(d),
{
    lemma_writable_entries_index(d);
    assert forall|i: int| 0 <= i < d.len() implies encode_utf8((#[trigger] d[i]).0).len()
        <= usize::MAX && writable(d[i].1) by {
        lemma_find_key_unique(d, d[i].0, i);
        assert(dict_get(d, d[i].0) is Some);
    }
}

/// Every binding of a list of entries that can be written can be written.
pub proof fn lemma_get_writable(d: Seq<(Seq<char>, Value)>, k: Seq<char>)
    requires
        writable_entries(d),
        dict_get(d, k) is Some,
    ensures
        encode_utf8(k).len() <= usize::MAX,
        writable(dict_get(d, k)->0),
{
    lemma_writable_entries_index(d);
    lemma_find_key(d, k, 0);
    let f = find_key(d, k, 0);
    assert(d[f].0 == k);
}

proof fn lemma_normal_find_key(d: Seq<(Seq<char>, Value)>, k: Seq<char>, i: int)
    requires
        0 <= i <= d.len(),
    ensures
        find_key(normal_entries(d), k, i) == find_key(d, k, i),
    decreases d.len() - i,
{
    lemma_normal_entries_index(d);
    if i < d.len() {
        assert(normal_entries(d)[i].0 == d[i].0);
        if d[i].0 != k {
            lemma_normal_find_key(d, k, i + 1);
        }
    }
}

/// What comes back binds each key to what its value comes back as, and stays sorted.
pub proof fn lemma_normal_get(d: Seq<(Seq<char>, Value)>, k: Seq<char>)
    ensures
        dict_get(normal_entries(d), k) == match dict_get(d, k) {
            Some(v) => Some(normal(v)),
            None => None::<Value>,
        },
        sorted_keys(d) ==> sorted_keys(normal_entries(d)),
{
    lemma_normal_entries_index(d);
    lemma_normal_find_key(d, k, 0);
    lemma_find_key(d, k, 0);
    let after = normal_entries(d);
    if sorted_keys(d) {
        assert forall|i: int, j: int| 0 <= i < j < after.len() implies key_lt(
            after[i].0,
            after[j].0,
        ) by {
            assert(key_lt(d[i].0, d[j].0));
        }
    }
}

/// The value of an `info` that can be written can be written.
pub proof fn lemma_info_writable(info: InfoView)
    requires
        writable_info(info),
    ensures
        writable(info_to_value(info)),
{
    let d = info_to_value(info)->Dict_0;
    lemma_info_dict(info);
    lemma_keys_distinct();
    lemma_schema_keys_fit();
    lemma_download_canonical(info.files);
    lemma_normal_of_canonical(download_to_value(info.files));
    assert forall|k: Seq<char>| #[trigger]
        dict_get(d, k) is Some implies encode_utf8(k).len() <= usize::MAX && writable(
        dict_get(d, k)->0,
    ) by {
        assert(dict_get(d, k) == info_binding(info, k));
        if k == "name"@ {
        } else if k == "piece length"@ {
        } else if k == "pieces"@ {
        } else if k == download_key(info.files) {
        } else {
            lemma_get_writable(info.leftovers, k);
        }
    }
    lemma_writable_by_get(d);
}

/// Two files that are written as the same value are the same file; so for downloads.
proof fn lemma_download_value_injective(a: DownloadView, b: DownloadView)
    requires
        download_key(a) == download_key(b),
        download_to_value(a) == download_to_value(b),
    ensures
        a == b,
{
    lemma_keys_distinct();
    match (a, b) {
        (DownloadView::Multiple { files: fa }, DownloadView::Multiple { files: fb }) => {
            lemma_files_round_trip(fa, Seq::empty());
            lemma_files_round_trip(fb, Seq::empty());
            assert(Seq::<FileView>::empty() + fa =~= fa);
            assert(Seq::<FileView>::empty() + fb =~= fb);
        },
        _ => {},
    }
}

/// The encoding of an `info` that can be written determines it but for leftovers that hold
/// the same bytes once as text and once as a byte string.
pub proof fn lemma_info_encoding_determines(a: InfoView, b: InfoView)
    requires
        writable_info(a),
        writable_info(b),
        encode(info_to_value(a)) == encode(info_to_value(b)),
    ensures
        alike_but_for_text(a, b),
{
    let da = info_to_value(a)->Dict_0;
    let db = info_to_value(b)->Dict_0;
    lemma_info_writable(a);
    lemma_info_writable(b);
    lemma_encode_determines_normal(info_to_value(a), info_to_value(b));
    let na = normal_entries(da);
    assert(na == normal_entries(db));
    lemma_info_dict(a);
    lemma_info_dict(b);
    lemma_keys_distinct();
    assert forall|k: Seq<char>| #[trigger]
        normal_binding(a, k) == normal_binding(b, k) by {
        lemma_normal_get(da, k);
        lemma_normal_get(db, k);
        assert(dict_get(da, k) == info_binding(a, k));
        assert(dict_get(db, k) == info_binding(b, k));
    }
    assert(normal_binding(a, "name"@) == normal_binding(b, "name"@));
    assert(normal_binding(a, "piece length"@) == normal_binding(b, "piece length"@));
    assert(normal_binding(a, "pieces"@) == normal_binding(b, "pieces"@));
    lemma_classify_injective(a.pieces, b.pieces);
    assert(normal_binding(a, "length"@) == normal_binding(b, "length"@));
    assert(normal_binding(a, "files"@) == normal_binding(b, "files"@));
    assert(download_key(a.files) == download_key(b.files));
    lemma_download_canonical(a.files);
    lemma_download_canonical(b.files);
    lemma_normal_of_canonical(download_to_value(a.files));
    lemma_normal_of_canonical(download_to_value(b.files));
    assert(normal_binding(a, download_key(a.files)) == normal_binding(b, download_key(a.files)));
    lemma_download_value_injective(a.files, b.files);
    let la = normal_entries(a.leftovers);
    let lb = normal_entries(b.leftovers);
    assert forall|k: Seq<char>| dict_get(la, k) == dict_get(lb, k) by {
        lemma_normal_get(a.leftovers, k);
        lemma_normal_get(b.leftovers, k);
        assert(normal_binding(a, k) == normal_binding(b, k));
    }
    lemma_normal_get(a.leftovers, "name"@);
    lemma_normal_get(b.leftovers, "name"@);
    lemma_sorted_extensional(la, lb);
}

/// What the dictionary of an `info` binds each key to, as it comes back.
pub open spec fn normal_binding(info: InfoView, k: Seq<char>) -> Option<Value> {
    match info_binding(info, k) {
        Some(v) => Some(normal(v)),
        None => None,
    }
}

/// The encoding of a canonical `info` determines it: two that differ are written
/// differently.
pub proof fn lemma_info_encoding_injective(a: InfoView, b: InfoView)
    requires
        canonical_info(a),
        canonical_info(b),
        encode(info_to_value(a)) == encode(info_to_value(b)),
    ensures
        a == b,
{
    lemma_normal_of_canonical_entries(a.leftovers);
    lemma_normal_of_canonical_entries(b.leftovers);
    lemma_info_encoding_determines(a, b);
}

/// Any change inside `info` changes the bytes that the identity is hashed from, unless the
/// change is no more than holding the same bytes of a leftover once as text and once as a
/// byte string, which are written alike.
pub proof fn lemma_info_change_changes_bytes(a: MetaView, b: MetaView)
    requires
        writable_info(a.info),
        writable_info(b.info),
        !alike_but_for_text(a.info, b.info),
    ensures
        info_bytes(a) != info_bytes(b),
{
    if info_bytes(a) == info_bytes(b) {
        lemma_info_encoding_determines(a.info, b.info);
    }
}

} // verus!
