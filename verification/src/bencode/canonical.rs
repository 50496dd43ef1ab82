//! That an info is encoded as a dictionary with ascending keys, all the way down.

use vstd::prelude::*;
use vstd::utf8::{encode_utf8, is_ascii_chars};

use super::dict::before;
use super::encode::{int_bytes, string_bytes};
use super::meta_info::{concat, file_bytes, lemma_concat, path_bytes, DownloadType, File, Info};
use crate::digest::sha1_digest;

verus! {

/// Keys and encoded values, one after the other.
pub open spec fn pairs_bytes(pairs: Seq<(Seq<u8>, Seq<u8>)>) -> Seq<u8>
    decreases pairs.len(),
{
    if pairs.len() == 0 {
        seq![]
    } else {
        string_bytes(pairs[0].0) + pairs[0].1 + pairs_bytes(pairs.skip(1))
    }
}

/// Whether `bytes` are a bencoded dictionary of pairs whose keys ascend strictly.
pub open spec fn is_dictionary_of(bytes: Seq<u8>, pairs: Seq<(Seq<u8>, Seq<u8>)>) -> bool {
    &&& bytes == seq![0x64u8] + pairs_bytes(pairs) + seq![0x65u8]
    &&& forall|i: int, j: int|
        0 <= i < j < pairs.len() ==> before((#[trigger] pairs[i]).0, (#[trigger] pairs[j]).0)
}

/// The bytes of a key.
pub open spec fn key(text: Seq<char>) -> Seq<u8> {
    encode_utf8(text)
}

/// The first byte in which two strings differ tells their order, and a string comes before every
/// longer one that starts with it.
pub proof fn law_first_difference_tells_the_order(p: Seq<u8>, a: Seq<u8>, b: Seq<u8>)
    ensures
        a.len() > 0 && b.len() > 0 && a[0] != b[0] ==> before(p + a, p + b) == (a[0] < b[0]),
        a.len() > 0 ==> before(p, p + a) && !before(p + a, p),
        !before(p, p),
    decreases p.len(),
{
    if p.len() == 0 {
        assert(p + a =~= a);
        assert(p + b =~= b);
    } else {
        law_first_difference_tells_the_order(p.skip(1), a, b);
        assert((p + a).skip(1) =~= p.skip(1) + a);
        assert((p + b).skip(1) =~= p.skip(1) + b);
    }
}

proof fn lemma_before_at(a: Seq<u8>, b: Seq<u8>, i: int)
    requires
        0 <= i < a.len(),
        i < b.len(),
        forall|j: int| 0 <= j < i ==> a[j] == b[j],
        a[i] < b[i],
    ensures
        before(a, b),
{
    law_first_difference_tells_the_order(a.take(i), a.skip(i), b.skip(i));
    assert(a.take(i) + a.skip(i) =~= a);
    assert(a.take(i) + b.skip(i) =~= b);
}

/// The keys, byte by byte.
proof fn lemma_keys()
    ensures
        key("files"@).len() == 5 && key("files"@)[0] == 0x66,
        key("length"@).len() == 6 && key("length"@)[0] == 0x6c,
        key("name"@).len() == 4 && key("name"@)[0] == 0x6e,
        key("path"@).len() == 4 && key("path"@)[0] == 0x70,
        key("piece length"@).len() == 12 && key("piece length"@)[0] == 0x70,
        key("pieces"@).len() == 6 && key("pieces"@)[0] == 0x70,
        forall|j: int| 0 <= j < 5 ==> key("piece length"@)[j] == key("pieces"@)[j],
        key("piece length"@)[5] == 0x20,
        key("pieces"@)[5] == 0x73,
{
    reveal_strlit("files");
    reveal_strlit("length");
    reveal_strlit("name");
    reveal_strlit("path");
    reveal_strlit("piece length");
    reveal_strlit("pieces");
    assert(is_ascii_chars("files"@));
    assert(is_ascii_chars("length"@));
    assert(is_ascii_chars("name"@));
    assert(is_ascii_chars("path"@));
    assert(is_ascii_chars("piece length"@));
    assert(is_ascii_chars("pieces"@));
    vstd::utf8::is_ascii_chars_encode_utf8("files"@);
    vstd::utf8::is_ascii_chars_encode_utf8("length"@);
    vstd::utf8::is_ascii_chars_encode_utf8("name"@);
    vstd::utf8::is_ascii_chars_encode_utf8("path"@);
    vstd::utf8::is_ascii_chars_encode_utf8("piece length"@);
    vstd::utf8::is_ascii_chars_encode_utf8("pieces"@);
    assert("files"@[0] as u8 == key("files"@)[0]);
    assert("length"@[0] as u8 == key("length"@)[0]);
    assert("name"@[0] as u8 == key("name"@)[0]);
    assert("path"@[0] as u8 == key("path"@)[0]);
    assert forall|j: int| 0 <= j < 5 implies key("piece length"@)[j] == key("pieces"@)[j] by {
        assert("piece length"@[j] as u8 == key("piece length"@)[j]);
        assert("pieces"@[j] as u8 == key("pieces"@)[j]);
    }
    assert("pieces"@[0] as u8 == key("pieces"@)[0]);
    assert("piece length"@[5] as u8 == key("piece length"@)[5]);
    assert("pieces"@[5] as u8 == key("pieces"@)[5]);
}

proof fn lemma_two_pairs(a: (Seq<u8>, Seq<u8>), b: (Seq<u8>, Seq<u8>))
    ensures
        pairs_bytes(seq![a, b]) == string_bytes(a.0) + a.1 + (string_bytes(b.0) + b.1),
{
    let pairs = seq![a, b];
    assert(pairs.skip(1) =~= seq![b]);
    assert(pairs.skip(1).skip(1) =~= seq![]);
    assert(pairs_bytes(seq![b]) =~= string_bytes(b.0) + b.1) by {
        assert(seq![b].skip(1) =~= seq![]);
        assert(pairs_bytes(seq![b].skip(1)) =~= seq![]);
    }
}

/// A file is a dictionary of its length and its path.
pub proof fn law_file_encoding_is_canonical(file: File)
    ensures
        is_dictionary_of(
            file.encoding(),
            seq![
                (key("length"@), int_bytes(file.length as nat)),
                (key("path"@), seq![0x6cu8] + path_bytes(file.path@)),
            ],
        ),
{
    let a = (key("length"@), int_bytes(file.length as nat));
    let b = (key("path"@), seq![0x6cu8] + path_bytes(file.path@));
    lemma_keys();
    lemma_before_at(a.0, b.0, 0);
    lemma_two_pairs(a, b);
    assert(file.encoding() =~= seq![0x64u8] + pairs_bytes(seq![a, b]) + seq![0x65u8]);
}

/// What an info is a dictionary of: what to download under one key, the name, the length of a piece
/// and the digests of all the pieces. Its keys ascend, so this is the only way to encode it.
pub proof fn law_info_encoding_is_canonical(info: Info)
    ensures
        match info.download_type {
            DownloadType::SingleFile { length } => is_dictionary_of(
                info.encoding(),
                seq![
                    (key("length"@), int_bytes(length as nat)),
                    (key("name"@), string_bytes(encode_utf8(info.name@))),
                    (key("piece length"@), int_bytes(info.piece_length as nat)),
                    (key("pieces"@), string_bytes(concat(info.pieces.0@))),
                ],
            ),
            DownloadType::MultiFile { files } => is_dictionary_of(
                info.encoding(),
                seq![
                    (key("files"@), seq![0x6cu8] + file_bytes(files@)),
                    (key("name"@), string_bytes(encode_utf8(info.name@))),
                    (key("piece length"@), int_bytes(info.piece_length as nat)),
                    (key("pieces"@), string_bytes(concat(info.pieces.0@))),
                ],
            ),
        },
{
    let a = match info.download_type {
        DownloadType::SingleFile { length } => (key("length"@), int_bytes(length as nat)),
        DownloadType::MultiFile { files } => (key("files"@), seq![0x6cu8] + file_bytes(files@)),
    };
    let b = (key("name"@), string_bytes(encode_utf8(info.name@)));
    let c = (key("piece length"@), int_bytes(info.piece_length as nat));
    let d = (key("pieces"@), string_bytes(concat(info.pieces.0@)));
    let pairs = seq![a, b, c, d];
    lemma_keys();
    lemma_before_at(a.0, b.0, 0);
    lemma_before_at(a.0, c.0, 0);
    lemma_before_at(a.0, d.0, 0);
    lemma_before_at(b.0, c.0, 0);
    lemma_before_at(b.0, d.0, 0);
    lemma_before_at(c.0, d.0, 5);
    lemma_two_pairs(c, d);
    let cd = pairs_bytes(seq![c, d]);
    assert(pairs.skip(1) =~= seq![b, c, d]);
    assert(seq![b, c, d].skip(1) =~= seq![c, d]);
    let bcd = pairs_bytes(seq![b, c, d]);
    assert(bcd == string_bytes(b.0) + b.1 + cd);
    assert(pairs_bytes(pairs) == string_bytes(a.0) + a.1 + bcd);
    let tail_c = string_bytes(c.0) + c.1 + (string_bytes(d.0) + d.1 + seq![0x65u8]);
    assert(cd + seq![0x65u8] =~= tail_c);
    let tail_b = string_bytes(b.0) + b.1 + tail_c;
    assert(bcd + seq![0x65u8] =~= tail_b);
    assert(pairs_bytes(pairs) + seq![0x65u8] =~= string_bytes(a.0) + a.1 + tail_b);
    assert(info.encoding() == seq![0x64u8] + (string_bytes(a.0) + a.1 + tail_b));
    assert(seq![0x64u8] + pairs_bytes(pairs) + seq![0x65u8] =~= seq![0x64u8] + (pairs_bytes(pairs)
        + seq![0x65u8]));
    assert(pairs[0] == a && pairs[1] == b && pairs[2] == c && pairs[3] == d);
    assert forall|i: int, j: int| 0 <= i < j < pairs.len() implies before(
        (#[trigger] pairs[i]).0,
        (#[trigger] pairs[j]).0,
    ) by {
        assert(i == 0 || i == 1 || i == 2);
        assert(j == 1 || j == 2 || j == 3);
    }
    assert(is_dictionary_of(info.encoding(), pairs));
}

/// The parts of a path stand in a list in their order, each as a string.
pub proof fn law_path_is_a_list_of_strings(path: Seq<String>)
    ensures
        path_bytes(path) == path.map_values(
            |part: String| string_bytes(encode_utf8(part@)),
        ).flatten().push(0x65),
    decreases path.len(),
{
    let f = |part: String| string_bytes(encode_utf8(part@));
    let all = path.map_values(f);
    if path.len() == 0 {
        assert(path_bytes(path) =~= all.flatten().push(0x65));
    } else {
        law_path_is_a_list_of_strings(path.skip(1));
        assert(all.drop_first() =~= path.skip(1).map_values(f));
        assert(all.first() == f(path[0]));
        assert(path_bytes(path) =~= all.flatten().push(0x65));
    }
}

/// The files stand in a list in their order, each as a dictionary.
pub proof fn law_files_are_a_list_of_dictionaries(files: Seq<File>)
    ensures
        file_bytes(files) == files.map_values(|file: File| file.encoding()).flatten().push(0x65),
    decreases files.len(),
{
    let f = |file: File| file.encoding();
    let all = files.map_values(f);
    if files.len() == 0 {
        assert(file_bytes(files) =~= all.flatten().push(0x65));
    } else {
        law_files_are_a_list_of_dictionaries(files.skip(1));
        assert(all.drop_first() =~= files.skip(1).map_values(f));
        assert(all.first() == f(files[0]));
        assert(file_bytes(files) =~= all.flatten().push(0x65));
    }
}

/// The digests of the pieces stand one after the other, twenty bytes each.
pub proof fn law_digests_stand_in_order(hashes: Seq<[u8; 20]>, i: int, j: int)
    requires
        0 <= i < hashes.len(),
        0 <= j < 20,
    ensures
        concat(hashes).len() == 20 * hashes.len(),
        concat(hashes)[20 * i + j] == hashes[i]@[j],
{
    lemma_concat(hashes);
    assert(concat(hashes).subrange(20 * i, 20 * i + 20)[j] == hashes[i]@[j]);
}

/// The hash of an info is the digest of the dictionary that it is, and of nothing else.
pub proof fn law_hash_is_of_the_dictionary(info: Info, pairs: Seq<(Seq<u8>, Seq<u8>)>)
    requires
        is_dictionary_of(info.encoding(), pairs),
    ensures
        info.spec_hash() == sha1_digest(seq![0x64u8] + pairs_bytes(pairs) + seq![0x65u8]),
{
}

} // verus!
