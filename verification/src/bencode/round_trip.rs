//! What the decoders make of encoded values.

use vstd::prelude::*;
use vstd::utf8::encode_utf8;

use super::encode::{digits, int_bytes, lemma_digits, string_bytes};
use super::laws::law_what_follows_does_not_matter;
use super::meta_info::{
    concat, entry, file_bytes, path_bytes, text_bytes, DownloadType, File, Info,
};
use super::nom::{entries_of, integer_of, items_of, lemma_string_len, string_of, value_of};
use super::syntax::{is_digit, lemma_until_is, COLON, END, LIST};
use super::{Decoder, Tree};
use crate::text::{lemma_utf8_text, utf8_text};

verus! {

/// An encoded string is read as the text that its bytes stand for, whatever follows it.
pub proof fn law_string_round_trip(s: Seq<u8>, rest: Seq<u8>)
    ensures
        string_of(string_bytes(s) + rest) == Some((utf8_text(s), string_bytes(s).len() as int)),
        value_of(string_bytes(s) + rest) == Some(
            (Tree::Text(utf8_text(s)), string_bytes(s).len() as int),
        ),
{
    let all = string_bytes(s) + rest;
    let number = digits(s.len());
    let colon = number.len() as int;
    lemma_digits(s.len());
    assert forall|j: int| 0 <= j < colon implies all[j] != COLON by {
        assert(is_digit(number[j]));
        assert(all[j] == number[j]);
    }
    assert(all[colon] == COLON);
    lemma_until_is(all, COLON, colon);
    assert(all.take(colon) =~= number);
    assert(all.subrange(colon + 1, colon + 1 + s.len()) =~= s);
    lemma_string_len(all);
}

/// An encoded integer is read as the number, whatever follows it, where it is one of 64 bits.
pub proof fn law_int_round_trip(n: nat, rest: Seq<u8>)
    requires
        n <= i64::MAX,
    ensures
        integer_of(int_bytes(n) + rest) == Some((n as int, int_bytes(n).len() as int)),
        value_of(int_bytes(n) + rest) == Some((Tree::Int(n as int), int_bytes(n).len() as int)),
{
    let all = int_bytes(n) + rest;
    let number = digits(n);
    let end = 1 + number.len() as int;
    lemma_digits(n);
    assert forall|j: int| 0 <= j < end implies all[j] != END by {
        if j > 0 {
            assert(is_digit(number[j - 1]));
            assert(all[j] == number[j - 1]);
        }
    }
    assert(all[end] == END);
    lemma_until_is(all, END, end);
    assert(all.subrange(1, end) =~= number);
    assert(is_digit(number[0]));
}

/// The values that a decoder makes of the parts of a path.
pub open spec fn path_trees(path: Seq<String>) -> Seq<Tree>
    decreases path.len(),
{
    if path.len() == 0 {
        seq![]
    } else {
        seq![Tree::Text(path[0]@)] + path_trees(path.skip(1))
    }
}

/// The value that a decoder makes of a file.
pub open spec fn file_tree(file: File) -> Tree {
    Tree::Dict(
        Map::empty().insert("length"@, Tree::Int(file.length as int)).insert(
            "path"@,
            Tree::List(path_trees(file.path@)),
        ),
    )
}

/// The values that a decoder makes of files.
pub open spec fn file_trees(files: Seq<File>) -> Seq<Tree>
    decreases files.len(),
{
    if files.len() == 0 {
        seq![]
    } else {
        seq![file_tree(files[0])] + file_trees(files.skip(1))
    }
}

/// The value that a decoder makes of what to download.
pub open spec fn download_tree(download_type: DownloadType) -> Tree {
    match download_type {
        DownloadType::SingleFile { length } => Tree::Int(length as int),
        DownloadType::MultiFile { files } => Tree::List(file_trees(files@)),
    }
}

/// The value that a decoder makes of an info.
pub open spec fn info_tree(info: Info) -> Tree {
    Tree::Dict(
        Map::empty().insert(
            info.download_type.key(),
            download_tree(info.download_type),
        ).insert("name"@, Tree::Text(info.name@)).insert(
            "piece length"@,
            Tree::Int(info.piece_length as int),
        ).insert("pieces"@, Tree::Text(utf8_text(concat(info.pieces.0@)))),
    )
}

/// Whether all the lengths are such as a decoder can read.
pub open spec fn has_readable_lengths(download_type: DownloadType) -> bool {
    match download_type {
        DownloadType::SingleFile { length } => length <= i64::MAX,
        DownloadType::MultiFile { files } => forall|i: int|
            0 <= i < files@.len() ==> (#[trigger] files@[i]).length <= i64::MAX,
    }
}

proof fn lemma_entry(
    key: Seq<char>,
    bytes: Seq<u8>,
    value: Tree,
    rest: Seq<u8>,
    map: Map<Seq<char>, Tree>,
)
    requires
        bytes.len() > 0,
        value_of(bytes) == Some((value, bytes.len() as int)),
    ensures
        entries_of(entry(key, bytes, rest), map) == (
            entries_of(rest, map.insert(key, value)).0,
            text_bytes(key).len() + bytes.len() + entries_of(
                rest,
                map.insert(key, value),
            ).1,
        ),
{
    let s = entry(key, bytes, rest);
    let key_len = text_bytes(key).len() as int;
    assert(s =~= text_bytes(key) + (bytes + rest));
    lemma_utf8_text(key);
    law_string_round_trip(encode_utf8(key), bytes + rest);
    assert(s.skip(key_len) =~= bytes + rest);
    law_what_follows_does_not_matter(Decoder::Nom, bytes, rest);
    assert(s.skip(key_len + bytes.len()) =~= rest);
    lemma_string_len(s);
}

proof fn lemma_no_entry(s: Seq<u8>, map: Map<Seq<char>, Tree>)
    requires
        s.len() > 0,
        s[0] == END,
    ensures
        entries_of(s, map) == (map, 0int),
{
    lemma_string_len(s);
}

proof fn lemma_no_item(s: Seq<u8>)
    requires
        s.len() > 0,
        s[0] == END,
    ensures
        items_of(s) == (Seq::<Tree>::empty(), 0int),
{
    assert(value_of(s) is None);
}

proof fn lemma_path(path: Seq<String>)
    ensures
        items_of(path_bytes(path)) == (path_trees(path), path_bytes(path).len() - 1),
        path_bytes(path).len() > 0,
        path_bytes(path).last() == END,
    decreases path.len(),
{
    let s = path_bytes(path);
    if path.len() == 0 {
        lemma_no_item(s);
    } else {
        let first = text_bytes(path[0]@);
        let others = path_bytes(path.skip(1));
        lemma_path(path.skip(1));
        lemma_utf8_text(path[0]@);
        law_string_round_trip(encode_utf8(path[0]@), others);
        assert(s.skip(first.len() as int) =~= others);
        assert(s.last() == others.last());
    }
}

proof fn lemma_file(file: File)
    requires
        file.length <= i64::MAX,
    ensures
        value_of(file.encoding()) == Some((file_tree(file), file.encoding().len() as int)),
        file.encoding().len() > 0,
{
    let path = seq![LIST] + path_bytes(file.path@);
    let after_length = entry("path"@, path, seq![END]);
    let entries = entry("length"@, int_bytes(file.length as nat), after_length);
    lemma_path(file.path@);
    assert(path.skip(1) =~= path_bytes(file.path@));
    assert(value_of(path) == Some((Tree::List(path_trees(file.path@)), path.len() as int)));
    law_int_round_trip(file.length as nat, seq![]);
    assert(int_bytes(file.length as nat) + seq![] =~= int_bytes(file.length as nat));
    let map = Map::<Seq<char>, Tree>::empty();
    let with_length = map.insert("length"@, Tree::Int(file.length as int));
    lemma_entry(
        "length"@,
        int_bytes(file.length as nat),
        Tree::Int(file.length as int),
        after_length,
        map,
    );
    lemma_entry("path"@, path, Tree::List(path_trees(file.path@)), seq![END], with_length);
    lemma_no_entry(
        seq![END],
        with_length.insert("path"@, Tree::List(path_trees(file.path@))),
    );
    assert(file.encoding().skip(1) =~= entries);
    assert(file.encoding().last() == END);
}

proof fn lemma_files(files: Seq<File>)
    requires
        forall|i: int| 0 <= i < files.len() ==> (#[trigger] files[i]).length <= i64::MAX,
    ensures
        items_of(file_bytes(files)) == (file_trees(files), file_bytes(files).len() - 1),
        file_bytes(files).len() > 0,
        file_bytes(files).last() == END,
    decreases files.len(),
{
    let s = file_bytes(files);
    if files.len() == 0 {
        lemma_no_item(s);
    } else {
        let first = files[0].encoding();
        let others = file_bytes(files.skip(1));
        lemma_files(files.skip(1));
        lemma_file(files[0]);
        law_what_follows_does_not_matter(Decoder::Nom, first, others);
        assert(s.skip(first.len() as int) =~= others);
        assert(s.last() == others.last());
    }
}

proof fn lemma_download(download_type: DownloadType)
    requires
        has_readable_lengths(download_type),
    ensures
        value_of(download_type.encoding()) == Some(
            (download_tree(download_type), download_type.encoding().len() as int),
        ),
        download_type.encoding().len() > 0,
{
    match download_type {
        DownloadType::SingleFile { length } => {
            law_int_round_trip(length as nat, seq![]);
            assert(int_bytes(length as nat) + seq![] =~= int_bytes(length as nat));
        },
        DownloadType::MultiFile { files } => {
            lemma_files(files@);
            assert(download_type.encoding().skip(1) =~= file_bytes(files@));
        },
    }
}

/// An encoded info is read as a dictionary with all its fields, whatever follows it.
pub proof fn law_info_round_trip(info: Info, rest: Seq<u8>)
    requires
        has_readable_lengths(info.download_type),
    ensures
        value_of(info.encoding() + rest) == Some((info_tree(info), info.encoding().len() as int)),
{
    let download = info.download_type.encoding();
    let name = text_bytes(info.name@);
    let piece_length = int_bytes(info.piece_length as nat);
    let pieces = string_bytes(concat(info.pieces.0@));
    let after_length = entry("pieces"@, pieces, seq![END]);
    let after_name = entry("piece length"@, piece_length, after_length);
    let after_download = entry("name"@, name, after_name);
    let entries = entry(info.download_type.key(), download, after_download);

    let map0 = Map::<Seq<char>, Tree>::empty();
    let map1 = map0.insert(
        info.download_type.key(),
        download_tree(info.download_type),
    );
    let map2 = map1.insert("name"@, Tree::Text(info.name@));
    let map3 = map2.insert("piece length"@, Tree::Int(info.piece_length as int));
    let map4 = map3.insert("pieces"@, Tree::Text(utf8_text(concat(info.pieces.0@))));

    lemma_download(info.download_type);
    lemma_utf8_text(info.name@);
    law_string_round_trip(encode_utf8(info.name@), seq![]);
    assert(name + seq![] =~= name);
    law_int_round_trip(info.piece_length as nat, seq![]);
    assert(piece_length + seq![] =~= piece_length);
    law_string_round_trip(concat(info.pieces.0@), seq![]);
    assert(pieces + seq![] =~= pieces);

    lemma_entry(
        info.download_type.key(),
        download,
        download_tree(info.download_type),
        after_download,
        map0,
    );
    lemma_entry("name"@, name, Tree::Text(info.name@), after_name, map1);
    lemma_entry(
        "piece length"@,
        piece_length,
        Tree::Int(info.piece_length as int),
        after_length,
        map2,
    );
    lemma_entry(
        "pieces"@,
        pieces,
        Tree::Text(utf8_text(concat(info.pieces.0@))),
        seq![END],
        map3,
    );
    lemma_no_entry(seq![END], map4);
    assert(info.encoding().skip(1) =~= entries);
    assert(info.encoding().last() == END);
    law_what_follows_does_not_matter(Decoder::Nom, info.encoding(), rest);
}

} // verus!
