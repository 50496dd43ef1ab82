//! That the encoding of an info tells all there is to know of it.

use vstd::prelude::*;
use vstd::utf8::encode_utf8;

use super::encode::{digits, int_bytes, lemma_digits, string_bytes};
use super::meta_info::{
    concat, entry, file_bytes, law_pieces_round_trip, path_bytes, text_bytes, DownloadType, File,
    Info,
};
use super::syntax::{is_digit, lemma_until_is, until, COLON, DICT, END, LIST};

verus! {

/// Whether two paths are of the same parts.
pub open spec fn same_path(a: Seq<String>, b: Seq<String>) -> bool {
    &&& a.len() == b.len()
    &&& forall|i: int| 0 <= i < a.len() ==> (#[trigger] a[i])@ == b[i]@
}

/// Whether two lists are of the same files.
pub open spec fn same_files(a: Seq<File>, b: Seq<File>) -> bool {
    &&& a.len() == b.len()
    &&& forall|i: int|
        0 <= i < a.len() ==> (#[trigger] a[i]).length == b[i].length && same_path(
            a[i].path@,
            b[i].path@,
        )
}

/// Whether the same is to be downloaded.
pub open spec fn same_download(a: DownloadType, b: DownloadType) -> bool {
    match (a, b) {
        (DownloadType::SingleFile { length: m }, DownloadType::SingleFile { length: n }) => m == n,
        (DownloadType::MultiFile { files: m }, DownloadType::MultiFile { files: n }) => same_files(
            m@,
            n@,
        ),
        _ => false,
    }
}

proof fn lemma_cancel(a: Seq<u8>, x: Seq<u8>, y: Seq<u8>)
    requires
        a + x == a + y,
    ensures
        x == y,
{
    assert((a + x).skip(a.len() as int) =~= x);
    assert((a + y).skip(a.len() as int) =~= y);
}

proof fn lemma_string_start(s: Seq<u8>, rest: Seq<u8>)
    ensures
        until(string_bytes(s) + rest, COLON) == digits(s.len()).len(),
        (string_bytes(s) + rest).take(digits(s.len()).len() as int) == digits(s.len()),
        string_bytes(s).len() > 0,
        is_digit((string_bytes(s) + rest)[0]),
{
    let all = string_bytes(s) + rest;
    let number = digits(s.len());
    lemma_digits(s.len());
    assert forall|j: int| 0 <= j < number.len() implies all[j] != COLON by {
        assert(is_digit(number[j]));
        assert(all[j] == number[j]);
    }
    assert(all[number.len() as int] == COLON);
    lemma_until_is(all, COLON, number.len() as int);
    assert(all.take(number.len() as int) =~= number);
    assert(is_digit(number[0]));
    assert(all[0] == number[0]);
}

proof fn lemma_split_string(a: Seq<u8>, b: Seq<u8>, x: Seq<u8>, y: Seq<u8>)
    requires
        string_bytes(a) + x == string_bytes(b) + y,
    ensures
        a == b,
        x == y,
{
    lemma_string_start(a, x);
    lemma_string_start(b, y);
    lemma_digits(a.len());
    lemma_digits(b.len());
    let all = string_bytes(a) + x;
    let at = digits(a.len()).len() + 1;
    assert(all.subrange(at as int, (at + a.len()) as int) =~= a);
    assert(all.subrange(at as int, (at + a.len()) as int) =~= b);
    lemma_cancel(string_bytes(a), x, y);
}

proof fn lemma_split_text(a: Seq<char>, b: Seq<char>, x: Seq<u8>, y: Seq<u8>)
    requires
        text_bytes(a) + x == text_bytes(b) + y,
    ensures
        a == b,
        x == y,
{
    lemma_split_string(encode_utf8(a), encode_utf8(b), x, y);
    vstd::utf8::encode_utf8_decode_utf8(a);
    vstd::utf8::encode_utf8_decode_utf8(b);
}

proof fn lemma_int_start(n: nat, rest: Seq<u8>)
    ensures
        until(int_bytes(n) + rest, END) == 1 + digits(n).len(),
        (int_bytes(n) + rest).subrange(1, (1 + digits(n).len()) as int) == digits(n),
{
    let all = int_bytes(n) + rest;
    let number = digits(n);
    let end = 1 + number.len() as int;
    lemma_digits(n);
    assert forall|j: int| 0 <= j < end implies all[j] != END by {
        if j > 0 {
            assert(is_digit(number[j - 1]));
            assert(all[j] == number[j - 1]);
        }
    }
    assert(all[end] == END);
    lemma_until_is(all, END, end);
    assert(all.subrange(1, end) =~= number);
}

proof fn lemma_split_int(m: nat, n: nat, x: Seq<u8>, y: Seq<u8>)
    requires
        int_bytes(m) + x == int_bytes(n) + y,
    ensures
        m == n,
        x == y,
{
    lemma_int_start(m, x);
    lemma_int_start(n, y);
    lemma_digits(m);
    lemma_digits(n);
    lemma_cancel(int_bytes(m), x, y);
}

proof fn lemma_split_path(a: Seq<String>, b: Seq<String>, x: Seq<u8>, y: Seq<u8>)
    requires
        path_bytes(a) + x == path_bytes(b) + y,
    ensures
        same_path(a, b),
        x == y,
    decreases a.len() + b.len(),
{
    let all = path_bytes(a) + x;
    if a.len() > 0 {
        lemma_string_start(encode_utf8(a[0]@), path_bytes(a.skip(1)) + x);
        assert(all =~= text_bytes(a[0]@) + (path_bytes(a.skip(1)) + x));
    } else {
        assert(all[0] == END);
    }
    if b.len() > 0 {
        lemma_string_start(encode_utf8(b[0]@), path_bytes(b.skip(1)) + y);
        assert(all =~= text_bytes(b[0]@) + (path_bytes(b.skip(1)) + y));
    } else {
        assert((path_bytes(b) + y)[0] == END);
    }
    if a.len() > 0 && b.len() > 0 {
        lemma_split_text(a[0]@, b[0]@, path_bytes(a.skip(1)) + x, path_bytes(b.skip(1)) + y);
        lemma_split_path(a.skip(1), b.skip(1), x, y);
        assert forall|i: int| 0 <= i < a.len() implies (#[trigger] a[i])@ == b[i]@ by {
            if i > 0 {
                assert(a.skip(1)[i - 1]@ == b.skip(1)[i - 1]@);
            }
        }
    } else {
        lemma_cancel(seq![END], x, y);
    }
}

/// What follows the value of an entry with a given key.
proof fn lemma_split_key(
    key: Seq<char>,
    a: Seq<u8>,
    b: Seq<u8>,
    x: Seq<u8>,
    y: Seq<u8>,
    u: Seq<u8>,
    v: Seq<u8>,
)
    requires
        entry(key, a, x) + u == entry(key, b, y) + v,
    ensures
        a + (x + u) == b + (y + v),
{
    assert(entry(key, a, x) + u =~= text_bytes(key) + (a + (x + u)));
    assert(entry(key, b, y) + v =~= text_bytes(key) + (b + (y + v)));
    lemma_cancel(text_bytes(key), a + (x + u), b + (y + v));
}

proof fn lemma_split_file(a: File, b: File, x: Seq<u8>, y: Seq<u8>)
    requires
        a.encoding() + x == b.encoding() + y,
    ensures
        a.length == b.length,
        same_path(a.path@, b.path@),
        x == y,
{
    let path_a = seq![LIST] + path_bytes(a.path@);
    let path_b = seq![LIST] + path_bytes(b.path@);
    let after_a = entry("path"@, path_a, seq![END]);
    let after_b = entry("path"@, path_b, seq![END]);
    let entries_a = entry("length"@, int_bytes(a.length as nat), after_a);
    let entries_b = entry("length"@, int_bytes(b.length as nat), after_b);
    assert(a.encoding() + x =~= seq![DICT] + (entries_a + x));
    assert(b.encoding() + y =~= seq![DICT] + (entries_b + y));
    lemma_cancel(seq![DICT], entries_a + x, entries_b + y);
    lemma_split_key(
        "length"@,
        int_bytes(a.length as nat),
        int_bytes(b.length as nat),
        after_a,
        after_b,
        x,
        y,
    );
    lemma_split_int(a.length as nat, b.length as nat, after_a + x, after_b + y);
    lemma_split_key("path"@, path_a, path_b, seq![END], seq![END], x, y);
    let tail_a = seq![END] + x;
    let tail_b = seq![END] + y;
    assert(path_a + tail_a =~= seq![LIST] + (path_bytes(a.path@) + tail_a));
    assert(path_b + tail_b =~= seq![LIST] + (path_bytes(b.path@) + tail_b));
    lemma_cancel(seq![LIST], path_bytes(a.path@) + tail_a, path_bytes(b.path@) + tail_b);
    lemma_split_path(a.path@, b.path@, tail_a, tail_b);
    lemma_cancel(seq![END], x, y);
}

proof fn lemma_split_files(a: Seq<File>, b: Seq<File>, x: Seq<u8>, y: Seq<u8>)
    requires
        file_bytes(a) + x == file_bytes(b) + y,
    ensures
        same_files(a, b),
        x == y,
    decreases a.len() + b.len(),
{
    let all = file_bytes(a) + x;
    if a.len() > 0 {
        assert(all =~= a[0].encoding() + (file_bytes(a.skip(1)) + x));
        assert(a[0].encoding()[0] == DICT);
    } else {
        assert(all[0] == END);
    }
    if b.len() > 0 {
        assert(all =~= b[0].encoding() + (file_bytes(b.skip(1)) + y));
        assert(b[0].encoding()[0] == DICT);
    } else {
        assert((file_bytes(b) + y)[0] == END);
    }
    if a.len() > 0 && b.len() > 0 {
        lemma_split_file(a[0], b[0], file_bytes(a.skip(1)) + x, file_bytes(b.skip(1)) + y);
        lemma_split_files(a.skip(1), b.skip(1), x, y);
        assert forall|i: int| 0 <= i < a.len() implies (#[trigger] a[i]).length == b[i].length
            && same_path(a[i].path@, b[i].path@) by {
            if i > 0 {
                assert(a.skip(1)[i - 1].length == b.skip(1)[i - 1].length);
            }
        }
    } else {
        lemma_cancel(seq![END], x, y);
    }
}

proof fn lemma_split_download(a: DownloadType, b: DownloadType, x: Seq<u8>, y: Seq<u8>)
    requires
        entry(a.key(), a.encoding(), x) == entry(b.key(), b.encoding(), y),
    ensures
        same_download(a, b),
        x == y,
{
    assert(entry(a.key(), a.encoding(), x) =~= text_bytes(a.key()) + (a.encoding() + x));
    assert(entry(b.key(), b.encoding(), y) =~= text_bytes(b.key()) + (b.encoding() + y));
    lemma_split_text(a.key(), b.key(), a.encoding() + x, b.encoding() + y);
    reveal_strlit("length");
    reveal_strlit("files");
    match (a, b) {
        (DownloadType::SingleFile { length: m }, DownloadType::SingleFile { length: n }) => {
            lemma_split_int(m as nat, n as nat, x, y);
        },
        (DownloadType::MultiFile { files: m }, DownloadType::MultiFile { files: n }) => {
            assert(a.encoding() + x =~= seq![LIST] + (file_bytes(m@) + x));
            assert(b.encoding() + y =~= seq![LIST] + (file_bytes(n@) + y));
            lemma_cancel(seq![LIST], file_bytes(m@) + x, file_bytes(n@) + y);
            lemma_split_files(m@, n@, x, y);
        },
        _ => {
            assert("length"@.len() != "files"@.len());
        },
    }
}

/// Infos that are encoded alike are alike, so whatever is hashed tells everything that is known of
/// a torrent.
pub proof fn law_info_encoding_is_unique(a: Info, b: Info)
    requires
        a.encoding() == b.encoding(),
    ensures
        a.name@ == b.name@,
        a.piece_length == b.piece_length,
        a.pieces.0@ == b.pieces.0@,
        same_download(a.download_type, b.download_type),
{
    let pieces_a = string_bytes(concat(a.pieces.0@));
    let pieces_b = string_bytes(concat(b.pieces.0@));
    let length_a = entry("pieces"@, pieces_a, seq![END]);
    let length_b = entry("pieces"@, pieces_b, seq![END]);
    let name_a = entry("piece length"@, int_bytes(a.piece_length as nat), length_a);
    let name_b = entry("piece length"@, int_bytes(b.piece_length as nat), length_b);
    let rest_a = entry("name"@, text_bytes(a.name@), name_a);
    let rest_b = entry("name"@, text_bytes(b.name@), name_b);
    let none = Seq::<u8>::empty();
    lemma_cancel(
        seq![DICT],
        entry(a.download_type.key(), a.download_type.encoding(), rest_a),
        entry(b.download_type.key(), b.download_type.encoding(), rest_b),
    );
    lemma_split_download(a.download_type, b.download_type, rest_a, rest_b);
    lemma_split_key("name"@, text_bytes(a.name@), text_bytes(b.name@), name_a, name_b, none, none);
    lemma_split_text(a.name@, b.name@, name_a + none, name_b + none);
    lemma_split_key(
        "piece length"@,
        int_bytes(a.piece_length as nat),
        int_bytes(b.piece_length as nat),
        length_a,
        length_b,
        none,
        none,
    );
    lemma_split_int(
        a.piece_length as nat,
        b.piece_length as nat,
        length_a + none,
        length_b + none,
    );
    lemma_split_key("pieces"@, pieces_a, pieces_b, seq![END], seq![END], none, none);
    lemma_split_string(
        concat(a.pieces.0@),
        concat(b.pieces.0@),
        seq![END] + none,
        seq![END] + none,
    );
    law_pieces_round_trip(b.pieces.0@, a.pieces.0@);
}

} // verus!
