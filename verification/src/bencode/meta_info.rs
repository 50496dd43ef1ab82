//! What a torrent file says about a download.

use vstd::prelude::*;
use vstd::utf8::encode_utf8;

use super::encode::{encode_bytes, encode_int, int_bytes, string_bytes};
use super::syntax::{DICT, END, LIST};
use crate::digest::{sha1, sha1_digest};

verus! {

#[derive(Clone, Debug, PartialEq)]
pub struct Torrent {
    pub announce: String,
    pub info: Info,
}

#[derive(Clone, Debug, PartialEq)]
pub struct Info {
    pub name: String,
    pub piece_length: u32,
    pub pieces: Pieces,
    pub download_type: DownloadType,
}

/// The SHA-1 digests of the pieces.
#[derive(Clone, Debug, PartialEq)]
pub struct Pieces(pub Vec<[u8; 20]>);

#[derive(Clone, Debug, PartialEq)]
pub enum DownloadType {
    SingleFile { length: u64 },
    MultiFile { files: Vec<File> },
}

#[derive(Clone, Debug, PartialEq)]
pub struct File {
    pub length: u64,
    pub path: Vec<String>,
}

/// A number of bytes that does not divide into digests.
#[derive(Copy, Clone, Debug, PartialEq, Eq)]
pub struct InvalidLength {
    pub len: usize,
}

/// All digests one after the other.
pub open spec fn concat(hashes: Seq<[u8; 20]>) -> Seq<u8>
    decreases hashes.len(),
{
    if hashes.len() == 0 {
        seq![]
    } else {
        concat(hashes.drop_last()) + hashes.last()@
    }
}

pub(crate) proof fn lemma_concat(hashes: Seq<[u8; 20]>)
    ensures
        concat(hashes).len() == 20 * hashes.len(),
        forall|i: int|
            0 <= i < hashes.len() ==> concat(hashes).subrange(20 * i, 20 * i + 20)
                == #[trigger] hashes[i]@,
    decreases hashes.len(),
{
    if hashes.len() > 0 {
        let init = hashes.drop_last();
        lemma_concat(init);
        assert forall|i: int| 0 <= i < hashes.len() implies concat(hashes).subrange(
            20 * i,
            20 * i + 20,
        ) == #[trigger] hashes[i]@ by {
            if i < init.len() {
                assert(init[i]@ == concat(init).subrange(20 * i, 20 * i + 20));
            }
            assert(concat(hashes).subrange(20 * i, 20 * i + 20) =~= hashes[i]@);
        }
    }
}

impl Pieces {
    /// Splits bytes into digests.
    pub fn from_bytes(v: &[u8]) -> (res: Result<Pieces, InvalidLength>)
        ensures
            match res {
                Ok(pieces) => concat(pieces.0@) == v@ && v@.len() % 20 == 0,
                Err(error) => error.len == v@.len() && v@.len() % 20 != 0,
            },
    {
        if v.len() % 20 != 0 {
            return Err(InvalidLength { len: v.len() });
        }
        let mut hashes: Vec<[u8; 20]> = Vec::new();
        let len: usize = v.len();
        let mut at: usize = 0;
        assert(v@.take(0) =~= seq![]);
        while at < len
            invariant
                at <= len == v@.len(),
                at % 20 == 0,
                v@.len() % 20 == 0,
                concat(hashes@) == v@.take(at as int),
            decreases v@.len() - at,
        {
            let mut hash: [u8; 20] = [0; 20];
            let mut i: usize = 0;
            while i < 20
                invariant
                    i <= 20,
                    at + 20 <= len == v@.len(),
                    forall|j: int| 0 <= j < i ==> hash@[j] == v@[at + j],
                decreases 20 - i,
            {
                hash[i] = v[at + i];
                i += 1;
            }
            let ghost before = hashes@;
            hashes.push(hash);
            assert(hashes@.drop_last() =~= before);
            assert(v@.take(at + 20) =~= v@.take(at as int) + hash@);
            at += 20;
        }
        assert(v@.take(at as int) =~= v@);
        Ok(Pieces(hashes))
    }

    /// All digests one after the other.
    pub fn to_bytes(&self) -> (bytes: Vec<u8>)
        ensures
            bytes@ == concat(self.0@),
    {
        let mut bytes: Vec<u8> = Vec::new();
        let mut i: usize = 0;
        while i < self.0.len()
            invariant
                i <= self.0@.len(),
                bytes@ == concat(self.0@.take(i as int)),
            decreases self.0@.len() - i,
        {
            assert(self.0@.take(i + 1).drop_last() =~= self.0@.take(i as int));
            bytes.extend_from_slice(&self.0[i]);
            i += 1;
        }
        assert(self.0@.take(i as int) =~= self.0@);
        bytes
    }
}

/// The digests of [`Pieces::from_bytes`] are those that the bytes were made of.
pub proof fn law_pieces_round_trip(hashes: Seq<[u8; 20]>, read: Seq<[u8; 20]>)
    requires
        concat(read) == concat(hashes),
    ensures
        concat(hashes).len() % 20 == 0,
        read == hashes,
{
    lemma_concat(hashes);
    lemma_concat(read);
    assert forall|i: int| 0 <= i < hashes.len() implies read[i] == hashes[i] by {
        assert(read[i]@ == hashes[i]@);
        assert(read[i] =~= hashes[i]);
    }
    assert(read =~= hashes);
}

impl std::ops::Deref for Pieces {
    type Target = Vec<[u8; 20]>;

    fn deref(&self) -> (hashes: &Vec<[u8; 20]>)
        ensures
            *hashes == self.0,
    {
        &self.0
    }
}

impl Default for Pieces {
    fn default() -> (pieces: Self)
        ensures
            pieces.0@.len() == 0,
    {
        Pieces(Vec::new())
    }
}

/// The number of bytes in all of `files`.
pub open spec fn files_len(files: Seq<File>) -> nat
    decreases files.len(),
{
    if files.len() == 0 {
        0
    } else {
        files_len(files.drop_last()) + files.last().length as nat
    }
}

pub(crate) proof fn lemma_files_len_grows(files: Seq<File>, i: int)
    requires
        0 <= i <= files.len(),
    ensures
        files_len(files.take(i)) <= files_len(files),
    decreases files.len() - i,
{
    if i < files.len() {
        lemma_files_len_grows(files, i + 1);
        assert(files.take(i + 1).drop_last() =~= files.take(i));
    } else {
        assert(files.take(i) =~= files);
    }
}

impl DownloadType {
    /// The number of bytes to download.
    pub open spec fn spec_len(self) -> nat {
        match self {
            DownloadType::SingleFile { length } => length as nat,
            DownloadType::MultiFile { files } => files_len(files@),
        }
    }

    /// The number of bytes to download.
    pub fn len(&self) -> (len: u64)
        requires
            self.spec_len() <= u64::MAX,
        ensures
            len == self.spec_len(),
    {
        match self {
            DownloadType::SingleFile { length } => *length,
            DownloadType::MultiFile { files } => {
                let mut len: u64 = 0;
                let mut i: usize = 0;
                while i < files.len()
                    invariant
                        i <= files@.len(),
                        len == files_len(files@.take(i as int)),
                        files_len(files@) <= u64::MAX,
                    decreases files@.len() - i,
                {
                    proof {
                        lemma_files_len_grows(files@, i + 1);
                        assert(files@.take(i + 1).drop_last() =~= files@.take(i as int));
                    }
                    len += files[i].length;
                    i += 1;
                }
                assert(files@.take(i as int) =~= files@);
                len
            },
        }
    }

    /// The number of bytes to download, where it is a number of 64 bits.
    pub fn checked_len(&self) -> (len: Option<u64>)
        ensures
            match len {
                Some(len) => len == self.spec_len(),
                None => self.spec_len() > u64::MAX,
            },
    {
        match self {
            DownloadType::SingleFile { length } => Some(*length),
            DownloadType::MultiFile { files } => {
                let mut len: u64 = 0;
                let mut i: usize = 0;
                while i < files.len()
                    invariant
                        i <= files@.len(),
                        len == files_len(files@.take(i as int)),
                        self.spec_len() == files_len(files@),
                    decreases files@.len() - i,
                {
                    proof {
                        lemma_files_len_grows(files@, i + 1);
                        assert(files@.take(i + 1).drop_last() =~= files@.take(i as int));
                    }
                    len = match len.checked_add(files[i].length) {
                        Some(sum) => sum,
                        None => return None,
                    };
                    i += 1;
                }
                assert(files@.take(i as int) =~= files@);
                Some(len)
            },
        }
    }
}

/// Text as a bencoded string.
pub open spec fn text_bytes(text: Seq<char>) -> Seq<u8> {
    string_bytes(encode_utf8(text))
}

/// An entry of a bencoded dictionary, and what follows it.
pub open spec fn entry(key: Seq<char>, value: Seq<u8>, rest: Seq<u8>) -> Seq<u8> {
    text_bytes(key) + value + rest
}

/// The parts of a path as bencoded strings, and the end of the list that they make.
pub open spec fn path_bytes(path: Seq<String>) -> Seq<u8>
    decreases path.len(),
{
    if path.len() == 0 {
        seq![END]
    } else {
        text_bytes(path[0]@) + path_bytes(path.skip(1))
    }
}

impl File {
    /// A file as a bencoded dictionary.
    pub open spec fn encoding(self) -> Seq<u8> {
        seq![DICT] + entry(
            "length"@,
            int_bytes(self.length as nat),
            entry("path"@, seq![LIST] + path_bytes(self.path@), seq![END]),
        )
    }

    /// Adds the bencoded file to the end of `bytes`.
    fn encode(&self, bytes: &mut Vec<u8>)
        ensures
            final(bytes)@ == old(bytes)@ + self.encoding(),
    {
        let ghost before = bytes@;
        bytes.push(DICT);
        add_text(bytes, "length");
        add_int(bytes, self.length);
        add_text(bytes, "path");
        bytes.push(LIST);
        let ghost front = bytes@;
        assert(self.path@.skip(0) =~= self.path@);
        let mut i: usize = 0;
        while i < self.path.len()
            invariant
                i <= self.path@.len(),
                bytes@ + path_bytes(self.path@.skip(i as int)) =~= front + path_bytes(self.path@),
            decreases self.path@.len() - i,
        {
            assert(self.path@.skip(i as int).skip(1) =~= self.path@.skip(i + 1));
            add_text(bytes, self.path[i].as_str());
            i += 1;
        }
        bytes.push(END);
        assert(bytes@ =~= front + path_bytes(self.path@));
        bytes.push(END);
        assert(bytes@ =~= before + self.encoding());
    }
}

/// Files as bencoded dictionaries, and the end of the list that they make.
pub open spec fn file_bytes(files: Seq<File>) -> Seq<u8>
    decreases files.len(),
{
    if files.len() == 0 {
        seq![END]
    } else {
        files[0].encoding() + file_bytes(files.skip(1))
    }
}

/// Adds a bencoded string to the end of `bytes`.
fn add_text(bytes: &mut Vec<u8>, text: &str)
    ensures
        final(bytes)@ == old(bytes)@ + text_bytes(text@),
{
    let mut encoded = encode_bytes(text.as_bytes());
    bytes.append(&mut encoded);
}

/// Adds a bencoded integer to the end of `bytes`.
fn add_int(bytes: &mut Vec<u8>, n: u64)
    ensures
        final(bytes)@ == old(bytes)@ + int_bytes(n as nat),
{
    let mut encoded = encode_int(n);
    bytes.append(&mut encoded);
}

impl DownloadType {
    /// The key under which a bencoded dictionary tells what to download.
    pub open spec fn key(self) -> Seq<char> {
        match self {
            DownloadType::SingleFile { .. } => "length"@,
            DownloadType::MultiFile { .. } => "files"@,
        }
    }

    /// What a bencoded dictionary tells under that key.
    pub open spec fn encoding(self) -> Seq<u8> {
        match self {
            DownloadType::SingleFile { length } => int_bytes(length as nat),
            DownloadType::MultiFile { files } => seq![LIST] + file_bytes(files@),
        }
    }

    /// Adds the key and what it tells to the end of `bytes`.
    fn encode(&self, bytes: &mut Vec<u8>)
        ensures
            final(bytes)@ == old(bytes)@ + text_bytes(self.key()) + self.encoding(),
    {
        let ghost before = bytes@;
        match self {
            DownloadType::SingleFile { length } => {
                add_text(bytes, "length");
                add_int(bytes, *length);
            },
            DownloadType::MultiFile { files } => {
                add_text(bytes, "files");
                bytes.push(LIST);
                let ghost front = bytes@;
                assert(files@.skip(0) =~= files@);
                let mut i: usize = 0;
                while i < files.len()
                    invariant
                        i <= files@.len(),
                        bytes@ + file_bytes(files@.skip(i as int)) =~= front + file_bytes(files@),
                    decreases files@.len() - i,
                {
                    assert(files@.skip(i as int).skip(1) =~= files@.skip(i + 1));
                    files[i].encode(bytes);
                    i += 1;
                }
                bytes.push(END);
                assert(bytes@ =~= front + file_bytes(files@));
            },
        }
        assert(bytes@ =~= before + text_bytes(self.key()) + self.encoding());
    }
}

/// The least number of parts of at most `part` bytes that make up `len` bytes.
pub open spec fn parts(len: int, part: int) -> int {
    (len + part - 1) / part
}

pub(crate) proof fn lemma_parts(len: int, part: int)
    requires
        len >= 0,
        part > 0,
    ensures
        parts(len, part) >= 0,
        (parts(len, part) - 1) * part < len <= parts(len, part) * part,
        len == 0 <==> parts(len, part) == 0,
{
    let n = parts(len, part);
    let rest = (len + part - 1) % part;
    assert(len + part - 1 == n * part + rest && 0 <= rest < part) by (nonlinear_arith)
        requires
            n == (len + part - 1) / part,
            rest == (len + part - 1) % part,
            part > 0,
    ;
    assert((n - 1) * part == n * part - part) by (nonlinear_arith);
    assert(n >= 0) by (nonlinear_arith)
        requires
            n == (len + part - 1) / part,
            len >= 0,
            part > 0,
    ;
    if len == 0 {
        assert(n * part <= part - 1);
        assert(n <= 0) by (nonlinear_arith)
            requires
                n * part <= part - 1,
                part > 0,
        ;
    }
    if n == 0 {
        assert(n * part == 0) by (nonlinear_arith)
            requires
                n == 0,
        ;
    }
}

impl Info {
    /// Where a piece begins among all the bytes.
    pub open spec fn piece_begin(self, index: int) -> int {
        index * self.piece_length as int
    }

    /// The length of a piece: all pieces but the last are of the same length.
    pub open spec fn piece_len(self, index: int) -> int {
        let left = self.download_type.spec_len() - self.piece_begin(index);
        if left < self.piece_length {
            left
        } else {
            self.piece_length as int
        }
    }

    /// The number of pieces that make up the download.
    pub open spec fn spec_num_pieces(self) -> int {
        parts(self.download_type.spec_len() as int, self.piece_length as int)
    }

    /// The info as a bencoded dictionary, with its keys in ascending order.
    pub open spec fn encoding(self) -> Seq<u8> {
        seq![DICT] + entry(
            self.download_type.key(),
            self.download_type.encoding(),
            entry(
                "name"@,
                text_bytes(self.name@),
                entry(
                    "piece length"@,
                    int_bytes(self.piece_length as nat),
                    entry("pieces"@, string_bytes(concat(self.pieces.0@)), seq![END]),
                ),
            ),
        )
    }

    /// The digest by which trackers and peers know the torrent.
    pub open spec fn spec_hash(self) -> Seq<u8> {
        sha1_digest(self.encoding())
    }

    /// The info as a bencoded dictionary.
    pub fn to_bytes(&self) -> (bytes: Vec<u8>)
        ensures
            bytes@ == self.encoding(),
    {
        let mut bytes: Vec<u8> = Vec::new();
        bytes.push(DICT);
        self.download_type.encode(&mut bytes);
        add_text(&mut bytes, "name");
        add_text(&mut bytes, self.name.as_str());
        add_text(&mut bytes, "piece length");
        add_int(&mut bytes, self.piece_length as u64);
        add_text(&mut bytes, "pieces");
        let mut pieces = encode_bytes(self.pieces.to_bytes().as_slice());
        bytes.append(&mut pieces);
        bytes.push(END);
        assert(bytes@ =~= self.encoding());
        bytes
    }

    /// The digest by which trackers and peers know the torrent.
    pub fn hash(&self) -> (hash: [u8; 20])
        ensures
            hash@ == sha1_digest(self.encoding()),
            hash@ == self.spec_hash(),
    {
        sha1(self.to_bytes().as_slice())
    }

    /// The length of a piece that does not begin behind the end.
    pub fn get_piece_length(&self, piece_index: u32) -> (len: u32)
        requires
            self.download_type.spec_len() <= u64::MAX,
            self.piece_begin(piece_index as int) <= self.download_type.spec_len(),
        ensures
            len == self.piece_len(piece_index as int),
    {
        let length: u64 = self.download_type.len();
        proof {
            let a = piece_index as int;
            let b = self.piece_length as int;
            assert(0 <= a * b <= 0xffff_ffff * 0xffff_ffff) by (nonlinear_arith)
                requires
                    0 <= a <= 0xffff_ffff,
                    0 <= b <= 0xffff_ffff,
            ;
        }
        // A piece length has 32 bits, but the length of the download may need more.
        let begin: u64 = piece_index as u64 * self.piece_length as u64;
        if begin + self.piece_length as u64 > length {
            return (length - begin) as u32;
        }
        self.piece_length
    }

    /// The number of pieces that make up the download, cut down to 32 bits.
    pub fn num_pieces(&self) -> (num: u32)
        requires
            self.piece_length > 0,
            self.download_type.spec_len() + self.piece_length <= u64::MAX,
        ensures
            num == self.spec_num_pieces() as u32,
    {
        let file_len: u64 = self.download_type.len();
        let piece_len: u64 = self.piece_length as u64;
        let num: u64 = (file_len + piece_len - 1) / piece_len;
        num as u32
    }

    pub fn total_length(&self) -> (len: u64)
        requires
            self.download_type.spec_len() <= u64::MAX,
        ensures
            len == self.download_type.spec_len(),
    {
        self.download_type.len()
    }
}

/// The pieces follow each other without gaps, from the first byte of the download to its last, and
/// none is empty or longer than the piece length.
pub proof fn law_pieces_cover_the_download(info: &Info, index: int)
    requires
        info.piece_length > 0,
        0 <= index < info.spec_num_pieces(),
    ensures
        info.piece_begin(0) == 0,
        0 < info.piece_len(index) <= info.piece_length,
        info.piece_begin(index) + info.piece_len(index) == if index + 1 < info.spec_num_pieces() {
            info.piece_begin(index + 1)
        } else {
            info.download_type.spec_len() as int
        },
{
    let total = info.download_type.spec_len() as int;
    let part = info.piece_length as int;
    let n = info.spec_num_pieces();
    lemma_parts(total, part);
    assert(index * part <= (n - 1) * part) by (nonlinear_arith)
        requires
            index <= n - 1,
            part > 0,
    ;
    assert((index + 1) * part == index * part + part) by (nonlinear_arith);
    if index + 1 < n {
        assert((index + 1) * part <= (n - 1) * part) by (nonlinear_arith)
            requires
                index + 1 <= n - 1,
                part > 0,
        ;
    }
}

/// There are no pieces exactly where there is nothing to download.
pub proof fn law_no_pieces(info: Info)
    requires
        info.piece_length > 0,
    ensures
        info.spec_num_pieces() >= 0,
        info.spec_num_pieces() == 0 <==> info.download_type.spec_len() == 0,
{
    lemma_parts(info.download_type.spec_len() as int, info.piece_length as int);
}

/// Every piece begins as many piece lengths behind the first as there are pieces before it, and all
/// but the last are of that length. There are just as many as it takes.
pub proof fn law_pieces_are_of_one_length(info: Info, index: int)
    requires
        info.piece_length > 0,
        0 <= index < info.spec_num_pieces(),
    ensures
        info.piece_begin(index) == index * info.piece_length,
        index + 1 < info.spec_num_pieces() ==> info.piece_len(index) == info.piece_length,
        (info.spec_num_pieces() - 1) * info.piece_length < info.download_type.spec_len()
            <= info.spec_num_pieces() * info.piece_length,
{
    law_pieces_cover_the_download(&info, index);
    lemma_parts(info.download_type.spec_len() as int, info.piece_length as int);
    let part = info.piece_length as int;
    assert((index + 1) * part == index * part + part) by (nonlinear_arith);
}

/// A single file is as long as it says, and one more file makes a download as much longer as it is
/// long itself.
pub proof fn law_lengths_add_up(length: u64, files: Seq<File>, file: File)
    ensures
        (DownloadType::SingleFile { length }).spec_len() == length,
        files_len(seq![]) == 0,
        files_len(files.push(file)) == files_len(files) + file.length,
{
    assert(files.push(file).drop_last() =~= files);
}

/// The length of several files is that of all of them.
pub proof fn law_several_files(files: Vec<File>)
    ensures
        (DownloadType::MultiFile { files }).spec_len() == files_len(files@),
{
}

} // verus!
