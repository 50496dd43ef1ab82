//! Dividing a download into its files.

use vstd::prelude::*;

use crate::bencode::meta_info::{files_len, lemma_files_len_grows, File};

verus! {

/// Where the bytes of a file are in the download.
#[derive(Copy, Clone, Debug, PartialEq, Eq)]
pub struct Part {
    pub begin: usize,
    pub end: usize,
}

/// Divides a download into its files, which follow each other without gaps.
pub fn parts(files: &Vec<File>) -> (parts: Vec<Part>)
    requires
        files_len(files@) <= usize::MAX,
    ensures
        parts@.len() == files@.len(),
        forall|i: int|
            0 <= i < files@.len() ==> {
                &&& (#[trigger] parts@[i]).begin == files_len(files@.take(i))
                &&& parts@[i].end == files_len(files@.take(i + 1))
            },
{
    let mut parts: Vec<Part> = Vec::new();
    let mut idx: usize = 0;
    while parts.len() < files.len()
        invariant
            files_len(files@) <= usize::MAX,
            parts@.len() <= files@.len(),
            idx == files_len(files@.take(parts@.len() as int)),
            forall|i: int|
                0 <= i < parts@.len() ==> {
                    &&& (#[trigger] parts@[i]).begin == files_len(files@.take(i))
                    &&& parts@[i].end == files_len(files@.take(i + 1))
                },
        decreases files@.len() - parts@.len(),
    {
        proof {
            let at = parts@.len() as int;
            assert(files@.take(at + 1).drop_last() =~= files@.take(at));
            lemma_files_len_grows(files@, at + 1);
        }
        let new_idx: usize = idx + files[parts.len()].length as usize;
        parts.push(Part { begin: idx, end: new_idx });
        idx = new_idx;
    }
    parts
}

/// The files are of the lengths that the torrent gives, and make up the whole download.
pub proof fn law_parts_cover_the_download(files: Seq<File>, i: int)
    requires
        0 <= i < files.len(),
    ensures
        files_len(files.take(0)) == 0,
        files_len(files.take(i + 1)) == files_len(files.take(i)) + files[i].length,
        files_len(files.take(files.len() as int)) == files_len(files),
{
    assert(files.take(i + 1).drop_last() =~= files.take(i));
    assert(files.take(files.len() as int) =~= files);
}

} // verus!
