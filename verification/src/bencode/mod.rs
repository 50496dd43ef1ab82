//! Bencoded values and the two decoders for them.

use vstd::prelude::*;

pub mod canonical;
pub mod dict;
pub mod encode;
pub mod grammar_laws;
pub mod laws;
pub mod meta_info;
pub mod nom;
pub mod plain;
pub mod round_trip;
pub mod syntax;
pub mod unique;
pub mod values;

pub use meta_info::{DownloadType, File, Info, Pieces, Torrent};

verus! {

/// A bencoded value.
#[derive(Debug, PartialEq)]
pub enum Value {
    Int(i64),
    String(String),
    List(Vec<Value>),
    /// The entries of a dictionary, in ascending order of their keys' bytes.
    Dict(Vec<(String, Value)>),
}

/// Why a decoder rejects its input.
#[derive(Copy, Clone, Debug, PartialEq, Eq)]
pub enum DecodeError {
    /// The grammar allows none of its alternatives at this offset.
    Unexpected { at: usize },
    /// The input is empty where a value is expected.
    Empty,
    /// The length of a string is not followed by a colon.
    MissingColon,
    /// The length of a string is not a number.
    InvalidLength,
    /// An integer is not ended.
    MissingEnd,
    /// An integer is not a number of 64 bits.
    InvalidInteger,
}

/// What a [`Value`] stands for.
pub enum Tree {
    Int(int),
    Text(Seq<char>),
    List(Seq<Tree>),
    Dict(Map<Seq<char>, Tree>),
}

impl Value {
    pub open spec fn tree(self) -> Tree
        decreases self,
    {
        match self {
            Value::Int(n) => Tree::Int(n as int),
            Value::String(s) => Tree::Text(s@),
            Value::List(items) => Tree::List(item_trees(items@)),
            Value::Dict(entries) => Tree::Dict(entry_trees(entries@)),
        }
    }

    /// Whether the keys of every dictionary in the value ascend.
    pub open spec fn wf(self) -> bool
        decreases self,
    {
        match self {
            Value::Int(_) => true,
            Value::String(_) => true,
            Value::List(items) => forall|i: int|
                0 <= i < items@.len() ==> (#[trigger] items@[i]).wf(),
            Value::Dict(entries) => dict::ascending(entries@) && forall|i: int|
                0 <= i < entries@.len() ==> (#[trigger] entries@[i]).1.wf(),
        }
    }
}

pub open spec fn item_trees(items: Seq<Value>) -> Seq<Tree>
    decreases items,
{
    Seq::new(
        items.len(),
        |i: int|
            if 0 <= i < items.len() {
                items[i].tree()
            } else {
                arbitrary()
            },
    )
}

pub open spec fn entry_trees(entries: Seq<(String, Value)>) -> Map<Seq<char>, Tree>
    decreases entries,
{
    if entries.len() == 0 {
        Map::empty()
    } else {
        entry_trees(entries.drop_last()).insert(entries.last().0@, entries.last().1.tree())
    }
}

impl View for Value {
    type V = Tree;

    open spec fn view(&self) -> Tree {
        self.tree()
    }
}

/// Which of the decoders to use.
#[derive(Copy, Clone, Debug, PartialEq, Eq)]
pub enum Decoder {
    Nom,
    Plain,
}

impl Decoder {
    /// The value that `input` starts with and the number of bytes it takes.
    pub open spec fn value(self, input: Seq<u8>) -> Option<(Tree, int)> {
        match self {
            Decoder::Nom => nom::value_of(input),
            Decoder::Plain => match plain::outcome(input) {
                plain::Outcome::Value(tree, len) => Some((tree, len)),
                _ => None,
            },
        }
    }

    /// Why `input` does not start with a value.
    pub open spec fn failure(self, input: Seq<u8>) -> DecodeError {
        match self {
            Decoder::Nom => DecodeError::Unexpected { at: nom::gives_up_at(input) as usize },
            Decoder::Plain => plain::outcome(input)->Failed_0,
        }
    }

    /// Whether the decoder supports an input.
    pub open spec fn can_decode(self, input: Seq<u8>) -> bool {
        self is Plain ==> plain::outcome(input) !is Unsupported
    }

    /// Whether [`Decoder::decode`] accepts an input.
    pub fn accepts(&self, input: &[u8]) -> (res: bool)
        ensures
            res == self.can_decode(input@),
    {
        match self {
            Decoder::Nom => true,
            Decoder::Plain => !matches!(plain::parse(input), plain::Parsed::Unsupported),
        }
    }

    /// Decodes the value that `input` starts with and returns what follows it.
    pub fn decode<'a>(&self, input: &'a [u8]) -> (res: Result<(&'a [u8], Value), DecodeError>)
        requires
            self.can_decode(input@),
        ensures
            match res {
                Ok((rest, value)) => value.wf() && match self.value(input@) {
                    Some((tree, len)) => value@ == tree && rest@ == input@.skip(len),
                    None => false,
                },
                Err(error) => self.value(input@) is None && error == self.failure(input@),
            },
    {
        match self {
            Decoder::Nom => nom::decode(input),
            Decoder::Plain => plain::decode(input),
        }
    }
}

} // verus!
