//! The decoder that goes by the first byte of a value.
//!
//! It does not support everything that the grammar allows: a list or a dictionary has to have an
//! element, a string has to be complete, and a value has to start with a byte that it knows.

use vstd::pervasive::unreached;
use vstd::prelude::*;
use vstd::slice::slice_subrange;

use super::dict;
use super::syntax::{
    all_digits, decimal, find, int_literal, is_digit, lemma_until, parse_decimal, parse_int, until,
    COLON, DICT, END, INT, LIST, NINE, ZERO,
};
use super::{entry_trees, item_trees, DecodeError, Tree, Value};
use crate::text::{from_utf8_lossy, utf8_text};

verus! {

/// What the decoder makes of its input.
pub enum Outcome {
    /// A value and the number of bytes it takes.
    Value(Tree, int),
    /// The input is rejected.
    Failed(DecodeError),
    /// The input is none that the decoder supports.
    Unsupported,
}

/// What the decoder makes of its input.
pub enum Parsed {
    /// A value and the number of bytes it takes.
    Value(Value, usize),
    /// The input is rejected.
    Failed(DecodeError),
    /// The input is none that the decoder supports.
    Unsupported,
}

impl View for Parsed {
    type V = Outcome;

    open spec fn view(&self) -> Outcome {
        match *self {
            Parsed::Value(value, len) => Outcome::Value(value@, len as int),
            Parsed::Failed(error) => Outcome::Failed(error),
            Parsed::Unsupported => Outcome::Unsupported,
        }
    }
}

impl Outcome {
    /// The same outcome after `n` more bytes.
    pub open spec fn after(self, n: int) -> Outcome {
        match self {
            Outcome::Value(tree, len) => Outcome::Value(tree, n + len),
            _ => self,
        }
    }
}

pub open spec fn string_outcome(s: Seq<u8>) -> Outcome {
    let colon = until(s, COLON);
    let digits = s.take(colon);
    let end = colon + 1 + decimal(digits);
    if colon == s.len() {
        Outcome::Failed(DecodeError::MissingColon)
    } else if !all_digits(digits) || decimal(digits) > usize::MAX {
        Outcome::Failed(DecodeError::InvalidLength)
    } else if end > s.len() {
        Outcome::Unsupported
    } else {
        Outcome::Value(Tree::Text(utf8_text(s.subrange(colon + 1, end))), end)
    }
}

pub open spec fn integer_outcome(s: Seq<u8>) -> Outcome {
    let end = until(s, END);
    if end == s.len() {
        Outcome::Failed(DecodeError::MissingEnd)
    } else {
        match int_literal(s.subrange(1, end)) {
            Some(n) => Outcome::Value(Tree::Int(n), end + 1),
            None => Outcome::Failed(DecodeError::InvalidInteger),
        }
    }
}

/// What the decoder makes of `s`.
pub open spec fn outcome(s: Seq<u8>) -> Outcome
    decreases s.len(), 0int,
{
    if s.len() == 0 {
        Outcome::Failed(DecodeError::Empty)
    } else if is_digit(s[0]) {
        string_outcome(s)
    } else if s[0] == INT {
        integer_outcome(s)
    } else if s[0] == LIST {
        list_outcome(s.skip(1), seq![]).after(1)
    } else if s[0] == DICT {
        dict_outcome(s.skip(1), Map::empty()).after(1)
    } else {
        Outcome::Unsupported
    }
}

/// What the decoder makes of `s` as the rest of a list that starts with `items`.
pub open spec fn list_outcome(s: Seq<u8>, items: Seq<Tree>) -> Outcome
    decreases s.len(), 1int,
{
    match outcome(s) {
        Outcome::Value(item, len) => if !(0 < len <= s.len()) {
            Outcome::Unsupported
        } else if len < s.len() && s[len] == END {
            Outcome::Value(Tree::List(items.push(item)), len + 1)
        } else {
            list_outcome(s.skip(len), items.push(item)).after(len)
        },
        other => other,
    }
}

/// What the decoder makes of `s` as the rest of a dictionary that starts with `map`.
pub open spec fn dict_outcome(s: Seq<u8>, map: Map<Seq<char>, Tree>) -> Outcome
    decreases s.len(), 1int,
{
    match outcome(s) {
        Outcome::Value(Tree::Text(key), key_len) => if !(0 < key_len <= s.len()) {
            Outcome::Unsupported
        } else {
            match outcome(s.skip(key_len)) {
                Outcome::Value(value, value_len) => {
                    let len = key_len + value_len;
                    if !(key_len < len <= s.len()) {
                        Outcome::Unsupported
                    } else if len < s.len() && s[len] == END {
                        Outcome::Value(Tree::Dict(map.insert(key, value)), len + 1)
                    } else {
                        dict_outcome(s.skip(len), map.insert(key, value)).after(len)
                    }
                },
                other => other,
            }
        },
        Outcome::Value(_, _) => Outcome::Unsupported,
        other => other,
    }
}

/// A value takes at least one byte and no more than there are.
pub(crate) proof fn lemma_outcome_len(s: Seq<u8>)
    ensures
        match outcome(s) {
            Outcome::Value(_, len) => 0 < len <= s.len(),
            _ => true,
        },
    decreases s.len(), 0int,
{
    lemma_until(s, COLON);
    lemma_until(s, END);
    if s.len() > 0 {
        lemma_list_len(s.skip(1), seq![]);
        lemma_dict_len(s.skip(1), Map::empty());
    }
}

pub(crate) proof fn lemma_list_len(s: Seq<u8>, items: Seq<Tree>)
    ensures
        match list_outcome(s, items) {
            Outcome::Value(_, len) => 0 < len <= s.len(),
            _ => true,
        },
    decreases s.len(), 1int,
{
    lemma_outcome_len(s);
    if let Outcome::Value(item, len) = outcome(s) {
        lemma_list_len(s.skip(len), items.push(item));
    }
}

pub(crate) proof fn lemma_dict_len(s: Seq<u8>, map: Map<Seq<char>, Tree>)
    ensures
        match dict_outcome(s, map) {
            Outcome::Value(_, len) => 0 < len <= s.len(),
            _ => true,
        },
    decreases s.len(), 1int,
{
    lemma_outcome_len(s);
    if let Outcome::Value(Tree::Text(key), key_len) = outcome(s) {
        lemma_outcome_len(s.skip(key_len));
        if let Outcome::Value(value, value_len) = outcome(s.skip(key_len)) {
            lemma_dict_len(s.skip(key_len + value_len), map.insert(key, value));
        }
    }
}

fn parse_string(input: &[u8]) -> (res: Parsed)
    ensures
        res@ == string_outcome(input@),
        res matches Parsed::Value(value, len) ==> value.wf() && len <= input@.len(),
{
    match find(input, COLON) {
        None => Parsed::Failed(DecodeError::MissingColon),
        Some(colon) => {
            let digits = slice_subrange(input, 0, colon);
            assert(digits@ =~= input@.take(colon as int));
            match parse_decimal(digits) {
                None => Parsed::Failed(DecodeError::InvalidLength),
                Some(len) => {
                    if len > usize::MAX as u64 {
                        return Parsed::Failed(DecodeError::InvalidLength);
                    }
                    let at: usize = colon + 1;
                    if len as usize > input.len() - at {
                        return Parsed::Unsupported;
                    }
                    let end: usize = at + len as usize;
                    let text = from_utf8_lossy(slice_subrange(input, at, end));
                    Parsed::Value(Value::String(text), end)
                },
            }
        },
    }
}

fn parse_integer(input: &[u8]) -> (res: Parsed)
    requires
        input@.len() > 0,
        input@[0] == INT,
    ensures
        res@ == integer_outcome(input@),
        res matches Parsed::Value(value, len) ==> value.wf() && len <= input@.len(),
{
    proof {
        lemma_until(input@, END);
    }
    match find(input, END) {
        None => Parsed::Failed(DecodeError::MissingEnd),
        Some(end) => match parse_int(slice_subrange(input, 1, end)) {
            Some(n) => Parsed::Value(Value::Int(n), end + 1),
            None => Parsed::Failed(DecodeError::InvalidInteger),
        },
    }
}

fn parse_list(input: &[u8]) -> (res: Parsed)
    requires
        input@.len() > 0,
        input@[0] == LIST,
    ensures
        res@ == outcome(input@),
        res matches Parsed::Value(value, len) ==> value.wf() && len <= input@.len(),
    decreases input@.len(), 0int,
{
    let mut list: Vec<Value> = Vec::new();
    let mut at: usize = 1;
    assert(item_trees(list@) =~= seq![]);
    loop
        invariant
            1 <= at <= input@.len(),
            input@[0] == LIST,
            outcome(input@) == list_outcome(input@.skip(at as int), item_trees(list@)).after(
                at as int,
            ),
            forall|i: int| 0 <= i < list@.len() ==> (#[trigger] list@[i]).wf(),
        decreases input@.len() - at,
    {
        let rest = slice_subrange(input, at, input.len());
        assert(rest@ =~= input@.skip(at as int));
        proof {
            lemma_outcome_len(rest@);
        }
        match parse(rest) {
            Parsed::Failed(error) => return Parsed::Failed(error),
            Parsed::Unsupported => return Parsed::Unsupported,
            Parsed::Value(item, len) => {
                let ghost known = list@;
                list.push(item);
                assert(item_trees(list@) =~= item_trees(known).push(item.tree()));
                if len < rest.len() && rest[len] == END {
                    return Parsed::Value(Value::List(list), at + len + 1);
                }
                assert(rest@.skip(len as int) =~= input@.skip(at + len));
                at += len;
            },
        }
    }
}

fn parse_dict(input: &[u8]) -> (res: Parsed)
    requires
        input@.len() > 0,
        input@[0] == DICT,
    ensures
        res@ == outcome(input@),
        res matches Parsed::Value(value, len) ==> value.wf() && len <= input@.len(),
    decreases input@.len(), 0int,
{
    let mut map: Vec<(String, Value)> = Vec::new();
    let mut at: usize = 1;
    loop
        invariant
            1 <= at <= input@.len(),
            input@[0] == DICT,
            outcome(input@) == dict_outcome(input@.skip(at as int), entry_trees(map@)).after(
                at as int,
            ),
            dict::ascending(map@),
            forall|i: int| 0 <= i < map@.len() ==> (#[trigger] map@[i]).1.wf(),
        decreases input@.len() - at,
    {
        let rest = slice_subrange(input, at, input.len());
        assert(rest@ =~= input@.skip(at as int));
        proof {
            lemma_outcome_len(rest@);
        }
        match parse(rest) {
            Parsed::Failed(error) => return Parsed::Failed(error),
            Parsed::Unsupported => return Parsed::Unsupported,
            Parsed::Value(Value::String(key), key_len) => {
                let after_key = slice_subrange(rest, key_len, rest.len());
                assert(after_key@ =~= rest@.skip(key_len as int));
                proof {
                    lemma_outcome_len(after_key@);
                }
                match parse(after_key) {
                    Parsed::Failed(error) => return Parsed::Failed(error),
                    Parsed::Unsupported => return Parsed::Unsupported,
                    Parsed::Value(item, item_len) => {
                        let len: usize = key_len + item_len;
                        dict::insert(&mut map, key, item);
                        if len < rest.len() && rest[len] == END {
                            return Parsed::Value(Value::Dict(map), at + len + 1);
                        }
                        assert(rest@.skip(len as int) =~= input@.skip(at + len));
                        at += len;
                    },
                }
            },
            Parsed::Value(_, _) => return Parsed::Unsupported,
        }
    }
}

/// Reads the value that `input` starts with, where the decoder supports it.
pub fn parse(input: &[u8]) -> (res: Parsed)
    ensures
        res@ == outcome(input@),
        res matches Parsed::Value(value, len) ==> value.wf() && len <= input@.len(),
    decreases input@.len(), 1int,
{
    if input.len() == 0 {
        return Parsed::Failed(DecodeError::Empty);
    }
    let first: u8 = input[0];
    if ZERO <= first && first <= NINE {
        parse_string(input)
    } else if first == INT {
        parse_integer(input)
    } else if first == LIST {
        parse_list(input)
    } else if first == DICT {
        parse_dict(input)
    } else {
        Parsed::Unsupported
    }
}

/// Decodes the value that `input` starts with and returns what follows it.
pub fn decode(input: &[u8]) -> (res: Result<(&[u8], Value), DecodeError>)
    requires
        outcome(input@) !is Unsupported,
    ensures
        match res {
            Ok((rest, value)) => value.wf() && match outcome(input@) {
                Outcome::Value(tree, len) => value@ == tree && rest@ == input@.skip(len),
                _ => false,
            },
            Err(error) => outcome(input@) == Outcome::Failed(error),
        },
{
    match parse(input) {
        Parsed::Value(value, len) => Ok((slice_subrange(input, len, input.len()), value)),
        Parsed::Failed(error) => Err(error),
        Parsed::Unsupported => unreached(),
    }
}

/// What has been parsed stands for the value and the number of bytes, or for the error.
pub proof fn law_what_has_been_parsed(parsed: Parsed)
    ensures
        match parsed {
            Parsed::Value(value, len) => parsed@ == Outcome::Value(value@, len as int),
            Parsed::Failed(error) => parsed@ == Outcome::Failed(error),
            Parsed::Unsupported => parsed@ is Unsupported,
        },
{
}

} // verus!
