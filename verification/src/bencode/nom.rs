//! The decoder that tries each alternative of the grammar in turn.

use vstd::prelude::*;
use vstd::slice::slice_subrange;

use super::dict;
use super::syntax::{
    all_digits, find, int_literal, is_digit, lemma_until, length_prefix, parse_decimal, parse_int,
    until, COLON, DICT, END, INT, LIST, NINE, ZERO,
};
use super::{entry_trees, item_trees, DecodeError, Tree, Value};
use crate::text::{from_utf8_lossy, utf8_text};

verus! {

/// The integer that `s` starts with and the number of bytes it takes.
pub open spec fn integer_of(s: Seq<u8>) -> Option<(int, int)> {
    let end = until(s, END);
    if 0 < end < s.len() && s[0] == INT {
        match int_literal(s.subrange(1, end)) {
            Some(n) => Some((n, end + 1)),
            None => None,
        }
    } else {
        None
    }
}

/// The string that `s` starts with and the number of bytes it takes.
pub open spec fn string_of(s: Seq<u8>) -> Option<(Seq<char>, int)> {
    match length_prefix(s) {
        Some((len, at)) => if at + len <= s.len() {
            Some((utf8_text(s.subrange(at, at + len)), at + len))
        } else {
            None
        },
        None => None,
    }
}

/// The value that `s` starts with and the number of bytes it takes.
pub open spec fn value_of(s: Seq<u8>) -> Option<(Tree, int)>
    decreases s.len(), 0int,
{
    if s.len() == 0 {
        None
    } else if s[0] == INT {
        match integer_of(s) {
            Some((n, len)) => Some((Tree::Int(n), len)),
            None => None,
        }
    } else if is_digit(s[0]) {
        match string_of(s) {
            Some((text, len)) => Some((Tree::Text(text), len)),
            None => None,
        }
    } else if s[0] == LIST {
        let (items, len) = items_of(s.skip(1));
        if 1 + len < s.len() && s[1 + len] == END {
            Some((Tree::List(items), len + 2))
        } else {
            None
        }
    } else if s[0] == DICT {
        let (map, len) = entries_of(s.skip(1), Map::empty());
        if 1 + len < s.len() && s[1 + len] == END {
            Some((Tree::Dict(map), len + 2))
        } else {
            None
        }
    } else {
        None
    }
}

/// As many values as `s` starts with and the number of bytes they take.
pub open spec fn items_of(s: Seq<u8>) -> (Seq<Tree>, int)
    decreases s.len(), 1int,
{
    match value_of(s) {
        Some((item, len)) => if 0 < len <= s.len() {
            let (rest, rest_len) = items_of(s.skip(len));
            (seq![item] + rest, len + rest_len)
        } else {
            (seq![], 0)
        },
        None => (seq![], 0),
    }
}

/// `map` with as many pairs of a key and a value as `s` starts with added in turn, and the number
/// of bytes that they take.
pub open spec fn entries_of(s: Seq<u8>, map: Map<Seq<char>, Tree>) -> (Map<Seq<char>, Tree>, int)
    decreases s.len(), 1int,
{
    match string_of(s) {
        Some((key, key_len)) => if 0 < key_len <= s.len() {
            match value_of(s.skip(key_len)) {
                Some((value, value_len)) => if 0 < value_len <= s.len() - key_len {
                    let (all, rest_len) = entries_of(
                        s.skip(key_len + value_len),
                        map.insert(key, value),
                    );
                    (all, key_len + value_len + rest_len)
                } else {
                    (map, 0)
                },
                None => (map, 0),
            }
        } else {
            (map, 0)
        },
        None => (map, 0),
    }
}

/// The offset of the byte at which the last alternative, a dictionary, gives up.
pub open spec fn gives_up_at(s: Seq<u8>) -> int {
    if s.len() > 0 && s[0] == DICT {
        1 + entries_of(s.skip(1), Map::empty()).1
    } else {
        0
    }
}

pub(crate) proof fn lemma_integer_len(s: Seq<u8>)
    ensures
        match integer_of(s) {
            Some((_, len)) => 0 < len <= s.len(),
            None => true,
        },
{
    lemma_until(s, END);
}

pub(crate) proof fn lemma_string_len(s: Seq<u8>)
    ensures
        match string_of(s) {
            Some((_, len)) => 0 < len <= s.len() && is_digit(s[0]),
            None => true,
        },
{
    lemma_until(s, COLON);
    if string_of(s) is Some {
        assert(is_digit(s.take(until(s, COLON))[0]));
    }
}

/// A value takes at least one byte and no more than there are.
pub(crate) proof fn lemma_value_len(s: Seq<u8>)
    ensures
        match value_of(s) {
            Some((_, len)) => 0 < len <= s.len(),
            None => true,
        },
    decreases s.len(), 0int,
{
    lemma_integer_len(s);
    lemma_string_len(s);
    if s.len() > 0 {
        lemma_items_len(s.skip(1));
        lemma_entries_len(s.skip(1), Map::empty());
    }
}

pub(crate) proof fn lemma_items_len(s: Seq<u8>)
    ensures
        0 <= items_of(s).1 <= s.len(),
    decreases s.len(), 1int,
{
    lemma_value_len(s);
    if let Some((_, len)) = value_of(s) {
        lemma_items_len(s.skip(len));
    }
}

pub(crate) proof fn lemma_entries_len(s: Seq<u8>, map: Map<Seq<char>, Tree>)
    ensures
        0 <= entries_of(s, map).1 <= s.len(),
    decreases s.len(), 1int,
{
    lemma_string_len(s);
    if let Some((key, key_len)) = string_of(s) {
        lemma_value_len(s.skip(key_len));
        if let Some((value, value_len)) = value_of(s.skip(key_len)) {
            lemma_entries_len(s.skip(key_len + value_len), map.insert(key, value));
        }
    }
}

/// Reads a string: its length, a colon and its text.
fn string(input: &[u8]) -> (res: Option<(String, usize)>)
    ensures
        match res {
            Some((text, len)) => string_of(input@) == Some((text@, len as int)) && len
                <= input@.len(),
            None => string_of(input@) is None,
        },
{
    let mut colon: usize = 0;
    while colon < input.len() && ZERO <= input[colon] && input[colon] <= NINE
        invariant
            colon <= input@.len(),
            forall|j: int| 0 <= j < colon ==> is_digit(#[trigger] input@[j]),
        decreases input@.len() - colon,
    {
        colon += 1;
    }
    proof {
        lemma_until(input@, COLON);
        let at = until(input@, COLON);
        if at < colon {
            assert(is_digit(input@[at]));
        }
        if colon < at {
            assert(!is_digit(input@.take(at)[colon as int]));
        }
    }
    if colon == 0 || colon == input.len() || input[colon] != COLON {
        return None;
    }
    assert(all_digits(input@.take(colon as int)));
    let digits = slice_subrange(input, 0, colon);
    assert(digits@ =~= input@.take(colon as int));
    let at: usize = colon + 1;
    let rest: usize = input.len() - at;
    match parse_decimal(digits) {
        None => None,
        Some(len) => {
            if len > rest as u64 {
                return None;
            }
            let end: usize = at + len as usize;
            Some((from_utf8_lossy(slice_subrange(input, at, end)), end))
        },
    }
}

/// Reads an integer between its delimiters.
fn integer(input: &[u8]) -> (res: Option<(i64, usize)>)
    ensures
        match res {
            Some((n, len)) => integer_of(input@) == Some((n as int, len as int)) && len
                <= input@.len(),
            None => integer_of(input@) is None,
        },
{
    if input.len() == 0 || input[0] != INT {
        return None;
    }
    proof {
        lemma_until(input@, END);
    }
    match find(input, END) {
        None => None,
        Some(end) => match parse_int(slice_subrange(input, 1, end)) {
            None => None,
            Some(n) => Some((n, end + 1)),
        },
    }
}

/// Reads as many values as there are.
fn items(input: &[u8]) -> (res: (Vec<Value>, usize))
    ensures
        items_of(input@) == (item_trees(res.0@), res.1 as int),
        res.1 <= input@.len(),
        forall|i: int| 0 <= i < res.0@.len() ==> (#[trigger] res.0@[i]).wf(),
    decreases input@.len(), 2int,
{
    let mut list: Vec<Value> = Vec::new();
    let mut at: usize = 0;
    assert(input@.skip(0) =~= input@);
    assert(item_trees(list@) + items_of(input@).0 =~= items_of(input@).0);
    loop
        invariant
            at <= input@.len(),
            items_of(input@).0 == item_trees(list@) + items_of(input@.skip(at as int)).0,
            items_of(input@).1 == at + items_of(input@.skip(at as int)).1,
            forall|i: int| 0 <= i < list@.len() ==> (#[trigger] list@[i]).wf(),
        decreases input@.len() - at,
    {
        let rest = slice_subrange(input, at, input.len());
        assert(rest@ =~= input@.skip(at as int));
        match value(rest) {
            None => {
                assert(item_trees(list@) + Seq::<Tree>::empty() =~= item_trees(list@));
                return (list, at);
            },
            Some((item, len)) => {
                let ghost known = list@;
                list.push(item);
                assert(item_trees(list@) =~= item_trees(known).push(item.tree()));
                assert(input@.skip(at as int).skip(len as int) =~= input@.skip(at + len));
                assert(item_trees(known) + (seq![item.tree()] + items_of(
                    input@.skip(at + len),
                ).0) =~= item_trees(list@) + items_of(input@.skip(at + len)).0);
                at += len;
            },
        }
    }
}

/// Reads as many pairs of a key and a value as there are.
fn entries(input: &[u8]) -> (res: (Vec<(String, Value)>, usize))
    ensures
        entries_of(input@, Map::empty()) == (entry_trees(res.0@), res.1 as int),
        res.1 <= input@.len(),
        dict::ascending(res.0@),
        forall|i: int| 0 <= i < res.0@.len() ==> (#[trigger] res.0@[i]).1.wf(),
    decreases input@.len(), 2int,
{
    let mut map: Vec<(String, Value)> = Vec::new();
    let mut at: usize = 0;
    assert(input@.skip(0) =~= input@);
    loop
        invariant
            at <= input@.len(),
            entries_of(input@, Map::empty()).0 == entries_of(
                input@.skip(at as int),
                entry_trees(map@),
            ).0,
            entries_of(input@, Map::empty()).1 == at + entries_of(
                input@.skip(at as int),
                entry_trees(map@),
            ).1,
            dict::ascending(map@),
            forall|i: int| 0 <= i < map@.len() ==> (#[trigger] map@[i]).1.wf(),
        decreases input@.len() - at,
    {
        let rest = slice_subrange(input, at, input.len());
        assert(rest@ =~= input@.skip(at as int));
        proof {
            lemma_string_len(rest@);
        }
        match string(rest) {
            None => return (map, at),
            Some((key, key_len)) => {
                let after_key = slice_subrange(rest, key_len, rest.len());
                assert(after_key@ =~= rest@.skip(key_len as int));
                match value(after_key) {
                    None => return (map, at),
                    Some((item, item_len)) => {
                        assert(input@.skip(at as int).skip(key_len + item_len) =~= input@.skip(
                            at + key_len + item_len,
                        ));
                        dict::insert(&mut map, key, item);
                        at += key_len + item_len;
                    },
                }
            },
        }
    }
}

/// Reads a list between its delimiters.
fn list(input: &[u8]) -> (res: Option<(Vec<Value>, usize)>)
    requires
        input@.len() > 0,
        input@[0] == LIST,
    ensures
        match res {
            Some((items, len)) => value_of(input@) == Some(
                (Tree::List(item_trees(items@)), len as int),
            ) && len <= input@.len() && forall|i: int|
                0 <= i < items@.len() ==> (#[trigger] items@[i]).wf(),
            None => value_of(input@) is None,
        },
    decreases input@.len(), 0int,
{
    let rest = slice_subrange(input, 1, input.len());
    assert(rest@ =~= input@.skip(1));
    let (found, len) = items(rest);
    if 1 + len < input.len() && input[1 + len] == END {
        Some((found, len + 2))
    } else {
        None
    }
}

/// Reads a dictionary between its delimiters, or says where its entries stop.
fn dict(input: &[u8]) -> (res: Result<(Vec<(String, Value)>, usize), usize>)
    requires
        input@.len() > 0,
        input@[0] == DICT,
    ensures
        match res {
            Ok((entries, len)) => value_of(input@) == Some(
                (Tree::Dict(entry_trees(entries@)), len as int),
            ) && len <= input@.len() && Value::Dict(entries).wf(),
            Err(at) => value_of(input@) is None && at == gives_up_at(input@),
        },
    decreases input@.len(), 0int,
{
    let rest = slice_subrange(input, 1, input.len());
    assert(rest@ =~= input@.skip(1));
    let (found, len) = entries(rest);
    if 1 + len < input.len() && input[1 + len] == END {
        Ok((found, len + 2))
    } else {
        Err(1 + len)
    }
}

/// Reads a value.
fn value(input: &[u8]) -> (res: Option<(Value, usize)>)
    ensures
        match res {
            Some((value, len)) => value_of(input@) == Some((value@, len as int)) && 0 < len
                <= input@.len() && value.wf(),
            None => value_of(input@) is None,
        },
    decreases input@.len(), 1int,
{
    proof {
        lemma_value_len(input@);
        lemma_string_len(input@);
    }
    if input.len() == 0 {
        return None;
    }
    let first: u8 = input[0];
    if first == INT {
        match integer(input) {
            Some((n, len)) => Some((Value::Int(n), len)),
            None => None,
        }
    } else if ZERO <= first && first <= NINE {
        match string(input) {
            Some((text, len)) => Some((Value::String(text), len)),
            None => None,
        }
    } else if first == LIST {
        match list(input) {
            Some((items, len)) => Some((Value::List(items), len)),
            None => None,
        }
    } else if first == DICT {
        match dict(input) {
            Ok((entries, len)) => Some((Value::Dict(entries), len)),
            Err(_) => None,
        }
    } else {
        None
    }
}

/// Decodes the value that `input` starts with and returns what follows it.
pub fn decode(input: &[u8]) -> (res: Result<(&[u8], Value), DecodeError>)
    ensures
        match res {
            Ok((rest, value)) => value.wf() && match value_of(input@) {
                Some((tree, len)) => value@ == tree && rest@ == input@.skip(len),
                None => false,
            },
            Err(error) => value_of(input@) is None && match error {
                DecodeError::Unexpected { at } => at == gives_up_at(input@),
                _ => false,
            },
        },
{
    if input.len() > 0 && input[0] == DICT {
        match dict(input) {
            Ok((entries, len)) => Ok(
                (slice_subrange(input, len, input.len()), Value::Dict(entries)),
            ),
            Err(at) => Err(DecodeError::Unexpected { at }),
        }
    } else {
        match value(input) {
            Some((value, len)) => Ok((slice_subrange(input, len, input.len()), value)),
            None => Err(DecodeError::Unexpected { at: 0 }),
        }
    }
}

} // verus!
