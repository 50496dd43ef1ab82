//! What the decoders make of every encoded value.

use vstd::prelude::*;
use vstd::utf8::encode_utf8;

use super::dict::{before, key_bytes, lemma_before_not_same, lemma_entry_trees, lemma_same_keys};
use super::encode::{digits, lemma_digits, signed_bytes, string_bytes};
use super::laws::law_decoders_agree;
use super::nom::{
    entries_of, integer_of, items_of, lemma_string_len, lemma_value_len, value_of,
};
use super::plain::{dict_outcome, lemma_outcome_len, list_outcome, outcome, Outcome};
use super::round_trip::{law_int_round_trip, law_string_round_trip};
use super::syntax::{is_digit, lemma_until_is, DICT, END, INT, LIST, MINUS};
use super::{entry_trees, item_trees, Decoder, Tree, Value};
use crate::text::lemma_utf8_text;

verus! {

impl Value {
    /// The value in bencode.
    pub open spec fn benc(self) -> Seq<u8>
        decreases self,
    {
        match self {
            Value::Int(n) => signed_bytes(n as int),
            Value::String(text) => string_bytes(encode_utf8(text@)),
            Value::List(items) => seq![LIST] + items_benc(items@) + seq![END],
            Value::Dict(entries) => seq![DICT] + entries_benc(entries@) + seq![END],
        }
    }

    /// Whether no list and no dictionary in the value is empty.
    pub open spec fn is_filled(self) -> bool
        decreases self,
    {
        match self {
            Value::Int(_) => true,
            Value::String(_) => true,
            Value::List(items) => items@.len() > 0 && forall|i: int|
                0 <= i < items@.len() ==> (#[trigger] items@[i]).is_filled(),
            Value::Dict(entries) => entries@.len() > 0 && forall|i: int|
                0 <= i < entries@.len() ==> (#[trigger] entries@[i]).1.is_filled(),
        }
    }
}

/// Values in bencode, one after the other.
pub open spec fn items_benc(items: Seq<Value>) -> Seq<u8>
    decreases items,
{
    if items.len() == 0 {
        seq![]
    } else {
        items[0].benc() + items_benc(items.skip(1))
    }
}

/// Keys and values in bencode, one after the other.
pub open spec fn entries_benc(entries: Seq<(String, Value)>) -> Seq<u8>
    decreases entries,
{
    if entries.len() == 0 {
        seq![]
    } else {
        string_bytes(encode_utf8(entries[0].0@)) + entries[0].1.benc() + entries_benc(
            entries.skip(1),
        )
    }
}

/// Whether a decoder reads every value like `v` back from `len` bytes. That which goes by the first
/// byte needs an element in every list and dictionary, and an input that fits into memory.
pub open spec fn reads_back(decoder: Decoder, v: Value, len: nat) -> bool {
    decoder is Plain ==> v.is_filled() && len <= usize::MAX
}

/// Every value is read back from its encoding, whatever follows it.
pub proof fn law_value_round_trip(decoder: Decoder, v: Value, rest: Seq<u8>)
    requires
        reads_back(decoder, v, (v.benc() + rest).len()),
    ensures
        decoder.can_decode(v.benc() + rest),
        decoder.value(v.benc() + rest) == Some((v@, v.benc().len() as int)),
        (v.benc() + rest).skip(v.benc().len() as int) == rest,
{
    assert((v.benc() + rest).skip(v.benc().len() as int) =~= rest);
    match decoder {
        Decoder::Nom => lemma_nom_value(v, rest),
        Decoder::Plain => lemma_plain_value(v, rest),
    }
}

/// Whether two values hold the same.
pub open spec fn alike(a: Value, b: Value) -> bool
    decreases a,
{
    match (a, b) {
        (Value::Int(m), Value::Int(n)) => m == n,
        (Value::String(m), Value::String(n)) => m@ == n@,
        (Value::List(m), Value::List(n)) => m@.len() == n@.len() && forall|i: int|
            0 <= i < m@.len() ==> alike(#[trigger] m@[i], n@[i]),
        (Value::Dict(m), Value::Dict(n)) => m@.len() == n@.len() && forall|i: int|
            0 <= i < m@.len() ==> (#[trigger] m@[i]).0@ == n@[i].0@ && alike(m@[i].1, n@[i].1),
        _ => false,
    }
}

/// Values with ascending keys that stand for the same hold the same, so a value that is read back
/// is the value that was written.
pub proof fn law_values_are_told_by_what_they_stand_for(a: Value, b: Value)
    requires
        a.wf(),
        b.wf(),
        a@ == b@,
    ensures
        alike(a, b),
    decreases a,
{
    match (a, b) {
        (Value::List(m), Value::List(n)) => {
            assert(item_trees(m@).len() == item_trees(n@).len());
            assert forall|i: int| 0 <= i < m@.len() implies alike(#[trigger] m@[i], n@[i]) by {
                assert(item_trees(m@)[i] == item_trees(n@)[i]);
                law_values_are_told_by_what_they_stand_for(m@[i], n@[i]);
            }
        },
        (Value::Dict(m), Value::Dict(n)) => {
            lemma_same_keys(m@, n@);
            lemma_entry_trees(m@);
            lemma_entry_trees(n@);
            assert forall|i: int| 0 <= i < m@.len() implies (#[trigger] m@[i]).0@ == n@[i].0@
                && alike(m@[i].1, n@[i].1) by {
                assert(entry_trees(n@)[n@[i].0@] == n@[i].1.tree());
                law_values_are_told_by_what_they_stand_for(m@[i].1, n@[i].1);
            }
        },
        _ => {},
    }
}

/// A negative integer is read back from its encoding.
proof fn lemma_negative(n: int, rest: Seq<u8>)
    requires
        i64::MIN <= n < 0,
    ensures
        integer_of(signed_bytes(n) + rest) == Some((n, signed_bytes(n).len() as int)),
{
    let all = signed_bytes(n) + rest;
    let number = digits((-n) as nat);
    let end = 2 + number.len() as int;
    lemma_digits((-n) as nat);
    assert forall|j: int| 0 <= j < end implies all[j] != END by {
        if j > 1 {
            assert(is_digit(number[j - 2]));
            assert(all[j] == number[j - 2]);
        }
    }
    assert(all[end] == END);
    lemma_until_is(all, END, end);
    let literal = all.subrange(1, end);
    assert(literal[0] == MINUS);
    assert(literal.skip(1) =~= number);
}

proof fn lemma_int(n: i64, rest: Seq<u8>)
    ensures
        value_of(signed_bytes(n as int) + rest) == Some(
            (Tree::Int(n as int), signed_bytes(n as int).len() as int),
        ),
{
    if n >= 0 {
        law_int_round_trip(n as nat, rest);
    } else {
        lemma_negative(n as int, rest);
    }
}

/// No value starts as the end of a list does.
proof fn lemma_benc_start(v: Value)
    ensures
        v.benc().len() > 0,
        v.benc()[0] != END,
{
    if let Value::String(text) = v {
        law_string_round_trip(encode_utf8(text@), seq![]);
        lemma_string_len(string_bytes(encode_utf8(text@)) + seq![]);
        assert(string_bytes(encode_utf8(text@)) + seq![] =~= v.benc());
    }
}

proof fn lemma_item_trees(items: Seq<Value>)
    requires
        items.len() > 0,
    ensures
        item_trees(items) == seq![items[0].tree()] + item_trees(items.skip(1)),
{
    assert(item_trees(items) =~= seq![items[0].tree()] + item_trees(items.skip(1)));
}

proof fn lemma_nom_value(v: Value, rest: Seq<u8>)
    ensures
        value_of(v.benc() + rest) == Some((v.tree(), v.benc().len() as int)),
    decreases v,
{
    let s = v.benc() + rest;
    match v {
        Value::Int(n) => {
            lemma_int(n, rest);
        },
        Value::String(text) => {
            law_string_round_trip(encode_utf8(text@), rest);
            lemma_utf8_text(text@);
        },
        Value::List(items) => {
            let tail = seq![END] + rest;
            lemma_nom_items(items@, tail);
            assert(s.skip(1) =~= items_benc(items@) + tail);
            assert(s[1 + items_benc(items@).len() as int] == END);
        },
        Value::Dict(entries) => {
            let tail = seq![END] + rest;
            lemma_nom_entries(seq![], entries@, tail);
            assert(seq![] + entries@ =~= entries@);
            assert(s.skip(1) =~= entries_benc(entries@) + tail);
            assert(s[1 + entries_benc(entries@).len() as int] == END);
        },
    }
}

proof fn lemma_nom_items(items: Seq<Value>, tail: Seq<u8>)
    requires
        tail.len() > 0,
        tail[0] == END,
    ensures
        items_of(items_benc(items) + tail) == (item_trees(items), items_benc(items).len() as int),
    decreases items,
{
    let s = items_benc(items) + tail;
    if items.len() == 0 {
        assert(s[0] == END);
        assert(value_of(s) is None);
        assert(item_trees(items) =~= seq![]);
    } else {
        let first = items[0].benc();
        let others = items_benc(items.skip(1)) + tail;
        lemma_nom_value(items[0], others);
        assert(s =~= first + others);
        lemma_value_len(s);
        assert(s.skip(first.len() as int) =~= others);
        lemma_nom_items(items.skip(1), tail);
        lemma_item_trees(items);
    }
}

proof fn lemma_nom_entries(
    known: Seq<(String, Value)>,
    entries: Seq<(String, Value)>,
    tail: Seq<u8>,
)
    requires
        tail.len() > 0,
        tail[0] == END,
    ensures
        entries_of(entries_benc(entries) + tail, entry_trees(known)) == (
            entry_trees(known + entries),
            entries_benc(entries).len() as int,
        ),
    decreases entries,
{
    let s = entries_benc(entries) + tail;
    if entries.len() == 0 {
        assert(s[0] == END);
        lemma_string_len(s);
        assert(known + entries =~= known);
    } else {
        let key = string_bytes(encode_utf8(entries[0].0@));
        let value = entries[0].1.benc();
        let others = entries_benc(entries.skip(1)) + tail;
        assert(s =~= key + (value + others));
        law_string_round_trip(encode_utf8(entries[0].0@), value + others);
        lemma_utf8_text(entries[0].0@);
        lemma_string_len(s);
        assert(s.skip(key.len() as int) =~= value + others);
        lemma_nom_value(entries[0].1, others);
        lemma_value_len(value + others);
        assert(s.skip((key.len() + value.len()) as int) =~= others);
        let more = known.push(entries[0]);
        assert(more.drop_last() =~= known);
        lemma_nom_entries(more, entries.skip(1), tail);
        assert(more + entries.skip(1) =~= known + entries);
    }
}

/// A string is read back by either decoder.
proof fn lemma_plain_string(text: Seq<char>, rest: Seq<u8>)
    requires
        (string_bytes(encode_utf8(text)) + rest).len() <= usize::MAX,
    ensures
        outcome(string_bytes(encode_utf8(text)) + rest) == Outcome::Value(
            Tree::Text(text),
            string_bytes(encode_utf8(text)).len() as int,
        ),
{
    let s = string_bytes(encode_utf8(text)) + rest;
    law_string_round_trip(encode_utf8(text), rest);
    lemma_utf8_text(text);
    lemma_string_len(s);
    law_decoders_agree(s);
}

proof fn lemma_plain_value(v: Value, rest: Seq<u8>)
    requires
        v.is_filled(),
        (v.benc() + rest).len() <= usize::MAX,
    ensures
        outcome(v.benc() + rest) == Outcome::Value(v.tree(), v.benc().len() as int),
    decreases v,
{
    let s = v.benc() + rest;
    match v {
        Value::Int(n) => {
            lemma_int(n, rest);
            assert(s[0] == INT);
            law_decoders_agree(s);
        },
        Value::String(text) => {
            lemma_plain_string(text@, rest);
        },
        Value::List(items) => {
            let tail = seq![END] + rest;
            assert(s.skip(1) =~= items_benc(items@) + tail);
            lemma_plain_items(seq![], items@, tail);
            assert(seq![] + item_trees(items@) =~= item_trees(items@));
        },
        Value::Dict(entries) => {
            let tail = seq![END] + rest;
            assert(s.skip(1) =~= entries_benc(entries@) + tail);
            lemma_plain_entries(seq![], entries@, tail);
            assert(seq![] + entries@ =~= entries@);
        },
    }
}

proof fn lemma_plain_items(known: Seq<Tree>, items: Seq<Value>, tail: Seq<u8>)
    requires
        items.len() > 0,
        forall|i: int| 0 <= i < items.len() ==> (#[trigger] items[i]).is_filled(),
        tail.len() > 0,
        tail[0] == END,
        (items_benc(items) + tail).len() <= usize::MAX,
    ensures
        list_outcome(items_benc(items) + tail, known) == Outcome::Value(
            Tree::List(known + item_trees(items)),
            items_benc(items).len() as int + 1,
        ),
    decreases items,
{
    let s = items_benc(items) + tail;
    let first = items[0].benc();
    let others = items_benc(items.skip(1)) + tail;
    assert(s =~= first + others);
    lemma_plain_value(items[0], others);
    lemma_outcome_len(s);
    lemma_item_trees(items);
    assert(s.skip(first.len() as int) =~= others);
    assert(s[first.len() as int] == others[0]);
    if items.len() == 1 {
        assert(items_benc(items.skip(1)) =~= seq![]);
        assert(item_trees(items.skip(1)) =~= seq![]);
        assert(known + item_trees(items) =~= known.push(items[0].tree()));
    } else {
        let next = items.skip(1)[0];
        lemma_benc_start(next);
        assert(others[0] == next.benc()[0]);
        assert forall|i: int| 0 <= i < items.skip(1).len() implies (
        #[trigger] items.skip(1)[i]).is_filled() by {
            assert(items[i + 1].is_filled());
        }
        lemma_plain_items(known.push(items[0].tree()), items.skip(1), tail);
        assert(known.push(items[0].tree()) + item_trees(items.skip(1)) =~= known + item_trees(
            items,
        ));
    }
}

proof fn lemma_plain_entries(
    known: Seq<(String, Value)>,
    entries: Seq<(String, Value)>,
    tail: Seq<u8>,
)
    requires
        entries.len() > 0,
        forall|i: int| 0 <= i < entries.len() ==> (#[trigger] entries[i]).1.is_filled(),
        tail.len() > 0,
        tail[0] == END,
        (entries_benc(entries) + tail).len() <= usize::MAX,
    ensures
        dict_outcome(entries_benc(entries) + tail, entry_trees(known)) == Outcome::Value(
            Tree::Dict(entry_trees(known + entries)),
            entries_benc(entries).len() as int + 1,
        ),
    decreases entries,
{
    let s = entries_benc(entries) + tail;
    let key = string_bytes(encode_utf8(entries[0].0@));
    let value = entries[0].1.benc();
    let others = entries_benc(entries.skip(1)) + tail;
    let len = (key.len() + value.len()) as int;
    let more = known.push(entries[0]);
    assert(more.drop_last() =~= known);
    assert(s =~= key + (value + others));
    lemma_plain_string(entries[0].0@, value + others);
    lemma_outcome_len(s);
    assert(s.skip(key.len() as int) =~= value + others);
    lemma_plain_value(entries[0].1, others);
    lemma_outcome_len(value + others);
    assert(s.skip(len) =~= others);
    assert(s[len] == others[0]);
    if entries.len() == 1 {
        assert(entries_benc(entries.skip(1)) =~= seq![]);
        assert(known + entries =~= more);
    } else {
        let next = string_bytes(encode_utf8(entries.skip(1)[0].0@));
        law_string_round_trip(encode_utf8(entries.skip(1)[0].0@), seq![]);
        lemma_string_len(next + seq![]);
        assert(next + seq![] =~= next);
        assert(others[0] == next[0]);
        assert forall|i: int| 0 <= i < entries.skip(1).len() implies (
        #[trigger] entries.skip(1)[i]).1.is_filled() by {
            assert(entries[i + 1].1.is_filled());
        }
        lemma_plain_entries(more, entries.skip(1), tail);
        assert(more + entries.skip(1) =~= known + entries);
    }
}

/// A value stands for the number, the text or the items that it holds, and a dictionary with
/// ascending keys for exactly the values under its keys.
pub proof fn law_what_a_value_stands_for(v: Value)
    ensures
        match v {
            Value::Int(n) => v@ == Tree::Int(n as int),
            Value::String(text) => v@ == Tree::Text(text@),
            Value::List(items) => match v@ {
                Tree::List(trees) => trees.len() == items@.len() && forall|i: int|
                    0 <= i < items@.len() ==> #[trigger] trees[i] == items@[i]@,
                _ => false,
            },
            Value::Dict(entries) => v.wf() ==> match v@ {
                Tree::Dict(map) => {
                    &&& forall|i: int|
                        0 <= i < entries@.len() ==> map.contains_key((#[trigger] entries@[i]).0@)
                            && map[entries@[i].0@] == entries@[i].1@
                    &&& forall|key: Seq<char>| #[trigger]
                        map.contains_key(key) ==> exists|i: int|
                            0 <= i < entries@.len() && (#[trigger] entries@[i]).0@ == key
                    &&& forall|i: int, j: int|
                        0 <= i < j < entries@.len() ==> (#[trigger] entries@[i]).0@ != (
                        #[trigger] entries@[j]).0@ && before(
                            encode_utf8(entries@[i].0@),
                            encode_utf8(entries@[j].0@),
                        )
                },
                _ => false,
            },
        },
{
    if let Value::Dict(entries) = v {
        if v.wf() {
            lemma_entry_trees(entries@);
            assert forall|i: int, j: int| 0 <= i < j < entries@.len() implies (
            #[trigger] entries@[i]).0@ != (#[trigger] entries@[j]).0@ && before(
                encode_utf8(entries@[i].0@),
                encode_utf8(entries@[j].0@),
            ) by {
                lemma_before_not_same(key_bytes(entries@[j].0@));
            }
        }
    }
}

} // verus!
