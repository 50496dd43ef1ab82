//! What holds of the decoders together.

use vstd::prelude::*;

use super::nom::{
    entries_of, gives_up_at, items_of, lemma_entries_len, lemma_items_len, lemma_string_len,
    lemma_value_len, string_of, value_of,
};
use super::plain::{
    dict_outcome, lemma_dict_len, lemma_list_len, lemma_outcome_len, list_outcome, outcome, Outcome,
};
use super::syntax::{
    decimal, is_digit, lemma_until, lemma_until_is, until, COLON, DICT, END, INT, LIST,
};
use super::{DecodeError, Decoder, Tree};

verus! {

/// Whether two inputs start with the same `n` bytes.
pub open spec fn same_start(s: Seq<u8>, t: Seq<u8>, n: int) -> bool {
    &&& n <= s.len()
    &&& n <= t.len()
    &&& forall|i: int| 0 <= i < n ==> s[i] == t[i]
}

/// A value depends on nothing but the bytes that it takes.
pub proof fn law_value_depends_on_its_bytes(decoder: Decoder, s: Seq<u8>, t: Seq<u8>)
    requires
        match decoder.value(s) {
            Some((_, len)) => same_start(s, t, len),
            None => false,
        },
    ensures
        decoder.value(t) == decoder.value(s),
{
    match decoder {
        Decoder::Nom => lemma_value_same(s, t),
        Decoder::Plain => lemma_outcome_same(s, t),
    }
}

/// Whatever follows a value, the value is read all the same.
pub proof fn law_what_follows_does_not_matter(decoder: Decoder, s: Seq<u8>, t: Seq<u8>)
    requires
        decoder.value(s) is Some,
    ensures
        decoder.value(s + t) == decoder.value(s),
{
    lemma_value_len(s);
    lemma_outcome_len(s);
    law_value_depends_on_its_bytes(decoder, s, s + t);
}

proof fn lemma_value_same(s: Seq<u8>, t: Seq<u8>)
    requires
        match value_of(s) {
            Some((_, len)) => same_start(s, t, len),
            None => false,
        },
    ensures
        value_of(t) == value_of(s),
    decreases s.len(), 0int,
{
    lemma_value_len(s);
    if s[0] == INT {
        lemma_until(s, END);
        lemma_until_is(t, END, until(s, END));
        assert(t.subrange(1, until(s, END)) =~= s.subrange(1, until(s, END)));
    } else if is_digit(s[0]) {
        lemma_string_same(s, t);
    } else if s[0] == LIST {
        lemma_items_len(s.skip(1));
        lemma_items_same(s.skip(1), t.skip(1));
    } else if s[0] == DICT {
        lemma_entries_len(s.skip(1), Map::empty());
        lemma_entries_same(s.skip(1), t.skip(1), Map::empty());
    }
}

proof fn lemma_string_same(s: Seq<u8>, t: Seq<u8>)
    requires
        match string_of(s) {
            Some((_, len)) => same_start(s, t, len),
            None => false,
        },
    ensures
        string_of(t) == string_of(s),
{
    let colon = until(s, COLON);
    lemma_until(s, COLON);
    lemma_until_is(t, COLON, colon);
    assert(t.take(colon) =~= s.take(colon));
    let (_, end) = string_of(s).unwrap();
    assert(t.subrange(colon + 1, end) =~= s.subrange(colon + 1, end));
}

proof fn lemma_items_same(s: Seq<u8>, t: Seq<u8>)
    requires
        items_of(s).1 < s.len(),
        s[items_of(s).1] == END,
        same_start(s, t, items_of(s).1 + 1),
    ensures
        items_of(t) == items_of(s),
    decreases s.len(), 1int,
{
    lemma_value_len(s);
    match value_of(s) {
        Some((_, len)) => {
            lemma_items_len(s.skip(len));
            lemma_value_same(s, t);
            lemma_items_same(s.skip(len), t.skip(len));
            assert(items_of(t).0 =~= items_of(s).0);
        },
        None => {
            assert(t[0] == END);
            assert(value_of(t) is None);
        },
    }
}

proof fn lemma_entries_same(s: Seq<u8>, t: Seq<u8>, map: Map<Seq<char>, Tree>)
    requires
        entries_of(s, map).1 < s.len(),
        s[entries_of(s, map).1] == END,
        same_start(s, t, entries_of(s, map).1 + 1),
    ensures
        entries_of(t, map) == entries_of(s, map),
    decreases s.len(), 1int,
{
    lemma_string_len(s);
    lemma_string_len(t);
    if let Some((key, key_len)) = string_of(s) {
        lemma_value_len(s.skip(key_len));
        if let Some((value, value_len)) = value_of(s.skip(key_len)) {
            let rest = s.skip(key_len + value_len);
            lemma_entries_len(rest, map.insert(key, value));
            lemma_string_same(s, t);
            lemma_value_same(s.skip(key_len), t.skip(key_len));
            lemma_entries_same(rest, t.skip(key_len + value_len), map.insert(key, value));
        } else {
            assert(is_digit(s[0]));
        }
    } else {
        assert(t[0] == END);
    }
}

proof fn lemma_outcome_same(s: Seq<u8>, t: Seq<u8>)
    requires
        match outcome(s) {
            Outcome::Value(_, len) => same_start(s, t, len),
            _ => false,
        },
    ensures
        outcome(t) == outcome(s),
    decreases s.len(), 0int,
{
    lemma_outcome_len(s);
    if is_digit(s[0]) {
        let colon = until(s, COLON);
        lemma_until(s, COLON);
        lemma_until_is(t, COLON, colon);
        assert(t.take(colon) =~= s.take(colon));
        let end = colon + 1 + decimal(s.take(colon));
        assert(t.subrange(colon + 1, end) =~= s.subrange(colon + 1, end));
    } else if s[0] == INT {
        lemma_until(s, END);
        lemma_until_is(t, END, until(s, END));
        assert(t.subrange(1, until(s, END)) =~= s.subrange(1, until(s, END)));
    } else if s[0] == LIST {
        lemma_list_same(s.skip(1), t.skip(1), seq![]);
    } else if s[0] == DICT {
        lemma_dict_same(s.skip(1), t.skip(1), Map::empty());
    }
}

proof fn lemma_list_same(s: Seq<u8>, t: Seq<u8>, items: Seq<Tree>)
    requires
        match list_outcome(s, items) {
            Outcome::Value(_, len) => same_start(s, t, len),
            _ => false,
        },
    ensures
        list_outcome(t, items) == list_outcome(s, items),
    decreases s.len(), 1int,
{
    lemma_outcome_len(s);
    if let Outcome::Value(item, len) = outcome(s) {
        if len < s.len() && s[len] == END {
            lemma_outcome_same(s, t);
        } else {
            lemma_list_len(s.skip(len), items.push(item));
            lemma_outcome_same(s, t);
            lemma_list_same(s.skip(len), t.skip(len), items.push(item));
        }
    }
}

proof fn lemma_dict_same(s: Seq<u8>, t: Seq<u8>, map: Map<Seq<char>, Tree>)
    requires
        match dict_outcome(s, map) {
            Outcome::Value(_, len) => same_start(s, t, len),
            _ => false,
        },
    ensures
        dict_outcome(t, map) == dict_outcome(s, map),
    decreases s.len(), 1int,
{
    lemma_outcome_len(s);
    if let Outcome::Value(Tree::Text(key), key_len) = outcome(s) {
        let after_key = s.skip(key_len);
        lemma_outcome_len(after_key);
        if let Outcome::Value(value, value_len) = outcome(after_key) {
            let len = key_len + value_len;
            if !(len < s.len() && s[len] == END) {
                lemma_dict_len(s.skip(len), map.insert(key, value));
            }
            lemma_outcome_same(s, t);
            lemma_outcome_same(after_key, t.skip(key_len));
            if !(len < s.len() && s[len] == END) {
                lemma_dict_same(s.skip(len), t.skip(len), map.insert(key, value));
            }
        }
    }
}

/// Both decoders read the same value from every input in memory that both support, or none.
pub proof fn law_decoders_agree(s: Seq<u8>)
    requires
        s.len() <= usize::MAX,
        Decoder::Plain.can_decode(s),
    ensures
        Decoder::Plain.value(s) == Decoder::Nom.value(s),
    decreases s.len(), 0int,
{
    lemma_until(s, COLON);
    lemma_until(s, END);
    if s.len() > 0 {
        if is_digit(s[0]) {
            lemma_string_len(s);
        } else if s[0] == LIST {
            lemma_items_len(s.skip(1));
            lemma_lists_agree(s.skip(1), seq![]);
            assert(seq![] + items_of(s.skip(1)).0 =~= items_of(s.skip(1)).0);
        } else if s[0] == DICT {
            lemma_entries_len(s.skip(1), Map::empty());
            lemma_dicts_agree(s.skip(1), Map::empty());
        }
    }
}

proof fn lemma_lists_agree(s: Seq<u8>, known: Seq<Tree>)
    requires
        s.len() <= usize::MAX,
        list_outcome(s, known) !is Unsupported,
    ensures
        match list_outcome(s, known) {
            Outcome::Value(tree, len) => {
                let (items, items_len) = items_of(s);
                &&& tree == Tree::List(known + items)
                &&& len == items_len + 1
                &&& items_len < s.len()
                &&& s[items_len] == END
            },
            _ => items_of(s).1 < s.len() ==> s[items_of(s).1] != END,
        },
    decreases s.len(), 1int,
{
    lemma_outcome_len(s);
    lemma_value_len(s);
    law_decoders_agree(s);
    if let Outcome::Value(item, len) = outcome(s) {
        let rest = s.skip(len);
        if len < s.len() && s[len] == END {
            assert(rest[0] == END);
            assert(value_of(rest) is None);
            assert(items_of(rest) == (Seq::<Tree>::empty(), 0int));
            assert(seq![item] + Seq::<Tree>::empty() =~= seq![item]);
            assert(known + seq![item] =~= known.push(item));
        } else {
            lemma_lists_agree(rest, known.push(item));
            assert(known.push(item) + items_of(rest).0 =~= known + (seq![item] + items_of(
                rest,
            ).0));
            lemma_items_len(rest);
        }
    }
}

proof fn lemma_dicts_agree(s: Seq<u8>, known: Map<Seq<char>, Tree>)
    requires
        s.len() <= usize::MAX,
        dict_outcome(s, known) !is Unsupported,
    ensures
        match dict_outcome(s, known) {
            Outcome::Value(tree, len) => {
                let (map, map_len) = entries_of(s, known);
                &&& tree == Tree::Dict(map)
                &&& len == map_len + 1
                &&& map_len < s.len()
                &&& s[map_len] == END
            },
            _ => entries_of(s, known).1 < s.len() ==> s[entries_of(s, known).1] != END,
        },
    decreases s.len(), 1int,
{
    lemma_outcome_len(s);
    lemma_string_len(s);
    law_decoders_agree(s);
    match outcome(s) {
        Outcome::Value(Tree::Text(key), key_len) => {
            lemma_text_is_string(s);
            let after_key = s.skip(key_len);
            lemma_outcome_len(after_key);
            law_decoders_agree(after_key);
            if let Outcome::Value(value, value_len) = outcome(after_key) {
                let len = key_len + value_len;
                let rest = s.skip(len);
                if len < s.len() && s[len] == END {
                    lemma_string_len(rest);
                    assert(rest[0] == END);
                    assert(entries_of(rest, known.insert(key, value)) == (
                        known.insert(key, value),
                        0int,
                    ));
                } else {
                    lemma_dicts_agree(rest, known.insert(key, value));
                    lemma_entries_len(rest, known.insert(key, value));
                }
            }
        },
        _ => {},
    }
}

/// A value that is a text is a string.
proof fn lemma_text_is_string(s: Seq<u8>)
    requires
        value_of(s) matches Some((Tree::Text(_), _)),
    ensures
        value_of(s) == match string_of(s) {
            Some((text, len)) => Some((Tree::Text(text), len)),
            None => None,
        },
{
}

/// Each decoder reads what its grammar gives, and says why where that is nothing.
pub proof fn law_each_decoder_has_its_grammar(s: Seq<u8>)
    ensures
        Decoder::Nom.value(s) == value_of(s),
        Decoder::Nom.can_decode(s),
        gives_up_at(s) <= usize::MAX ==> Decoder::Nom.failure(s) == (DecodeError::Unexpected {
            at: gives_up_at(s) as usize,
        }),
        match outcome(s) {
            Outcome::Value(tree, len) => {
                &&& Decoder::Plain.can_decode(s)
                &&& Decoder::Plain.value(s) == Some((tree, len))
            },
            Outcome::Failed(error) => {
                &&& Decoder::Plain.can_decode(s)
                &&& Decoder::Plain.value(s) is None
                &&& Decoder::Plain.failure(s) == error
            },
            Outcome::Unsupported => !Decoder::Plain.can_decode(s),
        },
{
}

} // verus!
