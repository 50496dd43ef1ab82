//! The grammar of bencoded values, by what the decoders make of longer and shorter inputs.

use vstd::prelude::*;

use super::nom::{
    entries_of, gives_up_at, items_of, lemma_entries_len, lemma_items_len, lemma_string_len,
    lemma_value_len, string_of, value_of,
};
use super::plain::{dict_outcome, lemma_outcome_len, list_outcome, outcome, Outcome};
use super::syntax::{all_digits, decimal, int_literal, is_digit, lemma_until_is, COLON, END};
use super::{DecodeError, Tree};
use crate::text::utf8_text;

verus! {

/// Whether `w` is one digit or more.
pub open spec fn is_number(w: Seq<u8>) -> bool {
    &&& w.len() > 0
    &&& forall|i: int| 0 <= i < w.len() ==> 0x30 <= #[trigger] w[i] <= 0x39
}

proof fn lemma_is_number(w: Seq<u8>)
    ensures
        is_number(w) <==> w.len() > 0 && all_digits(w),
{
    if w.len() > 0 && all_digits(w) {
        assert forall|i: int| 0 <= i < w.len() implies 0x30 <= #[trigger] w[i] <= 0x39 by {
            assert(is_digit(w[i]));
        }
    }
}

/// Digits denote an integer of 64 bits, with or without a plus before them, and the negative one
/// with a minus. Nothing else does.
pub proof fn law_integer_literals(w: Seq<u8>)
    ensures
        is_number(w) && decimal(w) <= 0x7fff_ffff_ffff_ffff ==> {
            &&& int_literal(w) == Some(decimal(w) as int)
            &&& int_literal(seq![0x2bu8] + w) == Some(decimal(w) as int)
        },
        is_number(w) && decimal(w) > 0x7fff_ffff_ffff_ffff ==> {
            &&& int_literal(w) is None
            &&& int_literal(seq![0x2bu8] + w) is None
        },
        is_number(w) && decimal(w) <= 0x8000_0000_0000_0000 ==> int_literal(seq![0x2du8] + w)
            == Some(-(decimal(w) as int)),
        is_number(w) && decimal(w) > 0x8000_0000_0000_0000 ==> int_literal(seq![0x2du8] + w)
            is None,
        !is_number(w) && !(w.len() > 0 && (w[0] == 0x2b || w[0] == 0x2d) && is_number(w.skip(1)))
            ==> int_literal(w) is None,
{
    let plus = seq![0x2bu8] + w;
    let minus = seq![0x2du8] + w;
    assert(plus.skip(1) =~= w);
    assert(minus.skip(1) =~= w);
    lemma_is_number(w);
    lemma_is_number(w.skip(1));
    if is_number(w) {
        assert(0x30 <= w[0] <= 0x39);
    }
}

/// An integer is what stands between `i` and the first `e`; without an `e` there is none.
pub proof fn law_integers(w: Seq<u8>, rest: Seq<u8>)
    requires
        forall|i: int| 0 <= i < w.len() ==> w[i] != 0x65,
    ensures
        value_of(seq![0x69u8] + w + seq![0x65u8] + rest) == match int_literal(w) {
            Some(n) => Some((Tree::Int(n), w.len() as int + 2)),
            None => None,
        },
        value_of(seq![0x69u8] + w) is None,
        outcome(seq![0x69u8] + w + seq![0x65u8] + rest) == match int_literal(w) {
            Some(n) => Outcome::Value(Tree::Int(n), w.len() as int + 2),
            None => Outcome::Failed(DecodeError::InvalidInteger),
        },
        outcome(seq![0x69u8] + w) == Outcome::Failed(DecodeError::MissingEnd),
{
    let s = seq![0x69u8] + w + seq![0x65u8] + rest;
    let open = seq![0x69u8] + w;
    let end = w.len() as int + 1;
    assert forall|j: int| 0 <= j < end implies s[j] != END by {
        if j > 0 {
            assert(s[j] == w[j - 1]);
        }
    }
    assert(s[end] == END);
    lemma_until_is(s, END, end);
    assert(s.subrange(1, end) =~= w);
    assert forall|j: int| 0 <= j < open.len() implies open[j] != END by {
        if j > 0 {
            assert(open[j] == w[j - 1]);
        }
    }
    lemma_until_is(open, END, open.len() as int);
}

/// A string is digits, a colon, and as many bytes as the digits denote.
pub proof fn law_strings(w: Seq<u8>, b: Seq<u8>)
    requires
        is_number(w),
    ensures
        ({
            let s = w + seq![0x3au8] + b;
            let n = decimal(w) as int;
            let len = w.len() as int + 1 + n;
            let text = Tree::Text(utf8_text(b.take(n)));
            &&& n <= b.len() ==> value_of(s) == Some((text, len))
            &&& n > b.len() ==> value_of(s) is None
            &&& n <= b.len() && n <= usize::MAX ==> outcome(s) == Outcome::Value(text, len)
            &&& b.len() < n <= usize::MAX ==> outcome(s) is Unsupported
            &&& n > usize::MAX ==> outcome(s) == Outcome::Failed(DecodeError::InvalidLength)
        }),
{
    let s = w + seq![0x3au8] + b;
    let n = decimal(w) as int;
    let colon = w.len() as int;
    lemma_is_number(w);
    assert forall|j: int| 0 <= j < colon implies s[j] != COLON by {
        assert(s[j] == w[j]);
    }
    assert(s[colon] == COLON);
    lemma_until_is(s, COLON, colon);
    assert(s.take(colon) =~= w);
    assert(s[0] == w[0]);
    if n <= b.len() {
        assert(s.subrange(colon + 1, colon + 1 + n) =~= b.take(n));
    }
}

/// Digits that no colon follows are no length, and neither is anything but digits before a colon.
pub proof fn law_no_strings(s: Seq<u8>)
    requires
        s.len() > 0,
        0x30 <= s[0] <= 0x39,
    ensures
        (forall|i: int| 0 <= i < s.len() ==> s[i] != 0x3a) ==> value_of(s) is None && outcome(s)
            == Outcome::Failed(DecodeError::MissingColon),
        forall|colon: int|
            0 <= colon < s.len() && s[colon] == 0x3a && (forall|i: int|
                0 <= i < colon ==> s[i] != 0x3a) && !is_number(#[trigger] s.take(colon))
                ==> value_of(s) is None && outcome(s) == Outcome::Failed(
                DecodeError::InvalidLength,
            ),
{
    if forall|i: int| 0 <= i < s.len() ==> s[i] != 0x3a {
        lemma_until_is(s, COLON, s.len() as int);
    }
    assert forall|colon: int|
        0 <= colon < s.len() && s[colon] == 0x3a && (forall|i: int|
            0 <= i < colon ==> s[i] != 0x3a) && !is_number(#[trigger] s.take(colon)) implies
        value_of(s) is None && outcome(s) == Outcome::Failed(DecodeError::InvalidLength) by {
        lemma_until_is(s, COLON, colon);
        lemma_is_number(s.take(colon));
    }
}

/// No value starts otherwise than with `i`, `l`, `d` or a digit.
pub proof fn law_no_other_values(s: Seq<u8>)
    ensures
        s.len() == 0 ==> value_of(s) is None && outcome(s) == Outcome::Failed(DecodeError::Empty),
        s.len() > 0 && s[0] != 0x69 && s[0] != 0x6c && s[0] != 0x64 && !(0x30 <= s[0] <= 0x39)
            ==> value_of(s) is None && outcome(s) is Unsupported,
{
}

/// A list that is read up to a value goes on behind it: `l` and `e` are an empty list, and a value
/// between them comes before the others.
pub proof fn law_lists(r: Seq<u8>)
    ensures
        value_of(seq![0x6cu8] + r) == if r.len() > 0 && r[0] == 0x65 {
            Some((Tree::List(seq![]), 2int))
        } else {
            match value_of(r) {
                None => None,
                Some((item, len)) => match value_of(seq![0x6cu8] + r.skip(len)) {
                    Some((Tree::List(items), more)) => Some(
                        (Tree::List(seq![item] + items), len + more),
                    ),
                    _ => None,
                },
            }
        },
{
    let s = seq![0x6cu8] + r;
    assert(s.skip(1) =~= r);
    lemma_items_len(r);
    lemma_value_len(r);
    if r.len() > 0 && r[0] == 0x65 {
        assert(value_of(r) is None);
    } else if let Some((item, len)) = value_of(r) {
        let t = seq![0x6cu8] + r.skip(len);
        assert(t.skip(1) =~= r.skip(len));
        lemma_items_len(r.skip(len));
        let n = items_of(r.skip(len)).1;
        if n < r.skip(len).len() {
            assert(r.skip(len)[n] == r[len + n]);
        }
    }
}

/// A dictionary that is read up to a pair of a string and a value goes on behind it: `d` and `e`
/// are an empty one, and of two values under the same key the later stands.
pub proof fn law_dictionaries(r: Seq<u8>)
    ensures
        value_of(seq![0x64u8] + r) == if r.len() > 0 && r[0] == 0x65 {
            Some((Tree::Dict(Map::empty()), 2int))
        } else {
            match value_of(r) {
                Some((Tree::Text(key), key_len)) => match value_of(r.skip(key_len)) {
                    Some((value, value_len)) => match value_of(
                        seq![0x64u8] + r.skip(key_len + value_len),
                    ) {
                        Some((Tree::Dict(later), more)) => Some(
                            (
                                Tree::Dict(
                                    Map::empty().insert(key, value).union_prefer_right(later),
                                ),
                                key_len + value_len + more,
                            ),
                        ),
                        _ => None,
                    },
                    None => None,
                },
                _ => None,
            }
        },
{
    let s = seq![0x64u8] + r;
    let none = Map::<Seq<char>, Tree>::empty();
    assert(s.skip(1) =~= r);
    lemma_entries_len(r, none);
    lemma_string_len(r);
    if r.len() > 0 && r[0] == 0x65 {
        assert(string_of(r) is None);
    } else if let Some((key, key_len)) = string_of(r) {
        assert(value_of(r) == Some((Tree::Text(key), key_len)));
        lemma_value_len(r.skip(key_len));
        if let Some((value, value_len)) = value_of(r.skip(key_len)) {
            let len = key_len + value_len;
            let rest = r.skip(len);
            let t = seq![0x64u8] + rest;
            assert(t.skip(1) =~= rest);
            let one = none.insert(key, value);
            lemma_entries_len(rest, none);
            lemma_entries_add(rest, one, none);
            assert(one.union_prefer_right(none) =~= one);
            let n = entries_of(rest, none).1;
            if n < rest.len() {
                assert(rest[n] == r[len + n]);
            }
        } else {
            assert(entries_of(r, none) == (none, 0int));
        }
    } else {
        assert(entries_of(r, none) == (none, 0int));
        assert(!(value_of(r) matches Some((Tree::Text(_), _))));
    }
}

/// What is read before does not change what is read, and what is read later stands.
proof fn lemma_entries_add(s: Seq<u8>, a: Map<Seq<char>, Tree>, b: Map<Seq<char>, Tree>)
    ensures
        entries_of(s, a.union_prefer_right(b)).1 == entries_of(s, b).1,
        entries_of(s, a.union_prefer_right(b)).0 == a.union_prefer_right(entries_of(s, b).0),
    decreases s.len(),
{
    lemma_string_len(s);
    if let Some((key, key_len)) = string_of(s) {
        lemma_value_len(s.skip(key_len));
        if let Some((value, value_len)) = value_of(s.skip(key_len)) {
            lemma_entries_add(s.skip(key_len + value_len), a, b.insert(key, value));
            assert(a.union_prefer_right(b.insert(key, value)) =~= a.union_prefer_right(b).insert(
                key,
                value,
            ));
        }
    }
}

/// The decoder gives up where the pairs of a dictionary stop, and at the start of anything else.
pub proof fn law_where_the_decoder_gives_up(r: Seq<u8>)
    ensures
        r.len() == 0 || r[0] != 0x64 ==> gives_up_at(r) == 0,
        gives_up_at(seq![0x64u8] + r) == match value_of(r) {
            Some((Tree::Text(_), key_len)) => match value_of(r.skip(key_len)) {
                Some((_, value_len)) => key_len + value_len + gives_up_at(
                    seq![0x64u8] + r.skip(key_len + value_len),
                ),
                None => 1,
            },
            _ => 1,
        },
{
    let s = seq![0x64u8] + r;
    let none = Map::<Seq<char>, Tree>::empty();
    assert(s.skip(1) =~= r);
    lemma_string_len(r);
    if let Some((key, key_len)) = string_of(r) {
        assert(value_of(r) == Some((Tree::Text(key), key_len)));
        lemma_value_len(r.skip(key_len));
        if let Some((value, value_len)) = value_of(r.skip(key_len)) {
            let rest = r.skip(key_len + value_len);
            assert((seq![0x64u8] + rest).skip(1) =~= rest);
            let one = none.insert(key, value);
            lemma_entries_add(rest, one, none);
            assert(one.union_prefer_right(none) =~= one);
        }
    } else {
        assert(!(value_of(r) matches Some((Tree::Text(_), _))));
    }
}

/// The decoder that goes by the first byte reads a list up to a value and goes on behind it, unless
/// the list ends there. It needs a value to start with.
pub proof fn law_lists_by_the_first_byte(r: Seq<u8>)
    ensures
        outcome(seq![0x6cu8] + r) == match outcome(r) {
            Outcome::Value(item, len) => if len < r.len() && r[len] == 0x65 {
                Outcome::Value(Tree::List(seq![item]), len + 2)
            } else {
                match outcome(seq![0x6cu8] + r.skip(len)) {
                    Outcome::Value(Tree::List(items), more) => Outcome::Value(
                        Tree::List(seq![item] + items),
                        len + more,
                    ),
                    other => other,
                }
            },
            other => other,
        },
{
    let s = seq![0x6cu8] + r;
    let none = Seq::<Tree>::empty();
    assert(s.skip(1) =~= r);
    lemma_outcome_len(r);
    if let Outcome::Value(item, len) = outcome(r) {
        assert(none.push(item) =~= seq![item]);
        if !(len < r.len() && r[len] == 0x65) {
            let rest = r.skip(len);
            let t = seq![0x6cu8] + rest;
            assert(t.skip(1) =~= rest);
            assert(seq![item] + none =~= none.push(item));
            lemma_list_add(rest, seq![item], none);
            lemma_list_is_list(rest, none);
        }
    }
}

proof fn lemma_list_is_list(s: Seq<u8>, items: Seq<Tree>)
    ensures
        match list_outcome(s, items) {
            Outcome::Value(tree, _) => tree is List,
            _ => true,
        },
    decreases s.len(),
{
    lemma_outcome_len(s);
    if let Outcome::Value(item, len) = outcome(s) {
        if !(len < s.len() && s[len] == END) {
            lemma_list_is_list(s.skip(len), items.push(item));
        }
    }
}

proof fn lemma_list_add(s: Seq<u8>, a: Seq<Tree>, b: Seq<Tree>)
    ensures
        list_outcome(s, a + b) == match list_outcome(s, b) {
            Outcome::Value(Tree::List(items), len) => Outcome::Value(Tree::List(a + items), len),
            other => other,
        },
    decreases s.len(),
{
    lemma_outcome_len(s);
    if let Outcome::Value(item, len) = outcome(s) {
        assert((a + b).push(item) =~= a + b.push(item));
        if !(len < s.len() && s[len] == END) {
            lemma_list_add(s.skip(len), a, b.push(item));
            lemma_list_is_list(s.skip(len), b.push(item));
        }
    }
}

/// That decoder reads a dictionary up to a pair of a string and a value and goes on behind it,
/// unless the dictionary ends there. It needs a pair to start with, and every key to be a string.
/// Of two values under the same key the later stands.
pub proof fn law_dictionaries_by_the_first_byte(r: Seq<u8>)
    ensures
        outcome(seq![0x64u8] + r) == match outcome(r) {
            Outcome::Value(Tree::Text(key), key_len) => match outcome(r.skip(key_len)) {
                Outcome::Value(value, value_len) => {
                    let len = key_len + value_len;
                    let one = Map::empty().insert(key, value);
                    if len < r.len() && r[len] == 0x65 {
                        Outcome::Value(Tree::Dict(one), len + 2)
                    } else {
                        match outcome(seq![0x64u8] + r.skip(len)) {
                            Outcome::Value(Tree::Dict(later), more) => Outcome::Value(
                                Tree::Dict(one.union_prefer_right(later)),
                                len + more,
                            ),
                            other => other,
                        }
                    }
                },
                other => other,
            },
            Outcome::Value(_, _) => Outcome::Unsupported,
            other => other,
        },
{
    let s = seq![0x64u8] + r;
    let none = Map::<Seq<char>, Tree>::empty();
    assert(s.skip(1) =~= r);
    lemma_outcome_len(r);
    if let Outcome::Value(Tree::Text(key), key_len) = outcome(r) {
        lemma_outcome_len(r.skip(key_len));
        if let Outcome::Value(value, value_len) = outcome(r.skip(key_len)) {
            let len = key_len + value_len;
            let one = none.insert(key, value);
            if !(len < r.len() && r[len] == 0x65) {
                let rest = r.skip(len);
                let t = seq![0x64u8] + rest;
                assert(t.skip(1) =~= rest);
                assert(one.union_prefer_right(none) =~= one);
                lemma_dict_add(rest, one, none);
                lemma_dict_is_dict(rest, none);
            }
        }
    }
}

proof fn lemma_dict_is_dict(s: Seq<u8>, map: Map<Seq<char>, Tree>)
    ensures
        match dict_outcome(s, map) {
            Outcome::Value(tree, _) => tree is Dict,
            _ => true,
        },
    decreases s.len(),
{
    lemma_outcome_len(s);
    if let Outcome::Value(Tree::Text(key), key_len) = outcome(s) {
        lemma_outcome_len(s.skip(key_len));
        if let Outcome::Value(value, value_len) = outcome(s.skip(key_len)) {
            let len = key_len + value_len;
            if !(len < s.len() && s[len] == END) {
                lemma_dict_is_dict(s.skip(len), map.insert(key, value));
            }
        }
    }
}

proof fn lemma_dict_add(s: Seq<u8>, a: Map<Seq<char>, Tree>, b: Map<Seq<char>, Tree>)
    ensures
        dict_outcome(s, a.union_prefer_right(b)) == match dict_outcome(s, b) {
            Outcome::Value(Tree::Dict(map), len) => Outcome::Value(
                Tree::Dict(a.union_prefer_right(map)),
                len,
            ),
            other => other,
        },
    decreases s.len(),
{
    lemma_outcome_len(s);
    if let Outcome::Value(Tree::Text(key), key_len) = outcome(s) {
        lemma_outcome_len(s.skip(key_len));
        if let Outcome::Value(value, value_len) = outcome(s.skip(key_len)) {
            let len = key_len + value_len;
            assert(a.union_prefer_right(b.insert(key, value)) =~= a.union_prefer_right(b).insert(
                key,
                value,
            ));
            if !(len < s.len() && s[len] == END) {
                lemma_dict_add(s.skip(len), a, b.insert(key, value));
                lemma_dict_is_dict(s.skip(len), b.insert(key, value));
            }
        }
    }
}

} // verus!
