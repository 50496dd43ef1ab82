//! The entries of a dictionary, kept in ascending order of their keys.

use vstd::prelude::*;

use super::{entry_trees, Value};

verus! {

/// How two byte strings are ordered.
pub enum Order {
    Less,
    Same,
    Greater,
}

/// Whether `a` comes before `b` in the lexicographic order of byte strings.
pub open spec fn before(a: Seq<u8>, b: Seq<u8>) -> bool
    decreases b.len(),
{
    if b.len() == 0 {
        false
    } else if a.len() == 0 {
        true
    } else if a[0] != b[0] {
        a[0] < b[0]
    } else {
        before(a.skip(1), b.skip(1))
    }
}

/// The bytes by which a key is ordered.
pub open spec fn key_bytes(key: Seq<char>) -> Seq<u8> {
    vstd::utf8::encode_utf8(key)
}

/// Whether the keys of `entries` ascend strictly, so that none occurs twice.
pub open spec fn ascending(entries: Seq<(String, Value)>) -> bool {
    forall|i: int, j: int|
        0 <= i < j < entries.len() ==> before(
            key_bytes(#[trigger] entries[i].0@),
            key_bytes(#[trigger] entries[j].0@),
        )
}

pub(crate) proof fn lemma_before_not_same(a: Seq<u8>)
    ensures
        !before(a, a),
    decreases a.len(),
{
    if a.len() > 0 {
        lemma_before_not_same(a.skip(1));
    }
}

proof fn lemma_before_transitive(a: Seq<u8>, b: Seq<u8>, c: Seq<u8>)
    requires
        before(a, b),
        before(b, c),
    ensures
        before(a, c),
    decreases c.len(),
{
    if a.len() > 0 && a[0] == b[0] && b[0] == c[0] {
        lemma_before_transitive(a.skip(1), b.skip(1), c.skip(1));
    }
}

proof fn lemma_key_bytes_distinct(a: Seq<char>, b: Seq<char>)
    requires
        key_bytes(a) == key_bytes(b),
    ensures
        a == b,
{
    vstd::utf8::encode_utf8_decode_utf8(a);
    vstd::utf8::encode_utf8_decode_utf8(b);
}

/// Compares two byte strings lexicographically.
pub fn compare(a: &[u8], b: &[u8]) -> (order: Order)
    ensures
        match order {
            Order::Less => before(a@, b@),
            Order::Same => a@ == b@,
            Order::Greater => before(b@, a@),
        },
{
    let mut i: usize = 0;
    assert(a@.skip(0) =~= a@);
    assert(b@.skip(0) =~= b@);
    while i < a.len() && i < b.len()
        invariant
            i <= a@.len(),
            i <= b@.len(),
            a@.take(i as int) == b@.take(i as int),
            before(a@.skip(i as int), b@.skip(i as int)) ==> before(a@, b@),
            before(b@.skip(i as int), a@.skip(i as int)) ==> before(b@, a@),
        decreases a@.len() - i,
    {
        let x: u8 = a[i];
        let y: u8 = b[i];
        if x < y {
            return Order::Less;
        }
        if y < x {
            return Order::Greater;
        }
        assert(a@.skip(i as int).skip(1) =~= a@.skip(i + 1));
        assert(b@.skip(i as int).skip(1) =~= b@.skip(i + 1));
        assert(a@.take(i + 1) =~= a@.take(i as int).push(x));
        assert(b@.take(i + 1) =~= b@.take(i as int).push(y));
        i += 1;
    }
    if i < b.len() {
        Order::Less
    } else if i < a.len() {
        Order::Greater
    } else {
        assert(a@.take(i as int) =~= a@);
        assert(b@.take(i as int) =~= b@);
        Order::Same
    }
}

/// What the map that `entries` stand for holds.
pub(crate) proof fn lemma_entry_trees(entries: Seq<(String, Value)>)
    requires
        ascending(entries),
    ensures
        forall|i: int|
            0 <= i < entries.len() ==> entry_trees(entries).contains_key(
                (#[trigger] entries[i]).0@,
            ) && entry_trees(entries)[entries[i].0@] == entries[i].1.tree(),
        forall|k: Seq<char>| #[trigger]
            entry_trees(entries).contains_key(k) ==> exists|i: int|
                0 <= i < entries.len() && (#[trigger] entries[i]).0@ == k,
    decreases entries.len(),
{
    if entries.len() > 0 {
        let init = entries.drop_last();
        let last = entries.len() - 1;
        assert(ascending(init)) by {
            assert forall|i: int, j: int| 0 <= i < j < init.len() implies before(
                key_bytes(#[trigger] init[i].0@),
                key_bytes(#[trigger] init[j].0@),
            ) by {
                assert(init[i] == entries[i] && init[j] == entries[j]);
            }
        }
        lemma_entry_trees(init);
        assert forall|i: int| 0 <= i < entries.len() implies entry_trees(entries).contains_key(
            (#[trigger] entries[i]).0@,
        ) && entry_trees(entries)[entries[i].0@] == entries[i].1.tree() by {
            if i < last {
                assert(init[i] == entries[i]);
                assert(before(key_bytes(entries[i].0@), key_bytes(entries[last].0@)));
                lemma_before_not_same(key_bytes(entries[i].0@));
            }
        }
        assert forall|k: Seq<char>| #[trigger] entry_trees(entries).contains_key(k) implies exists|
            i: int,
        |
            0 <= i < entries.len() && (#[trigger] entries[i]).0@ == k by {
            if k == entries[last].0@ {
            } else {
                let i = choose|i: int| 0 <= i < init.len() && (#[trigger] init[i]).0@ == k;
                assert(entries[i] == init[i]);
            }
        }
    }
}

/// Where `key` stands among ascending `entries`, or would have to be inserted.
fn place(entries: &Vec<(String, Value)>, key: &String) -> (found: (usize, bool))
    requires
        ascending(entries@),
    ensures
        found.0 <= entries@.len(),
        found.1 ==> found.0 < entries@.len() && entries@[found.0 as int].0@ == key@,
        forall|i: int|
            0 <= i < found.0 ==> before(key_bytes(#[trigger] entries@[i].0@), key_bytes(key@)),
        forall|i: int|
            found.0 <= i < entries@.len() && !(found.1 && i == found.0) ==> before(
                key_bytes(key@),
                key_bytes(#[trigger] entries@[i].0@),
            ),
{
    let mut at: usize = 0;
    while at < entries.len()
        invariant
            at <= entries@.len(),
            ascending(entries@),
            forall|i: int|
                0 <= i < at ==> before(key_bytes(#[trigger] entries@[i].0@), key_bytes(key@)),
        decreases entries@.len() - at,
    {
        match compare(entries[at].0.as_str().as_bytes(), key.as_str().as_bytes()) {
            Order::Less => {
                at += 1;
            },
            Order::Same => {
                proof {
                    lemma_key_bytes_distinct(entries@[at as int].0@, key@);
                }
                return (at, true);
            },
            Order::Greater => {
                assert forall|i: int| at <= i < entries@.len() implies before(
                    key_bytes(key@),
                    key_bytes(#[trigger] entries@[i].0@),
                ) by {
                    if i > at {
                        lemma_before_transitive(
                            key_bytes(key@),
                            key_bytes(entries@[at as int].0@),
                            key_bytes(entries@[i].0@),
                        );
                    }
                }
                return (at, false);
            },
        }
    }
    (at, false)
}

/// Maps `key` to `value`, in place of what it was mapped to before.
pub fn insert(entries: &mut Vec<(String, Value)>, key: String, value: Value)
    requires
        ascending(old(entries)@),
        forall|i: int| 0 <= i < old(entries)@.len() ==> (#[trigger] old(entries)@[i]).1.wf(),
        value.wf(),
    ensures
        ascending(final(entries)@),
        forall|i: int| 0 <= i < final(entries)@.len() ==> (#[trigger] final(entries)@[i]).1.wf(),
        entry_trees(final(entries)@) == entry_trees(old(entries)@).insert(key@, value@),
{
    let ghost before_insert = entries@;
    let ghost k = key@;
    let ghost v = value;
    let (at, present) = place(entries, &key);
    if present {
        entries[at] = (key, value);
    } else {
        entries.insert(at, (key, value));
    }
    proof {
        lemma_insert(before_insert, entries@, at as int, present, k, v);
    }
}

proof fn lemma_insert(
    from: Seq<(String, Value)>,
    to: Seq<(String, Value)>,
    at: int,
    present: bool,
    k: Seq<char>,
    v: Value,
)
    requires
        ascending(from),
        0 <= at < to.len(),
        present ==> at < from.len() && from[at].0@ == k && to == from.update(at, to[at]),
        !present ==> at <= from.len() && to == from.insert(at, to[at]),
        to[at].0@ == k,
        to[at].1 == v,
        forall|i: int| 0 <= i < at ==> before(key_bytes(#[trigger] from[i].0@), key_bytes(k)),
        forall|i: int|
            at <= i < from.len() && !(present && i == at) ==> before(
                key_bytes(k),
                key_bytes(#[trigger] from[i].0@),
            ),
    ensures
        ascending(to),
        entry_trees(to) == entry_trees(from).insert(k, v.tree()),
{
    let shift: int = if present {
        0
    } else {
        1
    };
    assert forall|i: int, j: int| 0 <= i < j < to.len() implies before(
        key_bytes(#[trigger] to[i].0@),
        key_bytes(#[trigger] to[j].0@),
    ) by {
        if i < at {
            assert(to[i] == from[i]);
        } else if i > at {
            assert(to[i] == from[i - shift]);
        }
        if j < at {
            assert(to[j] == from[j]);
        } else if j > at {
            assert(to[j] == from[j - shift]);
        }
        if i < at && j > at {
            lemma_before_transitive(
                key_bytes(from[i].0@),
                key_bytes(k),
                key_bytes(from[j - shift].0@),
            );
        }
    }
    lemma_entry_trees(from);
    lemma_entry_trees(to);
    let a = entry_trees(to);
    let b = entry_trees(from).insert(k, v.tree());
    assert forall|x: Seq<char>| #[trigger] a.contains_key(x) implies b.contains_key(x) && a[x]
        == b[x] by {
        let i = choose|i: int| 0 <= i < to.len() && (#[trigger] to[i]).0@ == x;
        assert(to[i].0@ == x);
        if i < at {
            assert(to[i] == from[i]);
            lemma_before_not_same(key_bytes(k));
        } else if i > at {
            assert(to[i] == from[i - shift]);
            lemma_before_not_same(key_bytes(k));
        }
    }
    assert forall|x: Seq<char>| #[trigger] b.contains_key(x) implies a.contains_key(x) by {
        if x == k {
            assert(a.contains_key(to[at].0@));
        } else {
            let i = choose|i: int| 0 <= i < from.len() && (#[trigger] from[i]).0@ == x;
            assert(from[i].0@ == x);
            if i < at {
                assert(to[i] == from[i]);
            } else {
                assert(to[i + shift] == from[i]);
            }
        }
    }
    assert(a =~= b);
}

/// Without its last entry, a dictionary stands for the same map without that entry's key.
proof fn lemma_without_last(entries: Seq<(String, Value)>)
    requires
        entries.len() > 0,
        ascending(entries),
    ensures
        ascending(entries.drop_last()),
        entry_trees(entries.drop_last()) == entry_trees(entries).remove(entries.last().0@),
{
    let init = entries.drop_last();
    let last = entries.last();
    assert forall|i: int, j: int| 0 <= i < j < init.len() implies before(
        key_bytes(#[trigger] init[i].0@),
        key_bytes(#[trigger] init[j].0@),
    ) by {
        assert(init[i] == entries[i] && init[j] == entries[j]);
    }
    lemma_entry_trees(init);
    if entry_trees(init).contains_key(last.0@) {
        let i = choose|i: int| 0 <= i < init.len() && (#[trigger] init[i]).0@ == last.0@;
        assert(init[i] == entries[i] && last == entries[entries.len() - 1]);
        lemma_before_not_same(key_bytes(last.0@));
    }
    assert(entry_trees(init) =~= entry_trees(entries).remove(last.0@));
}

/// Dictionaries that stand for the same map have the same keys in the same order.
pub(crate) proof fn lemma_same_keys(a: Seq<(String, Value)>, b: Seq<(String, Value)>)
    requires
        ascending(a),
        ascending(b),
        entry_trees(a) == entry_trees(b),
    ensures
        a.len() == b.len(),
        forall|i: int| 0 <= i < a.len() ==> (#[trigger] a[i]).0@ == b[i].0@,
    decreases a.len() + b.len(),
{
    lemma_entry_trees(a);
    lemma_entry_trees(b);
    if a.len() > 0 {
        assert(entry_trees(a).contains_key(a[0].0@));
    }
    if b.len() > 0 {
        assert(entry_trees(b).contains_key(b[0].0@));
    }
    if a.len() > 0 && b.len() > 0 {
        let x = a.len() - 1;
        let y = b.len() - 1;
        assert(entry_trees(b).contains_key(a[x].0@));
        assert(entry_trees(a).contains_key(b[y].0@));
        let j = choose|j: int| 0 <= j < b.len() && (#[trigger] b[j]).0@ == a[x].0@;
        let i = choose|i: int| 0 <= i < a.len() && (#[trigger] a[i]).0@ == b[y].0@;
        if j < y && i < x {
            lemma_before_transitive(
                key_bytes(a[x].0@),
                key_bytes(b[y].0@),
                key_bytes(a[x].0@),
            );
            lemma_before_not_same(key_bytes(a[x].0@));
        }
        assert(a.last().0@ == b.last().0@);
        lemma_without_last(a);
        lemma_without_last(b);
        lemma_same_keys(a.drop_last(), b.drop_last());
        assert forall|i: int| 0 <= i < a.len() implies (#[trigger] a[i]).0@ == b[i].0@ by {
            if i < x {
                assert(a.drop_last()[i].0@ == b.drop_last()[i].0@);
            }
        }
    }
}

} // verus!
