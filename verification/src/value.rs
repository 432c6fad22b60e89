//! The tree of values that a JSON text denotes.

use vstd::prelude::*;
use crate::number::{is_number, Number};

verus! {

/// A JSON value. An array owns its items and an object its members; an object
/// keeps its members in the order in which their keys first appeared.
#[derive(Debug, PartialEq, Eq)]
pub enum Value {
    Null,
    Boolean(bool),
    Number(Number),
    String(String),
    Array(Vec<Value>),
    Object(Vec<(String, Value)>),
}

/// A JSON value as a mathematical tree.
pub enum ValueView {
    Null,
    Boolean(bool),
    /// The literal of the number.
    Number(Seq<char>),
    String(Seq<char>),
    Array(Seq<ValueView>),
    /// The members, each a key with its value.
    Object(Seq<(Seq<char>, ValueView)>),
}

/// Whether some member of `members` has the key `key`.
pub open spec fn has_key(members: Seq<(Seq<char>, ValueView)>, key: Seq<char>) -> bool {
    exists|i: int| 0 <= i < members.len() && (#[trigger] members[i]).0 == key
}

/// The index of a member of `members` with the key `key`.
pub open spec fn key_index(members: Seq<(Seq<char>, ValueView)>, key: Seq<char>) -> int {
    choose|i: int| 0 <= i < members.len() && (#[trigger] members[i]).0 == key
}

/// Whether no two members of `members` share a key.
pub open spec fn distinct_keys(members: Seq<(Seq<char>, ValueView)>) -> bool {
    forall|i: int, j: int|
        0 <= i < j < members.len() ==> (#[trigger] members[i]).0 != (#[trigger] members[j]).0
}

/// The members after `key` is set to `value`: the member with that key takes the
/// new value and keeps its place, and a new key goes to the end.
#[verifier::opaque]
pub open spec fn with_member(
    members: Seq<(Seq<char>, ValueView)>,
    key: Seq<char>,
    value: ValueView,
) -> Seq<(Seq<char>, ValueView)> {
    if has_key(members, key) {
        members.update(key_index(members, key), (key, value))
    } else {
        members.push((key, value))
    }
}

/// The value of the member of `members` with the key `key`.
pub open spec fn member_value(members: Seq<(Seq<char>, ValueView)>, key: Seq<char>) -> ValueView {
    members[key_index(members, key)].1
}

/// The members after each of `pairs` is set, one after the other.
pub open spec fn with_members(
    members: Seq<(Seq<char>, ValueView)>,
    pairs: Seq<(Seq<char>, ValueView)>,
) -> Seq<(Seq<char>, ValueView)>
    decreases pairs.len(),
{
    if pairs.len() == 0 {
        members
    } else {
        with_members(with_member(members, pairs[0].0, pairs[0].1), pairs.drop_first())
    }
}

/// Whether no later one of `pairs` has the key of the one at `index`.
pub open spec fn is_last_with_key(pairs: Seq<(Seq<char>, ValueView)>, index: int) -> bool {
    &&& 0 <= index < pairs.len()
    &&& forall|i: int| index < i < pairs.len() ==> (#[trigger] pairs[i]).0 != pairs[index].0
}

impl ValueView {
    /// Whether every number in the tree is a number as the lexer accepts one and
    /// no object in it has two members with one key.
    pub open spec fn well_formed(self) -> bool
        decreases self,
    {
        match self {
            ValueView::Number(n) => is_number(n),
            ValueView::Array(items) => forall|i: int|
                0 <= i < items.len() ==> (#[trigger] items[i]).well_formed(),
            ValueView::Object(members) => distinct_keys(members) && forall|i: int|
                0 <= i < members.len() ==> (#[trigger] members[i]).1.well_formed(),
            _ => true,
        }
    }
}

/// The trees of a sequence of values.
pub open spec fn items_view(items: Seq<Value>) -> Seq<ValueView>
    decreases items,
{
    Seq::new(
        items.len(),
        |i: int|
            if 0 <= i < items.len() {
                items[i]@
            } else {
                ValueView::Null
            },
    )
}

/// The keys and trees of a sequence of members.
pub open spec fn members_view(members: Seq<(String, Value)>) -> Seq<(Seq<char>, ValueView)>
    decreases members,
{
    Seq::new(
        members.len(),
        |i: int|
            if 0 <= i < members.len() {
                (members[i].0@, members[i].1@)
            } else {
                (Seq::empty(), ValueView::Null)
            },
    )
}

impl View for Value {
    type V = ValueView;

    open spec fn view(&self) -> ValueView
        decreases self,
    {
        match self {
            Value::Null => ValueView::Null,
            Value::Boolean(b) => ValueView::Boolean(*b),
            Value::Number(n) => ValueView::Number(n@),
            Value::String(s) => ValueView::String(s@),
            Value::Array(items) => ValueView::Array(items_view(items@)),
            Value::Object(members) => ValueView::Object(members_view(members@)),
        }
    }
}

/// The members after one more is set are still distinct in their keys, and hold
/// well-formed values if they did and the new value is.
pub proof fn lemma_with_member(
    members: Seq<(Seq<char>, ValueView)>,
    key: Seq<char>,
    value: ValueView,
)
    requires
        distinct_keys(members),
    ensures
        distinct_keys(with_member(members, key, value)),
        has_key(with_member(members, key, value), key),
        (forall|i: int| 0 <= i < members.len() ==> (#[trigger] members[i]).1.well_formed())
            && value.well_formed() ==> forall|i: int|
            0 <= i < with_member(members, key, value).len() ==> (#[trigger] with_member(
                members,
                key,
                value,
            )[i]).1.well_formed(),
{
    reveal(with_member);
    let after = with_member(members, key, value);
    if has_key(members, key) {
        let k = key_index(members, key);
        assert(after[k].0 == key);
    } else {
        assert(after[members.len() as int].0 == key);
        assert forall|i: int, j: int| 0 <= i < j < after.len() implies (#[trigger] after[i]).0 != (
        #[trigger] after[j]).0 by {
            if j == members.len() {
                assert(members[i].0 != key);
            }
        }
    }
}

/// Among members with distinct keys, the member at `index` is the one that its
/// key finds.
proof fn lemma_key_finds(members: Seq<(Seq<char>, ValueView)>, index: int)
    requires
        distinct_keys(members),
        0 <= index < members.len(),
    ensures
        has_key(members, members[index].0),
        key_index(members, members[index].0) == index,
        member_value(members, members[index].0) == members[index].1,
{
    let key = members[index].0;
    let found = key_index(members, key);
    if found < index {
        assert(members[found].0 != members[index].0);
    } else if found > index {
        assert(members[index].0 != members[found].0);
    }
}

/// What setting one member does to the members: the key that is set has the new
/// value, and every other key is there as before, with its value.
pub proof fn lemma_with_member_value(
    members: Seq<(Seq<char>, ValueView)>,
    key: Seq<char>,
    value: ValueView,
    other: Seq<char>,
)
    requires
        distinct_keys(members),
    ensures
        member_value(with_member(members, key, value), key) == value,
        has_key(with_member(members, key, value), other) == (has_key(members, other) || other
            == key),
        other != key && has_key(members, other) ==> member_value(
            with_member(members, key, value),
            other,
        ) == member_value(members, other),
{
    reveal(with_member);
    let after = with_member(members, key, value);
    lemma_with_member(members, key, value);
    let at = if has_key(members, key) {
        key_index(members, key)
    } else {
        members.len() as int
    };
    assert(after[at] == (key, value));
    lemma_key_finds(after, at);
    if has_key(after, other) && other != key {
        let j = key_index(after, other);
        assert(after[j] == members[j]);
        assert(members[j].0 == other);
    }
    if other != key && has_key(members, other) {
        let i = key_index(members, other);
        assert(after[i] == members[i]);
        lemma_key_finds(after, i);
    }
}

/// A key is among pairs when it is the key of the first or among the rest.
proof fn lemma_has_key_first(pairs: Seq<(Seq<char>, ValueView)>, key: Seq<char>)
    requires
        pairs.len() > 0,
    ensures
        has_key(pairs, key) == (pairs[0].0 == key || has_key(pairs.drop_first(), key)),
{
    let rest = pairs.drop_first();
    if has_key(pairs, key) {
        let i = key_index(pairs, key);
        if i > 0 {
            assert(rest[i - 1].0 == key);
        }
    }
    if has_key(rest, key) {
        let i = key_index(rest, key);
        assert(pairs[i + 1].0 == key);
    }
    if pairs[0].0 == key {
        assert(has_key(pairs, key));
    }
}

/// The last value wins. Where pairs of a key and a value are set one after the
/// other, the outcome has each key once: the keys that were there before and
/// those of the pairs. A key of the pairs has the value of the last pair with
/// that key, and any other key keeps its value.
pub proof fn lemma_last_value_wins(
    members: Seq<(Seq<char>, ValueView)>,
    pairs: Seq<(Seq<char>, ValueView)>,
)
    requires
        distinct_keys(members),
    ensures
        distinct_keys(with_members(members, pairs)),
        forall|key: Seq<char>| #[trigger]
            has_key(with_members(members, pairs), key) == (has_key(members, key) || has_key(
                pairs,
                key,
            )),
        forall|index: int| #[trigger]
            is_last_with_key(pairs, index) ==> member_value(
                with_members(members, pairs),
                pairs[index].0,
            ) == pairs[index].1,
        forall|key: Seq<char>|
            has_key(members, key) && !has_key(pairs, key) ==> #[trigger] member_value(
                with_members(members, pairs),
                key,
            ) == member_value(members, key),
    decreases pairs.len(),
{
    let all = with_members(members, pairs);
    if pairs.len() > 0 {
        let first = pairs[0];
        let rest = pairs.drop_first();
        let next = with_member(members, first.0, first.1);
        lemma_with_member(members, first.0, first.1);
        lemma_last_value_wins(next, rest);
        assert forall|key: Seq<char>| #[trigger]
            has_key(all, key) == (has_key(members, key) || has_key(pairs, key)) by {
            lemma_with_member_value(members, first.0, first.1, key);
            lemma_has_key_first(pairs, key);
            assert(has_key(all, key) == (has_key(next, key) || has_key(rest, key)));
        }
        assert forall|index: int| #[trigger] is_last_with_key(pairs, index) implies member_value(
            all,
            pairs[index].0,
        ) == pairs[index].1 by {
            if index > 0 {
                assert forall|i: int| index - 1 < i < rest.len() implies (#[trigger] rest[i]).0
                    != rest[index - 1].0 by {
                    assert(pairs[i + 1].0 != pairs[index].0);
                }
                assert(is_last_with_key(rest, index - 1));
                assert(rest[index - 1] == pairs[index]);
            } else {
                lemma_with_member_value(members, first.0, first.1, first.0);
                if has_key(rest, first.0) {
                    let i = key_index(rest, first.0);
                    assert(pairs[i + 1].0 != pairs[0].0);
                }
                assert(member_value(all, first.0) == member_value(next, first.0));
            }
        }
        assert forall|key: Seq<char>| has_key(members, key) && !has_key(pairs, key) implies #[trigger]
            member_value(all, key) == member_value(members, key) by {
            lemma_with_member_value(members, first.0, first.1, key);
            lemma_has_key_first(pairs, key);
            assert(member_value(all, key) == member_value(next, key));
        }
    } else {
        assert forall|key: Seq<char>| !has_key(pairs, key) by {}
    }
}

} // verus!
