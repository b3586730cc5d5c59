//! JSON text, read and written with `serde_json`.
//!
//! `serde_json` turns text into its own tree of values and back. This module
//! looks at such a tree one level at a time and carries it over into a
//! [`Json`], and builds one from a [`Json`].

use vstd::prelude::*;
use crate::json::{
    items_nesting, items_writable, lemma_items, lemma_items_view, lemma_members,
    lemma_members_front, lemma_members_push, members_nesting, members_view, members_writable, Json,
    JsonView, Member,
};

verus! {

/// A JSON value of `serde_json`. What is in it is seen through [`shape`].
#[verifier::external_type_specification]
#[verifier::external_body]
pub struct ExValue(serde_json::Value);

/// The error of `serde_json`.
#[verifier::external_type_specification]
#[verifier::external_body]
pub struct ExError(serde_json::Error);

/// What a value of `serde_json` is, one level deep.
pub enum Shape {
    Null,
    Bool(bool),
    /// A number, with its value where it is a whole number from 0 to 2^64 - 1.
    Number(Option<u64>),
    Str(String),
    Array(Vec<serde_json::Value>),
    Object(Vec<(String, serde_json::Value)>),
}

/// The mathematical value of a [`Shape`]: an object is a map from its keys.
pub enum ShapeView {
    Null,
    Bool(bool),
    Number(Option<u64>),
    Str(Seq<char>),
    Array(Seq<serde_json::Value>),
    Object(Map<Seq<char>, serde_json::Value>),
}

/// The map that `entries` stand for. Where a key stands twice, its last
/// entry counts.
pub open spec fn entries_view(entries: Seq<(String, serde_json::Value)>) -> Map<
    Seq<char>,
    serde_json::Value,
>
    decreases entries.len(),
{
    if entries.len() == 0 {
        Map::empty()
    } else {
        entries_view(entries.drop_last()).insert(entries.last().0@, entries.last().1)
    }
}

/// Whether no key stands twice among `entries`.
pub open spec fn keys_differ(entries: Seq<(String, serde_json::Value)>) -> bool {
    forall|i: int, j: int|
        0 <= i < j < entries.len() ==> (#[trigger] entries[i]).0@ != (#[trigger] entries[j]).0@
}

impl View for Shape {
    type V = ShapeView;

    open spec fn view(&self) -> ShapeView {
        match self {
            Shape::Null => ShapeView::Null,
            Shape::Bool(b) => ShapeView::Bool(*b),
            Shape::Number(n) => ShapeView::Number(*n),
            Shape::Str(s) => ShapeView::Str(s@),
            Shape::Array(items) => ShapeView::Array(items@),
            Shape::Object(entries) => ShapeView::Object(entries_view(entries@)),
        }
    }
}

/// The value that `serde_json` reads from `text`; none where it refuses the
/// text.
pub uninterp spec fn parsed(text: Seq<char>) -> Option<serde_json::Value>;

/// What `value` is, one level deep.
pub uninterp spec fn shape(value: serde_json::Value) -> ShapeView;

/// The text that `serde_json` writes for `value`; none where it fails.
pub uninterp spec fn rendered(value: serde_json::Value) -> Option<Seq<char>>;

/// Reads `text` with `serde_json::from_str`. The result is [`parsed`] of the
/// text: the value on success, and none where the call returns its error.
#[verifier::external_body]
pub(crate) fn parse_text(text: &str) -> (r: Result<serde_json::Value, serde_json::Error>)
    ensures
        match r {
            Ok(value) => parsed(text@) == Some(value),
            Err(_) => parsed(text@) is None,
        },
{
    serde_json::from_str::<serde_json::Value>(text)
}

/// Takes `value` apart by the variants of `serde_json::Value`. A number
/// comes with what `serde_json::Number::as_u64` gives for it, an object with
/// the entries of its `serde_json::Map`, in the order in which the map hands
/// them out, no key twice. The result is [`shape`] of the value.
#[verifier::external_body]
fn shape_of(value: serde_json::Value) -> (s: Shape)
    ensures
        s@ == shape(value),
        s matches Shape::Object(entries) ==> keys_differ(entries@),
{
    match value {
        serde_json::Value::Null => Shape::Null,
        serde_json::Value::Bool(b) => Shape::Bool(b),
        serde_json::Value::Number(n) => Shape::Number(n.as_u64()),
        serde_json::Value::String(s) => Shape::Str(s),
        serde_json::Value::Array(items) => Shape::Array(items),
        serde_json::Value::Object(map) => Shape::Object(map.into_iter().collect()),
    }
}

/// Builds the value of `serde_json` that has the shape `s`: each variant of
/// `serde_json::Value` from its fields, a number with `Value::from` a `u64`,
/// an object by collecting its entries into a `serde_json::Map`. A number
/// without a value cannot be built, and the entries' keys must differ, so
/// that the map keeps every entry.
#[verifier::external_body]
fn value_of(s: Shape) -> (value: serde_json::Value)
    requires
        !(s matches Shape::Number(None)),
        s matches Shape::Object(entries) ==> keys_differ(entries@),
    ensures
        shape(value) == s@,
{
    match s {
        Shape::Null => serde_json::Value::Null,
        Shape::Bool(b) => serde_json::Value::Bool(b),
        Shape::Number(n) => serde_json::Value::from(n),
        Shape::Str(s) => serde_json::Value::String(s),
        Shape::Array(items) => serde_json::Value::Array(items),
        Shape::Object(entries) => serde_json::Value::Object(entries.into_iter().collect()),
    }
}

/// Writes `value` with `serde_json::to_string`. The result is [`rendered`]
/// of the value: the text on success, and none where the call returns its
/// error.
#[verifier::external_body]
pub(crate) fn render_value(value: &serde_json::Value) -> (r: Result<String, serde_json::Error>)
    ensures
        match r {
            Ok(text) => rendered(*value) == Some(text@),
            Err(_) => rendered(*value) is None,
        },
{
    serde_json::to_string(value)
}

/// The JSON value that `value` holds, as far as it is nested no deeper than
/// `depth` arrays and objects; none where it is nested deeper.
pub open spec fn json_of(value: serde_json::Value, depth: nat) -> Option<JsonView>
    decreases depth,
{
    match shape(value) {
        ShapeView::Null => Some(JsonView::Null),
        ShapeView::Bool(b) => Some(JsonView::Bool(b)),
        ShapeView::Number(n) => Some(JsonView::Number(n)),
        ShapeView::Str(s) => Some(JsonView::Str(s)),
        ShapeView::Array(items) => if depth == 0 {
            None
        } else if forall|i: int|
            0 <= i < items.len() ==> json_of(#[trigger] items[i], (depth - 1) as nat) is Some {
            Some(
                JsonView::Array(
                    Seq::new(items.len(), |i: int| json_of(items[i], (depth - 1) as nat)->0),
                ),
            )
        } else {
            None
        },
        ShapeView::Object(entries) => if depth == 0 {
            None
        } else if forall|k: Seq<char>|
            entries.contains_key(k) ==> json_of(#[trigger] entries[k], (depth - 1) as nat) is Some {
            Some(
                JsonView::Object(
                    Map::new(
                        |k: Seq<char>| entries.contains_key(k),
                        |k: Seq<char>| json_of(entries[k], (depth - 1) as nat)->0,
                    ),
                ),
            )
        } else {
            None
        },
    }
}

/// Carries `value` over into a [`Json`], as far as it is nested no deeper
/// than `depth` arrays and objects.
pub fn from_value(value: serde_json::Value, depth: usize) -> (j: Option<Json>)
    ensures
        match j {
            Some(j) => json_of(value, depth as nat) == Some(j@),
            None => json_of(value, depth as nat) is None,
        },
    decreases depth,
{
    match shape_of(value) {
        Shape::Null => Some(Json::Null),
        Shape::Bool(b) => Some(Json::Bool(b)),
        Shape::Number(n) => Some(Json::Number(n)),
        Shape::Str(s) => Some(Json::Str(s)),
        Shape::Array(items) => {
            if depth == 0 {
                return None;
            }
            let ghost all = items@;
            let mut out: Vec<Json> = Vec::new();
            let mut failed = false;
            for item in iter: items
                invariant
                    depth > 0,
                    iter.seq() == all,
                    !failed ==> out.len() == iter.index() && forall|k: int|
                        0 <= k < out.len() ==> json_of(all[k], (depth - 1) as nat) == Some(
                            #[trigger] out@[k]@,
                        ),
                    failed ==> exists|k: int|
                        0 <= k < all.len() && json_of(#[trigger] all[k], (depth - 1) as nat) is None,
            {
                if !failed {
                    match from_value(item, depth - 1) {
                        Some(j) => {
                            out.push(j);
                        },
                        None => {
                            failed = true;
                        },
                    }
                }
            }
            if failed {
                None
            } else {
                proof {
                    lemma_items_view(out@);
                    assert(shape(value) == ShapeView::Array(all));
                    assert(out.len() == all.len());
                    assert forall|i: int| 0 <= i < all.len() implies json_of(
                        #[trigger] all[i],
                        (depth - 1) as nat,
                    ) is Some by {
                        assert(json_of(all[i], (depth - 1) as nat) == Some(out@[i]@));
                    }
                    assert(json_of(value, depth as nat) is Some);
                    assert(Json::Array(out)@->Array_0 =~= json_of(value, depth as nat)->0->Array_0);
                    assert(json_of(value, depth as nat) == Some(Json::Array(out)@));
                }
                Some(Json::Array(out))
            }
        },
        Shape::Object(entries) => {
            if depth == 0 {
                return None;
            }
            let ghost all = entries@;
            let mut out: Vec<Member> = Vec::new();
            let mut failed = false;
            proof {
                assert(all.take(0) =~= Seq::<(String, serde_json::Value)>::empty());
                assert(members_view(out@) =~= converted(
                    entries_view(all.take(0)),
                    (depth - 1) as nat,
                ));
            }
            for entry in iter: entries
                invariant
                    depth > 0,
                    iter.seq() == all,
                    keys_differ(all),
                    !failed ==> members_view(out@) == converted(
                        entries_view(all.take(iter.index() as int)),
                        (depth - 1) as nat,
                    ) && forall|k: Seq<char>|
                        entries_view(all.take(iter.index() as int)).contains_key(k) ==> json_of(
                            #[trigger] entries_view(all.take(iter.index() as int))[k],
                            (depth - 1) as nat,
                        ) is Some,
                    failed ==> exists|k: Seq<char>|
                        entries_view(all).contains_key(k) && json_of(
                            #[trigger] entries_view(all)[k],
                            (depth - 1) as nat,
                        ) is None,
            {
                let ghost i = iter.index() as int;
                let ghost seen = entries_view(all.take(i));
                proof {
                    assert(all.take(i + 1).drop_last() =~= all.take(i));
                    assert(all.take(i + 1).last() == all[i]);
                    assert(entries_view(all.take(i + 1)) == seen.insert(all[i].0@, all[i].1));
                }
                if !failed {
                    let (key, inner) = entry;
                    match from_value(inner, depth - 1) {
                        Some(j) => {
                            let member = Member { key, value: j };
                            proof {
                                lemma_members_push(out@, member);
                            }
                            out.push(member);
                            assert(members_view(out@) =~= converted(
                                entries_view(all.take(i + 1)),
                                (depth - 1) as nat,
                            ));
                        },
                        None => {
                            proof {
                                lemma_entry_counts(all, i);
                            }
                            failed = true;
                        },
                    }
                }
            }
            if failed {
                None
            } else {
                proof {
                    assert(all.take(all.len() as int) =~= all);
                    assert(shape(value) == ShapeView::Object(entries_view(all)));
                    assert(json_of(value, depth as nat) is Some);
                    assert(Json::Object(out)@->Object_0 =~= json_of(
                        value,
                        depth as nat,
                    )->0->Object_0);
                    assert(json_of(value, depth as nat) == Some(Json::Object(out)@));
                }
                Some(Json::Object(out))
            }
        },
    }
}

/// The values of `entries`, each carried over.
pub open spec fn converted(entries: Map<Seq<char>, serde_json::Value>, depth: nat) -> Map<
    Seq<char>,
    JsonView,
> {
    Map::new(|k: Seq<char>| entries.contains_key(k), |k: Seq<char>| json_of(entries[k], depth)->0)
}

/// Where no key stands twice, every entry is the one that its key leads to.
pub proof fn lemma_entry_counts(entries: Seq<(String, serde_json::Value)>, i: int)
    requires
        keys_differ(entries),
        0 <= i < entries.len(),
    ensures
        entries_view(entries).contains_key(entries[i].0@),
        entries_view(entries)[entries[i].0@] == entries[i].1,
    decreases entries.len(),
{
    assert(entries_view(entries) == entries_view(entries.drop_last()).insert(
        entries.last().0@,
        entries.last().1,
    ));
    if i < entries.len() - 1 {
        assert forall|a: int, b: int| 0 <= a < b < entries.drop_last().len() implies (
        #[trigger] entries.drop_last()[a]).0@ != (#[trigger] entries.drop_last()[b]).0@ by {
            assert(entries[a].0@ != entries[b].0@);
        }
        lemma_entry_counts(entries.drop_last(), i);
        assert(entries[i].0@ != entries[entries.len() - 1].0@);
    }
}

/// What a value holds at one depth, it holds at every greater depth.
pub proof fn lemma_json_of_deeper(value: serde_json::Value, depth: nat, deeper: nat)
    requires
        json_of(value, depth) is Some,
        depth <= deeper,
    ensures
        json_of(value, deeper) == json_of(value, depth),
    decreases depth,
{
    match shape(value) {
        ShapeView::Array(items) => {
            assert forall|i: int| 0 <= i < items.len() implies json_of(
                #[trigger] items[i],
                (deeper - 1) as nat,
            ) == json_of(items[i], (depth - 1) as nat) && json_of(items[i], (depth - 1) as nat)
                is Some by {
                lemma_json_of_deeper(items[i], (depth - 1) as nat, (deeper - 1) as nat);
            }
            assert(json_of(value, deeper)->0->Array_0 =~= json_of(value, depth)->0->Array_0);
        },
        ShapeView::Object(entries) => {
            assert forall|k: Seq<char>| entries.contains_key(k) implies json_of(
                #[trigger] entries[k],
                (deeper - 1) as nat,
            ) == json_of(entries[k], (depth - 1) as nat) && json_of(entries[k], (depth - 1) as nat)
                is Some by {
                lemma_json_of_deeper(entries[k], (depth - 1) as nat, (deeper - 1) as nat);
            }
            assert(json_of(value, deeper)->0->Object_0 =~= json_of(value, depth)->0->Object_0);
        },
        _ => {},
    }
}

/// Whether `key` is a key among `entries`.
fn has_key(entries: &Vec<(String, serde_json::Value)>, key: &String) -> (found: bool)
    ensures
        found == entries_view(entries@).contains_key(key@),
{
    let ghost all = entries@;
    let mut found = false;
    let mut i: usize = 0;
    assert(all.take(0) =~= Seq::<(String, serde_json::Value)>::empty());
    while i < entries.len()
        invariant
            i <= entries.len(),
            all == entries@,
            found == entries_view(all.take(i as int)).contains_key(key@),
        decreases entries.len() - i,
    {
        assert(all.take(i + 1).drop_last() =~= all.take(i as int));
        assert(all.take(i + 1).last() == all[i as int]);
        assert(entries_view(all.take(i + 1)) == entries_view(all.take(i as int)).insert(
            all[i as int].0@,
            all[i as int].1,
        ));
        if entries[i].0 == *key {
            found = true;
        }
        i += 1;
    }
    assert(all.take(entries.len() as int) =~= all);
    found
}

/// One more entry under a new key keeps the keys apart.
proof fn lemma_keys_differ_push(
    entries: Seq<(String, serde_json::Value)>,
    e: (String, serde_json::Value),
)
    requires
        keys_differ(entries),
        !entries_view(entries).contains_key(e.0@),
    ensures
        keys_differ(entries.push(e)),
        entries_view(entries.push(e)) == entries_view(entries).insert(e.0@, e.1),
{
    assert(entries.push(e).drop_last() =~= entries);
    assert forall|i: int, j: int| 0 <= i < j < entries.push(e).len() implies (
    #[trigger] entries.push(e)[i]).0@ != (#[trigger] entries.push(e)[j]).0@ by {
        if j == entries.len() {
            lemma_entry_counts(entries, i);
        } else {
            assert(entries[i].0@ != entries[j].0@);
        }
    }
}

impl Json {
    /// Builds the value of `serde_json` that holds this JSON value. There is
    /// none where a number has no value.
    pub fn to_value(&self) -> (r: Option<serde_json::Value>)
        ensures
            match r {
                Some(value) => self.writable() && json_of(value, self.nesting()) == Some(self@),
                None => !self.writable(),
            },
        decreases self,
    {
        match self {
            Json::Null => Some(value_of(Shape::Null)),
            Json::Bool(b) => Some(value_of(Shape::Bool(*b))),
            Json::Number(n) => match n {
                Some(n) => Some(value_of(Shape::Number(Some(*n)))),
                None => None,
            },
            Json::Str(s) => Some(value_of(Shape::Str(s.clone()))),
            Json::Array(items) => {
                let ghost inner = items_nesting(items@);
                let mut values: Vec<serde_json::Value> = Vec::new();
                let mut i: usize = 0;
                proof {
                    lemma_items(items@);
                    lemma_items_view(items@);
                }
                while i < items.len()
                    invariant
                        i <= items.len(),
                        *self == Json::Array(*items),
                        inner == items_nesting(items@),
                        values.len() == i,
                        forall|k: int|
                            0 <= k < items.len() ==> (#[trigger] items@[k]).nesting() <= inner,
                        forall|k: int|
                            0 <= k < i ==> (#[trigger] items@[k]).writable() && json_of(
                                values@[k],
                                inner,
                            ) == Some(items@[k]@),
                    decreases items.len() - i,
                {
                    match items[i].to_value() {
                        Some(value) => {
                            proof {
                                lemma_json_of_deeper(value, items@[i as int].nesting(), inner);
                            }
                            values.push(value);
                        },
                        None => {
                            proof {
                                lemma_items(items@);
                                assert(!items@[i as int].writable());
                                assert(self.writable() == items_writable(items@));
                            }
                            return None;
                        },
                    }
                    i += 1;
                }
                let ghost held = values@;
                let value = value_of(Shape::Array(values));
                proof {
                    lemma_items(items@);
                    assert(self.writable() == items_writable(items@));
                    assert(self.nesting() == 1 + inner);
                    assert(shape(value) == ShapeView::Array(held));
                    assert forall|k: int| 0 <= k < held.len() implies json_of(
                        #[trigger] held[k],
                        inner,
                    ) is Some by {
                        assert(json_of(held[k], inner) == Some(items@[k]@));
                    }
                    assert(json_of(value, self.nesting()) is Some);
                    assert(json_of(value, self.nesting())->0->Array_0 =~= self@->Array_0);
                }
                Some(value)
            },
            Json::Object(members) => {
                let ghost all = members@;
                let ghost inner = members_nesting(members@);
                let mut entries: Vec<(String, serde_json::Value)> = Vec::new();
                let mut i: usize = members.len();
                proof {
                    lemma_members(all);
                    assert(all.skip(all.len() as int) =~= Seq::<Member>::empty());
                    assert(converted(entries_view(entries@), inner) =~= members_view(
                        all.skip(all.len() as int),
                    ));
                }
                while i > 0
                    invariant
                        i <= members.len(),
                        *self == Json::Object(*members),
                        all == members@,
                        inner == members_nesting(all),
                        keys_differ(entries@),
                        forall|k: int|
                            0 <= k < all.len() ==> (#[trigger] all[k]).value.nesting() <= inner,
                        forall|k: int| i <= k < all.len() ==> (#[trigger] all[k]).value.writable(),
                        forall|k: Seq<char>|
                            entries_view(entries@).contains_key(k) ==> json_of(
                                #[trigger] entries_view(entries@)[k],
                                inner,
                            ) is Some,
                        converted(entries_view(entries@), inner) == members_view(
                            all.skip(i as int),
                        ),
                    decreases i,
                {
                    i -= 1;
                    let member = &members[i];
                    let value = match member.value.to_value() {
                        Some(value) => value,
                        None => {
                            proof {
                                lemma_members(all);
                                assert(!all[i as int].value.writable());
                                assert(self.writable() == members_writable(all));
                            }
                            return None;
                        },
                    };
                    proof {
                        lemma_json_of_deeper(value, all[i as int].value.nesting(), inner);
                        assert(all.skip(i as int) =~= seq![all[i as int]] + all.skip(i + 1));
                        lemma_members_front(all[i as int], all.skip(i + 1));
                    }
                    if !has_key(&entries, &member.key) {
                        let entry = (member.key.clone(), value);
                        proof {
                            lemma_keys_differ_push(entries@, entry);
                        }
                        entries.push(entry);
                        assert(converted(entries_view(entries@), inner)
                            =~= members_view(all.skip(i as int)));
                    } else {
                        assert(converted(entries_view(entries@), inner)
                            =~= members_view(all.skip(i as int)));
                    }
                }
                let ghost held = entries_view(entries@);
                let value = value_of(Shape::Object(entries));
                proof {
                    lemma_members(all);
                    assert(self.writable() == members_writable(all));
                    assert(self.nesting() == 1 + inner);
                    assert(all.skip(0) =~= all);
                    assert(shape(value) == ShapeView::Object(held));
                    assert(json_of(value, self.nesting()) is Some);
                    assert(json_of(value, self.nesting())->0->Object_0 =~= self@->Object_0);
                }
                Some(value)
            },
        }
    }
}

} // verus!
