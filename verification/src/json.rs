//! JSON values as the node reads and writes them.

use vstd::prelude::*;

verus! {

/// A JSON value.
#[derive(Debug, PartialEq, Eq)]
pub enum Json {
    Null,
    Bool(bool),
    /// A number, with its value where it is a whole number from 0 to 2^64 - 1.
    Number(Option<u64>),
    Str(String),
    Array(Vec<Json>),
    /// An object. Where a key stands twice, its last member counts.
    Object(Vec<Member>),
}

/// A member of a JSON object.
#[derive(Debug, PartialEq, Eq)]
pub struct Member {
    pub key: String,
    pub value: Json,
}

/// The mathematical value of a [`Json`]: an object is a map from its keys.
pub enum JsonView {
    Null,
    Bool(bool),
    Number(Option<u64>),
    Str(Seq<char>),
    Array(Seq<JsonView>),
    Object(Map<Seq<char>, JsonView>),
}

/// The values of `items`, in order.
pub open spec fn items_view(items: Seq<Json>) -> Seq<JsonView>
    decreases items,
{
    if items.len() == 0 {
        Seq::empty()
    } else {
        items_view(items.drop_last()).push(items.last().view())
    }
}

/// The map that `members` stand for.
pub open spec fn members_view(members: Seq<Member>) -> Map<Seq<char>, JsonView>
    decreases members,
{
    if members.len() == 0 {
        Map::empty()
    } else {
        members_view(members.drop_last()).insert(members.last().key@, members.last().value.view())
    }
}

impl View for Json {
    type V = JsonView;

    open spec fn view(&self) -> JsonView
        decreases self,
    {
        match self {
            Json::Null => JsonView::Null,
            Json::Bool(b) => JsonView::Bool(*b),
            Json::Number(n) => JsonView::Number(*n),
            Json::Str(s) => JsonView::Str(s@),
            Json::Array(items) => JsonView::Array(items_view(items@)),
            Json::Object(members) => JsonView::Object(members_view(members@)),
        }
    }
}

/// What [`Json::nesting`] is over `items`: the deepest of them.
pub open spec fn items_nesting(items: Seq<Json>) -> nat
    decreases items,
{
    if items.len() == 0 {
        0
    } else {
        let before = items_nesting(items.drop_last());
        let last = items.last().nesting();
        if before >= last {
            before
        } else {
            last
        }
    }
}

/// What [`Json::nesting`] is over `members`: the deepest of their values.
pub open spec fn members_nesting(members: Seq<Member>) -> nat
    decreases members,
{
    if members.len() == 0 {
        0
    } else {
        let before = members_nesting(members.drop_last());
        let last = members.last().value.nesting();
        if before >= last {
            before
        } else {
            last
        }
    }
}

/// Whether each of `items` is [`Json::writable`].
pub open spec fn items_writable(items: Seq<Json>) -> bool
    decreases items,
{
    items.len() == 0 || (items_writable(items.drop_last()) && items.last().writable())
}

/// Whether the value of each of `members` is [`Json::writable`].
pub open spec fn members_writable(members: Seq<Member>) -> bool
    decreases members,
{
    members.len() == 0 || (members_writable(members.drop_last())
        && members.last().value.writable())
}

impl Json {
    /// How many arrays and objects stand inside one another, at most.
    pub open spec fn nesting(&self) -> nat
        decreases self,
    {
        match self {
            Json::Array(items) => 1 + items_nesting(items@),
            Json::Object(members) => 1 + members_nesting(members@),
            _ => 0,
        }
    }

    /// Whether every number in the value, however deep, has its value.
    pub open spec fn writable(&self) -> bool
        decreases self,
    {
        match self {
            Json::Number(n) => n is Some,
            Json::Array(items) => items_writable(items@),
            Json::Object(members) => members_writable(members@),
            _ => true,
        }
    }
}

/// `items_nesting` bounds each item, and `items_writable` speaks of each.
pub proof fn lemma_items(items: Seq<Json>)
    ensures
        forall|i: int| 0 <= i < items.len() ==> (#[trigger] items[i]).nesting() <= items_nesting(items),
        items_writable(items) <==> forall|i: int|
            0 <= i < items.len() ==> (#[trigger] items[i]).writable(),
    decreases items.len(),
{
    if items.len() > 0 {
        let rest = items.drop_last();
        lemma_items(rest);
        assert(items_nesting(items) >= items_nesting(rest));
        assert(items_nesting(items) >= items.last().nesting());
        assert(items_writable(items) == (items_writable(rest) && items.last().writable()));
        assert forall|i: int| 0 <= i < items.len() implies (#[trigger] items[i]).nesting()
            <= items_nesting(items) by {
            if i < rest.len() {
                assert(rest[i] == items[i]);
            }
        }
        if items_writable(items) {
            assert forall|i: int| 0 <= i < items.len() implies (#[trigger] items[i]).writable() by {
                if i < rest.len() {
                    assert(rest[i] == items[i]);
                }
            }
        }
        if forall|i: int| 0 <= i < items.len() ==> (#[trigger] items[i]).writable() {
            assert(items.last() == items[items.len() - 1]);
            assert forall|i: int| 0 <= i < rest.len() implies (#[trigger] rest[i]).writable() by {
                assert(rest[i] == items[i]);
            }
        }
    }
}

/// `members_nesting` bounds each value, and `members_writable` speaks of
/// each.
pub proof fn lemma_members(members: Seq<Member>)
    ensures
        forall|i: int|
            0 <= i < members.len() ==> (#[trigger] members[i]).value.nesting() <= members_nesting(
                members,
            ),
        members_writable(members) <==> forall|i: int|
            0 <= i < members.len() ==> (#[trigger] members[i]).value.writable(),
    decreases members.len(),
{
    if members.len() > 0 {
        let rest = members.drop_last();
        lemma_members(rest);
        assert(members_nesting(members) >= members_nesting(rest));
        assert(members_nesting(members) >= members.last().value.nesting());
        assert(members_writable(members) == (members_writable(rest)
            && members.last().value.writable()));
        assert forall|i: int| 0 <= i < members.len() implies (
        #[trigger] members[i]).value.nesting() <= members_nesting(members) by {
            if i < rest.len() {
                assert(rest[i] == members[i]);
            }
        }
        if members_writable(members) {
            assert forall|i: int| 0 <= i < members.len() implies (
            #[trigger] members[i]).value.writable() by {
                if i < rest.len() {
                    assert(rest[i] == members[i]);
                }
            }
        }
        if forall|i: int| 0 <= i < members.len() ==> (#[trigger] members[i]).value.writable() {
            assert(members.last() == members[members.len() - 1]);
            assert forall|i: int| 0 <= i < rest.len() implies (
            #[trigger] rest[i]).value.writable() by {
                assert(rest[i] == members[i]);
            }
        }
    }
}

/// A member in front counts only where no later member has its key.
pub proof fn lemma_members_front(m: Member, rest: Seq<Member>)
    ensures
        members_view(seq![m] + rest) == if members_view(rest).contains_key(m.key@) {
            members_view(rest)
        } else {
            members_view(rest).insert(m.key@, m.value@)
        },
    decreases rest.len(),
{
    let all = seq![m] + rest;
    if rest.len() == 0 {
        assert(all.drop_last() =~= Seq::<Member>::empty());
        assert(all.last() == m);
        assert(members_view(all) == members_view(all.drop_last()).insert(m.key@, m.value@));
    } else {
        let shorter = rest.drop_last();
        lemma_members_front(m, shorter);
        assert(all.drop_last() =~= seq![m] + shorter);
        assert(all.last() == rest.last());
        assert(members_view(all) == members_view(seq![m] + shorter).insert(
            rest.last().key@,
            rest.last().value@,
        ));
        assert(members_view(rest) == members_view(shorter).insert(
            rest.last().key@,
            rest.last().value@,
        ));
        assert(members_view(all) =~= if members_view(rest).contains_key(m.key@) {
            members_view(rest)
        } else {
            members_view(rest).insert(m.key@, m.value@)
        });
    }
}

/// `items_view` takes the value of each item, in place.
pub proof fn lemma_items_view(items: Seq<Json>)
    ensures
        items_view(items).len() == items.len(),
        forall|i: int| 0 <= i < items.len() ==> #[trigger] items_view(items)[i] == items[i]@,
    decreases items.len(),
{
    if items.len() > 0 {
        lemma_items_view(items.drop_last());
        assert(items_view(items) == items_view(items.drop_last()).push(items.last()@));
    }
}

/// One more member sets one more key.
pub proof fn lemma_members_push(members: Seq<Member>, m: Member)
    ensures
        members_view(members.push(m)) == members_view(members).insert(m.key@, m.value@),
{
    assert(members.push(m).drop_last() =~= members);
}

/// Every member's key is a key of the map.
pub proof fn lemma_members_keys(members: Seq<Member>, i: int)
    requires
        0 <= i < members.len(),
    ensures
        members_view(members).contains_key(members[i].key@),
    decreases members.len(),
{
    if i < members.len() - 1 {
        lemma_members_keys(members.drop_last(), i);
    }
    assert(members_view(members) == members_view(members.drop_last()).insert(
        members.last().key@,
        members.last().value@,
    ));
}

/// Adds a member to the members of an object.
pub fn put(members: &mut Vec<Member>, key: &str, value: Json)
    ensures
        members_view(final(members)@) == members_view(old(members)@).insert(key@, value@),
        members_writable(final(members)@) == (members_writable(old(members)@) && value.writable()),
{
    let member = Member { key: key.to_owned(), value };
    proof {
        lemma_members_push(members@, member);
        assert(members@.push(member).drop_last() =~= members@);
    }
    members.push(member);
}

/// The value under `key` among `members`, where there is one.
pub fn lookup<'a>(members: &'a Vec<Member>, key: &str) -> (found: Option<&'a Json>)
    ensures
        match found {
            Some(j) => members_view(members@).contains_key(key@) && members_view(members@)[key@]
                == j@,
            None => !members_view(members@).contains_key(key@),
        },
{
    let wanted = key.to_owned();
    let ghost all = members@;
    let mut found: Option<&'a Json> = None;
    let mut i: usize = 0;
    assert(all.take(0) =~= Seq::<Member>::empty());
    while i < members.len()
        invariant
            i <= members.len(),
            all == members@,
            wanted@ == key@,
            match found {
                Some(j) => members_view(all.take(i as int)).contains_key(key@) && members_view(
                    all.take(i as int),
                )[key@] == j@,
                None => !members_view(all.take(i as int)).contains_key(key@),
            },
        decreases members.len() - i,
    {
        assert(all.take(i + 1).drop_last() =~= all.take(i as int));
        assert(all.take(i + 1).last() == all[i as int]);
        assert(members_view(all.take(i + 1)) == members_view(all.take(i as int)).insert(
            all[i as int].key@,
            all[i as int].value@,
        ));
        if members[i].key == wanted {
            found = Some(&members[i].value);
        }
        i += 1;
    }
    assert(all.take(members.len() as int) =~= all);
    found
}

} // verus!
