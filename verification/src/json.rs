//! JSON documents exchanged with the judgment service, as plain values.
//!
//! An object is a map: member order carries no meaning, and a key given twice holds its last
//! value. Numbers carry the binary64 value a JSON reader gives them and, when the number is a
//! non-negative integer that fits, that integer.

use vstd::prelude::*;

verus! {

#[derive(Debug, Clone, Copy, PartialEq, Eq, Structural)]
pub struct JsonNumber {
    /// Bit pattern of the binary64 value.
    pub bits: u64,
    /// The value as an unsigned integer, when it is one.
    pub unsigned: Option<u64>,
}

#[derive(Debug)]
pub enum Json {
    Null,
    Bool(bool),
    Number(JsonNumber),
    Str(String),
    Array(Vec<Json>),
    Object(Vec<(String, Json)>),
}

/// Content of a JSON value.
pub enum JsonView {
    Null,
    Bool(bool),
    Number(JsonNumber),
    Str(Seq<char>),
    Array(Seq<JsonView>),
    Object(Seq<(Seq<char>, JsonView)>),
}

pub open spec fn json_view(j: Json) -> JsonView
    decreases j, 1nat, 0nat,
{
    match j {
        Json::Null => JsonView::Null,
        Json::Bool(b) => JsonView::Bool(b),
        Json::Number(n) => JsonView::Number(n),
        Json::Str(s) => JsonView::Str(s@),
        Json::Array(items) => JsonView::Array(items_view(j, items@.len())),
        Json::Object(members) => JsonView::Object(members_view(j, members@.len())),
    }
}

pub open spec fn items_view(j: Json, k: nat) -> Seq<JsonView>
    decreases j, 0nat, k,
{
    match j {
        Json::Array(items) => {
            if k == 0 || k > items@.len() {
                seq![]
            } else {
                items_view(j, (k - 1) as nat).push(json_view(items@[k - 1]))
            }
        },
        _ => seq![],
    }
}

pub open spec fn members_view(j: Json, k: nat) -> Seq<(Seq<char>, JsonView)>
    decreases j, 0nat, k,
{
    match j {
        Json::Object(members) => {
            if k == 0 || k > members@.len() {
                seq![]
            } else {
                members_view(j, (k - 1) as nat).push(
                    (members@[k - 1].0@, json_view(members@[k - 1].1)),
                )
            }
        },
        _ => seq![],
    }
}

impl View for Json {
    type V = JsonView;

    open spec fn view(&self) -> JsonView {
        json_view(*self)
    }
}

pub proof fn lemma_members_view(j: Json, k: nat)
    requires
        j is Object,
        k <= j->Object_0@.len(),
    ensures
        members_view(j, k).len() == k,
        forall|i: int|
            0 <= i < k ==> #[trigger] members_view(j, k)[i] == (
                j->Object_0@[i].0@,
                json_view(j->Object_0@[i].1),
            ),
    decreases k,
{
    if k > 0 {
        lemma_members_view(j, (k - 1) as nat);
    }
}

pub proof fn lemma_items_view(j: Json, k: nat)
    requires
        j is Array,
        k <= j->Array_0@.len(),
    ensures
        items_view(j, k).len() == k,
        forall|i: int| 0 <= i < k ==> #[trigger] items_view(j, k)[i] == json_view(j->Array_0@[i]),
    decreases k,
{
    if k > 0 {
        lemma_items_view(j, (k - 1) as nat);
    }
}

/// The value of the last member named `key`.
pub open spec fn member_value(members: Seq<(Seq<char>, JsonView)>, key: Seq<char>) -> Option<
    JsonView,
>
    decreases members.len(),
{
    if members.len() == 0 {
        None
    } else if members.last().0 == key {
        Some(members.last().1)
    } else {
        member_value(members.drop_last(), key)
    }
}

/// The member `key` of an object.
pub open spec fn get_member(j: JsonView, key: Seq<char>) -> Option<JsonView> {
    match j {
        JsonView::Object(members) => member_value(members, key),
        _ => None,
    }
}

/// The members of an object.
pub open spec fn object_members(j: JsonView) -> Option<Seq<(Seq<char>, JsonView)>> {
    match j {
        JsonView::Object(members) => Some(members),
        _ => None,
    }
}

pub open spec fn text_of(j: JsonView) -> Option<Seq<char>> {
    match j {
        JsonView::Str(s) => Some(s),
        _ => None,
    }
}

pub open spec fn number_of(j: JsonView) -> Option<JsonNumber> {
    match j {
        JsonView::Number(n) => Some(n),
        _ => None,
    }
}

impl Json {
    /// The member `key`, when this is an object that has one.
    pub fn get(&self, key: &str) -> (r: Option<&Json>)
        ensures
            match r {
                Some(v) => get_member(self@, key@) == Some(v@),
                None => get_member(self@, key@) is None,
            },
    {
        match self {
            Json::Object(members) => {
                proof {
                    lemma_members_view(*self, members@.len());
                }
                let ghost ms = members_view(*self, members@.len());
                let key_text = String::from_str(key);
                assert(ms.subrange(0, members@.len() as int) =~= ms);
                let mut k: usize = members.len();
                while k > 0
                    invariant
                        k <= members@.len(),
                        *self is Object,
                        members@ == self->Object_0@,
                        ms == members_view(*self, members@.len()),
                        ms.len() == members@.len(),
                        forall|i: int|
                            0 <= i < members@.len() ==> #[trigger] ms[i] == (
                                members@[i].0@,
                                json_view(members@[i].1),
                            ),
                        key_text@ == key@,
                        member_value(ms, key@) == member_value(ms.subrange(0, k as int), key@),
                    decreases k,
                {
                    let ghost sub = ms.subrange(0, k as int);
                    assert(sub.drop_last() =~= ms.subrange(0, k - 1));
                    assert(sub.last() == ms[k - 1]);
                    if members[k - 1].0 == key_text {
                        return Some(&members[k - 1].1);
                    }
                    k = k - 1;
                }
                assert(ms.subrange(0, 0) =~= Seq::<(Seq<char>, JsonView)>::empty());
                None
            },
            _ => None,
        }
    }

    /// The text of a string value.
    pub fn as_str(&self) -> (r: Option<&str>)
        ensures
            match r {
                Some(s) => text_of(self@) == Some(s@),
                None => text_of(self@) is None,
            },
    {
        match self {
            Json::Str(s) => Some(s.as_str()),
            _ => None,
        }
    }

    /// The number of a numeric value.
    pub fn as_number(&self) -> (r: Option<JsonNumber>)
        ensures
            r == number_of(self@),
    {
        match self {
            Json::Number(n) => Some(*n),
            _ => None,
        }
    }

    /// The number of members of an object.
    pub fn object_len(&self) -> (r: Option<usize>)
        ensures
            match r {
                Some(n) => object_members(self@) matches Some(ms) && ms.len() == n,
                None => object_members(self@) is None,
            },
    {
        match self {
            Json::Object(members) => {
                proof {
                    lemma_members_view(*self, members@.len());
                }
                Some(members.len())
            },
            _ => None,
        }
    }
}

/// A string value.
pub fn text(s: &str) -> (r: Json)
    ensures
        r@ == JsonView::Str(s@),
{
    Json::Str(String::from_str(s))
}

/// An object whose members are `members`, in that order.
pub fn object(members: Vec<(String, Json)>) -> (r: Json)
    ensures
        r@ == JsonView::Object(members@.map_values(|m: (String, Json)| (m.0@, m.1@))),
{
    let r = Json::Object(members);
    proof {
        lemma_members_view(r, members@.len());
        assert(members_view(r, members@.len()) =~= members@.map_values(
            |m: (String, Json)| (m.0@, m.1@),
        ));
    }
    r
}

/// An array whose items are `items`, in that order.
pub fn array(items: Vec<Json>) -> (r: Json)
    ensures
        r@ == JsonView::Array(items@.map_values(|j: Json| j@)),
{
    let r = Json::Array(items);
    proof {
        lemma_items_view(r, items@.len());
        assert(items_view(r, items@.len()) =~= items@.map_values(|j: Json| j@));
    }
    r
}

} // verus!
