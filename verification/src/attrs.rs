//! Attributes: the JSON object that entries, blocks, chunks, links and
//! conversations carry.
//!
//! A member whose value is a JSON string is held as that string. Any other
//! value is held as its JSON text, since nothing here looks inside it.
use vstd::prelude::*;
use vstd::string::*;

use crate::text;

verus! {

/// The value of one member.
#[derive(Debug, Clone)]
pub enum AttrValue {
    /// A JSON string, unquoted.
    Text(String),
    /// The JSON text of a value that is not a string.
    Json(String),
}

/// A member's value, as mathematics.
pub enum AttrSpec {
    Text(Seq<char>),
    Json(Seq<char>),
}

impl View for AttrValue {
    type V = AttrSpec;

    open spec fn view(&self) -> AttrSpec {
        match self {
            AttrValue::Text(s) => AttrSpec::Text(s@),
            AttrValue::Json(s) => AttrSpec::Json(s@),
        }
    }
}

impl AttrSpec {
    /// The text of the value, whichever kind it is.
    pub open spec fn text(self) -> Seq<char> {
        match self {
            AttrSpec::Text(s) => s,
            AttrSpec::Json(s) => s,
        }
    }
}

impl AttrValue {
    pub fn copy(&self) -> (r: AttrValue)
        ensures
            r@ == self@,
    {
        match self {
            AttrValue::Text(s) => AttrValue::Text(s.clone()),
            AttrValue::Json(s) => AttrValue::Json(s.clone()),
        }
    }

    /// The text of the value, whichever kind it is.
    pub fn as_text(&self) -> (s: &str)
        ensures
            s@ == self@.text(),
    {
        match self {
            AttrValue::Text(s) => s.as_str(),
            AttrValue::Json(s) => s.as_str(),
        }
    }
}

/// The members of a JSON object, in order.
#[derive(Debug, Clone)]
pub struct Attrs {
    pub members: Vec<(String, AttrValue)>,
}

/// The members of an object as mathematics.
pub type Members = Seq<(Seq<char>, AttrSpec)>;

impl View for Attrs {
    type V = Members;

    open spec fn view(&self) -> Members {
        self.members@.map_values(|m: (String, AttrValue)| (m.0@, m.1@))
    }
}

/// `key` is the key of the member at `i`.
pub open spec fn key_at(members: Members, key: Seq<char>, i: int) -> bool {
    0 <= i < members.len() && members[i].0 == key
}

/// Some member has the key `key`.
pub open spec fn has_key(members: Members, key: Seq<char>) -> bool {
    exists|i: int| key_at(members, key, i)
}

/// No key occurs twice.
pub open spec fn distinct_keys(members: Members) -> bool {
    forall|i: int, j: int|
        0 <= i < j < members.len() ==> #[trigger] members[i].0 != #[trigger] members[j].0
}

/// The first position of `key`.
pub open spec fn key_index(members: Members, key: Seq<char>) -> int {
    choose|i: int|
        key_at(members, key, i) && forall|j: int| 0 <= j < i ==> !key_at(members, key, j)
}

/// The value of `key`, where it is present.
pub open spec fn value_of(members: Members, key: Seq<char>) -> Option<AttrSpec> {
    if has_key(members, key) {
        Some(members[key_index(members, key)].1)
    } else {
        None
    }
}

/// The members after `key` was given `value`: in place where the key was
/// there, at the end where it was not.
pub open spec fn with_member(members: Members, key: Seq<char>, value: AttrSpec) -> Members {
    if has_key(members, key) {
        members.update(key_index(members, key), (key, value))
    } else {
        members.push((key, value))
    }
}

proof fn lemma_key_index(members: Members, key: Seq<char>, at: int)
    requires
        key_at(members, key, at),
        forall|j: int| 0 <= j < at ==> !key_at(members, key, j),
    ensures
        has_key(members, key),
        key_index(members, key) == at,
{
    let i = key_index(members, key);
    assert(key_at(members, key, i) && forall|j: int| 0 <= j < i ==> !key_at(members, key, j));
    if i < at {
        assert(!key_at(members, key, i));
    }
    if at < i {
        assert(!key_at(members, key, at));
    }
}

proof fn lemma_key_index_exists(members: Members, key: Seq<char>, at: int)
    requires
        key_at(members, key, at),
    ensures
        key_at(members, key, key_index(members, key)),
        forall|j: int| 0 <= j < key_index(members, key) ==> !key_at(members, key, j),
        key_index(members, key) <= at,
    decreases at,
{
    if exists|i: int| 0 <= i < at && key_at(members, key, i) {
        let i = choose|i: int| 0 <= i < at && key_at(members, key, i);
        lemma_key_index_exists(members, key, i);
    } else {
        lemma_key_index(members, key, at);
    }
}

/// What was set reads back, other keys keep their values, and no key comes to
/// stand twice.
pub proof fn law_set_then_get(members: Members, key: Seq<char>, value: AttrSpec)
    ensures
        value_of(with_member(members, key, value), key) == Some(value),
        forall|other: Seq<char>|
            other != key ==> #[trigger] value_of(with_member(members, key, value), other)
                == value_of(members, other),
        distinct_keys(members) ==> distinct_keys(with_member(members, key, value)),
{
    let after = with_member(members, key, value);
    if has_key(members, key) {
        let at = choose|i: int| key_at(members, key, i);
        lemma_key_index_exists(members, key, at);
        let k = key_index(members, key);
        assert forall|j: int| 0 <= j < k implies !key_at(after, key, j) by {
            assert(!key_at(members, key, j));
        }
        lemma_key_index(after, key, k);
        assert forall|other: Seq<char>| other != key implies #[trigger] value_of(after, other)
            == value_of(members, other) by {
            assert forall|j: int| key_at(after, other, j) <==> key_at(members, other, j) by {}
            if has_key(members, other) {
                let o = choose|i: int| key_at(members, other, i);
                lemma_key_index_exists(members, other, o);
                lemma_key_index(after, other, key_index(members, other));
            } else if has_key(after, other) {
                let o = choose|i: int| key_at(after, other, i);
                assert(key_at(members, other, o));
            }
        }
    } else {
        let n = members.len() as int;
        assert forall|j: int| 0 <= j < n implies !key_at(after, key, j) by {
            if key_at(after, key, j) {
                assert(key_at(members, key, j));
            }
        }
        assert(key_at(after, key, n));
        lemma_key_index(after, key, n);
        assert forall|other: Seq<char>| other != key implies #[trigger] value_of(after, other)
            == value_of(members, other) by {
            assert forall|j: int| key_at(after, other, j) <==> key_at(members, other, j) by {}
            if has_key(members, other) {
                let o = choose|i: int| key_at(members, other, i);
                lemma_key_index_exists(members, other, o);
                lemma_key_index(after, other, key_index(members, other));
            } else if has_key(after, other) {
                let o = choose|i: int| key_at(after, other, i);
                assert(key_at(members, other, o));
            }
        }
        if distinct_keys(members) {
            assert forall|i: int, j: int| 0 <= i < j < after.len() implies #[trigger] after[i].0
                != #[trigger] after[j].0 by {
                if j == n {
                    assert(!key_at(members, key, i));
                }
            }
        }
    }
}

impl Attrs {
    /// The empty object.
    pub fn new() -> (r: Attrs)
        ensures
            r@ == Seq::<(Seq<char>, AttrSpec)>::empty(),
    {
        let r = Attrs { members: Vec::new() };
        proof {
            assert(r@ =~= Seq::empty());
        }
        r
    }

    /// The first position of `key`.
    fn position(&self, key: &str) -> (found: Option<usize>)
        ensures
            match found {
                Some(i) => i < self.members.len() && has_key(self@, key@) && key_index(self@, key@)
                    == i,
                None => !has_key(self@, key@),
            },
    {
        let mut i: usize = 0;
        while i < self.members.len()
            invariant
                i <= self.members.len(),
                forall|j: int| 0 <= j < i ==> !key_at(self@, key@, j),
            decreases self.members.len() - i,
        {
            proof {
                assert(self@[i as int].0 == self.members@[i as int].0@);
            }
            if text::same(self.members[i].0.as_str(), key) {
                proof {
                    lemma_key_index(self@, key@, i as int);
                }
                return Some(i);
            }
            i += 1;
        }
        proof {
            assert(!has_key(self@, key@));
        }
        None
    }

    /// The value of `key`, where it is present.
    pub fn get(&self, key: &str) -> (value: Option<&AttrValue>)
        ensures
            match value {
                Some(v) => value_of(self@, key@) == Some(v@),
                None => value_of(self@, key@) is None,
            },
    {
        match self.position(key) {
            Some(i) => Some(&self.members[i].1),
            None => None,
        }
    }

    /// Give `key` the value `value`.
    pub fn set(&mut self, key: String, value: AttrValue)
        ensures
            final(self)@ == with_member(old(self)@, key@, value@),
    {
        match self.position(key.as_str()) {
            Some(i) => {
                self.members.set(i, (key, value));
                proof {
                    assert(self@ =~= old(self)@.update(i as int, (key@, value@)));
                }
            },
            None => {
                self.members.push((key, value));
                proof {
                    assert(self@ =~= old(self)@.push((key@, value@)));
                }
            },
        }
    }

    pub fn copy(&self) -> (r: Attrs)
        ensures
            r@ == self@,
    {
        let mut members: Vec<(String, AttrValue)> = Vec::new();
        let mut i: usize = 0;
        while i < self.members.len()
            invariant
                i <= self.members.len(),
                members.len() == i,
                forall|j: int|
                    0 <= j < i ==> (#[trigger] members@[j]).0@ == self.members@[j].0@
                        && members@[j].1@ == self.members@[j].1@,
            decreases self.members.len() - i,
        {
            members.push((self.members[i].0.clone(), self.members[i].1.copy()));
            i += 1;
        }
        let r = Attrs { members };
        proof {
            assert(r@ =~= self@);
        }
        r
    }
}

/// An attribute field as it was supplied or stored: an object, or some other
/// JSON value, of which only the text is held.
#[derive(Debug, Clone)]
pub enum AttrsValue {
    Object(Attrs),
    Other(String),
}

/// An attribute field as mathematics.
pub enum AttrsSpec {
    Object(Members),
    Other(Seq<char>),
}

impl View for AttrsValue {
    type V = AttrsSpec;

    open spec fn view(&self) -> AttrsSpec {
        match self {
            AttrsValue::Object(a) => AttrsSpec::Object(a@),
            AttrsValue::Other(s) => AttrsSpec::Other(s@),
        }
    }
}

impl AttrsSpec {
    /// The members of the object; none for another value.
    pub open spec fn members(self) -> Members {
        match self {
            AttrsSpec::Object(m) => m,
            AttrsSpec::Other(_) => Seq::empty(),
        }
    }
}

impl AttrsValue {
    pub fn copy(&self) -> (r: AttrsValue)
        ensures
            r@ == self@,
    {
        match self {
            AttrsValue::Object(a) => AttrsValue::Object(a.copy()),
            AttrsValue::Other(s) => AttrsValue::Other(s.clone()),
        }
    }

    /// The object; the empty one for another value.
    pub fn object_or_empty(&self) -> (r: Attrs)
        ensures
            r@ == self@.members(),
    {
        match self {
            AttrsValue::Object(a) => a.copy(),
            AttrsValue::Other(_) => Attrs::new(),
        }
    }
}

/// The attributes that were given; the empty object where none were.
pub open spec fn given(attrs: Option<AttrsValue>) -> AttrsSpec {
    match attrs {
        Some(v) => v@,
        None => AttrsSpec::Object(Seq::empty()),
    }
}

/// The attributes that were given; the empty object where none were.
pub fn or_empty(attrs: Option<AttrsValue>) -> (r: AttrsValue)
    ensures
        r@ == given(attrs),
{
    match attrs {
        Some(v) => v,
        None => AttrsValue::Object(Attrs::new()),
    }
}

impl AttrsValue {
    pub fn is_object(&self) -> (r: bool)
        ensures
            r == (self@ is Object),
    {
        match self {
            AttrsValue::Object(_) => true,
            AttrsValue::Other(_) => false,
        }
    }
}

/// Setting a key changes no other member and no member's place: a key that was
/// there keeps its place, and a new one stands last.
pub proof fn law_set_keeps_the_order(members: Members, key: Seq<char>, value: AttrSpec)
    ensures
        ({
            let after = with_member(members, key, value);
            &&& after.len() == if has_key(members, key) {
                members.len()
            } else {
                members.len() + 1
            }
            &&& forall|i: int|
                0 <= i < members.len() ==> (#[trigger] after[i]).0 == members[i].0
            &&& forall|i: int|
                0 <= i < members.len() && members[i].0 != key ==> #[trigger] after[i] == members[i]
            &&& !has_key(members, key) ==> after.last() == (key, value)
        }),
{
    if has_key(members, key) {
        lemma_key_index_exists(members, key, choose|i: int| key_at(members, key, i));
    }
}

} // verus!
