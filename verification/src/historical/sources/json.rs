//! JSON values as an exchange answers with them.

use vstd::prelude::*;

use crate::binary64::Binary64;
use crate::text::same_text;

verus! {

/// A JSON value. The members of an object stand in the order they are walked.
pub enum Json {
    Null,
    Bool(bool),
    Number(Binary64),
    Text(String),
    Array(Vec<Json>),
    Object(Vec<(String, Json)>),
}

/// Whether a member has a name.
pub open spec fn is_named(member: (String, Json), name: Seq<char>) -> bool {
    member.0@ == name
}

/// The value of the first member of that name.
pub open spec fn member(members: Seq<(String, Json)>, name: Seq<char>) -> Option<Json>
    decreases members.len(),
{
    if members.len() == 0 {
        None
    } else if is_named(members[0], name) {
        Some(members[0].1)
    } else {
        member(members.skip(1), name)
    }
}

/// The value of the first member of that name.
pub fn find_member<'a>(members: &'a Vec<(String, Json)>, name: &str) -> (r: Option<&'a Json>)
    ensures
        match r {
            Some(v) => member(members@, name@) == Some(*v),
            None => member(members@, name@) is None,
        },
{
    assert(members@.skip(0) =~= members@);
    for i in 0..members.len()
        invariant
            member(members@, name@) == member(members@.skip(i as int), name@),
    {
        assert(members@.skip(i as int).skip(1) =~= members@.skip(i + 1));
        if same_text(members[i].0.as_str(), name) {
            return Some(&members[i].1);
        }
    }
    None
}

impl Json {
    /// The items of an array; nothing for any other value.
    pub open spec fn items(self) -> Option<Seq<Json>> {
        match self {
            Json::Array(v) => Some(v@),
            _ => None,
        }
    }

    /// The members of an object; nothing for any other value.
    pub open spec fn members(self) -> Option<Seq<(String, Json)>> {
        match self {
            Json::Object(v) => Some(v@),
            _ => None,
        }
    }

    /// A text's characters; nothing for any other value.
    pub open spec fn text(self) -> Option<Seq<char>> {
        match self {
            Json::Text(s) => Some(s@),
            _ => None,
        }
    }

    /// A number; nothing for any other value.
    pub open spec fn number(self) -> Option<Binary64> {
        match self {
            Json::Number(n) => Some(n),
            _ => None,
        }
    }

    /// The value of a member of an object.
    pub open spec fn field(self, name: Seq<char>) -> Option<Json> {
        match self.members() {
            Some(m) => member(m, name),
            None => None,
        }
    }

    /// The items of an array.
    pub fn as_array(&self) -> (r: Option<&Vec<Json>>)
        ensures
            match r {
                Some(v) => self.items() == Some(v@),
                None => self.items() is None,
            },
            match self {
                Json::Array(v) => r == Some(v),
                _ => r is None,
            },
    {
        match self {
            Json::Array(v) => Some(v),
            _ => None,
        }
    }

    /// The members of an object.
    pub fn as_object(&self) -> (r: Option<&Vec<(String, Json)>>)
        ensures
            match r {
                Some(v) => self.members() == Some(v@),
                None => self.members() is None,
            },
            match self {
                Json::Object(v) => r == Some(v),
                _ => r is None,
            },
    {
        match self {
            Json::Object(v) => Some(v),
            _ => None,
        }
    }

    /// A text.
    pub fn as_text(&self) -> (r: Option<&str>)
        ensures
            match r {
                Some(s) => self.text() == Some(s@),
                None => self.text() is None,
            },
            match self {
                Json::Text(s) => r matches Some(t) && t@ == s@,
                _ => r is None,
            },
    {
        match self {
            Json::Text(s) => Some(s.as_str()),
            _ => None,
        }
    }

    /// A number.
    pub fn as_number(&self) -> (r: Option<Binary64>)
        ensures
            r == self.number(),
            match self {
                Json::Number(n) => r == Some(*n),
                _ => r is None,
            },
    {
        match self {
            Json::Number(n) => Some(*n),
            _ => None,
        }
    }

    /// The value of a member of an object.
    pub fn get(&self, name: &str) -> (r: Option<&Json>)
        ensures
            match r {
                Some(v) => self.field(name@) == Some(*v),
                None => self.field(name@) is None,
            },
    {
        match self.as_object() {
            Some(m) => find_member(m, name),
            None => None,
        }
    }
}

/// The value of a name is that of the first member with this name: of any member
/// with it that none before it shares it with. Without such a member there is
/// none.
pub proof fn law_the_first_member_of_a_name_counts(
    members: Seq<(String, Json)>,
    name: Seq<char>,
    k: int,
)
    requires
        0 <= k <= members.len(),
        forall|i: int| 0 <= i < k ==> (#[trigger] members[i]).0@ != name,
    ensures
        k < members.len() && members[k].0@ == name ==> member(members, name) == Some(members[k].1),
        k == members.len() ==> member(members, name) is None,
    decreases k,
{
    if k > 0 {
        let rest = members.skip(1);
        assert(members[0].0@ != name);
        assert forall|i: int| 0 <= i < k - 1 implies (#[trigger] rest[i]).0@ != name by {
            assert(rest[i] == members[i + 1]);
        }
        law_the_first_member_of_a_name_counts(rest, name, k - 1);
        if k < members.len() {
            assert(rest[k - 1] == members[k]);
        }
    }
}

/// Only objects have members, and the value under a name is that of the member.
pub proof fn law_only_objects_have_fields(v: Json, name: Seq<char>)
    ensures
        v matches Json::Object(m) ==> v.field(name) == member(m@, name) && v.members() == Some(m@),
        !(v is Object) ==> v.field(name) is None && v.members() is None,
        v matches Json::Array(a) ==> v.items() == Some(a@),
        !(v is Array) ==> v.items() is None,
        v matches Json::Text(s) ==> v.text() == Some(s@),
        !(v is Text) ==> v.text() is None,
        v matches Json::Number(n) ==> v.number() == Some(n),
        !(v is Number) ==> v.number() is None,
{
}

} // verus!
