use vstd::prelude::*;

verus! {

/// A decoded JSON value.
///
/// A number is held as the decimal text that the decoder gives it; the
/// members of an object are held in the order in which the decoder yields
/// them, and a key is read from the first member that has it.
#[derive(Debug)]
pub enum JsonValue {
    Null,
    Bool(bool),
    Number(String),
    Str(String),
    Array(Vec<JsonValue>),
    Object(Vec<(String, JsonValue)>),
}

/// Whether a value can stand in a field of a line: anything but an array or
/// an object.
pub open spec fn is_scalar(v: JsonValue) -> bool {
    !(v is Array || v is Object)
}

impl JsonValue {
    /// Whether the value is an array or an object.
    pub fn is_nested(&self) -> (r: bool)
        ensures
            r == !is_scalar(*self),
    {
        match self {
            JsonValue::Array(_) | JsonValue::Object(_) => true,
            _ => false,
        }
    }
}

/// The value that an object holds under `key`: the first member with that
/// key, or `Null` where there is none.
pub open spec fn member(members: Seq<(String, JsonValue)>, key: Seq<char>) -> JsonValue
    decreases members.len(),
{
    if members.len() == 0 {
        JsonValue::Null
    } else if members[0].0@ == key {
        members[0].1
    } else {
        member(members.drop_first(), key)
    }
}

proof fn lemma_member_skip(members: Seq<(String, JsonValue)>, key: Seq<char>, i: int)
    requires
        0 <= i < members.len(),
        members[i].0@ != key,
    ensures
        member(members.subrange(i, members.len() as int), key) == member(
            members.subrange(i + 1, members.len() as int),
            key,
        ),
{
    assert(members.subrange(i, members.len() as int).drop_first() =~= members.subrange(
        i + 1,
        members.len() as int,
    ));
}

/// The position of the member that `member` reads, if the key is present.
pub fn find_member(members: &Vec<(String, JsonValue)>, key: &String) -> (r: Option<usize>)
    ensures
        match r {
            Some(i) => i < members@.len() && members@[i as int].1 == member(members@, key@)
                && members@[i as int].0@ == key@,
            None => member(members@, key@) == JsonValue::Null,
        },
{
    let n = members.len();
    let mut i: usize = 0;
    assert(members@.subrange(0, n as int) =~= members@);
    while i < n
        invariant
            n == members@.len(),
            i <= n,
            member(members@.subrange(i as int, n as int), key@) == member(members@, key@),
        decreases n - i,
    {
        if members[i].0 == *key {
            return Some(i);
        }
        proof {
            lemma_member_skip(members@, key@, i as int);
        }
        i = i + 1;
    }
    None
}

} // verus!
