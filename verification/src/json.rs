//! JSON values: the options of a request laid over the default ones, and the bytes of an answer.

use crate::http::{body_length, json_head, json_response_head, law_answer_announces_length};
use crate::text::cat2;
use vstd::prelude::*;

verus! {

/// `serde_json::Value`: a JSON value.
#[verifier::external_type_specification]
#[verifier::external_body]
pub struct ExValue(serde_json::Value);

/// `serde_json::Map`: the members of a JSON object.
#[verifier::external_type_specification]
#[verifier::external_body]
#[verifier::reject_recursive_types(K)]
#[verifier::reject_recursive_types(V)]
pub struct ExMap<K, V>(serde_json::Map<K, V>);

/// What a JSON value is.
pub ghost enum Json {
    Null,
    Bool(bool),
    /// A number, by its notation.
    Number(Seq<char>),
    Text(Seq<char>),
    List(Seq<Json>),
    Object(Map<Seq<char>, Json>),
}

/// What a JSON value is.
pub uninterp spec fn json_view(value: serde_json::Value) -> Json;

/// The members of a JSON object, by their names.
pub uninterp spec fn json_members(map: serde_json::Map<String, serde_json::Value>) -> Map<
    Seq<char>,
    Json,
>;

/// The bytes that a JSON value is written as, or why it cannot be written.
pub uninterp spec fn json_bytes(value: serde_json::Value) -> Result<Seq<u8>, Seq<char>>;

/// `serde_json::Value::is_null`: whether the value is `null`.
pub assume_specification[ serde_json::Value::is_null ](value: &serde_json::Value) -> (r: bool)
    ensures
        r == (json_view(*value) is Null),
;

/// `serde_json::Value::as_object`: the object, if the value is one.
pub assume_specification[ serde_json::Value::as_object ](value: &serde_json::Value) -> (r: Option<
    &serde_json::Map<String, serde_json::Value>,
>)
    ensures
        match r {
            Some(map) => json_view(*value) == Json::Object(json_members(*map)),
            None => !(json_view(*value) is Object),
        },
;

/// `serde_json::Value::as_object_mut`: the object, if the value is one, to be changed in place.
pub assume_specification[ serde_json::Value::as_object_mut ](value: &mut serde_json::Value) -> (r:
    Option<&mut serde_json::Map<String, serde_json::Value>>)
    ensures
        match r {
            Some(map) => json_view(*old(value)) == Json::Object(json_members(*map)) && json_view(
                *final(value),
            ) == Json::Object(json_members(*final(map))),
            None => !(json_view(*old(value)) is Object) && *final(value) == *old(value),
        },
;

/// `serde_json::Map::insert`: the member of this name has the value given, and the others are as
/// they were.
#[verifier::external_body]
fn set_member(
    map: &mut serde_json::Map<String, serde_json::Value>,
    name: String,
    value: serde_json::Value,
)
    ensures
        json_members(*final(map)) == json_members(*old(map)).insert(name@, json_view(value)),
{
    map.insert(name, value);
}

/// `serde_json::Map::iter`: each member once, as a copy of its name and of its value.
#[verifier::external_body]
fn members(map: &serde_json::Map<String, serde_json::Value>) -> (list: Vec<
    (String, serde_json::Value),
>)
    ensures
        forall|i: int|
            0 <= i < list@.len() ==> json_members(*map).contains_pair(
                (#[trigger] list@[i]).0@,
                json_view(list@[i].1),
            ),
        forall|name: Seq<char>| #[trigger]
            json_members(*map).contains_key(name) ==> exists|i: int|
                0 <= i < list@.len() && (#[trigger] list@[i]).0@ == name,
        forall|i: int, j: int|
            0 <= i < j < list@.len() ==> (#[trigger] list@[i]).0@ != (#[trigger] list@[j]).0@,
{
    map.iter().map(|(name, value)| (name.clone(), value.clone())).collect()
}

/// `serde_json::to_vec` of a JSON value: its bytes, or what the error says.
#[verifier::external_body]
fn value_bytes(value: &serde_json::Value) -> (r: Result<Vec<u8>, String>)
    ensures
        match r {
            Ok(bytes) => json_bytes(*value) == Ok::<Seq<u8>, Seq<char>>(bytes@),
            Err(e) => json_bytes(*value) == Err::<Seq<u8>, Seq<char>>(e@),
        },
{
    serde_json::to_vec(value).map_err(|error| error.to_string())
}

/// Sets each member of `overrides` in `base`.
fn lay_over(
    base: &mut serde_json::Map<String, serde_json::Value>,
    overrides: &serde_json::Map<String, serde_json::Value>,
)
    ensures
        json_members(*final(base)) == json_members(*old(base)).union_prefer_right(
            json_members(*overrides),
        ),
{
    let ghost start = json_members(*base);
    let ghost over = json_members(*overrides);
    let list = members(overrides);
    let ghost all = list@;
    let mut rest = list;
    let ghost mut n: int = all.len() as int;
    assert(all.take(n) =~= all);
    while rest.len() > 0
        invariant
            n == rest@.len(),
            0 <= n <= all.len(),
            rest@ == all.take(n),
            over == json_members(*overrides),
            forall|i: int|
                0 <= i < all.len() ==> over.contains_pair(
                    (#[trigger] all[i]).0@,
                    json_view(all[i].1),
                ),
            forall|i: int, j: int|
                0 <= i < j < all.len() ==> (#[trigger] all[i]).0@ != (#[trigger] all[j]).0@,
            forall|name: Seq<char>| #[trigger]
                json_members(*base).contains_key(name) <==> start.contains_key(name) || exists|
                    i: int,
                |
                    n <= i < all.len() && (#[trigger] all[i]).0@ == name,
            forall|i: int|
                n <= i < all.len() ==> json_members(*base)[(#[trigger] all[i]).0@] == json_view(
                    all[i].1,
                ),
            forall|name: Seq<char>|
                start.contains_key(name) && !(exists|i: int|
                    n <= i < all.len() && (#[trigger] all[i]).0@ == name) ==> #[trigger] json_members(
                    *base,
                )[name] == start[name],
        decreases rest@.len(),
    {
        let ghost before = json_members(*base);
        match rest.pop() {
            Some((name, value)) => {
                proof {
                    assert(all[n - 1].0@ == name@ && all[n - 1].1 == value);
                }
                set_member(base, name, value);
                proof {
                    let after = json_members(*base);
                    assert(after == before.insert(name@, json_view(value)));
                    assert forall|key: Seq<char>| #[trigger]
                        after.contains_key(key) <==> start.contains_key(key) || exists|i: int|
                            n - 1 <= i < all.len() && (#[trigger] all[i]).0@ == key by {
                        if key == name@ {
                            assert(all[n - 1].0@ == key);
                        } else {
                            assert(after.contains_key(key) == before.contains_key(key));
                        }
                    }
                    assert forall|key: Seq<char>|
                        start.contains_key(key) && !(exists|i: int|
                            n - 1 <= i < all.len() && (#[trigger] all[i]).0@ == key) implies #[trigger] after[key]
                        == start[key] by {
                        if key == name@ {
                            assert(all[n - 1].0@ == key);
                        } else {
                            assert(!(exists|i: int|
                                n <= i < all.len() && (#[trigger] all[i]).0@ == key));
                            assert(before[key] == start[key]);
                        }
                    }
                    n = n - 1;
                    assert(rest@ =~= all.take(n));
                }
            },
            None => {},
        }
    }
    proof {
        let merged = json_members(*base);
        let wanted = start.union_prefer_right(over);
        assert forall|key: Seq<char>| merged.contains_key(key) <==> wanted.contains_key(key) by {
            if over.contains_key(key) {
                let i = choose|i: int| 0 <= i < all.len() && (#[trigger] all[i]).0@ == key;
                assert(all[i].0@ == key);
            }
        }
        assert forall|key: Seq<char>| merged.contains_key(key) implies merged[key]
            == wanted[key] by {
            if over.contains_key(key) {
                let i = choose|i: int| 0 <= i < all.len() && (#[trigger] all[i]).0@ == key;
                assert(over.contains_pair(all[i].0@, json_view(all[i].1)));
                assert(merged[all[i].0@] == json_view(all[i].1));
            } else {
                assert(!(exists|i: int| 0 <= i < all.len() && (#[trigger] all[i]).0@ == key)) by {
                    if exists|i: int| 0 <= i < all.len() && (#[trigger] all[i]).0@ == key {
                        let i = choose|i: int| 0 <= i < all.len() && (#[trigger] all[i]).0@ == key;
                        assert(over.contains_pair(all[i].0@, json_view(all[i].1)));
                    }
                }
            }
        }
        assert(merged =~= wanted);
    }
}

/// What the options of a request come to: the default ones where it gives none or `null`;
/// otherwise the default ones with those of the request laid over them.
pub open spec fn is_merged(
    defaults: serde_json::Value,
    options: Option<serde_json::Value>,
    r: Result<serde_json::Value, String>,
) -> bool {
    match options {
        None => r == Ok::<serde_json::Value, String>(defaults),
        Some(given) => match (json_view(given), json_view(defaults)) {
            (Json::Null, _) => r == Ok::<serde_json::Value, String>(defaults),
            (Json::Object(over), Json::Object(base)) => r matches Ok(merged) && json_view(merged)
                == Json::Object(base.union_prefer_right(over)),
            (Json::Object(_), _) => r matches Err(e) && e@ == "Unable to merge default options."@,
            _ => r matches Err(e) && e@ == "Agent options must be a JSON object."@,
        },
    }
}

/// The options of a request laid over the default ones, both as JSON.
pub fn agent_options_from_request(
    defaults: serde_json::Value,
    options: Option<serde_json::Value>,
) -> (r: Result<serde_json::Value, String>)
    ensures
        is_merged(defaults, options, r),
{
    let given = match options {
        Some(given) => given,
        None => {
            return Ok(defaults);
        },
    };
    if given.is_null() {
        return Ok(defaults);
    }
    let mut merged = defaults;
    match given.as_object() {
        None => Err("Agent options must be a JSON object.".to_string()),
        Some(overrides) => match merged.as_object_mut() {
            None => Err("Unable to merge default options.".to_string()),
            Some(base) => {
                lay_over(base, overrides);
                Ok(merged)
            },
        },
    }
}

/// Where a request gives options: a member that it gives has the value that it gives it; any
/// other has its default value; and no others are added.
pub proof fn law_given_options_win(
    defaults: serde_json::Value,
    given: serde_json::Value,
    merged: serde_json::Value,
    name: Seq<char>,
)
    requires
        is_merged(defaults, Some(given), Ok(merged)),
        !(json_view(given) is Null),
    ensures
        json_view(defaults) matches Json::Object(base) && json_view(given) matches Json::Object(
            over,
        ) && json_view(merged) matches Json::Object(all) && {
            &&& over.contains_key(name) ==> all[name] == over[name]
            &&& !over.contains_key(name) && base.contains_key(name) ==> all[name] == base[name]
            &&& all.contains_key(name) <==> base.contains_key(name) || over.contains_key(name)
        },
{
}

// ---------------------------------------------------------------------------------------------
// Values that are made here
// ---------------------------------------------------------------------------------------------

/// `serde_json::Value::Bool`: a truth value.
#[verifier::external_body]
pub(crate) fn bool_value(b: bool) -> (value: serde_json::Value)
    ensures
        json_view(value) == Json::Bool(b),
{
    serde_json::Value::Bool(b)
}

/// `serde_json::Value::String`: a text.
#[verifier::external_body]
pub(crate) fn text_value(s: String) -> (value: serde_json::Value)
    ensures
        json_view(value) == Json::Text(s@),
{
    serde_json::Value::String(s)
}

/// `serde_json::Value::Array`: a list of values.
#[verifier::external_body]
pub(crate) fn list_value(list: Vec<serde_json::Value>) -> (value: serde_json::Value)
    ensures
        json_view(value) == Json::List(Seq::new(list@.len(), |i: int| json_view(list@[i]))),
{
    serde_json::Value::Array(list)
}

/// An object without members.
pub open spec fn no_members() -> Map<Seq<char>, Json> {
    Map::empty()
}

/// `serde_json::Map::new`: an object without members.
#[verifier::external_body]
fn empty_map() -> (object: serde_json::Map<String, serde_json::Value>)
    ensures
        json_members(object) == no_members(),
{
    serde_json::Map::new()
}

/// `serde_json::Value::Object`: an object with these members.
#[verifier::external_body]
fn object_value(map: serde_json::Map<String, serde_json::Value>) -> (value: serde_json::Value)
    ensures
        json_view(value) == Json::Object(json_members(map)),
{
    serde_json::Value::Object(map)
}

/// An object that is being put together.
pub(crate) struct ObjectBuilder {
    map: serde_json::Map<String, serde_json::Value>,
}

impl ObjectBuilder {
    /// The members so far.
    pub closed spec fn members(self) -> Map<Seq<char>, Json> {
        json_members(self.map)
    }

    /// No member yet.
    pub fn new() -> (b: ObjectBuilder)
        ensures
            b.members() == no_members(),
    {
        ObjectBuilder { map: empty_map() }
    }

    /// Adds a member.
    pub fn with(self, name: &str, value: serde_json::Value) -> (b: ObjectBuilder)
        ensures
            b.members() == self.members().insert(name@, json_view(value)),
    {
        let mut map = self.map;
        set_member(&mut map, name.to_string(), value);
        ObjectBuilder { map }
    }

    /// The object.
    pub fn build(self) -> (value: serde_json::Value)
        ensures
            json_view(value) == Json::Object(self.members()),
    {
        object_value(self.map)
    }
}

// ---------------------------------------------------------------------------------------------
// Answers
// ---------------------------------------------------------------------------------------------

/// An answer: its head and its body.
pub struct Answer {
    pub head: String,
    pub body: Vec<u8>,
}

/// What an answer with a status line and a JSON value as its body is, or why there is none.
pub open spec fn is_answer(
    status: Seq<char>,
    payload: serde_json::Value,
    r: Result<Answer, String>,
) -> bool {
    match (r, json_bytes(payload)) {
        (Ok(answer), Ok(bytes)) => {
            &&& answer.body@ == bytes
            &&& answer.head@ == json_head(status, bytes.len())
        },
        (Err(e), Err(why)) => e@ == "Unable to serialize agent response: "@ + why,
        _ => false,
    }
}

/// An answer with a JSON value as its body.
pub fn json_answer(status: &str, payload: &serde_json::Value) -> (r: Result<Answer, String>)
    ensures
        is_answer(status@, *payload, r),
{
    match value_bytes(payload) {
        Ok(body) => {
            let head = json_response_head(status, body.len());
            Ok(Answer { head, body })
        },
        Err(e) => Err(cat2("Unable to serialize agent response: ", e.as_str())),
    }
}

/// The head of an answer announces as many bytes as its body has.
pub proof fn law_answer_announces_its_body(
    status: Seq<char>,
    payload: serde_json::Value,
    answer: Answer,
)
    requires
        is_answer(status, payload, Ok(answer)),
        answer.body@.len() <= usize::MAX,
        forall|i: int| 0 <= i < status.len() ==> status[i] != '\n',
    ensures
        body_length(answer.head@) == answer.body@.len(),
{
    law_answer_announces_length(status, answer.body@.len());
}

} // verus!
