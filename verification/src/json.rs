//! JSON documents: what a `serde_json::Value` holds, and the calls into `serde_json`.

use vstd::prelude::*;

verus! {

/// A JSON number, in the three forms that `serde_json::Number` tells apart.
pub enum JsonNumber {
    /// An integer that is not negative.
    Unsigned(u64),
    /// A negative integer.
    Negative(i64),
    /// A floating-point number, by the bits of the double.
    Float(u64),
}

/// What a JSON value holds.
pub enum Json {
    Null,
    Bool(bool),
    Number(JsonNumber),
    Str(Seq<char>),
    Array(Seq<Json>),
    Object(Map<Seq<char>, Json>),
}

/// The members of an object, by their names.
pub type Members = Map<Seq<char>, Json>;

/// The members of the object that has none.
pub open spec fn no_members() -> Members {
    Map::empty()
}

/// The member of an object under that name; nothing where there is no such member, or where
/// the value is not an object.
pub open spec fn member(json: Json, name: Seq<char>) -> Option<Json> {
    match json {
        Json::Object(members) => if members.contains_key(name) {
            Some(members[name])
        } else {
            None
        },
        _ => None,
    }
}

/// How many levels of arrays and objects a text may nest and still be parsed.
pub open spec fn max_depth() -> nat {
    127
}

/// Whether arrays and objects nest no deeper than `depth` levels.
pub open spec fn within_depth(json: Json, depth: nat) -> bool
    decreases depth,
{
    match json {
        Json::Array(items) => depth > 0 && forall|i: int|
            0 <= i < items.len() ==> within_depth(#[trigger] items[i], (depth - 1) as nat),
        Json::Object(members) => depth > 0 && forall|name: Seq<char>|
            members.contains_key(name) ==> within_depth(
                #[trigger] members[name],
                (depth - 1) as nat,
            ),
        _ => true,
    }
}

/// Whether `read` is `written` but for the values of floating-point numbers, compared down
/// to `depth` levels of arrays and objects.
pub open spec fn reads_as(written: Json, read: Json, depth: nat) -> bool
    decreases depth,
{
    match (written, read) {
        (Json::Number(JsonNumber::Float(_)), Json::Number(JsonNumber::Float(_))) => true,
        (Json::Array(a), Json::Array(b)) => depth > 0 && a.len() == b.len() && forall|i: int|
            0 <= i < a.len() ==> reads_as(#[trigger] a[i], b[i], (depth - 1) as nat),
        (Json::Object(a), Json::Object(b)) => depth > 0 && a.dom() == b.dom() && forall|
            name: Seq<char>,
        |
            a.contains_key(name) ==> reads_as(#[trigger] a[name], b[name], (depth - 1) as nat),
        _ => written == read && !(written is Array) && !(written is Object),
    }
}

/// Whether there is no floating-point number down to `depth` levels of arrays and objects.
pub open spec fn float_free(json: Json, depth: nat) -> bool
    decreases depth,
{
    match json {
        Json::Number(JsonNumber::Float(_)) => false,
        Json::Array(items) => depth > 0 ==> forall|i: int|
            0 <= i < items.len() ==> float_free(#[trigger] items[i], (depth - 1) as nat),
        Json::Object(members) => depth > 0 ==> forall|name: Seq<char>|
            members.contains_key(name) ==> float_free(#[trigger] members[name], (depth - 1) as nat),
        _ => true,
    }
}

/// `serde_json::Value`.
#[verifier::external_type_specification]
#[verifier::external_body]
pub struct ExValue(serde_json::Value);

/// `serde_json::Map`.
#[verifier::external_type_specification]
#[verifier::external_body]
#[verifier::reject_recursive_types(K)]
#[verifier::reject_recursive_types(V)]
pub struct ExMap<K, V>(serde_json::Map<K, V>);

/// `serde_json::Error`.
#[verifier::external_type_specification]
#[verifier::external_body]
pub struct ExError(serde_json::Error);

/// What a `serde_json::Value` holds.
pub uninterp spec fn json_of(value: serde_json::Value) -> Json;

/// What a `serde_json::Map` holds.
pub uninterp spec fn members_of(map: serde_json::Map<String, serde_json::Value>) -> Members;

/// What `serde_json::from_str` reads from a text; nothing where it fails.
pub uninterp spec fn parsed_json(text: Seq<char>) -> Option<Json>;

/// What `serde_json::from_slice` reads from bytes; nothing where it fails.
pub uninterp spec fn parsed_json_bytes(bytes: Seq<u8>) -> Option<Json>;

/// The text that `serde_json::to_string` writes. It is a matter of what the value holds alone:
/// without the feature `preserve_order` the members of an object come in the order of their
/// names.
pub uninterp spec fn json_text(json: Json) -> Seq<char>;

/// The double, by its bits, that `serde_json::Value::as_f64` gives for an integer.
pub uninterp spec fn nearest_double(n: int) -> u64;

/// `serde_json::Map::new`: no members.
pub assume_specification[ serde_json::Map::<String, serde_json::Value>::new ]() -> (map:
    serde_json::Map<String, serde_json::Value>)
    ensures
        members_of(map) == no_members(),
;

/// `serde_json::Map::insert`: the member is there afterwards, in place of the one that had
/// its name, which is handed back.
pub assume_specification[ serde_json::Map::<String, serde_json::Value>::insert ](
    map: &mut serde_json::Map<String, serde_json::Value>,
    k: String,
    v: serde_json::Value,
) -> (previous: Option<serde_json::Value>)
    ensures
        members_of(*final(map)) == members_of(*old(map)).insert(k@, json_of(v)),
        match previous {
            Some(value) => member(Json::Object(members_of(*old(map))), k@) == Some(json_of(value)),
            None => !members_of(*old(map)).contains_key(k@),
        },
;

/// `serde_json::Map::is_empty`: whether there are no members.
pub assume_specification[ serde_json::Map::<String, serde_json::Value>::is_empty ](
    map: &serde_json::Map<String, serde_json::Value>,
) -> (empty: bool)
    ensures
        empty == (members_of(*map) == no_members()),
;

/// `serde_json::Value::as_str`: the text of a string, nothing for any other value.
pub assume_specification[ serde_json::Value::as_str ](value: &serde_json::Value) -> (held: Option<
    &str,
>)
    ensures
        match held {
            Some(s) => json_of(*value) == Json::Str(s@),
            None => !(json_of(*value) is Str),
        },
;

/// `serde_json::Value::as_object_mut`: the map of an object, through which the object
/// changes; nothing for any other value, which stays as it is.
pub assume_specification[ serde_json::Value::as_object_mut ](
    value: &mut serde_json::Value,
) -> (object: Option<&mut serde_json::Map<String, serde_json::Value>>)
    ensures
        match object {
            Some(map) => {
                &&& json_of(*old(value)) == Json::Object(members_of(*map))
                &&& json_of(*final(value)) == Json::Object(members_of(*final(map)))
            },
            None => !(json_of(*old(value)) is Object) && *final(value) == *old(value),
        },
;

/// `serde_json::from_str`: what it reads is named, not stated. What it does read nests no
/// deeper than its recursion limit lets through.
#[verifier::external_body]
pub(crate) fn parse(text: &str) -> (value: Option<serde_json::Value>)
    ensures
        match value {
            Some(v) => parsed_json(text@) == Some(json_of(v)) && within_depth(
                json_of(v),
                max_depth(),
            ),
            None => parsed_json(text@) is None,
        },
{
    serde_json::from_str::<serde_json::Value>(text).ok()
}

/// `serde_json::from_slice`: what it reads is named, not stated.
#[verifier::external_body]
pub(crate) fn parse_bytes(bytes: &[u8]) -> (value: Option<serde_json::Value>)
    ensures
        match value {
            Some(v) => parsed_json_bytes(bytes@) == Some(json_of(v)),
            None => parsed_json_bytes(bytes@) is None,
        },
{
    serde_json::from_slice::<serde_json::Value>(bytes).ok()
}

/// `serde_json::to_string` on a `serde_json::Value` that nests no deeper than the recursion
/// limit of the parser lets through: it does not fail, for the names of members are strings and
/// the text is written to memory. The text is named, not stated. `serde_json::from_str` reads
/// the value back from it; a floating-point number may come back as a neighbouring one. This
/// is so with the crate's features `preserve_order`, `arbitrary_precision` and `raw_value`
/// switched off, as they are by default: members are kept in the order of their names, numbers
/// have the forms of [`JsonNumber`], and no member name is reserved.
#[verifier::external_body]
pub(crate) fn print(value: &serde_json::Value) -> (text: Result<String, serde_json::Error>)
    requires
        within_depth(json_of(*value), max_depth()),
    ensures
        text is Ok,
        text->Ok_0@ == json_text(json_of(*value)),
        parsed_json(text->Ok_0@) is Some,
        reads_as(json_of(*value), parsed_json(text->Ok_0@)->Some_0, max_depth()),
{
    serde_json::to_string(value)
}

/// `serde_json::Error`, printed: the words are not stated.
#[verifier::external_body]
pub(crate) fn error_text(error: &serde_json::Error) -> (text: String)
{
    error.to_string()
}

/// `serde_json::Value::get` with a name: the member of an object under that name, nothing
/// for any other value.
#[verifier::external_body]
pub(crate) fn get<'a>(value: &'a serde_json::Value, name: &str) -> (found: Option<
    &'a serde_json::Value,
>)
    ensures
        match found {
            Some(v) => member(json_of(*value), name@) == Some(json_of(*v)),
            None => member(json_of(*value), name@) is None,
        },
{
    value.get(name)
}

/// `serde_json::Value::as_f64`: the double of a number, by its bits; nothing for any other
/// value. Zero and one are doubles, and the double nearest to another integer lies on the
/// same side of them.
#[verifier::external_body]
pub(crate) fn as_double(value: &serde_json::Value) -> (bits: Option<u64>)
    ensures
        match json_of(*value) {
            Json::Number(JsonNumber::Float(b)) => bits == Some(b),
            Json::Number(JsonNumber::Unsigned(n)) => {
                &&& bits == Some(nearest_double(n as int))
                &&& n == 0 ==> bits == Some(0u64)
                &&& n == 1 ==> bits == Some(0x3ff0_0000_0000_0000u64)
                &&& n > 1 ==> 0x3ff0_0000_0000_0000u64 < bits->Some_0 < 0x7ff0_0000_0000_0000u64
            },
            Json::Number(JsonNumber::Negative(n)) => {
                &&& n < 0
                &&& bits == Some(nearest_double(n as int))
                &&& 0x8000_0000_0000_0000u64 < bits->Some_0 < 0xfff0_0000_0000_0000u64
            },
            _ => bits is None,
        },
{
    value.as_f64().map(|double| double.to_bits())
}

/// The variant `serde_json::Value::Object`, taken apart: the map of an object, nothing for
/// any other value.
#[verifier::external_body]
pub(crate) fn into_object(value: serde_json::Value) -> (object: Option<
    serde_json::Map<String, serde_json::Value>,
>)
    ensures
        match object {
            Some(map) => json_of(value) == Json::Object(members_of(map)),
            None => !(json_of(value) is Object),
        },
{
    match value {
        serde_json::Value::Object(map) => Some(map),
        _ => None,
    }
}

/// The variant `serde_json::Value::Object`, built.
#[verifier::external_body]
pub(crate) fn object_value(map: serde_json::Map<String, serde_json::Value>) -> (value: serde_json::Value)
    ensures
        json_of(value) == Json::Object(members_of(map)),
{
    serde_json::Value::Object(map)
}

/// The variant `serde_json::Value::String`, built.
#[verifier::external_body]
pub(crate) fn string_value(text: String) -> (value: serde_json::Value)
    ensures
        json_of(value) == Json::Str(text@),
{
    serde_json::Value::String(text)
}

/// `serde_json::Map::get_mut`: the member under that name, through which the map changes
/// there and nowhere else; nothing where there is none, and then the map stays as it is.
#[verifier::external_body]
pub(crate) fn get_mut<'a>(
    map: &'a mut serde_json::Map<String, serde_json::Value>,
    name: &str,
) -> (found: Option<&'a mut serde_json::Value>)
    ensures
        match found {
            Some(value) => {
                &&& members_of(*old(map)).contains_key(name@)
                &&& json_of(*value) == members_of(*old(map))[name@]
                &&& members_of(*final(map)) == members_of(*old(map)).insert(
                    name@,
                    json_of(*final(value)),
                )
            },
            None => !members_of(*old(map)).contains_key(name@) && *final(map) == *old(map),
        },
{
    map.get_mut(name)
}

/// `serde_json::Map::remove`: the member under that name is gone afterwards and is handed
/// back; the others stay.
#[verifier::external_body]
pub(crate) fn remove(
    map: &mut serde_json::Map<String, serde_json::Value>,
    name: &str,
) -> (removed: Option<serde_json::Value>)
    ensures
        members_of(*final(map)) == members_of(*old(map)).remove(name@),
        match removed {
            Some(value) => member(Json::Object(members_of(*old(map))), name@) == Some(
                json_of(value),
            ),
            None => !members_of(*old(map)).contains_key(name@),
        },
{
    map.remove(name)
}

/// `serde_json::Map::keys`: the name of every member, once. The order is not stated.
#[verifier::external_body]
pub(crate) fn keys(map: &serde_json::Map<String, serde_json::Value>) -> (names: Vec<String>)
    ensures
        forall|i: int|
            0 <= i < names@.len() ==> members_of(*map).contains_key(#[trigger] names@[i]@),
        forall|name: Seq<char>| #[trigger]
            members_of(*map).contains_key(name) ==> exists|i: int|
                0 <= i < names@.len() && #[trigger] names@[i]@ == name,
        forall|i: int, j: int|
            0 <= i < j < names@.len() ==> #[trigger] names@[i]@ != #[trigger] names@[j]@,
{
    map.keys().cloned().collect()
}

/// An object nests no deeper than `depth` levels exactly if its members nest no deeper than one
/// level less.
pub proof fn lemma_within_depth_of_object(members: Members, depth: nat)
    ensures
        within_depth(Json::Object(members), depth) <==> depth > 0 && forall|name: Seq<char>|
            members.contains_key(name) ==> within_depth(
                #[trigger] members[name],
                (depth - 1) as nat,
            ),
{
    let json = Json::Object(members);
    if within_depth(json, depth) {
        assert forall|name: Seq<char>| members.contains_key(name) implies within_depth(
            #[trigger] members[name],
            (depth - 1) as nat,
        ) by {
            assert(within_depth(json->Object_0[name], (depth - 1) as nat));
        }
    }
}

/// An object reads as another exactly if they have the same names and each member reads as the
/// other's.
pub proof fn lemma_reads_as_of_object(a: Members, b: Members, depth: nat)
    ensures
        reads_as(Json::Object(a), Json::Object(b), depth) <==> depth > 0 && a.dom() == b.dom()
            && forall|name: Seq<char>|
            a.contains_key(name) ==> reads_as(#[trigger] a[name], b[name], (depth - 1) as nat),
{
    let x = Json::Object(a);
    let y = Json::Object(b);
    if reads_as(x, y, depth) {
        assert forall|name: Seq<char>| a.contains_key(name) implies reads_as(
            #[trigger] a[name],
            b[name],
            (depth - 1) as nat,
        ) by {
            assert(reads_as(x->Object_0[name], y->Object_0[name], (depth - 1) as nat));
        }
    }
}

/// What reads as something reads as whatever that reads as.
pub proof fn lemma_reads_as_transitive(x: Json, y: Json, z: Json, depth: nat)
    requires
        reads_as(x, y, depth),
        reads_as(y, z, depth),
    ensures
        reads_as(x, z, depth),
    decreases depth,
{
    if let Json::Object(a) = x {
        let b = y->Object_0;
        let c = z->Object_0;
        lemma_reads_as_of_object(a, b, depth);
        lemma_reads_as_of_object(b, c, depth);
        assert forall|name: Seq<char>| a.contains_key(name) implies reads_as(
            #[trigger] a[name],
            c[name],
            (depth - 1) as nat,
        ) by {
            assert(b.contains_key(name));
            lemma_reads_as_transitive(a[name], b[name], c[name], (depth - 1) as nat);
        }
        lemma_reads_as_of_object(a, c, depth);
    } else if let Json::Array(a) = x {
        let b = y->Array_0;
        let c = z->Array_0;
        assert forall|i: int| 0 <= i < a.len() implies reads_as(
            #[trigger] a[i],
            c[i],
            (depth - 1) as nat,
        ) by {
            assert(reads_as(x->Array_0[i], y->Array_0[i], (depth - 1) as nat));
            assert(reads_as(y->Array_0[i], z->Array_0[i], (depth - 1) as nat));
            lemma_reads_as_transitive(a[i], b[i], c[i], (depth - 1) as nat);
        }
    }
}

/// Where there is no floating-point number, what reads as the value is the value.
pub proof fn lemma_float_free_reads_exactly(written: Json, read: Json, depth: nat)
    requires
        reads_as(written, read, depth),
        float_free(written, depth),
    ensures
        written == read,
    decreases depth,
{
    if let Json::Object(a) = written {
        let b = read->Object_0;
        lemma_reads_as_of_object(a, b, depth);
        assert forall|name: Seq<char>| a.contains_key(name) implies #[trigger] a[name]
            == b[name] by {
            assert(float_free(written->Object_0[name], (depth - 1) as nat));
            lemma_float_free_reads_exactly(a[name], b[name], (depth - 1) as nat);
        }
        assert(a =~= b);
    } else if let Json::Array(a) = written {
        let b = read->Array_0;
        assert forall|i: int| 0 <= i < a.len() implies #[trigger] a[i] == b[i] by {
            assert(reads_as(written->Array_0[i], read->Array_0[i], (depth - 1) as nat));
            assert(float_free(written->Array_0[i], (depth - 1) as nat));
            lemma_float_free_reads_exactly(a[i], b[i], (depth - 1) as nat);
        }
        assert(a =~= b);
    }
}

/// The member of an object is what its map holds under the name; nothing else has members.
pub proof fn lemma_member_is_what_the_map_holds(members: Members, name: Seq<char>, json: Json)
    ensures
        member(Json::Object(members), name) is Some <==> members.dom().contains(name),
        members.dom().contains(name) ==> member(Json::Object(members), name) == Some(
            members[name],
        ),
        !(json is Object) ==> member(json, name) is None,
        no_members() == Map::<Seq<char>, Json>::empty(),
{
}

}
