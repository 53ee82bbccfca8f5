//! JSON documents as plain values, read with `serde_json`.

use vstd::prelude::*;

use crate::lists::reversed;
use crate::numbers::{
    clock, clock_text, decimal, double_rounded, law_clock, round_double, two_digits,
};
use crate::text::{is_blank, is_white, law_trimming_keeps_the_core, trim, trimmed};

verus! {

/// A JSON number, as far as it is read: as an unsigned integer, and as the bits of a double.
#[derive(Clone, Copy, Debug, PartialEq, Eq, Structural)]
pub struct JsonNumber {
    pub unsigned: Option<u64>,
    pub double_bits: Option<u64>,
}

/// A JSON document.
#[derive(Debug)]
pub enum Json {
    Null,
    Bool(bool),
    Number(JsonNumber),
    Str(String),
    Array(Vec<Json>),
    Object(Vec<(String, Json)>),
}

/// What a JSON document says.
pub enum JsonView {
    Null,
    Bool(bool),
    Number(JsonNumber),
    Str(Seq<char>),
    Array(Seq<JsonView>),
    Object(Seq<(Seq<char>, JsonView)>),
}

/// What `json` says.
pub open spec fn json_view(json: Json) -> JsonView
    decreases json,
{
    match json {
        Json::Null => JsonView::Null,
        Json::Bool(b) => JsonView::Bool(b),
        Json::Number(n) => JsonView::Number(n),
        Json::Str(text) => JsonView::Str(text@),
        Json::Array(items) => JsonView::Array(
            Seq::new(
                items@.len(),
                |i: int|
                    if 0 <= i < items@.len() {
                        json_view(items@[i])
                    } else {
                        JsonView::Null
                    },
            ),
        ),
        Json::Object(members) => JsonView::Object(
            Seq::new(
                members@.len(),
                |i: int|
                    if 0 <= i < members@.len() {
                        (members@[i].0@, json_view(members@[i].1))
                    } else {
                        (seq![], JsonView::Null)
                    },
            ),
        ),
    }
}

/// The value of the first member named `key`, counted from `i`.
pub open spec fn member_from(members: Seq<(Seq<char>, JsonView)>, key: Seq<char>, i: int) -> Option<
    JsonView,
>
    decreases members.len() - i,
{
    if i >= members.len() {
        None
    } else if members[i].0 == key {
        Some(members[i].1)
    } else {
        member_from(members, key, i + 1)
    }
}

/// The member of a JSON object named `key`; other documents have no members.
pub open spec fn member(json: JsonView, key: Seq<char>) -> Option<JsonView> {
    match json {
        JsonView::Object(members) => member_from(members, key, 0),
        _ => None,
    }
}

/// The elements of a JSON array.
pub open spec fn elements(json: Option<JsonView>) -> Option<Seq<JsonView>> {
    match json {
        Some(JsonView::Array(items)) => Some(items),
        _ => None,
    }
}

/// The member `key` as a string, without the white space at its ends, where something is left.
pub open spec fn string_member(json: JsonView, key: Seq<char>) -> Option<Seq<char>> {
    match member(json, key) {
        Some(JsonView::Str(text)) => if trimmed(text).len() > 0 {
            Some(trimmed(text))
        } else {
            None
        },
        _ => None,
    }
}

/// The member `duration`, a number of seconds, as a clock shows it.
pub open spec fn duration_of(json: JsonView) -> Option<Seq<char>> {
    match member(json, "duration"@) {
        Some(JsonView::Number(number)) => match number.double_bits {
            Some(bits) => Some(clock(double_rounded(bits))),
            None => None,
        },
        _ => None,
    }
}

impl Json {
    /// The member named `key`, where the document is an object that has one.
    pub fn get(&self, key: &str) -> (value: Option<&Json>)
        ensures
            match value {
                Some(json) => member(json_view(*self), key@) == Some(json_view(*json)),
                None => member(json_view(*self), key@) is None,
            },
    {
        match self {
            Json::Object(members) => {
                let ghost all = json_view(*self)->Object_0;
                let wanted = key.to_string();
                let mut i: usize = 0;
                while i < members.len()
                    invariant
                        wanted@ == key@,
                        i <= members@.len(),
                        all.len() == members@.len(),
                        forall|k: int|
                            0 <= k < all.len() ==> #[trigger] all[k] == (
                                members@[k].0@,
                                json_view(members@[k].1),
                            ),
                        member_from(all, key@, 0) == member_from(all, key@, i as int),
                        *self matches Json::Object(m) && m == members,
                        json_view(*self) == JsonView::Object(all),
                    decreases members@.len() - i,
                {
                    assert(all[i as int] == (members@[i as int].0@, json_view(members@[i as int].1)));
                    if members[i].0 == wanted {
                        return Some(&members[i].1);
                    }
                    i += 1;
                }
                None
            },
            _ => None,
        }
    }

    /// The elements, where the document is an array.
    pub fn as_array(&self) -> (items: Option<&Vec<Json>>)
        ensures
            match items {
                Some(items) => elements(Some(json_view(*self))) matches Some(all) && {
                    &&& all.len() == items@.len()
                    &&& forall|i: int|
                        0 <= i < all.len() ==> #[trigger] all[i] == json_view(items@[i])
                },
                None => elements(Some(json_view(*self))) is None,
            },
    {
        match self {
            Json::Array(items) => Some(items),
            _ => None,
        }
    }

    /// The text, where the document is a string.
    pub fn as_str(&self) -> (text: Option<&str>)
        ensures
            match text {
                Some(text) => json_view(*self) == JsonView::Str(text@),
                None => !(json_view(*self) is Str),
            },
    {
        match self {
            Json::Str(text) => Some(text.as_str()),
            _ => None,
        }
    }
}

/// The member `key` as a string, without the white space at its ends, where something is left.
pub fn value_string(value: &Json, key: &str) -> (text: Option<String>)
    ensures
        text.deep_view() == string_member(json_view(*value), key@),
{
    let inner = match value.get(key) {
        Some(inner) => inner,
        None => return None,
    };
    match inner.as_str() {
        Some(text) => {
            let text = trim(text);
            if text.as_str().is_empty() {
                None
            } else {
                Some(text)
            }
        },
        None => None,
    }
}

/// The member `duration`, a number of seconds, as a clock shows it.
pub fn duration_string(value: &Json) -> (text: Option<String>)
    ensures
        text.deep_view() == duration_of(json_view(*value)),
{
    match value.get("duration") {
        Some(Json::Number(number)) => match number.double_bits {
            Some(bits) => Some(clock_text(round_double(bits))),
            None => None,
        },
        _ => None,
    }
}

/// A JSON value of `serde_json`.
#[verifier::external_type_specification]
#[verifier::external_body]
pub struct ExValue(serde_json::Value);

/// What a value of `serde_json` holds.
pub uninterp spec fn json_contents(value: serde_json::Value) -> JsonView;

/// What `serde_json` reads in `text`: a document, or what it says is wrong.
pub uninterp spec fn json_of_text(text: Seq<char>) -> Result<JsonView, Seq<char>>;

/// Reads `text` as one JSON document.
///
/// Trusted: `serde_json::from_str`, asked for a `Value`, is a function of its text alone. On a
/// failure the error's message is handed out. Which texts are documents is left to its name.
#[verifier::external_body]
fn parse_value(text: &str) -> (result: Result<serde_json::Value, String>)
    ensures
        match result {
            Ok(value) => json_of_text(text@) == Ok::<JsonView, Seq<char>>(json_contents(value)),
            Err(message) => json_of_text(text@) == Err::<JsonView, Seq<char>>(message@),
        },
{
    serde_json::from_str::<serde_json::Value>(text).map_err(|error| error.to_string())
}

/// The outermost layer of a JSON value.
enum JsonNode {
    Null,
    Bool(bool),
    Number(JsonNumber),
    Str(String),
    Array(Vec<serde_json::Value>),
    Object(Vec<(String, serde_json::Value)>),
}

/// What the value with this outermost layer holds.
spec fn node_contents(node: JsonNode) -> JsonView {
    match node {
        JsonNode::Null => JsonView::Null,
        JsonNode::Bool(b) => JsonView::Bool(b),
        JsonNode::Number(n) => JsonView::Number(n),
        JsonNode::Str(text) => JsonView::Str(text@),
        JsonNode::Array(items) => JsonView::Array(
            Seq::new(items@.len(), |i: int| json_contents(items@[i])),
        ),
        JsonNode::Object(members) => JsonView::Object(
            Seq::new(members@.len(), |i: int| (members@[i].0@, json_contents(members@[i].1))),
        ),
    }
}

/// Takes the outermost layer off a JSON value.
///
/// Trusted: a `serde_json::Value` is null, a boolean, a number, a string, an array of values or a
/// map from strings to values, and a number is read by `Number::as_u64` and by `Number::as_f64`,
/// whose result is handed on as its bits. The members of a map come in the map's own order.
#[verifier::external_body]
fn take_apart(value: serde_json::Value) -> (node: JsonNode)
    ensures
        node_contents(node) == json_contents(value),
{
    match value {
        serde_json::Value::Null => JsonNode::Null,
        serde_json::Value::Bool(b) => JsonNode::Bool(b),
        serde_json::Value::Number(n) => JsonNode::Number(JsonNumber {
            unsigned: n.as_u64(),
            double_bits: n.as_f64().map(|double| double.to_bits()),
        }),
        serde_json::Value::String(text) => JsonNode::Str(text),
        serde_json::Value::Array(items) => JsonNode::Array(items),
        serde_json::Value::Object(members) => JsonNode::Object(members.into_iter().collect()),
    }
}

/// The document that a value of `serde_json` holds.
fn json_from_value(value: serde_json::Value) -> (json: Json)
    ensures
        json_view(json) == json_contents(value),
    decreases json_contents(value),
{
    let ghost contents = json_contents(value);
    match take_apart(value) {
        JsonNode::Null => Json::Null,
        JsonNode::Bool(b) => Json::Bool(b),
        JsonNode::Number(n) => Json::Number(n),
        JsonNode::Str(text) => Json::Str(text),
        JsonNode::Array(items) => {
            let ghost all = contents->Array_0;
            let mut rest = reversed(items);
            let mut result: Vec<Json> = Vec::new();
            while rest.len() > 0
                invariant
                    contents == JsonView::Array(all),
                    contents == json_contents(value),
                    all.len() == items@.len(),
                    forall|i: int|
                        0 <= i < items@.len() ==> all[i] == json_contents(#[trigger] items@[i]),
                    result@.len() + rest@.len() == items@.len(),
                    rest@ == items@.skip(result@.len() as int).reverse(),
                    forall|i: int|
                        0 <= i < result@.len() ==> json_view(#[trigger] result@[i]) == all[i],
                decreases rest@.len(),
            {
                let ghost done = result@.len() as int;
                assert(rest@.last() == items@[done]);
                if let Some(item) = rest.pop() {
                    assert(json_contents(item) == all[done]);
                    assert(decreases_to!(contents => contents->Array_0));
                    assert(decreases_to!(contents->Array_0 => contents->Array_0[done]));
                    result.push(json_from_value(item));
                    assert(rest@ =~= items@.skip(done + 1).reverse());
                }
            }
            let json = Json::Array(result);
            assert(json_view(json)->Array_0 =~= all);
            json
        },
        JsonNode::Object(members) => {
            let ghost all = contents->Object_0;
            let mut rest = reversed(members);
            let mut result: Vec<(String, Json)> = Vec::new();
            while rest.len() > 0
                invariant
                    contents == JsonView::Object(all),
                    contents == json_contents(value),
                    all.len() == members@.len(),
                    forall|i: int|
                        0 <= i < members@.len() ==> all[i] == (
                            (#[trigger] members@[i]).0@,
                            json_contents(members@[i].1),
                        ),
                    result@.len() + rest@.len() == members@.len(),
                    rest@ == members@.skip(result@.len() as int).reverse(),
                    forall|i: int|
                        0 <= i < result@.len() ==> all[i] == (
                            (#[trigger] result@[i]).0@,
                            json_view(result@[i].1),
                        ),
                decreases rest@.len(),
            {
                let ghost done = result@.len() as int;
                assert(rest@.last() == members@[done]);
                if let Some(entry) = rest.pop() {
                    assert(all[done] == (entry.0@, json_contents(entry.1)));
                    assert(decreases_to!(contents => contents->Object_0));
                    assert(decreases_to!(contents->Object_0 => contents->Object_0[done]));
                    assert(decreases_to!(contents->Object_0[done] => contents->Object_0[done].1));
                    let (key, item) = entry;
                    result.push((key, json_from_value(item)));
                    assert(rest@ =~= members@.skip(done + 1).reverse());
                }
            }
            let json = Json::Object(result);
            assert(json_view(json)->Object_0 =~= all);
            json
        },
    }
}

/// Reads `text` as one JSON document; on a failure gives the reason.
pub fn parse_json(text: &str) -> (result: Result<Json, String>)
    ensures
        match result {
            Ok(json) => json_of_text(text@) == Ok::<JsonView, Seq<char>>(json_view(json)),
            Err(message) => json_of_text(text@) == Err::<JsonView, Seq<char>>(message@),
        },
{
    match parse_value(text) {
        Ok(value) => Ok(json_from_value(value)),
        Err(message) => Err(message),
    }
}

/// A member of an object is found by its key, the first where several have it; there is none under
/// a key that none has, nor in anything but an object.
pub proof fn law_members(json: JsonView, key: Seq<char>)
    ensures
        match json {
            JsonView::Object(members) => match member(json, key) {
                Some(value) => exists|i: int|
                    0 <= i < members.len() && #[trigger] members[i] == (key, value) && forall|j: int|
                        0 <= j < i ==> (#[trigger] members[j]).0 != key,
                None => forall|j: int| 0 <= j < members.len() ==> (#[trigger] members[j]).0 != key,
            },
            _ => member(json, key) is None,
        },
{
    if let JsonView::Object(members) = json {
        lemma_member_from(members, key, 0);
    }
}

proof fn lemma_member_from(members: Seq<(Seq<char>, JsonView)>, key: Seq<char>, from: int)
    requires
        0 <= from,
    ensures
        match member_from(members, key, from) {
            Some(value) => exists|i: int|
                from <= i < members.len() && #[trigger] members[i] == (key, value) && forall|j: int|
                    from <= j < i ==> (#[trigger] members[j]).0 != key,
            None => forall|j: int| from <= j < members.len() ==> (#[trigger] members[j]).0 != key,
        },
    decreases members.len() - from,
{
    if from < members.len() {
        if members[from].0 == key {
            assert(members[from] == (key, members[from].1));
        } else {
            lemma_member_from(members, key, from + 1);
            if let Some(value) = member_from(members, key, from + 1) {
                let i = choose|i: int|
                    from + 1 <= i < members.len() && #[trigger] members[i] == (key, value)
                        && forall|j: int|
                        from + 1 <= j < i ==> (#[trigger] members[j]).0 != key;
                assert(members[i] == (key, value));
            }
        }
    }
}

/// A text under a key is read without the white space around it; a blank text, or anything but a
/// text, is none.
pub proof fn law_texts(
    json: JsonView,
    key: Seq<char>,
    left: Seq<char>,
    core: Seq<char>,
    right: Seq<char>,
)
    requires
        is_blank(left),
        is_blank(right),
        core.len() > 0 ==> !is_white(core[0]) && !is_white(core.last()),
    ensures
        member(json, key) == Some(JsonView::Str(left + core + right)) ==> string_member(json, key)
            == if core.len() > 0 {
            Some(core)
        } else {
            None
        },
        !(member(json, key) matches Some(JsonView::Str(_))) ==> string_member(json, key) is None,
{
    law_trimming_keeps_the_core(left, core, right);
}

/// A duration, rounded to whole seconds, reads as hours, minutes and seconds, without the hours
/// where there are none. Only a number is a duration.
pub proof fn law_durations(json: JsonView, number: JsonNumber, bits: u64, hours: nat, minutes: nat, seconds: nat)
    requires
        minutes < 60,
        seconds < 60,
        double_rounded(bits) == hours * 3600 + minutes * 60 + seconds,
        number.double_bits == Some(bits),
    ensures
        member(json, "duration"@) == Some(JsonView::Number(number)) ==> duration_of(json) == Some(
            if hours > 0 {
                decimal(hours) + ":"@ + two_digits(minutes) + ":"@ + two_digits(seconds)
            } else {
                decimal(minutes) + ":"@ + two_digits(seconds)
            },
        ),
        !(member(json, "duration"@) matches Some(JsonView::Number(_))) ==> duration_of(json)
            is None,
{
    law_clock(hours, minutes, seconds);
}

} // verus!
