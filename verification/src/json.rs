//! JSON documents as plain values, read from and written to text by
//! `serde_json`.
use vstd::prelude::*;
use serde_json::Value;

verus! {

/// A JSON number as `serde_json` classifies it: a non-negative integer, a
/// negative integer, or any other number (kept as its text).
#[derive(Debug, Clone, PartialEq, Eq)]
pub enum JsonNumber {
    PosInt(u64),
    NegInt(i64),
    Float(String),
}

/// One `key: value` member of a JSON object.
#[derive(Debug, PartialEq, Eq)]
pub struct JsonMember {
    pub key: String,
    pub value: JsonValue,
}

/// A JSON document. Object members keep their order.
#[derive(Debug, PartialEq, Eq)]
pub enum JsonValue {
    Null,
    Bool(bool),
    Number(JsonNumber),
    Str(String),
    Array(Vec<JsonValue>),
    Object(Vec<JsonMember>),
}

/// The mathematical content of a JSON number.
pub enum NumberView {
    PosInt(u64),
    NegInt(i64),
    Float(Seq<char>),
}

/// The mathematical content of a JSON document.
pub enum Json {
    Null,
    Bool(bool),
    Number(NumberView),
    Str(Seq<char>),
    Array(Seq<Json>),
    Object(Seq<(Seq<char>, Json)>),
}

pub open spec fn number_view(n: JsonNumber) -> NumberView {
    match n {
        JsonNumber::PosInt(u) => NumberView::PosInt(u),
        JsonNumber::NegInt(i) => NumberView::NegInt(i),
        JsonNumber::Float(s) => NumberView::Float(s@),
    }
}

/// The view of a JSON document.
pub open spec fn json_view(v: JsonValue) -> Json
    decreases v, 0nat,
{
    match v {
        JsonValue::Null => Json::Null,
        JsonValue::Bool(b) => Json::Bool(b),
        JsonValue::Number(n) => Json::Number(number_view(n)),
        JsonValue::Str(s) => Json::Str(s@),
        JsonValue::Array(items) => Json::Array(items_view(items@, items@.len())),
        JsonValue::Object(members) => Json::Object(members_view(members@, members@.len())),
    }
}

/// The views of the first `n` items.
pub open spec fn items_view(items: Seq<JsonValue>, n: nat) -> Seq<Json>
    decreases items, n,
{
    if n == 0 || n > items.len() {
        Seq::<Json>::empty()
    } else {
        items_view(items, (n - 1) as nat).push(json_view(items[n - 1]))
    }
}

/// The views of the first `n` members.
pub open spec fn members_view(members: Seq<JsonMember>, n: nat) -> Seq<(Seq<char>, Json)>
    decreases members, n,
{
    if n == 0 || n > members.len() {
        Seq::<(Seq<char>, Json)>::empty()
    } else {
        members_view(members, (n - 1) as nat).push(
            (members[n - 1].key@, json_view(members[n - 1].value)),
        )
    }
}

impl View for JsonValue {
    type V = Json;

    open spec fn view(&self) -> Json {
        json_view(*self)
    }
}

pub proof fn lemma_items_view(items: Seq<JsonValue>, n: nat)
    requires
        n <= items.len(),
    ensures
        items_view(items, n).len() == n,
        forall|i: int| 0 <= i < n ==> #[trigger] items_view(items, n)[i] == json_view(items[i]),
    decreases n,
{
    if n > 0 {
        lemma_items_view(items, (n - 1) as nat);
    }
}

pub proof fn lemma_members_view(members: Seq<JsonMember>, n: nat)
    requires
        n <= members.len(),
    ensures
        members_view(members, n).len() == n,
        forall|i: int|
            0 <= i < n ==> #[trigger] members_view(members, n)[i] == (
                members[i].key@,
                json_view(members[i].value),
            ),
    decreases n,
{
    if n > 0 {
        lemma_members_view(members, (n - 1) as nat);
    }
}

/// The value of the first member of `ms` named `key`.
pub open spec fn lookup(ms: Seq<(Seq<char>, Json)>, key: Seq<char>) -> Option<Json>
    decreases ms.len(),
{
    if ms.len() == 0 {
        None
    } else if ms[0].0 == key {
        Some(ms[0].1)
    } else {
        lookup(ms.drop_first(), key)
    }
}

/// A field of a struct encoded as JSON: by name in an object, by position in
/// an array (the two forms serde accepts for a struct).
pub open spec fn field(j: Json, name: Seq<char>, pos: int) -> Option<Json> {
    match j {
        Json::Object(ms) => lookup(ms, name),
        Json::Array(items) => if 0 <= pos < items.len() {
            Some(items[pos])
        } else {
            None
        },
        _ => None,
    }
}

/// Whether `j` can hold a struct of `n` fields: an object, or an array of at
/// most `n` members.
pub open spec fn is_struct_like(j: Json, n: int) -> bool {
    match j {
        Json::Object(_) => true,
        Json::Array(items) => items.len() <= n,
        _ => false,
    }
}

/// A JSON string.
pub open spec fn as_str(j: Json) -> Option<Seq<char>> {
    match j {
        Json::Str(s) => Some(s),
        _ => None,
    }
}

/// An optional string field: absent or null is `None`.
pub open spec fn as_opt_str(f: Option<Json>) -> Option<Option<Seq<char>>> {
    match f {
        None => Some(None),
        Some(Json::Null) => Some(None),
        Some(Json::Str(s)) => Some(Some(s)),
        _ => None,
    }
}

/// Whether every member of `items` is a string.
pub open spec fn all_strs(items: Seq<Json>) -> bool {
    forall|i: int| 0 <= i < items.len() ==> #[trigger] items[i] is Str
}

/// A JSON array of strings.
pub open spec fn as_strs(j: Json) -> Option<Seq<Seq<char>>> {
    match j {
        Json::Array(items) => if all_strs(items) {
            Some(items.map_values(|x: Json| x->Str_0))
        } else {
            None
        },
        _ => None,
    }
}

/// A list-of-strings field that defaults to empty when absent.
pub open spec fn as_strs_or_empty(f: Option<Json>) -> Option<Seq<Seq<char>>> {
    match f {
        None => Some(Seq::<Seq<char>>::empty()),
        Some(j) => as_strs(j),
    }
}

/// A JSON number that fits a `u32`.
pub open spec fn as_u32(j: Json) -> Option<u32> {
    match j {
        Json::Number(NumberView::PosInt(n)) => if n <= u32::MAX {
            Some(n as u32)
        } else {
            None
        },
        _ => None,
    }
}

/// A count field that defaults to zero when absent.
pub open spec fn as_u32_or_zero(f: Option<Json>) -> Option<u32> {
    match f {
        None => Some(0u32),
        Some(j) => as_u32(j),
    }
}

/// The value of the first member of `members` named `key`.
pub fn get_member<'a>(members: &'a Vec<JsonMember>, key: &str) -> (r: Option<&'a JsonValue>)
    ensures
        r matches Some(x) ==> lookup(members_view(members@, members@.len()), key@) == Some(x@),
        r is None ==> lookup(members_view(members@, members@.len()), key@) is None,
{
    let k = key.to_owned();
    let ghost ms = members_view(members@, members@.len());
    proof {
        lemma_members_view(members@, members@.len());
    }
    let mut i: usize = 0;
    assert(ms.skip(0) =~= ms);
    while i < members.len()
        invariant
            i <= members.len(),
            k@ == key@,
            ms == members_view(members@, members@.len()),
            ms.len() == members.len(),
            forall|j: int|
                0 <= j < members.len() ==> #[trigger] ms[j] == (
                    members@[j].key@,
                    json_view(members@[j].value),
                ),
            lookup(ms, key@) == lookup(ms.skip(i as int), key@),
        decreases members.len() - i,
    {
        assert(ms.skip(i as int)[0] == ms[i as int]);
        if members[i].key == k {
            return Some(&members[i].value);
        }
        assert(ms.skip(i as int).drop_first() =~= ms.skip(i + 1));
        i += 1;
    }
    assert(ms.skip(i as int).len() == 0);
    None
}

/// A field of a struct-shaped value, by name or by position.
pub fn get_field<'a>(v: &'a JsonValue, name: &str, pos: usize) -> (r: Option<&'a JsonValue>)
    ensures
        r matches Some(x) ==> field(v@, name@, pos as int) == Some(x@),
        r is None ==> field(v@, name@, pos as int) is None,
{
    match v {
        JsonValue::Object(members) => get_member(members, name),
        JsonValue::Array(items) => {
            proof {
                lemma_items_view(items@, items@.len());
            }
            if pos < items.len() {
                Some(&items[pos])
            } else {
                None
            }
        },
        _ => None,
    }
}

/// Whether `v` can hold a struct of `n` fields.
pub fn struct_like(v: &JsonValue, n: usize) -> (r: bool)
    ensures
        r == is_struct_like(v@, n as int),
{
    match v {
        JsonValue::Object(_) => true,
        JsonValue::Array(items) => {
            proof {
                lemma_items_view(items@, items@.len());
            }
            items.len() <= n
        },
        _ => false,
    }
}

/// A JSON string as an owned string.
pub fn read_str(v: &JsonValue) -> (r: Option<String>)
    ensures
        r matches Some(s) ==> as_str(v@) == Some(s@),
        r is None ==> as_str(v@) is None,
{
    match v {
        JsonValue::Str(s) => Some(s.clone()),
        _ => None,
    }
}

/// An optional string field: absent or null is `None`.
pub fn read_opt_str(f: Option<&JsonValue>) -> (r: Option<Option<String>>)
    ensures
        r matches Some(o) ==> as_opt_str(
            match f {
                Some(x) => Some(x@),
                None => None,
            },
        ) == Some(crate::model::opt_str(o)),
        r is None ==> as_opt_str(
            match f {
                Some(x) => Some(x@),
                None => None,
            },
        ) is None,
{
    match f {
        None => Some(None),
        Some(JsonValue::Null) => Some(None),
        Some(JsonValue::Str(s)) => Some(Some(s.clone())),
        Some(_) => None,
    }
}

/// A JSON array of strings.
pub fn read_strs(v: &JsonValue) -> (r: Option<Vec<String>>)
    ensures
        r matches Some(x) ==> as_strs(v@) == Some(crate::text::strs(x@)),
        r is None ==> as_strs(v@) is None,
{
    match v {
        JsonValue::Array(items) => {
            let ghost iv = items_view(items@, items@.len());
            proof {
                lemma_items_view(items@, items@.len());
            }
            let mut out: Vec<String> = Vec::new();
            let mut i: usize = 0;
            assert(v@ == Json::Array(iv));
            while i < items.len()
                invariant
                    i <= items.len(),
                    v@ == Json::Array(iv),
                    iv == items_view(items@, items@.len()),
                    iv.len() == items.len(),
                    forall|j: int| 0 <= j < items.len() ==> #[trigger] iv[j] == json_view(items@[j]),
                    out.len() == i,
                    forall|j: int| 0 <= j < i ==> #[trigger] iv[j] == Json::Str(out@[j]@),
                decreases items.len() - i,
            {
                match &items[i] {
                    JsonValue::Str(s) => {
                        out.push(s.clone());
                    },
                    _ => {
                        assert(!(iv[i as int] is Str));
                        assert(!all_strs(iv));
                        return None;
                    },
                }
                i += 1;
            }
            assert(iv.map_values(|x: Json| x->Str_0) =~= crate::text::strs(out@));
            Some(out)
        },
        _ => None,
    }
}

/// A list-of-strings field that defaults to empty when absent.
pub fn read_strs_or_empty(f: Option<&JsonValue>) -> (r: Option<Vec<String>>)
    ensures
        r matches Some(x) ==> as_strs_or_empty(
            match f {
                Some(y) => Some(y@),
                None => None,
            },
        ) == Some(crate::text::strs(x@)),
        r is None ==> as_strs_or_empty(
            match f {
                Some(y) => Some(y@),
                None => None,
            },
        ) is None,
{
    match f {
        None => {
            let v: Vec<String> = Vec::new();
            assert(crate::text::strs(v@) =~= Seq::<Seq<char>>::empty());
            Some(v)
        },
        Some(x) => read_strs(x),
    }
}

/// A count field that defaults to zero when absent.
pub fn read_u32_or_zero(f: Option<&JsonValue>) -> (r: Option<u32>)
    ensures
        r == as_u32_or_zero(
            match f {
                Some(y) => Some(y@),
                None => None,
            },
        ),
{
    match f {
        None => Some(0),
        Some(JsonValue::Number(JsonNumber::PosInt(n))) => {
            if *n <= 0xFFFF_FFFFu64 {
                Some(*n as u32)
            } else {
                None
            }
        },
        Some(_) => None,
    }
}

// ----- text <-> document, through serde_json -----

/// `serde_json::Value`, carried through the conversions below.
#[verifier::external_type_specification]
#[verifier::external_body]
pub struct ExSerdeJsonValue(Value);

/// `parsed_json(text)` names what `serde_json::from_str::<serde_json::Value>`
/// gives for `text`: the document it reads (object members in their order,
/// the crate being built with `preserve_order`), or the text of the error it
/// reports.
pub uninterp spec fn parsed_json(text: Seq<char>) -> Result<Json, Seq<char>>;

/// `pretty_json(doc)` names the text that `serde_json::to_string_pretty`
/// writes for `doc`.
pub uninterp spec fn pretty_json(doc: Json) -> Seq<char>;

/// Calls `serde_json::from_str` into a `serde_json::Value` and converts it;
/// a failure is returned as serde_json's error message.
#[verifier::external_body]
pub fn parse_json_text(text: &str) -> (r: Result<JsonValue, String>)
    ensures
        r is Ok <==> parsed_json(text@) is Ok,
        r matches Ok(v) ==> parsed_json(text@) matches Ok(d) && d == v@,
        r matches Err(x) ==> parsed_json(text@) matches Err(m) && m == x@,
{
    serde_json::from_str::<Value>(text).map(from_serde).map_err(|e| e.to_string())
}

/// Whether `j` nests at most `depth` levels deep and holds only what
/// serde_json writes and reads back as it was: no floating-point number, a
/// signed number only when it is negative, and no key twice in one object.
pub open spec fn plain_json(j: Json, depth: nat) -> bool
    decreases depth, 0nat,
{
    if depth == 0 {
        false
    } else {
        match j {
            Json::Number(NumberView::Float(_)) => false,
            Json::Number(NumberView::NegInt(i)) => i < 0,
            Json::Array(items) => plain_items(items, (depth - 1) as nat, items.len()),
            Json::Object(ms) => (forall|a: int, b: int|
                0 <= a < b < ms.len() ==> #[trigger] ms[a].0 != #[trigger] ms[b].0) && plain_values(
                ms,
                (depth - 1) as nat,
                ms.len(),
            ),
            _ => true,
        }
    }
}

/// Whether the first `n` items are plain within `depth` levels.
pub open spec fn plain_items(items: Seq<Json>, depth: nat, n: nat) -> bool
    decreases depth, n,
{
    if n == 0 {
        true
    } else if n > items.len() {
        false
    } else {
        plain_items(items, depth, (n - 1) as nat) && plain_json(items[n - 1], depth)
    }
}

/// Whether the values of the first `n` members are plain within `depth`
/// levels.
pub open spec fn plain_values(ms: Seq<(Seq<char>, Json)>, depth: nat, n: nat) -> bool
    decreases depth, n,
{
    if n == 0 {
        true
    } else if n > ms.len() {
        false
    } else {
        plain_values(ms, depth, (n - 1) as nat) && plain_json(ms[n - 1].1, depth)
    }
}

/// Items each plain within `depth` levels are plain together.
pub proof fn lemma_plain_items(items: Seq<Json>, depth: nat, n: nat)
    requires
        n <= items.len(),
        forall|k: int| 0 <= k < n ==> #[trigger] plain_json(items[k], depth),
    ensures
        plain_items(items, depth, n),
    decreases n,
{
    if n > 0 {
        lemma_plain_items(items, depth, (n - 1) as nat);
        assert(plain_json(items[n - 1], depth));
    }
}

/// Member values each plain within `depth` levels are plain together.
pub proof fn lemma_plain_values(ms: Seq<(Seq<char>, Json)>, depth: nat, n: nat)
    requires
        n <= ms.len(),
        forall|k: int| 0 <= k < n ==> #[trigger] plain_json(ms[k].1, depth),
    ensures
        plain_values(ms, depth, n),
    decreases n,
{
    if n > 0 {
        lemma_plain_values(ms, depth, (n - 1) as nat);
        assert(plain_json(ms[n - 1].1, depth));
    }
}

/// Calls `serde_json::to_string_pretty` on the converted document. The
/// serializer cannot fail on a `serde_json::Value` (its map keys are strings).
/// The text is named by `pretty_json`. Reading it back with
/// `serde_json::from_str` gives the same document when the document is
/// plain (see `plain_json`) and nests well inside serde_json's recursion
/// limit of 128.
#[verifier::external_body]
pub fn write_json_pretty(doc: &JsonValue) -> (r: String)
    ensures
        r@ == pretty_json(doc@),
        plain_json(doc@, 100) ==> parsed_json(r@) is Ok && parsed_json(r@)->Ok_0 == doc@,
{
    match serde_json::to_string_pretty(&to_serde(doc)) {
        Ok(s) => s,
        Err(e) => e.to_string(),
    }
}

/// Converts a `serde_json::Value` node for node; numbers are told apart as
/// serde_json classifies them.
#[verifier::external_body]
fn from_serde(v: Value) -> JsonValue {
    match v {
        Value::Null => JsonValue::Null,
        Value::Bool(b) => JsonValue::Bool(b),
        Value::Number(n) => JsonValue::Number(match (n.as_u64(), n.as_i64()) {
            (Some(u), _) => JsonNumber::PosInt(u),
            (None, Some(i)) => JsonNumber::NegInt(i),
            (None, None) => JsonNumber::Float(n.to_string()),
        }),
        Value::String(s) => JsonValue::Str(s),
        Value::Array(a) => JsonValue::Array(a.into_iter().map(from_serde).collect()),
        Value::Object(m) => JsonValue::Object(m.into_iter().map(|(key, value)| JsonMember { key, value: from_serde(value) }).collect()),
    }
}

/// Converts a document to a `serde_json::Value` node for node.
#[verifier::external_body]
fn to_serde(v: &JsonValue) -> Value {
    match v {
        JsonValue::Null => Value::Null,
        JsonValue::Bool(b) => Value::Bool(*b),
        JsonValue::Number(JsonNumber::PosInt(u)) => Value::from(*u),
        JsonValue::Number(JsonNumber::NegInt(i)) => Value::from(*i),
        JsonValue::Number(JsonNumber::Float(t)) => serde_json::from_str(t).unwrap_or_default(),
        JsonValue::Str(s) => Value::String(s.clone()),
        JsonValue::Array(a) => Value::Array(a.iter().map(to_serde).collect()),
        JsonValue::Object(ms) => Value::Object(ms.iter().map(|m| (m.key.clone(), to_serde(&m.value))).collect()),
    }
}

/// Every item decoded by `f`, or `None` if one does not decode.
pub open spec fn decode_all<T>(items: Seq<Json>, f: spec_fn(Json) -> Option<T>) -> Option<Seq<T>>
    decreases items.len(),
{
    if items.len() == 0 {
        Some(Seq::<T>::empty())
    } else {
        match (decode_all(items.drop_last(), f), f(items.last())) {
            (Some(ds), Some(d)) => Some(ds.push(d)),
            _ => None,
        }
    }
}

/// A prefix that does not decode makes the whole sequence fail.
pub proof fn lemma_decode_all_prefix<T>(items: Seq<Json>, f: spec_fn(Json) -> Option<T>, n: int)
    requires
        0 <= n <= items.len(),
        decode_all(items.take(n), f) is None,
    ensures
        decode_all(items, f) is None,
    decreases items.len() - n,
{
    if n < items.len() {
        assert(items.take(n + 1).drop_last() =~= items.take(n));
        lemma_decode_all_prefix(items, f, n + 1);
    } else {
        assert(items.take(n) =~= items);
    }
}

} // verus!
