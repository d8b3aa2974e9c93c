//! Reading the JSON bodies of requests: the peers a node announces, and the
//! faults a test harness injects.
use vstd::prelude::*;

use crate::http::{first_node_addr_header, node_addr_name, Request};
use crate::scan::{trim_str, trim_ws};
use crate::sorting::views;
use crate::text::{chars_of, concat, is_err_with, owned, str_equal};

verus! {

/// A JSON value. Numbers are kept as the text serde_json writes for them;
/// an object holds each key once, in the order serde_json's map gives them.
#[derive(Debug)]
pub enum JsonValue {
    Null,
    Bool(bool),
    Number(String),
    Str(String),
    Array(Vec<JsonValue>),
    Object(Vec<(String, JsonValue)>),
}

/// serde_json's JSON value, opaque here: it is only converted.
#[verifier::external_type_specification]
#[verifier::external_body]
pub struct ExJsonValue(serde_json::Value);

/// The value a JSON text denotes, if it is well-formed JSON.
pub uninterp spec fn spec_parse_json(text: Seq<char>) -> Option<JsonValue>;

/// A `serde_json::Value` as a `JsonValue`, variant for variant.
#[verifier::external_body]
fn json_from_value(v: serde_json::Value) -> JsonValue {
    match v {
        serde_json::Value::Null => JsonValue::Null,
        serde_json::Value::Bool(b) => JsonValue::Bool(b),
        serde_json::Value::Number(n) => JsonValue::Number(n.to_string()),
        serde_json::Value::String(s) => JsonValue::Str(s),
        serde_json::Value::Array(a) => JsonValue::Array(a.into_iter().map(json_from_value).collect()),
        serde_json::Value::Object(m) => JsonValue::Object(m.into_iter().map(|(k, x)| (k, json_from_value(x))).collect()),
    }
}

/// Parses a JSON text.
///
/// Trusted: `serde_json::from_str` into a `serde_json::Value` is a function of
/// the text alone; its result is named `spec_parse_json`, `None` where the
/// parser refuses the text.
#[verifier::external_body]
fn parse_json(text: &str) -> (res: Result<JsonValue, serde_json::Error>)
    ensures
        match res {
            Ok(v) => spec_parse_json(text@) == Some(v),
            Err(_) => spec_parse_json(text@) is None,
        },
{
    serde_json::from_str::<serde_json::Value>(text).map(json_from_value)
}

/// The message of a JSON parse error (its `Display` text); its wording is
/// serde_json's and is not stated here.
#[verifier::external_body]
fn json_error_text(e: serde_json::Error) -> String {
    e.to_string()
}

/// The value of the first member named `key`.
pub open spec fn member(entries: Seq<(String, JsonValue)>, key: Seq<char>) -> Option<JsonValue>
    decreases entries.len(),
{
    if entries.len() == 0 {
        None
    } else if entries[0].0@ == key {
        Some(entries[0].1)
    } else {
        member(entries.drop_first(), key)
    }
}

/// The member `key` of an object; nothing for any other value.
pub open spec fn field(v: JsonValue, key: Seq<char>) -> Option<JsonValue> {
    match v {
        JsonValue::Object(m) => member(m@, key),
        _ => None,
    }
}

/// The member `key` of an object where it is a string.
pub open spec fn str_field(v: JsonValue, key: Seq<char>) -> Option<Seq<char>> {
    match field(v, key) {
        Some(JsonValue::Str(s)) => Some(s@),
        _ => None,
    }
}

/// The member `key` of an object where it is a boolean.
pub open spec fn bool_field(v: JsonValue, key: Seq<char>) -> Option<bool> {
    match field(v, key) {
        Some(JsonValue::Bool(b)) => Some(b),
        _ => None,
    }
}

/// The position of the first member named `key`.
fn member_index(entries: &Vec<(String, JsonValue)>, key: &str) -> (res: Option<usize>)
    ensures
        match res {
            Some(i) => i < entries@.len() && member(entries@, key@) == Some(entries@[i as int].1),
            None => member(entries@, key@) is None,
        },
{
    let mut i: usize = 0;
    assert(entries@.skip(0) =~= entries@);
    while i < entries.len()
        invariant
            i <= entries@.len(),
            member(entries@, key@) == member(entries@.skip(i as int), key@),
        decreases entries@.len() - i,
    {
        assert(entries@.skip(i as int)[0] == entries@[i as int]);
        if str_equal(&entries[i].0, key) {
            return Some(i);
        }
        assert(entries@.skip(i as int).drop_first() =~= entries@.skip(i + 1));
        i = i + 1;
    }
    assert(entries@.skip(i as int).len() == 0);
    None
}

/// The member `key` of an object where it is a string.
pub fn str_field_of(v: &JsonValue, key: &str) -> (res: Option<String>)
    ensures
        match res {
            Some(s) => str_field(*v, key@) == Some(s@),
            None => str_field(*v, key@) is None,
        },
{
    match v {
        JsonValue::Object(m) => match member_index(m, key) {
            Some(i) => match &m[i].1 {
                JsonValue::Str(s) => Some(s.clone()),
                _ => None,
            },
            None => None,
        },
        _ => None,
    }
}

/// The member `key` of an object where it is a boolean.
pub fn bool_field_of(v: &JsonValue, key: &str) -> (res: Option<bool>)
    ensures
        res == bool_field(*v, key@),
{
    match v {
        JsonValue::Object(m) => match member_index(m, key) {
            Some(i) => match &m[i].1 {
                JsonValue::Bool(b) => Some(*b),
                _ => None,
            },
            None => None,
        },
        _ => None,
    }
}

/// The address the sending node gave in its `X-Node-Addr` header, trimmed.
pub open spec fn sender_addr(r: Request) -> Option<Seq<char>> {
    match first_node_addr_header(views(r.headers@)) {
        Some(h) => Some(trim_ws(h.skip(node_addr_name().len() as int))),
        None => None,
    }
}

/// The strings among the items of an array, in order.
pub open spec fn string_items(items: Seq<JsonValue>) -> Seq<Seq<char>>
    decreases items.len(),
{
    if items.len() == 0 {
        Seq::empty()
    } else {
        let rest = string_items(items.drop_last());
        match items.last() {
            JsonValue::Str(s) => rest.push(s@),
            _ => rest,
        }
    }
}

/// The peers a JSON body names: the string member `address` of an object,
/// else the strings of an array; `None` for any other value.
pub open spec fn peers_named(v: JsonValue) -> Option<Seq<Seq<char>>> {
    match str_field(v, "address"@) {
        Some(a) => Some(seq![a]),
        None => match v {
            JsonValue::Array(items) => Some(string_items(items@)),
            _ => None,
        },
    }
}

/// The strings among the items of an array, in order.
fn strings_of(items: &Vec<JsonValue>) -> (res: Vec<String>)
    ensures
        views(res@) == string_items(items@),
{
    let mut out: Vec<String> = Vec::new();
    let mut i: usize = 0;
    while i < items.len()
        invariant
            i <= items@.len(),
            views(out@) == string_items(items@.take(i as int)),
        decreases items@.len() - i,
    {
        assert(items@.take(i + 1).drop_last() =~= items@.take(i as int));
        assert(items@.take(i + 1).last() == items@[i as int]);
        match &items[i] {
            JsonValue::Str(s) => {
                let ghost before = views(out@);
                out.push(s.clone());
                assert(views(out@) =~= before.push(s@));
            },
            _ => {},
        }
        i = i + 1;
    }
    assert(items@.take(items@.len() as int) =~= items@);
    out
}

/// The peers a `POST /peers` request announces: with a blank body, the
/// sender's own address from its header (none without one); otherwise the
/// body must be JSON naming an `address`, or an array whose strings are the
/// peers. A body that is not JSON is refused with the parser's message, and
/// JSON of any other shape with "missing peer address".
pub fn parse_peer_request(request: &Request) -> (res: Result<Vec<String>, String>)
    ensures
        trim_ws(request.body@).len() == 0 ==> (res matches Ok(p) && views(p@) == match sender_addr(*request) {
            Some(a) => seq![a],
            None => Seq::<Seq<char>>::empty(),
        }),
        trim_ws(request.body@).len() > 0 && spec_parse_json(request.body@) is None ==> res is Err,
        trim_ws(request.body@).len() > 0 ==> (spec_parse_json(request.body@) matches Some(v) ==> match peers_named(v) {
            Some(ps) => res matches Ok(p) && views(p@) == ps,
            None => is_err_with(res, "missing peer address"@),
        }),
{
    let trimmed = chars_of(&trim_str(&request.body));
    if trimmed.len() == 0 {
        return match request.node_addr() {
            Some(addr) => {
                let mut v: Vec<String> = Vec::new();
                v.push(addr);
                assert(views(v@) =~= seq![v@[0]@]);
                Ok(v)
            },
            None => {
                let v: Vec<String> = Vec::new();
                assert(views(v@) =~= Seq::<Seq<char>>::empty());
                Ok(v)
            },
        };
    }
    match parse_json(&request.body) {
        Ok(json) => peers_from_json(&json),
        Err(e) => Err(json_error_text(e)),
    }
}

/// The peers a JSON body names: the string member `address` of an object,
/// else the strings of an array; any other value is refused with "missing
/// peer address".
pub fn peers_from_json(json: &JsonValue) -> (res: Result<Vec<String>, String>)
    ensures
        match peers_named(*json) {
            Some(ps) => res matches Ok(p) && views(p@) == ps,
            None => is_err_with(res, "missing peer address"@),
        },
{
    match str_field_of(json, "address") {
        Some(address) => {
            proof {
                reveal_strlit("address");
            }
            let mut v: Vec<String> = Vec::new();
            v.push(address);
            assert(views(v@) =~= seq![v@[0]@]);
            return Ok(v);
        },
        None => {},
    }
    match json {
        JsonValue::Array(items) => Ok(strings_of(items)),
        _ => Err(owned("missing peer address")),
    }
}

/// What a `POST /debug/faults` body asks for: to unblock every peer, to
/// block one, to unblock one.
#[derive(Debug)]
pub struct FaultRequest {
    pub clear_blocked_peers: bool,
    pub block_peer: Option<String>,
    pub unblock_peer: Option<String>,
}

/// An optional text by its view.
pub open spec fn opt_view(o: Option<String>) -> Option<Seq<char>> {
    match o {
        Some(s) => Some(s@),
        None => None,
    }
}

/// Reads a `POST /debug/faults` body: a JSON value whose boolean member
/// `clear_blocked_peers` (false when absent or not a boolean) and string
/// members `block_peer` and `unblock_peer` say what to do. A body that is not
/// JSON is refused with "invalid debug request: " and the parser's message.
pub fn parse_fault_request(body: &str) -> (res: Result<FaultRequest, String>)
    ensures
        res is Err <==> spec_parse_json(body@) is None,
        res matches Err(m) ==> "invalid debug request: "@.is_prefix_of(m@),
        spec_parse_json(body@) matches Some(v) ==> (res matches Ok(f) && {
            &&& f.clear_blocked_peers == (bool_field(v, "clear_blocked_peers"@) == Some(true))
            &&& opt_view(f.block_peer) == str_field(v, "block_peer"@)
            &&& opt_view(f.unblock_peer) == str_field(v, "unblock_peer"@)
        }),
{
    let json = match parse_json(body) {
        Ok(json) => json,
        Err(e) => {
            let text = json_error_text(e);
            let msg = concat("invalid debug request: ", &text);
            assert("invalid debug request: "@.is_prefix_of(msg@)) by {
                assert(msg@.subrange(0, "invalid debug request: "@.len() as int) =~= "invalid debug request: "@);
            }
            return Err(msg);
        },
    };
    Ok(fault_request_from_json(&json))
}

/// What a fault request's JSON asks for: the boolean member
/// `clear_blocked_peers` (false when absent or not a boolean) and the string
/// members `block_peer` and `unblock_peer`.
pub fn fault_request_from_json(json: &JsonValue) -> (res: FaultRequest)
    ensures
        res.clear_blocked_peers == (bool_field(*json, "clear_blocked_peers"@) == Some(true)),
        opt_view(res.block_peer) == str_field(*json, "block_peer"@),
        opt_view(res.unblock_peer) == str_field(*json, "unblock_peer"@),
{
    let clear = match bool_field_of(json, "clear_blocked_peers") {
        Some(b) => b,
        None => false,
    };
    let block_peer = str_field_of(json, "block_peer");
    let unblock_peer = str_field_of(json, "unblock_peer");
    FaultRequest { clear_blocked_peers: clear, block_peer, unblock_peer }
}

} // verus!
