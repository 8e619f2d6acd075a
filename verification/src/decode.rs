//! Turning bencode into JSON values: integers become numbers, byte
//! strings become strings when they are UTF-8, lists become arrays and
//! dictionaries become objects.
use vstd::prelude::*;
use vstd::utf8::{decode_utf8, valid_utf8};

use crate::bencode::{
    list_view, dict_view, parse_bencode, parse_value, BValue, Bencode, BencodeError,
};
use crate::outside::{json_from_slice, string_from_utf8};
use crate::seqs::bytes_to_vec;

verus! {

/// A JSON value as a mathematical object.
pub enum JsonModel {
    Number(int),
    Str(Seq<char>),
    Array(Seq<JsonModel>),
    Object(Seq<(Seq<char>, JsonModel)>),
}

/// A JSON value. An object keeps its members in the order given.
#[derive(Debug, PartialEq, Eq)]
pub enum Json {
    Number(i64),
    String(String),
    Array(Vec<Json>),
    Object(Vec<(String, Json)>),
}

/// The model of a JSON value.
pub open spec fn json_view(j: Json) -> JsonModel
    decreases j,
{
    match j {
        Json::Number(n) => JsonModel::Number(n as int),
        Json::String(s) => JsonModel::Str(s@),
        Json::Array(a) => JsonModel::Array(
            Seq::new(
                a@.len(),
                |i: int|
                    if 0 <= i < a@.len() {
                        json_view(a@[i])
                    } else {
                        JsonModel::Number(0)
                    },
            ),
        ),
        Json::Object(o) => JsonModel::Object(
            Seq::new(
                o@.len(),
                |i: int|
                    if 0 <= i < o@.len() {
                        (o@[i].0@, json_view(o@[i].1))
                    } else {
                        (Seq::empty(), JsonModel::Number(0))
                    },
            ),
        ),
    }
}

impl View for Json {
    type V = JsonModel;

    open spec fn view(&self) -> JsonModel {
        json_view(*self)
    }
}

/// Why bencode could not be turned into JSON.
#[derive(Debug, Clone, Copy, PartialEq, Eq, Structural)]
pub enum DecodeError {
    /// The input is not bencode.
    Bencode(BencodeError),
    /// A dictionary key is not UTF-8.
    Utf8,
    /// A byte string is neither UTF-8 text nor JSON.
    Json,
}

/// The JSON value of a bencoded value; the first failure met, in order,
/// decides the error.
pub open spec fn to_json(v: Bencode) -> Result<JsonModel, DecodeError>
    decreases v,
{
    match v {
        Bencode::Int(i) => Ok(JsonModel::Number(i)),
        Bencode::Bytes(b) => if valid_utf8(b) {
            Ok(JsonModel::Str(decode_utf8(b)))
        } else {
            Err(DecodeError::Json)
        },
        Bencode::List(items) => match to_json_list(items) {
            Ok(js) => Ok(JsonModel::Array(js)),
            Err(e) => Err(e),
        },
        Bencode::Dict(es) => match to_json_entries(es) {
            Ok(ms) => Ok(JsonModel::Object(ms)),
            Err(e) => Err(e),
        },
    }
}

/// The JSON values of the items.
pub open spec fn to_json_list(items: Seq<Bencode>) -> Result<Seq<JsonModel>, DecodeError>
    decreases items,
{
    if items.len() == 0 {
        Ok(Seq::empty())
    } else {
        match to_json(items[0]) {
            Err(e) => Err(e),
            Ok(j) => match to_json_list(items.drop_first()) {
                Err(e) => Err(e),
                Ok(js) => Ok(seq![j] + js),
            },
        }
    }
}

/// The JSON members of the entries: each key as text, then its value.
pub open spec fn to_json_entries(es: Seq<(Seq<u8>, Bencode)>) -> Result<
    Seq<(Seq<char>, JsonModel)>,
    DecodeError,
>
    decreases es,
{
    if es.len() == 0 {
        Ok(Seq::empty())
    } else if !valid_utf8(es[0].0) {
        Err(DecodeError::Utf8)
    } else {
        match to_json(es[0].1) {
            Err(e) => Err(e),
            Ok(j) => match to_json_entries(es.drop_first()) {
                Err(e) => Err(e),
                Ok(ms) => Ok(seq![(decode_utf8(es[0].0), j)] + ms),
            },
        }
    }
}

/// The JSON value that the bencoded input denotes.
pub open spec fn decoded_json(s: Seq<u8>) -> Result<JsonModel, DecodeError> {
    match parse_value(s, 0) {
        None => Err(DecodeError::Bencode(BencodeError::Invalid)),
        Some((v, _)) => to_json(v),
    }
}

/// A conversion outcome, related to its specification.
pub open spec fn json_result_is(r: Result<Json, DecodeError>, spec: Result<JsonModel, DecodeError>) -> bool {
    match (r, spec) {
        (Ok(j), Ok(m)) => j@ == m,
        (Err(e1), Err(e2)) => e1 == e2,
        _ => false,
    }
}

proof fn lemma_json_list_items(items: Seq<Bencode>)
    ensures
        match to_json_list(items) {
            Ok(js) => js.len() == items.len() && forall|i: int|
                0 <= i < items.len() ==> #[trigger] to_json(items[i]) == Ok::<JsonModel, DecodeError>(js[i]),
            Err(e) => exists|k: int|
                0 <= k < items.len() && #[trigger] to_json(items[k]) == Err::<JsonModel, DecodeError>(e)
                    && forall|i: int| 0 <= i < k ==> (#[trigger] to_json(items[i])) is Ok,
        },
    decreases items.len(),
{
    if items.len() > 0 {
        let rest = items.drop_first();
        lemma_json_list_items(rest);
        assert(forall|i: int| 0 < i < items.len() ==> items[i] == rest[i - 1]);
        match to_json(items[0]) {
            Err(e) => {},
            Ok(j) => match to_json_list(rest) {
                Ok(js) => {
                    assert forall|i: int| 0 <= i < items.len() implies #[trigger] to_json(items[i])
                        == Ok::<JsonModel, DecodeError>((seq![j] + js)[i]) by {
                        if i > 0 {
                            assert(to_json(rest[i - 1]) == Ok::<JsonModel, DecodeError>(js[i - 1]));
                        }
                    }
                },
                Err(e) => {
                    let k = choose|k: int|
                        0 <= k < rest.len() && #[trigger] to_json(rest[k]) == Err::<JsonModel, DecodeError>(e)
                            && forall|i: int| 0 <= i < k ==> (#[trigger] to_json(rest[i])) is Ok;
                    assert(to_json(items[k + 1]) == Err::<JsonModel, DecodeError>(e));
                    assert forall|i: int| 0 <= i < k + 1 implies (#[trigger] to_json(items[i])) is Ok by {
                        if i > 0 {
                            assert(to_json(rest[i - 1]) is Ok);
                        }
                    }
                },
            },
        }
    }
}

/// A bencoded list becomes an array with exactly one element per item, in
/// order: element `i` is the JSON value of item `i`. When an item cannot be
/// converted, the list fails with the error of the first such item.
pub proof fn lemma_list_to_array(items: Seq<Bencode>)
    ensures
        match to_json(Bencode::List(items)) {
            Ok(JsonModel::Array(js)) => js.len() == items.len() && forall|i: int|
                0 <= i < items.len() ==> #[trigger] to_json(items[i]) == Ok::<JsonModel, DecodeError>(js[i]),
            Ok(_) => false,
            Err(e) => exists|k: int|
                0 <= k < items.len() && #[trigger] to_json(items[k]) == Err::<JsonModel, DecodeError>(e)
                    && forall|i: int| 0 <= i < k ==> (#[trigger] to_json(items[i])) is Ok,
        },
{
    lemma_json_list_items(items);
}

/// Whether entry `i` converts: its key is UTF-8 and its value converts.
pub open spec fn entry_converts(es: Seq<(Seq<u8>, Bencode)>, i: int) -> bool {
    valid_utf8(es[i].0) && to_json(es[i].1) is Ok
}

/// Whether entry `i` fails with `e`: with `Utf8` where its key is not
/// UTF-8, else with the error of its value.
pub open spec fn entry_fails_with(es: Seq<(Seq<u8>, Bencode)>, i: int, e: DecodeError) -> bool {
    if valid_utf8(es[i].0) {
        to_json(es[i].1) == Err::<JsonModel, DecodeError>(e)
    } else {
        e == DecodeError::Utf8
    }
}

spec fn entries_law(es: Seq<(Seq<u8>, Bencode)>) -> bool {
    match to_json_entries(es) {
        Ok(ms) => ms.len() == es.len() && forall|i: int|
            0 <= i < es.len() ==> valid_utf8(#[trigger] es[i].0) && ms[i].0 == decode_utf8(es[i].0)
                && to_json(es[i].1) == Ok::<JsonModel, DecodeError>(ms[i].1),
        Err(e) => exists|k: int|
            0 <= k < es.len() && #[trigger] entry_fails_with(es, k, e) && forall|i: int|
                0 <= i < k ==> #[trigger] entry_converts(es, i),
    }
}

proof fn lemma_json_entries_members(es: Seq<(Seq<u8>, Bencode)>)
    ensures
        entries_law(es),
    decreases es.len(),
{
    if es.len() > 0 {
        let rest = es.drop_first();
        lemma_json_entries_members(rest);
        assert(forall|i: int| 0 < i < es.len() ==> es[i] == rest[i - 1]);
        if valid_utf8(es[0].0) {
            match to_json(es[0].1) {
                Err(e) => {
                    assert(forall|i: int| 0 <= i < 0 ==> #[trigger] entry_converts(es, i));
                    assert(entry_fails_with(es, 0, e));
                    assert(to_json_entries(es) == Err::<Seq<(Seq<char>, JsonModel)>, DecodeError>(e));
                    assert(entries_law(es));
                },
                Ok(j) => match to_json_entries(rest) {
                    Ok(ms) => {
                        let all = seq![(decode_utf8(es[0].0), j)] + ms;
                        assert forall|i: int| 0 <= i < es.len() implies valid_utf8(#[trigger] es[i].0)
                            && all[i].0 == decode_utf8(es[i].0) && to_json(es[i].1)
                            == Ok::<JsonModel, DecodeError>(all[i].1) by {
                            if i > 0 {
                                assert(valid_utf8(rest[i - 1].0));
                            }
                        }
                        assert(to_json_entries(es) == Ok::<Seq<(Seq<char>, JsonModel)>, DecodeError>(all));
                        assert(all.len() == es.len());
                        assert(entries_law(es));
                    },
                    Err(e) => {
                        let k = choose|k: int|
                            0 <= k < rest.len() && #[trigger] entry_fails_with(rest, k, e) && forall|i: int| 0 <= i < k ==> #[trigger] entry_converts(rest, i);
                        assert(es[k + 1] == rest[k]);
                        assert(entry_fails_with(es, k + 1, e));
                        assert forall|i: int| 0 <= i < k + 1 implies #[trigger] entry_converts(es, i) by {
                            if i > 0 {
                                assert(entry_converts(rest, i - 1));
                            }
                        }
                        assert(to_json_entries(es) == Err::<Seq<(Seq<char>, JsonModel)>, DecodeError>(e));
                        assert(0 <= k + 1 < es.len());
                        assert(entries_law(es));
                    },
                },
            }
        } else {
            assert(forall|i: int| 0 <= i < 0 ==> #[trigger] entry_converts(es, i));
            assert(entry_fails_with(es, 0, DecodeError::Utf8));
            assert(to_json_entries(es) == Err::<Seq<(Seq<char>, JsonModel)>, DecodeError>(DecodeError::Utf8));
            assert(entries_law(es));
        }
    }
}

/// A bencoded dictionary becomes an object with exactly one member per
/// entry, in order: member `i` has the UTF-8 text of key `i` as its name
/// and the JSON value of value `i`. When an entry cannot be converted, the
/// dictionary fails on the first such entry: with `Utf8` where its key is
/// not UTF-8, else with the error of its value.
pub proof fn lemma_dict_to_object(es: Seq<(Seq<u8>, Bencode)>)
    ensures
        match to_json(Bencode::Dict(es)) {
            Ok(JsonModel::Object(ms)) => ms.len() == es.len() && forall|i: int|
                0 <= i < es.len() ==> valid_utf8(#[trigger] es[i].0) && ms[i].0 == decode_utf8(es[i].0)
                    && to_json(es[i].1) == Ok::<JsonModel, DecodeError>(ms[i].1),
            Ok(_) => false,
            Err(e) => exists|k: int|
                0 <= k < es.len() && #[trigger] entry_fails_with(es, k, e) && forall|i: int| 0 <= i < k ==> #[trigger] entry_converts(es, i),
        },
{
    lemma_json_entries_members(es);
    assert(entries_law(es));
}

proof fn lemma_array_view(a: Vec<Json>)
    ensures
        Json::Array(a)@ == JsonModel::Array(Seq::new(a@.len(), |i: int| a@[i]@)),
{
    match Json::Array(a)@ {
        JsonModel::Array(sq) => {
            assert(sq =~= Seq::new(a@.len(), |i: int| a@[i]@));
        },
        _ => {},
    }
}

proof fn lemma_object_view(o: Vec<(String, Json)>)
    ensures
        Json::Object(o)@ == JsonModel::Object(Seq::new(o@.len(), |i: int| (o@[i].0@, o@[i].1@))),
{
    match Json::Object(o)@ {
        JsonModel::Object(sq) => {
            assert(sq =~= Seq::new(o@.len(), |i: int| (o@[i].0@, o@[i].1@)));
        },
        _ => {},
    }
}

/// Turns a bencoded value into JSON.
pub fn decode_value(value: &BValue) -> (r: Result<Json, DecodeError>)
    ensures
        json_result_is(r, to_json(value@)),
    decreases value,
{
    match value {
        BValue::Int(i) => Ok(Json::Number(*i)),
        BValue::Bytes(bytes) => {
            // UTF-8 text becomes a string; other bytes are read as JSON text,
            // which they never are.
            match string_from_utf8(bytes_to_vec(bytes.as_slice())) {
                Ok(s) => Ok(Json::String(s)),
                Err(_) => match json_from_slice(bytes.as_slice()) {
                    Err(_) => Err(DecodeError::Json),
                    Ok(_) => {
                        // Bytes that are not UTF-8 are never JSON text.
                        assert(false);
                        Err(DecodeError::Json)
                    },
                },
            }
        },
        BValue::List(list) => {
            proof {
                crate::bencode::lemma_list_view_of(*list);
            }
            decode_list(list)
        },
        BValue::Dict(map) => {
            proof {
                crate::bencode::lemma_dict_view_of(*map);
            }
            decode_dict(map)
        },
    }
}

/// Turns the items of a bencoded list into a JSON array.
fn decode_list(encoded: &Vec<BValue>) -> (r: Result<Json, DecodeError>)
    ensures
        json_result_is(
            r,
            match to_json_list(list_view(encoded@)) {
                Ok(js) => Ok(JsonModel::Array(js)),
                Err(e) => Err(e),
            },
        ),
    decreases encoded,
{
    let ghost items = list_view(encoded@);
    let mut vec: Vec<Json> = Vec::new();
    let mut i: usize = 0;
    let n = encoded.len();
    proof {
        assert(items.subrange(0, n as int) =~= items);
    }
    while i < n
        invariant
            n == encoded@.len(),
            items == list_view(encoded@),
            i <= n,
            to_json_list(items) == match to_json_list(items.subrange(i as int, n as int)) {
                Ok(js) => Ok(Seq::new(vec@.len(), |k: int| vec@[k]@) + js),
                Err(e) => Err(e),
            },
        decreases n - i,
    {
        assert(items.subrange(i as int, n as int).drop_first() =~= items.subrange(
            i + 1,
            n as int,
        ));
        assert(items.subrange(i as int, n as int)[0] == encoded@[i as int]@);
        let j = match decode_value(&encoded[i]) {
            Ok(j) => j,
            Err(e) => return Err(e),
        };
        let ghost before = Seq::new(vec@.len(), |k: int| vec@[k]@);
        let ghost jv = j@;
        vec.push(j);
        proof {
            assert(Seq::new(vec@.len(), |k: int| vec@[k]@) =~= before.push(jv));
            match to_json_list(items.subrange(i + 1, n as int)) {
                Ok(js) => {
                    assert(before + (seq![jv] + js) =~= before.push(jv) + js);
                },
                Err(e) => {},
            }
        }
        i = i + 1;
    }
    proof {
        assert(items.subrange(n as int, n as int) =~= Seq::<Bencode>::empty());
        assert(Seq::new(vec@.len(), |k: int| vec@[k]@) + Seq::<JsonModel>::empty() =~= Seq::new(
            vec@.len(),
            |k: int| vec@[k]@,
        ));
        lemma_array_view(vec);
    }
    Ok(Json::Array(vec))
}

/// Turns the entries of a bencoded dictionary into a JSON object.
fn decode_dict(encoded: &Vec<(Vec<u8>, BValue)>) -> (r: Result<Json, DecodeError>)
    ensures
        json_result_is(
            r,
            match to_json_entries(dict_view(encoded@)) {
                Ok(ms) => Ok(JsonModel::Object(ms)),
                Err(e) => Err(e),
            },
        ),
    decreases encoded,
{
    let ghost es = dict_view(encoded@);
    let mut map: Vec<(String, Json)> = Vec::new();
    let mut i: usize = 0;
    let n = encoded.len();
    proof {
        assert(es.subrange(0, n as int) =~= es);
    }
    while i < n
        invariant
            n == encoded@.len(),
            es == dict_view(encoded@),
            i <= n,
            to_json_entries(es) == match to_json_entries(es.subrange(i as int, n as int)) {
                Ok(ms) => Ok(Seq::new(map@.len(), |k: int| (map@[k].0@, map@[k].1@)) + ms),
                Err(e) => Err(e),
            },
        decreases n - i,
    {
        assert(es.subrange(i as int, n as int).drop_first() =~= es.subrange(i + 1, n as int));
        assert(es.subrange(i as int, n as int)[0] == (encoded@[i as int].0@, encoded@[i as int].1@));
        let key = match string_from_utf8(bytes_to_vec(encoded[i].0.as_slice())) {
            Ok(k) => k,
            Err(_) => return Err(DecodeError::Utf8),
        };
        let value = match decode_value(&encoded[i].1) {
            Ok(j) => j,
            Err(e) => return Err(e),
        };
        let ghost before = Seq::new(map@.len(), |k: int| (map@[k].0@, map@[k].1@));
        let ghost entry = (key@, value@);
        map.push((key, value));
        proof {
            assert(Seq::new(map@.len(), |k: int| (map@[k].0@, map@[k].1@)) =~= before.push(entry));
            match to_json_entries(es.subrange(i + 1, n as int)) {
                Ok(ms) => {
                    assert(before + (seq![entry] + ms) =~= before.push(entry) + ms);
                },
                Err(e) => {},
            }
        }
        i = i + 1;
    }
    proof {
        assert(es.subrange(n as int, n as int) =~= Seq::<(Seq<u8>, Bencode)>::empty());
        assert(Seq::new(map@.len(), |k: int| (map@[k].0@, map@[k].1@)) + Seq::<
            (Seq<char>, JsonModel),
        >::empty() =~= Seq::new(map@.len(), |k: int| (map@[k].0@, map@[k].1@)));
        lemma_object_view(map);
    }
    Ok(Json::Object(map))
}

/// Reads bencode from the front of `encoded_value` (what follows the value
/// is ignored) and turns it into JSON.
pub fn decode_bencoded_value(encoded_value: &[u8]) -> (r: Result<Json, DecodeError>)
    ensures
        json_result_is(r, decoded_json(encoded_value@)),
{
    match parse_bencode(encoded_value) {
        Err(e) => Err(DecodeError::Bencode(e)),
        Ok((value, _)) => decode_value(&value),
    }
}

} // verus!
