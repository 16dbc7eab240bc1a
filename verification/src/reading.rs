//! Reading documents from bytes.

use vstd::prelude::*;
use vstd::utf8::encode_utf8;
use crate::canonical::{arranged, canonical};
use crate::error::{outcome, Error};
use crate::json::{entry_views, views, Json, JsonView, Number};
use crate::text::decimal;

verus! {

/// A document as `serde_json` holds it.
#[verifier::external_type_specification]
#[verifier::external_body]
pub struct ExValue(serde_json::Value);

/// What a document of `serde_json` holds.
pub uninterp spec fn held(v: serde_json::Value) -> JsonView;

/// What `serde_json::from_slice` reads in bytes as a document, or its complaint.
pub uninterp spec fn read_document(bytes: Seq<u8>) -> Result<JsonView, Seq<char>>;

/// What `serde_json::from_slice` reads in bytes as one string, or its complaint.
pub uninterp spec fn read_string(bytes: Seq<u8>) -> Result<Seq<char>, Seq<char>>;

/// The text of a whole number that fits in 64 bits, with or without a sign.
pub open spec fn is_whole(s: Seq<char>) -> bool {
    ||| exists|n: nat| n <= u64::MAX && s == #[trigger] decimal(n)
    ||| exists|n: nat| 1 <= n <= 0x8000_0000_0000_0000 && s == seq!['-'] + #[trigger] decimal(n)
}

/// A document whose numbers are all whole, with arrays and objects nested at most so deep.
pub open spec fn is_plain(v: JsonView, depth: nat) -> bool
    decreases v,
{
    match v {
        JsonView::Number(s) => is_whole(s),
        JsonView::Array(items) => depth > 0 && forall|i: int|
            0 <= i < items.len() ==> is_plain(#[trigger] items[i], (depth - 1) as nat),
        JsonView::Object(entries) => depth > 0 && forall|i: int|
            0 <= i < entries.len() ==> is_plain((#[trigger] entries[i]).1, (depth - 1) as nat),
        _ => true,
    }
}

/// How deep a document may be nested to be read.
pub open spec fn deepest() -> nat {
    127
}

/// Whether bytes are the one text of a document that can be read back.
pub open spec fn is_text_of(bytes: Seq<u8>, v: JsonView) -> bool {
    is_plain(v, deepest()) && bytes == encode_utf8(canonical(v))
}

/// `serde_json::from_slice` into a `serde_json::Value`. The bytes alone decide which
/// document it is, or why there is none. The text of a document with whole numbers, nested no
/// deeper than the reader goes, is read as that document: members come in the order of their
/// keys, numbers of 64 bits keep their digits and escapes give back what they stand for. A
/// negative zero is left out, for it is read as a number with a fraction, and so is every other
/// such number.
#[verifier::external_body]
fn parse_value(bytes: &[u8]) -> (r: Result<serde_json::Value, String>)
    ensures
        match r {
            Ok(d) => read_document(bytes@) == Ok::<JsonView, Seq<char>>(held(d)) && (forall|v|
                #[trigger]
                is_text_of(bytes@, v) ==> held(d) == arranged(v)),
            Err(e) => read_document(bytes@) == Err::<JsonView, Seq<char>>(e@) && (forall|v|
                !#[trigger] is_text_of(bytes@, v)),
        },
{
    serde_json::from_slice(bytes).map_err(|e| e.to_string())
}

/// `serde_json::from_slice` into a `String`. The bytes alone decide which text it is, or
/// why there is none.
#[verifier::external_body]
fn parse_string(bytes: &[u8]) -> (r: Result<String, String>)
    ensures
        match r {
            Ok(s) => read_string(bytes@) == Ok::<Seq<char>, Seq<char>>(s@),
            Err(e) => read_string(bytes@) == Err::<Seq<char>, Seq<char>>(e@),
        },
{
    serde_json::from_slice(bytes).map_err(|e| e.to_string())
}

/// The outermost level of a document.
enum Level {
    Null,
    Bool(bool),
    Number(String),
    Text(String),
    Array(Vec<serde_json::Value>),
    Object(Vec<(String, serde_json::Value)>),
}

spec fn level_view(level: Level) -> JsonView {
    match level {
        Level::Null => JsonView::Null,
        Level::Bool(b) => JsonView::Bool(b),
        Level::Number(n) => JsonView::Number(n@),
        Level::Text(s) => JsonView::Text(s@),
        Level::Array(items) => JsonView::Array(
            items@.map_values(|v: serde_json::Value| held(v)),
        ),
        Level::Object(members) => JsonView::Object(
            members@.map_values(|e: (String, serde_json::Value)| (e.0@, held(e.1))),
        ),
    }
}

/// The variants of `serde_json::Value`, with a number as its `Display` writes it and the
/// members of an object in the order of its iterator.
#[verifier::external_body]
fn open_value(v: serde_json::Value) -> (r: Level)
    ensures
        held(v) == level_view(r),
{
    match v {
        serde_json::Value::Null => Level::Null,
        serde_json::Value::Bool(b) => Level::Bool(b),
        serde_json::Value::Number(n) => Level::Number(n.to_string()),
        serde_json::Value::String(s) => Level::Text(s),
        serde_json::Value::Array(items) => Level::Array(items),
        serde_json::Value::Object(members) => Level::Object(members.into_iter().collect()),
    }
}

/// The document that `serde_json` holds, as a plain value.
pub fn plain(v: serde_json::Value) -> (r: Json)
    ensures
        r@ == held(v),
    decreases held(v),
{
    let ghost whole = held(v);
    match open_value(v) {
        Level::Null => Json::Null,
        Level::Bool(b) => Json::Bool(b),
        Level::Number(n) => Json::Number(Number::Written(n)),
        Level::Text(s) => Json::Text(s),
        Level::Array(items) => {
            let ghost all = whole->Array_0;
            let mut out: Vec<Json> = Vec::new();
            for item in iter: items
                invariant
                    whole == held(v),
                    whole == JsonView::Array(all),
                    all.len() == iter.seq().len(),
                    forall|k: int| 0 <= k < all.len() ==> held(#[trigger] iter.seq()[k]) == all[k],
                    out@.len() == iter.index(),
                    forall|k: int| 0 <= k < iter.index() ==> (#[trigger] out@[k])@ == all[k],
            {
                assert(decreases_to!(whole => whole->Array_0));
                assert(decreases_to!(whole->Array_0 => whole->Array_0[iter.index() as int]));
                out.push(plain(item));
            }
            assert(views(out@) =~= all);
            Json::list(out)
        },
        Level::Object(members) => {
            let ghost all = whole->Object_0;
            let mut out: Vec<(String, Json)> = Vec::new();
            for member in iter: members
                invariant
                    whole == held(v),
                    whole == JsonView::Object(all),
                    all.len() == iter.seq().len(),
                    forall|k: int|
                        0 <= k < all.len() ==> all[k] == (
                            (#[trigger] iter.seq()[k]).0@,
                            held(iter.seq()[k].1),
                        ),
                    out@.len() == iter.index(),
                    forall|k: int|
                        0 <= k < iter.index() ==> (#[trigger] out@[k]).0@ == all[k].0 && out@[k].1@
                            == all[k].1,
            {
                assert(decreases_to!(whole => whole->Object_0));
                assert(decreases_to!(whole->Object_0 => whole->Object_0[iter.index() as int]));
                let ghost here = whole->Object_0[iter.index() as int];
                assert(decreases_to!(here => here.1));
                out.push((member.0, plain(member.1)));
            }
            assert(entry_views(out@) =~= all);
            Json::object(out)
        },
    }
}

/// The document that bytes hold, or why they hold none.
pub open spec fn document(bytes: Seq<u8>) -> Result<JsonView, Seq<Seq<char>>> {
    match read_document(bytes) {
        Ok(v) => Ok(v),
        Err(complaint) => Err(seq![complaint]),
    }
}

/// Reads a document. From the one text of a document with whole numbers it gives back the
/// document, the members of every object in the order of their keys.
pub fn read(bytes: &[u8]) -> (r: Result<Json, Error>)
    ensures
        outcome(r) == document(bytes@),
        forall|v: JsonView| #[trigger]
            is_text_of(bytes@, v) ==> (r matches Ok(d) && d@ == arranged(v)),
{
    match parse_value(bytes) {
        Ok(v) => Ok(plain(v)),
        Err(complaint) => Err(Error::of(complaint)),
    }
}

/// The string that bytes hold, or why they hold none.
pub open spec fn string_in(bytes: Seq<u8>) -> Result<Seq<char>, Seq<Seq<char>>> {
    match read_string(bytes) {
        Ok(s) => Ok(s),
        Err(complaint) => Err(seq![complaint]),
    }
}

/// Reads one string.
pub fn read_text(bytes: &[u8]) -> (r: Result<String, Error>)
    ensures
        outcome(r) == string_in(bytes@),
{
    match parse_string(bytes) {
        Ok(s) => Ok(s),
        Err(complaint) => Err(Error::of(complaint)),
    }
}

} // verus!
