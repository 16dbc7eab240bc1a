//! The one text of a JSON document, and digests over it.

use vstd::prelude::*;
use vstd::utf8::encode_utf8;
use sha2::Digest;
use crate::error::Error;
use crate::json::{seen, Json, JsonView};
use crate::map::{
    lemma_put_all_lookup, lemma_put_all_members, lemma_put_lookup, lemma_put_ordered, lookup,
    ordered, put, put_all, StringMap,
};
use crate::text::{
    before, is_digit, join, joined, lemma_before_irreflexive, lemma_before_transitive,
    lemma_first_joined, texts,
};

verus! {

pub open spec fn hex_digit(n: int) -> char {
    if n < 10 {
        (48 + n) as char
    } else {
        (87 + n) as char
    }
}

/// A character inside a JSON string.
pub open spec fn escaped(c: char) -> Seq<char> {
    let n = c as int;
    if c == '"' || c == '\\' {
        seq!['\\', c]
    } else if n == 8 {
        seq!['\\', 'b']
    } else if n == 9 {
        seq!['\\', 't']
    } else if n == 10 {
        seq!['\\', 'n']
    } else if n == 12 {
        seq!['\\', 'f']
    } else if n == 13 {
        seq!['\\', 'r']
    } else if n < 32 {
        seq!['\\', 'u', '0', '0', hex_digit(n / 16), hex_digit(n % 16)]
    } else {
        seq![c]
    }
}

pub open spec fn escapes(s: Seq<char>) -> Seq<char>
    decreases s.len(),
{
    if s.len() == 0 {
        Seq::empty()
    } else {
        escapes(s.drop_last()) + escaped(s.last())
    }
}

/// A text as a JSON string.
pub open spec fn quoted(s: Seq<char>) -> Seq<char> {
    seq!['"'] + escapes(s) + seq!['"']
}

/// A member of an object: its key and the text of its value.
pub open spec fn member(key: Seq<char>, value: Seq<char>) -> Seq<char> {
    quoted(key) + seq![':'] + value
}

pub open spec fn members(entries: Seq<(Seq<char>, Seq<char>)>) -> Seq<Seq<char>> {
    entries.map_values(|e: (Seq<char>, Seq<char>)| member(e.0, e.1))
}

/// The one text of a document: no white space, the members of every object in
/// the order of their keys.
pub open spec fn canonical(v: JsonView) -> Seq<char>
    decreases v,
{
    match v {
        JsonView::Null => "null"@,
        JsonView::Bool(b) => if b {
            "true"@
        } else {
            "false"@
        },
        JsonView::Number(text) => text,
        JsonView::Text(text) => quoted(text),
        JsonView::Array(items) => seq!['['] + joined(canonical_items(items), seq![',']) + seq![']'],
        JsonView::Object(entries) => seq!['{'] + joined(
            members(put_all(Seq::empty(), canonical_entries(entries))),
            seq![','],
        ) + seq!['}'],
    }
}

/// The text of each document.
pub open spec fn canonical_items(items: Seq<JsonView>) -> Seq<Seq<char>>
    decreases items,
{
    Seq::new(
        items.len(),
        |i: int|
            if 0 <= i < items.len() {
                canonical(items[i])
            } else {
                Seq::empty()
            },
    )
}

/// The text of each member's document, under its key.
pub open spec fn canonical_entries(entries: Seq<(Seq<char>, JsonView)>) -> Seq<
    (Seq<char>, Seq<char>),
>
    decreases entries,
{
    Seq::new(
        entries.len(),
        |i: int|
            if 0 <= i < entries.len() {
                (entries[i].0, canonical(entries[i].1))
            } else {
                (Seq::empty(), Seq::empty())
            },
    )
}

/// `serde_json::to_string` on a text: the text as a JSON string. Quotation
/// mark, backslash and the control characters below U+0020 are escaped.
#[verifier::external_body]
fn json_string(s: &str) -> (r: String)
    ensures
        r@ == quoted(s@),
{
    serde_json::to_string(s).unwrap()
}

fn write_member(key: &str, value: &str) -> (r: String)
    ensures
        r@ == member(key@, value@),
{
    let mut out = json_string(key);
    out.push(':');
    assert(out@ =~= quoted(key@) + seq![':']);
    out.append(value);
    out
}

/// The parts, with commas between them, in brackets.
fn enclosed(open: char, parts: &Vec<String>, close: char) -> (r: String)
    ensures
        r@ == seq![open] + joined(texts(parts@), seq![',']) + seq![close],
{
    let mut out = String::new();
    out.push(open);
    assert(out@ =~= seq![open]);
    proof {
        reveal_strlit(",");
        assert(","@ =~= seq![',']);
    }
    out.append(join(parts, ",").as_str());
    let ghost done = out@;
    out.push(close);
    assert(out@ =~= done + seq![close]);
    out
}

/// The one text of a document.
pub fn canonical_text(value: &Json) -> (r: String)
    ensures
        r@ == canonical(value@),
    decreases *value,
{
    match value {
        Json::Null => "null".to_owned(),
        Json::Bool(b) => if *b {
            "true".to_owned()
        } else {
            "false".to_owned()
        },
        Json::Number(n) => n.text(),
        Json::Text(s) => json_string(s.as_str()),
        Json::Array(items) => {
            let mut parts: Vec<String> = Vec::new();
            let mut i: usize = 0;
            while i < items.len()
                invariant
                    *value == Json::Array(*items),
                    i <= items@.len(),
                    parts@.len() == i,
                    forall|k: int|
                        0 <= k < i ==> #[trigger] texts(parts@)[k] == canonical(seen(items@[k])),
                decreases items.len() - i,
            {
                let ghost done = parts@;
                assert(decreases_to!(*value => value->Array_0));
                assert(decreases_to!(value->Array_0 => value->Array_0@));
                assert(decreases_to!(value->Array_0@ => value->Array_0@[i as int]));
                parts.push(canonical_text(&items[i]));
                assert forall|k: int| 0 <= k < i + 1 implies #[trigger] texts(parts@)[k]
                    == canonical(seen(items@[k])) by {
                    if k < i {
                        assert(texts(done)[k] == canonical(seen(items@[k])));
                        assert(parts@[k] == done[k]);
                    }
                }
                i += 1;
            }
            let out = enclosed('[', &parts, ']');
            assert(texts(parts@) =~= canonical_items(value@->Array_0));
            out
        },
        Json::Object(entries) => {
            let mut map: StringMap<String> = StringMap::new();
            let ghost v = value@;
            let ghost inner = canonical_entries(v->Object_0);
            let mut i: usize = 0;
            assert(inner.take(0) =~= Seq::empty());
            while i < entries.len()
                invariant
                    *value == Json::Object(*entries),
                    v == value@,
                    inner.len() == entries@.len(),
                    forall|k: int|
                        0 <= k < inner.len() ==> #[trigger] inner[k] == (
                            entries@[k].0@,
                            canonical(seen(entries@[k].1)),
                        ),
                    i <= entries@.len(),
                    map@ == put_all(Seq::empty(), inner.take(i as int)),
                decreases entries.len() - i,
            {
                assert(decreases_to!(*value => value->Object_0));
                assert(decreases_to!(value->Object_0 => value->Object_0@));
                assert(decreases_to!(value->Object_0@ => value->Object_0@[i as int]));
                let text = canonical_text(&entries[i].1);
                assert(inner.take(i + 1).drop_last() =~= inner.take(i as int));
                assert(inner.take(i + 1).last() == inner[i as int]);
                map.insert(entries[i].0.clone(), text);
                i += 1;
            }
            assert(inner.take(inner.len() as int) =~= inner);
            let mut parts: Vec<String> = Vec::new();
            let mut k: usize = 0;
            assert(texts(parts@) =~= members(map@.take(0)));
            while k < map.len()
                invariant
                    k <= map@.len(),
                    texts(parts@) == members(map@.take(k as int)),
                decreases map@.len() - k,
            {
                let ghost done = texts(parts@);
                let part = write_member(map.key(k).as_str(), map.value(k).as_str());
                parts.push(part);
                assert(texts(parts@) =~= done.push(part@));
                assert(members(map@.take(k + 1)) =~= members(map@.take(k as int)).push(part@));
                k += 1;
            }
            assert(map@.take(map@.len() as int) =~= map@);
            enclosed('{', &parts, '}')
        },
    }
}

/// The bytes of the one text of a document.
pub fn canonical_json(value: &Json) -> (r: Result<Vec<u8>, Error>)
    ensures
        r is Ok,
        r->Ok_0@ == encode_utf8(canonical(value@)),
{
    Ok(canonical_text(value).as_str().as_bytes_vec())
}

// --------------------------------------------------------------- digests

/// What SHA-256 makes of a sequence of bytes.
pub uninterp spec fn sha256_digest(bytes: Seq<u8>) -> Seq<u8>;

/// SHA-256 of bytes that come piece by piece.
#[verifier::external_body]
pub struct Hasher {
    inner: sha2::Sha256,
}

/// The bytes that a hasher was fed.
pub uninterp spec fn fed(hasher: Hasher) -> Seq<u8>;

/// `sha2::Sha256::new`: a hasher that was fed nothing.
#[verifier::external_body]
fn start_hasher() -> (r: Hasher)
    ensures
        fed(r) == Seq::<u8>::empty(),
{
    Hasher { inner: sha2::Sha256::new() }
}

/// `sha2::Sha256::update`: the bytes follow those that the hasher was fed before.
#[verifier::external_body]
fn feed_hasher(hasher: &mut Hasher, bytes: &[u8])
    ensures
        fed(*final(hasher)) == fed(*old(hasher)) + bytes@,
{
    hasher.inner.update(bytes)
}

/// `sha2::Sha256::finalize`: the digest of all bytes that the hasher was fed, 32 bytes
/// long. It is a function of these bytes alone; what it is stays unsaid.
#[verifier::external_body]
fn finish_hasher(hasher: Hasher) -> (r: Vec<u8>)
    ensures
        r@ == sha256_digest(fed(hasher)),
        r@.len() == 32,
{
    hasher.inner.finalize().to_vec()
}

/// Two small hexadecimal digits for each byte.
pub open spec fn hex_of(bytes: Seq<u8>) -> Seq<char> {
    Seq::new(
        2 * bytes.len(),
        |i: int|
            hex_digit(
                if i % 2 == 0 {
                    bytes[i / 2] as int / 16
                } else {
                    bytes[i / 2] as int % 16
                },
            ),
    )
}

/// `hex::encode`: two small hexadecimal digits for each byte, the upper half first.
#[verifier::external_body]
fn hex_text(bytes: &[u8]) -> (r: String)
    ensures
        r@ == hex_of(bytes@),
{
    hex::encode(bytes)
}

/// The digest of bytes, in hexadecimal digits.
pub open spec fn fingerprint(bytes: Seq<u8>) -> Seq<char> {
    hex_of(sha256_digest(bytes))
}

/// The digest of a document: that of its one text.
pub open spec fn document_digest(v: JsonView) -> Seq<char> {
    fingerprint(encode_utf8(canonical(v)))
}

/// The SHA-256 digest of the bytes, in hexadecimal digits.
pub fn sha256_bytes(bytes: &[u8]) -> (r: String)
    ensures
        r@ == fingerprint(bytes@),
        r@.len() == 64,
{
    let mut hasher = Hasher::new();
    hasher.update(bytes);
    assert(Seq::<u8>::empty() + bytes@ =~= bytes@);
    hasher.finish()
}

impl View for Hasher {
    type V = Seq<u8>;

    /// The bytes so far.
    open spec fn view(&self) -> Seq<u8> {
        fed(*self)
    }
}

impl Hasher {
    pub fn new() -> (r: Hasher)
        ensures
            r@ == Seq::<u8>::empty(),
    {
        start_hasher()
    }

    /// Takes the next bytes.
    pub fn update(&mut self, bytes: &[u8])
        ensures
            final(self)@ == old(self)@ + bytes@,
    {
        feed_hasher(self, bytes)
    }

    /// The digest of all bytes, in hexadecimal digits.
    pub fn finish(self) -> (r: String)
        ensures
            r@ == fingerprint(self@),
            r@.len() == 64,
    {
        let digest = finish_hasher(self);
        hex_text(digest.as_slice())
    }
}

/// The SHA-256 digest of the one text of a document.
pub fn sha256_value(value: &Json) -> (r: Result<String, Error>)
    ensures
        r is Ok,
        r->Ok_0@ == document_digest(value@),
{
    match canonical_json(value) {
        Ok(bytes) => Ok(sha256_bytes(bytes.as_slice())),
        Err(e) => Err(e),
    }
}

// ------------------------------------------------------------------ laws

/// No key occurs twice.
pub open spec fn distinct_keys<W>(s: Seq<(Seq<char>, W)>) -> bool {
    forall|i: int, j: int| 0 <= i < j < s.len() ==> #[trigger] s[i].0 != #[trigger] s[j].0
}

/// The same document, but for the order in which objects list their members.
pub open spec fn alike(u: JsonView, v: JsonView) -> bool
    decreases u,
{
    match (u, v) {
        (JsonView::Array(a), JsonView::Array(b)) => {
            &&& a.len() == b.len()
            &&& forall|i: int| 0 <= i < a.len() ==> alike(#[trigger] a[i], b[i])
        },
        (JsonView::Object(a), JsonView::Object(b)) => {
            &&& a.len() == b.len()
            &&& distinct_keys(a)
            &&& distinct_keys(b)
            &&& forall|i: int|
                0 <= i < a.len() ==> exists|j: int|
                    0 <= j < b.len() && (#[trigger] a[i]).0 == (#[trigger] b[j]).0 && alike(
                        a[i].1,
                        b[j].1,
                    )
        },
        _ => u == v,
    }
}

/// Putting entries into an empty map keeps the keys in order, and of a key that
/// occurs once the map holds its value.
proof fn lemma_put_all<W>(t: Seq<(Seq<char>, W)>)
    requires
        distinct_keys(t),
    ensures
        ordered(put_all(Seq::empty(), t)),
        forall|i: int|
            0 <= i < t.len() ==> lookup(put_all(Seq::empty(), t), (#[trigger] t[i]).0) == Some(
                t[i].1,
            ),
        forall|k: Seq<char>|
            (forall|i: int| 0 <= i < t.len() ==> (#[trigger] t[i]).0 != k) ==> #[trigger] lookup(
                put_all(Seq::empty(), t),
                k,
            ) is None,
    decreases t.len(),
{
    if t.len() > 0 {
        let u = t.drop_last();
        let e = Seq::<(Seq<char>, W)>::empty();
        lemma_put_all(u);
        lemma_put_ordered(put_all(e, u), t.last().0, t.last().1);
        assert forall|i: int| 0 <= i < t.len() implies lookup(
            put_all(e, t),
            (#[trigger] t[i]).0,
        ) == Some(t[i].1) by {
            lemma_put_lookup(put_all(e, u), t.last().0, t.last().1, t[i].0);
            if i < u.len() {
                assert(u[i] == t[i]);
                assert(t[i].0 != t[t.len() - 1].0);
            }
        }
        assert forall|k: Seq<char>|
            (forall|i: int| 0 <= i < t.len() ==> (#[trigger] t[i]).0 != k) implies #[trigger] lookup(
            put_all(e, t),
            k,
        ) is None by {
            lemma_put_lookup(put_all(e, u), t.last().0, t.last().1, k);
            assert(t[t.len() - 1].0 != k);
            assert forall|i: int| 0 <= i < u.len() implies (#[trigger] u[i]).0 != k by {
                assert(u[i] == t[i]);
            }
        }
    }
}

/// A key that is found stands somewhere among the entries.
proof fn lemma_lookup_place<W>(s: Seq<(Seq<char>, W)>, k: Seq<char>) -> (i: int)
    requires
        lookup(s, k) is Some,
    ensures
        0 <= i < s.len(),
        s[i] == (k, lookup(s, k)->0),
    decreases s.len(),
{
    if s.last().0 == k {
        s.len() - 1
    } else {
        lemma_lookup_place(s.drop_last(), k)
    }
}

/// Two maps in key order that hold the same are the same.
proof fn lemma_ordered_unique<W>(s: Seq<(Seq<char>, W)>, t: Seq<(Seq<char>, W)>)
    requires
        ordered(s),
        ordered(t),
        forall|k: Seq<char>| #[trigger] lookup(s, k) == lookup(t, k),
    ensures
        s == t,
    decreases s.len(),
{
    if s.len() == 0 {
        if t.len() > 0 {
            assert(lookup(t, t.last().0) is Some);
            assert(lookup(s, t.last().0) is None);
        }
        assert(s =~= t);
    } else {
        let k = s.last().0;
        assert(lookup(s, k) == Some(s.last().1));
        let i = lemma_lookup_place(t, k);
        let m = t.last().0;
        assert(lookup(t, m) == Some(t.last().1));
        assert(lookup(s, m) is Some);
        let j = lemma_lookup_place(s, m);
        if k != m {
            assert(i < t.len() - 1);
            assert(before(t[i].0, t[t.len() - 1].0));
            assert(j < s.len() - 1);
            assert(before(s[j].0, s[s.len() - 1].0));
            lemma_before_transitive(k, m, k);
            lemma_before_irreflexive(k);
        }
        let s2 = s.drop_last();
        let t2 = t.drop_last();
        assert forall|x: Seq<char>| #[trigger] lookup(s2, x) == lookup(t2, x) by {
            assert(lookup(s, x) == lookup(t, x));
            if x == k {
                if lookup(s2, k) is Some {
                    let p = lemma_lookup_place(s2, k);
                    assert(before(s[p].0, s[s.len() - 1].0));
                    lemma_before_irreflexive(k);
                }
                if lookup(t2, k) is Some {
                    let p = lemma_lookup_place(t2, k);
                    assert(before(t[p].0, t[t.len() - 1].0));
                    lemma_before_irreflexive(k);
                }
            }
        }
        lemma_ordered_unique(s2, t2);
        assert(s =~= s2.push(s.last()));
        assert(t =~= t2.push(t.last()));
    }
}

/// The order in which objects list their members does not change the one text
/// of a document, so it does not change the digest either.
pub proof fn law_member_order_is_ignored(u: JsonView, v: JsonView)
    requires
        alike(u, v),
    ensures
        canonical(u) == canonical(v),
        document_digest(u) == document_digest(v),
    decreases u,
{
    match (u, v) {
        (JsonView::Array(a), JsonView::Array(b)) => {
            assert forall|i: int| 0 <= i < a.len() implies canonical(a[i]) == canonical(b[i]) by {
                assert(alike(a[i], b[i]));
                law_member_order_is_ignored(a[i], b[i]);
            }
            assert(canonical_items(a) =~= canonical_items(b));
        },
        (JsonView::Object(a), JsonView::Object(b)) => {
            let x = canonical_entries(a);
            let y = canonical_entries(b);
            assert forall|i: int| 0 <= i < x.len() implies y.contains(#[trigger] x[i]) by {
                let j = choose|j: int|
                    0 <= j < b.len() && (#[trigger] a[i]).0 == (#[trigger] b[j]).0 && alike(
                        a[i].1,
                        b[j].1,
                    );
                law_member_order_is_ignored(a[i].1, b[j].1);
                assert(x[i] == y[j]);
            }
            assert forall|i: int, j: int| 0 <= i < j < x.len() implies #[trigger] x[i].0
                != #[trigger] x[j].0 by {
                assert(a[i].0 != a[j].0);
            }
            assert forall|i: int, j: int| 0 <= i < j < y.len() implies #[trigger] y[i].0
                != #[trigger] y[j].0 by {
                assert(b[i].0 != b[j].0);
            }
            lemma_same_entries(x, y);
        },
        _ => {},
    }
}

/// A document with the members of every object in the order of their keys, and each key once.
pub open spec fn arranged(v: JsonView) -> JsonView
    decreases v,
{
    match v {
        JsonView::Array(items) => JsonView::Array(
            Seq::new(
                items.len(),
                |i: int|
                    if 0 <= i < items.len() {
                        arranged(items[i])
                    } else {
                        JsonView::Null
                    },
            ),
        ),
        JsonView::Object(entries) => JsonView::Object(
            put_all(Seq::empty(), arranged_entries(entries)),
        ),
        _ => v,
    }
}

/// Each member's document arranged, under its key.
pub open spec fn arranged_entries(entries: Seq<(Seq<char>, JsonView)>) -> Seq<
    (Seq<char>, JsonView),
>
    decreases entries,
{
    Seq::new(
        entries.len(),
        |i: int|
            if 0 <= i < entries.len() {
                (entries[i].0, arranged(entries[i].1))
            } else {
                (Seq::empty(), JsonView::Null)
            },
    )
}

/// Whether the members of every object, at any depth, stand in strictly ascending order of
/// their keys.
pub open spec fn in_key_order(v: JsonView) -> bool
    decreases v,
{
    match v {
        JsonView::Array(items) => forall|i: int|
            0 <= i < items.len() ==> in_key_order(#[trigger] items[i]),
        JsonView::Object(entries) => ordered(entries) && forall|i: int|
            0 <= i < entries.len() ==> in_key_order((#[trigger] entries[i]).1),
        _ => true,
    }
}

/// A document as it stands, without white space: its items and members in their own order.
pub open spec fn written(v: JsonView) -> Seq<char>
    decreases v,
{
    match v {
        JsonView::Array(items) => seq!['['] + joined(written_items(items), seq![',']) + seq![']'],
        JsonView::Object(entries) => seq!['{'] + joined(
            members(written_entries(entries)),
            seq![','],
        ) + seq!['}'],
        _ => canonical(v),
    }
}

/// Each document as it stands.
pub open spec fn written_items(items: Seq<JsonView>) -> Seq<Seq<char>>
    decreases items,
{
    Seq::new(
        items.len(),
        |i: int|
            if 0 <= i < items.len() {
                written(items[i])
            } else {
                Seq::empty()
            },
    )
}

/// Each member's document as it stands, under its key.
pub open spec fn written_entries(entries: Seq<(Seq<char>, JsonView)>) -> Seq<
    (Seq<char>, Seq<char>),
>
    decreases entries,
{
    Seq::new(
        entries.len(),
        |i: int|
            if 0 <= i < entries.len() {
                (entries[i].0, written(entries[i].1))
            } else {
                (Seq::empty(), Seq::empty())
            },
    )
}

/// The entries with each value replaced.
spec fn replaced<W, X>(s: Seq<(Seq<char>, W)>, f: spec_fn(W) -> X) -> Seq<(Seq<char>, X)> {
    s.map_values(|e: (Seq<char>, W)| (e.0, f(e.1)))
}

proof fn lemma_put_replaced<W, X>(
    s: Seq<(Seq<char>, W)>,
    k: Seq<char>,
    w: W,
    f: spec_fn(W) -> X,
)
    ensures
        put(replaced(s, f), k, f(w)) == replaced(put(s, k, w), f),
    decreases s.len(),
{
    if s.len() > 0 {
        assert(replaced(s, f).drop_last() =~= replaced(s.drop_last(), f));
        lemma_put_replaced(s.drop_last(), k, w, f);
    }
    assert(put(replaced(s, f), k, f(w)) =~= replaced(put(s, k, w), f));
}

/// Replacing values does not change where they go.
proof fn lemma_put_all_replaced<W, X>(s: Seq<(Seq<char>, W)>, f: spec_fn(W) -> X)
    ensures
        put_all(Seq::empty(), replaced(s, f)) == replaced(put_all(Seq::empty(), s), f),
    decreases s.len(),
{
    let e = Seq::<(Seq<char>, W)>::empty();
    if s.len() == 0 {
        assert(replaced(s, f) =~= Seq::empty());
        assert(replaced(put_all(e, s), f) =~= Seq::empty());
    } else {
        lemma_put_all_replaced(s.drop_last(), f);
        assert(replaced(s, f).drop_last() =~= replaced(s.drop_last(), f));
        lemma_put_replaced(put_all(e, s.drop_last()), s.last().0, s.last().1, f);
    }
}

/// Putting entries into an empty map puts their keys in order.
proof fn lemma_put_all_sorts<W>(s: Seq<(Seq<char>, W)>)
    ensures
        ordered(put_all(Seq::empty(), s)),
    decreases s.len(),
{
    if s.len() > 0 {
        let e = Seq::<(Seq<char>, W)>::empty();
        lemma_put_all_sorts(s.drop_last());
        lemma_put_ordered(put_all(e, s.drop_last()), s.last().0, s.last().1);
    }
}

/// The one text of a document is the document with the members of every object, at any depth,
/// in strictly ascending order of their keys and the items of every array in their own order,
/// written without white space. A document that stands in this order already is written as
/// it stands.
pub proof fn law_keys_are_in_order(v: JsonView)
    ensures
        in_key_order(arranged(v)),
        canonical(v) == written(arranged(v)),
        in_key_order(v) ==> arranged(v) == v,
    decreases v,
{
    match v {
        JsonView::Array(items) => {
            let sorted = arranged(v)->Array_0;
            assert forall|i: int| 0 <= i < items.len() implies in_key_order(
                #[trigger] sorted[i],
            ) && canonical(items[i]) == written(sorted[i]) && (in_key_order(items[i])
                ==> sorted[i] == items[i]) by {
                law_keys_are_in_order(items[i]);
            }
            assert(canonical_items(items) =~= written_items(sorted)) by {
                assert forall|i: int| 0 <= i < items.len() implies canonical_items(items)[i]
                    == #[trigger] written_items(sorted)[i] by {
                    assert(in_key_order(sorted[i]));
                }
            }
            if in_key_order(v) {
                assert forall|i: int| 0 <= i < items.len() implies sorted[i] == items[i] by {
                    assert(in_key_order(items[i]));
                    assert(in_key_order(sorted[i]));
                }
                assert(sorted =~= items);
            }
        },
        JsonView::Object(entries) => {
            let each = arranged_entries(entries);
            let sorted = put_all(Seq::empty(), each);
            let f = |d: JsonView| written(d);
            assert forall|i: int| 0 <= i < entries.len() implies in_key_order(
                (#[trigger] each[i]).1,
            ) && canonical(entries[i].1) == written(each[i].1) && (in_key_order(entries[i].1)
                ==> each[i] == entries[i]) by {
                law_keys_are_in_order(entries[i].1);
            }
            lemma_put_all_sorts(each);
            assert forall|i: int| 0 <= i < sorted.len() implies in_key_order(
                (#[trigger] sorted[i]).1,
            ) by {
                assert(sorted.contains(sorted[i]));
                lemma_put_all_members(each, sorted[i]);
                let j = choose|j: int| 0 <= j < each.len() && each[j] == sorted[i];
                assert(in_key_order(each[j].1));
            }
            assert(canonical_entries(entries) =~= replaced(each, f));
            lemma_put_all_replaced(each, f);
            assert(replaced(sorted, f) =~= written_entries(sorted));
            if in_key_order(v) {
                assert forall|i: int| 0 <= i < entries.len() implies each[i] == entries[i] by {
                    assert(in_key_order(entries[i].1));
                    assert(in_key_order(each[i].1));
                }
                assert(each =~= entries);
                lemma_put_all_ordered(entries);
            }
        },
        _ => {},
    }
}

/// Entries with distinct keys make one map, in whatever order they come.
pub proof fn lemma_same_entries<W>(x: Seq<(Seq<char>, W)>, y: Seq<(Seq<char>, W)>)
    requires
        x.len() == y.len(),
        distinct_keys(x),
        distinct_keys(y),
        forall|i: int| 0 <= i < x.len() ==> y.contains(#[trigger] x[i]),
    ensures
        put_all(Seq::empty(), x) == put_all(Seq::empty(), y),
{
    let e = Seq::<(Seq<char>, W)>::empty();
    lemma_put_all(x);
    lemma_put_all(y);
    // every entry of y is one of x: the places of x's entries in y are all its places
    let places = Seq::new(x.len(), |i: int| y.index_of(x[i]));
    assert forall|i: int| 0 <= i < x.len() implies 0 <= #[trigger] places[i] < y.len() && y[places[i]]
        == x[i] by {
        assert(y.contains(x[i]));
    }
    assert(places.no_duplicates()) by {
        assert forall|i: int, j: int|
            0 <= i < places.len() && 0 <= j < places.len() && i != j implies places[i]
            != places[j] by {
            assert(x[i] == y[places[i]]);
            assert(x[j] == y[places[j]]);
            if i < j {
                assert(x[i].0 != x[j].0);
            } else {
                assert(x[j].0 != x[i].0);
            }
        }
    }
    assert forall|j: int| 0 <= j < y.len() implies x.contains(#[trigger] y[j]) by {
        lemma_places_cover(places, y.len() as int, j);
        let i = choose|i: int| 0 <= i < places.len() && places[i] == j;
        assert(x[i] == y[places[i]]);
    }
    assert forall|k: Seq<char>| #[trigger] lookup(put_all(e, x), k) == lookup(put_all(e, y), k) by {
        if exists|i: int| 0 <= i < x.len() && (#[trigger] x[i]).0 == k {
            let i = choose|i: int| 0 <= i < x.len() && (#[trigger] x[i]).0 == k;
            let j = places[i];
            assert(lookup(put_all(e, x), x[i].0) == Some(x[i].1));
            assert(lookup(put_all(e, y), y[j].0) == Some(y[j].1));
        } else {
            assert forall|j: int| 0 <= j < y.len() implies (#[trigger] y[j]).0 != k by {
                assert(x.contains(y[j]));
                let i = choose|i: int| 0 <= i < x.len() && x[i] == y[j];
                assert(x[i].0 != k);
            }
        }
    }
    lemma_ordered_unique(put_all(e, x), put_all(e, y));
}

/// As many different places as there are cover all of them.
proof fn lemma_places_cover(places: Seq<int>, n: int, j: int)
    requires
        places.no_duplicates(),
        places.len() == n,
        forall|i: int| 0 <= i < n ==> 0 <= #[trigger] places[i] < n,
        0 <= j < n,
    ensures
        exists|i: int| 0 <= i < places.len() && places[i] == j,
{
    let all = vstd::set_lib::set_int_range(0, n);
    vstd::set_lib::lemma_int_range(0, n);
    let covered = places.to_set();
    places.unique_seq_to_set();
    assert(covered.subset_of(all));
    vstd::set_lib::lemma_subset_equality(covered, all);
    assert(covered.contains(j));
    assert(places.contains(j));
}

/// Entries in the order of their keys are the map that they make.
pub proof fn lemma_put_all_ordered<W>(s: Seq<(Seq<char>, W)>)
    requires
        ordered(s),
    ensures
        put_all(Seq::empty(), s) == s,
{
    let e = Seq::<(Seq<char>, W)>::empty();
    assert(distinct_keys(s)) by {
        assert forall|i: int, j: int| 0 <= i < j < s.len() implies #[trigger] s[i].0
            != #[trigger] s[j].0 by {
            lemma_before_irreflexive(s[i].0);
        }
    }
    lemma_put_all(s);
    assert forall|k: Seq<char>| #[trigger] lookup(put_all(e, s), k) == lookup(s, k) by {
        lemma_put_all_lookup(e, s, k);
    }
    lemma_ordered_unique(put_all(e, s), s);
}

/// What a character becomes inside a string tells the character, and where it ends.
proof fn lemma_escaped_apart(a: char, b: char, x: Seq<char>, y: Seq<char>)
    requires
        escaped(a) + x == escaped(b) + y,
    ensures
        a == b,
        x == y,
{
    let s = escaped(a) + x;
    let t = escaped(b) + y;
    assert(s[0] == escaped(a)[0] && t[0] == escaped(b)[0]);
    if escaped(a).len() > 1 {
        assert(escaped(b).len() > 1);
        assert(s[1] == escaped(a)[1] && t[1] == escaped(b)[1]);
        if escaped(a).len() > 2 {
            assert(escaped(b).len() > 2);
            assert(s[4] == escaped(a)[4] && t[4] == escaped(b)[4]);
            assert(s[5] == escaped(a)[5] && t[5] == escaped(b)[5]);
            assert((a as int) / 16 == (b as int) / 16);
            assert((a as int) % 16 == (b as int) % 16);
        }
    }
    assert(a == b);
    let n = escaped(a).len() as int;
    assert(s.skip(n) =~= x);
    assert(t.skip(n) =~= y);
}

/// Characters inside a string, the first before the others.
proof fn lemma_escapes_front(s: Seq<char>)
    requires
        s.len() > 0,
    ensures
        escapes(s) == escaped(s[0]) + escapes(s.skip(1)),
    decreases s.len(),
{
    if s.len() == 1 {
        assert(s.drop_last() =~= Seq::empty());
        assert(s.skip(1) =~= Seq::empty());
        assert(escapes(s) =~= escaped(s[0]) + escapes(s.skip(1)));
    } else {
        lemma_escapes_front(s.drop_last());
        assert(s.drop_last().skip(1) =~= s.skip(1).drop_last());
        assert(s.skip(1).last() == s.last());
        assert(escapes(s) =~= escaped(s[0]) + escapes(s.skip(1)));
    }
}

#[verifier::rlimit(50)]
#[verifier::spinoff_prover]
proof fn lemma_escapes_apart(a: Seq<char>, b: Seq<char>, x: Seq<char>, y: Seq<char>)
    requires
        escapes(a) + seq!['"'] + x == escapes(b) + seq!['"'] + y,
    ensures
        a == b,
        x == y,
    decreases a.len(),
{
    let q = seq!['"'];
    let s = escapes(a) + q + x;
    let t = escapes(b) + q + y;
    if a.len() == 0 {
        assert(s[0] == '"');
        if b.len() > 0 {
            lemma_escapes_front(b);
            assert(t[0] == escaped(b[0])[0]);
        }
        assert(a =~= b);
        assert(s.skip(1) =~= x);
        assert(t.skip(1) =~= y);
    } else {
        lemma_escapes_front(a);
        if b.len() == 0 {
            assert(t[0] == '"');
            assert(s[0] == escaped(a[0])[0]);
        } else {
            lemma_escapes_front(b);
            let u = escapes(a.skip(1)) + q + x;
            let v = escapes(b.skip(1)) + q + y;
            assert(s =~= escaped(a[0]) + u);
            assert(t =~= escaped(b[0]) + v);
            lemma_escaped_apart(a[0], b[0], u, v);
            lemma_escapes_apart(a.skip(1), b.skip(1), x, y);
            assert(a =~= seq![a[0]] + a.skip(1));
            assert(b =~= seq![b[0]] + b.skip(1));
        }
    }
}

/// A text as a JSON string tells the text, and where it ends.
pub proof fn lemma_quoted_apart(a: Seq<char>, b: Seq<char>, x: Seq<char>, y: Seq<char>)
    requires
        quoted(a) + x == quoted(b) + y,
    ensures
        a == b,
        x == y,
{
    let s = quoted(a) + x;
    let t = quoted(b) + y;
    assert(s.skip(1) =~= escapes(a) + seq!['"'] + x);
    assert(t.skip(1) =~= escapes(b) + seq!['"'] + y);
    lemma_escapes_apart(a, b, x, y);
}

/// A character of a number.
pub open spec fn number_char(c: char) -> bool {
    is_digit(c) || c == '-' || c == '+' || c == '.' || c == 'e' || c == 'E'
}

/// A document whose numbers are written as numbers.
pub open spec fn proper(v: JsonView) -> bool
    decreases v,
{
    match v {
        JsonView::Number(s) => s.len() > 0 && (is_digit(s[0]) || s[0] == '-') && forall|i: int|
            0 <= i < s.len() ==> number_char(#[trigger] s[i]),
        JsonView::Array(items) => forall|i: int| 0 <= i < items.len() ==> proper(#[trigger] items[i]),
        JsonView::Object(entries) => forall|i: int|
            0 <= i < entries.len() ==> proper((#[trigger] entries[i]).1),
        _ => true,
    }
}

/// What may stand behind a document inside another.
spec fn stops(s: Seq<char>) -> bool {
    s.len() == 0 || s[0] == ',' || s[0] == ']' || s[0] == '}'
}

/// What a document begins with tells what it is.
spec fn opens(v: JsonView, c: char) -> bool {
    match v {
        JsonView::Null => c == 'n',
        JsonView::Bool(b) => c == if b {
            't'
        } else {
            'f'
        },
        JsonView::Number(_) => is_digit(c) || c == '-',
        JsonView::Text(_) => c == '"',
        JsonView::Array(_) => c == '[',
        JsonView::Object(_) => c == '{',
    }
}

spec fn width(v: JsonView) -> nat {
    match v {
        JsonView::Array(items) => items.len() + 1,
        JsonView::Object(entries) => entries.len() + 1,
        _ => 0,
    }
}

proof fn lemma_cancel(a: Seq<char>, s: Seq<char>, b: Seq<char>, t: Seq<char>)
    requires
        a + s == b + t,
        a.len() == b.len(),
    ensures
        a == b,
        s == t,
{
    assert(a =~= (a + s).take(a.len() as int));
    assert(b =~= (b + t).take(b.len() as int));
    assert(s =~= (a + s).skip(a.len() as int));
    assert(t =~= (b + t).skip(b.len() as int));
}

proof fn lemma_written_opens(v: JsonView)
    requires
        proper(v),
    ensures
        written(v).len() > 0,
        opens(v, written(v)[0]),
{
    reveal_strlit("null");
    reveal_strlit("true");
    reveal_strlit("false");
}

proof fn lemma_numbers_apart(m: Seq<char>, n: Seq<char>, s: Seq<char>, t: Seq<char>)
    requires
        m + s == n + t,
        stops(s),
        stops(t),
        forall|i: int| 0 <= i < m.len() ==> number_char(#[trigger] m[i]),
        forall|i: int| 0 <= i < n.len() ==> number_char(#[trigger] n[i]),
    ensures
        m == n,
        s == t,
{
    let whole = m + s;
    assert(whole.len() == m.len() + s.len() && whole.len() == n.len() + t.len());
    if m.len() < n.len() {
        assert(whole[m.len() as int] == s[0]);
        assert(whole[m.len() as int] == n[m.len() as int]);
    }
    if n.len() < m.len() {
        assert((n + t)[n.len() as int] == t[0]);
        assert(whole[n.len() as int] == m[n.len() as int]);
    }
    lemma_cancel(m, s, n, t);
}

/// A document that is written as it stands tells the document, and where it ends.
#[verifier::rlimit(50)]
#[verifier::spinoff_prover]
proof fn lemma_written_apart(u: JsonView, v: JsonView, s: Seq<char>, t: Seq<char>)
    requires
        proper(u),
        proper(v),
        stops(s),
        stops(t),
        written(u) + s == written(v) + t,
    ensures
        u == v,
        s == t,
    decreases u, width(u),
{
    lemma_written_opens(u);
    lemma_written_opens(v);
    assert((written(u) + s)[0] == written(u)[0]);
    assert((written(v) + t)[0] == written(v)[0]);
    match (u, v) {
        (JsonView::Number(m), JsonView::Number(n)) => {
            lemma_numbers_apart(m, n, s, t);
        },
        (JsonView::Text(a), JsonView::Text(b)) => {
            lemma_quoted_apart(a, b, s, t);
        },
        (JsonView::Array(a), JsonView::Array(b)) => {
            let x = joined(written_items(a), seq![',']);
            let y = joined(written_items(b), seq![',']);
            assert((written(u) + s).skip(1) =~= x + (seq![']'] + s));
            assert((written(v) + t).skip(1) =~= y + (seq![']'] + t));
            assert(written_items(a).skip(0) =~= written_items(a));
            assert(written_items(b).skip(0) =~= written_items(b));
            lemma_items_apart(u, v, 0, s, t);
            assert(a.skip(0) =~= a && b.skip(0) =~= b);
        },
        (JsonView::Object(a), JsonView::Object(b)) => {
            let x = joined(members(written_entries(a)), seq![',']);
            let y = joined(members(written_entries(b)), seq![',']);
            assert((written(u) + s).skip(1) =~= x + (seq!['}'] + s));
            assert((written(v) + t).skip(1) =~= y + (seq!['}'] + t));
            assert(members(written_entries(a)).skip(0) =~= members(written_entries(a)));
            assert(members(written_entries(b)).skip(0) =~= members(written_entries(b)));
            lemma_entries_apart(u, v, 0, s, t);
            assert(a.skip(0) =~= a && b.skip(0) =~= b);
        },
        _ => {
            reveal_strlit("null");
            reveal_strlit("true");
            reveal_strlit("false");
            lemma_cancel(written(u), s, written(v), t);
        },
    }
}

/// The first of several texts, and what follows it up to the end.
spec fn behind_first(m: Seq<Seq<char>>, end: Seq<char>) -> Seq<char> {
    if m.len() == 1 {
        end
    } else {
        seq![','] + (joined(m.skip(1), seq![',']) + end)
    }
}

proof fn lemma_first_of_list(m: Seq<Seq<char>>, end: Seq<char>)
    requires
        m.len() > 0,
    ensures
        joined(m, seq![',']) + end == m[0] + behind_first(m, end),
{
    if m.len() > 1 {
        lemma_first_joined(m, seq![',']);
        let rest = joined(m.skip(1), seq![',']);
        assert(m[0] + (seq![','] + rest) + end =~= m[0] + (seq![','] + (rest + end)));
    }
}

#[verifier::rlimit(50)]
#[verifier::spinoff_prover]
proof fn lemma_items_apart(u: JsonView, v: JsonView, i: int, s: Seq<char>, t: Seq<char>)
    requires
        u is Array,
        v is Array,
        proper(u),
        proper(v),
        0 <= i <= u->Array_0.len(),
        i <= v->Array_0.len(),
        joined(written_items(u->Array_0).skip(i), seq![',']) + (seq![']'] + s) == joined(
            written_items(v->Array_0).skip(i),
            seq![','],
        ) + (seq![']'] + t),
    ensures
        u->Array_0.skip(i) == v->Array_0.skip(i),
        s == t,
    decreases u, u->Array_0.len() - i,
{
    let a = u->Array_0;
    let b = v->Array_0;
    let m = written_items(a).skip(i);
    let n = written_items(b).skip(i);
    let x = seq![']'] + s;
    let y = seq![']'] + t;
    assert(x.skip(1) =~= s && y.skip(1) =~= t);
    if m.len() > 0 {
        assert(m[0] == written(a[i]));
        assert(proper(a[i]));
        lemma_written_opens(a[i]);
        lemma_first_of_list(m, x);
        assert((m[0] + behind_first(m, x))[0] == m[0][0]);
    } else {
        assert(joined(m, seq![',']) + x =~= x);
    }
    if n.len() > 0 {
        assert(n[0] == written(b[i]));
        assert(proper(b[i]));
        lemma_written_opens(b[i]);
        lemma_first_of_list(n, y);
        assert((n[0] + behind_first(n, y))[0] == n[0][0]);
    } else {
        assert(joined(n, seq![',']) + y =~= y);
    }
    if m.len() > 0 && n.len() > 0 {
        assert(decreases_to!(u => u->Array_0));
        assert(decreases_to!(u->Array_0 => u->Array_0[i]));
        lemma_written_apart(a[i], b[i], behind_first(m, x), behind_first(n, y));
        if m.len() > 1 && n.len() > 1 {
            assert(behind_first(m, x).skip(1) =~= joined(m.skip(1), seq![',']) + x);
            assert(behind_first(n, y).skip(1) =~= joined(n.skip(1), seq![',']) + y);
            assert(m.skip(1) =~= written_items(a).skip(i + 1));
            assert(n.skip(1) =~= written_items(b).skip(i + 1));
            lemma_items_apart(u, v, i + 1, s, t);
            assert(a.skip(i) =~= seq![a[i]] + a.skip(i + 1));
            assert(b.skip(i) =~= seq![b[i]] + b.skip(i + 1));
        } else {
            assert(behind_first(m, x)[0] == behind_first(n, y)[0]);
            assert(a.skip(i) =~= seq![a[i]]);
            assert(b.skip(i) =~= seq![b[i]]);
        }
    } else {
        assert(x[0] == ']' && y[0] == ']');
        assert(a.skip(i) =~= b.skip(i));
    }
}

#[verifier::rlimit(50)]
#[verifier::spinoff_prover]
proof fn lemma_entries_apart(u: JsonView, v: JsonView, i: int, s: Seq<char>, t: Seq<char>)
    requires
        u is Object,
        v is Object,
        proper(u),
        proper(v),
        0 <= i <= u->Object_0.len(),
        i <= v->Object_0.len(),
        joined(members(written_entries(u->Object_0)).skip(i), seq![',']) + (seq!['}'] + s)
            == joined(members(written_entries(v->Object_0)).skip(i), seq![',']) + (seq!['}'] + t),
    ensures
        u->Object_0.skip(i) == v->Object_0.skip(i),
        s == t,
    decreases u, u->Object_0.len() - i,
{
    let a = u->Object_0;
    let b = v->Object_0;
    let m = members(written_entries(a)).skip(i);
    let n = members(written_entries(b)).skip(i);
    let x = seq!['}'] + s;
    let y = seq!['}'] + t;
    assert(x.skip(1) =~= s && y.skip(1) =~= t);
    if m.len() > 0 {
        assert(m[0] == member(a[i].0, written(a[i].1)));
        assert(proper(a[i].1));
        lemma_first_of_list(m, x);
        assert((m[0] + behind_first(m, x))[0] == '"');
    } else {
        assert(joined(m, seq![',']) + x =~= x);
    }
    if n.len() > 0 {
        assert(n[0] == member(b[i].0, written(b[i].1)));
        assert(proper(b[i].1));
        lemma_first_of_list(n, y);
        assert((n[0] + behind_first(n, y))[0] == '"');
    } else {
        assert(joined(n, seq![',']) + y =~= y);
    }
    if m.len() > 0 && n.len() > 0 {
        let p = seq![':'] + (written(a[i].1) + behind_first(m, x));
        let q = seq![':'] + (written(b[i].1) + behind_first(n, y));
        assert(m[0] + behind_first(m, x) =~= quoted(a[i].0) + p);
        assert(n[0] + behind_first(n, y) =~= quoted(b[i].0) + q);
        lemma_quoted_apart(a[i].0, b[i].0, p, q);
        assert(p.skip(1) =~= written(a[i].1) + behind_first(m, x));
        assert(q.skip(1) =~= written(b[i].1) + behind_first(n, y));
        assert(decreases_to!(u => u->Object_0));
        assert(decreases_to!(u->Object_0 => u->Object_0[i]));
        let here = u->Object_0[i];
        assert(decreases_to!(here => here.1));
        lemma_written_apart(a[i].1, b[i].1, behind_first(m, x), behind_first(n, y));
        if m.len() > 1 && n.len() > 1 {
            assert(behind_first(m, x).skip(1) =~= joined(m.skip(1), seq![',']) + x);
            assert(behind_first(n, y).skip(1) =~= joined(n.skip(1), seq![',']) + y);
            assert(m.skip(1) =~= members(written_entries(a)).skip(i + 1));
            assert(n.skip(1) =~= members(written_entries(b)).skip(i + 1));
            lemma_entries_apart(u, v, i + 1, s, t);
            assert(a.skip(i) =~= seq![a[i]] + a.skip(i + 1));
            assert(b.skip(i) =~= seq![b[i]] + b.skip(i + 1));
        } else {
            assert(behind_first(m, x)[0] == behind_first(n, y)[0]);
            assert(a.skip(i) =~= seq![a[i]]);
            assert(b.skip(i) =~= seq![b[i]]);
        }
    } else {
        assert(x[0] == '}' && y[0] == '}');
        assert(a.skip(i) =~= b.skip(i));
    }
}

proof fn lemma_arranged_is_proper(v: JsonView)
    requires
        proper(v),
    ensures
        proper(arranged(v)),
    decreases v,
{
    match v {
        JsonView::Array(items) => {
            let all = arranged(v)->Array_0;
            assert forall|i: int| 0 <= i < all.len() implies proper(#[trigger] all[i]) by {
                lemma_arranged_is_proper(items[i]);
            }
        },
        JsonView::Object(entries) => {
            let each = arranged_entries(entries);
            let all = arranged(v)->Object_0;
            assert forall|i: int| 0 <= i < all.len() implies proper((#[trigger] all[i]).1) by {
                assert(all.contains(all[i]));
                lemma_put_all_members(each, all[i]);
                let k = choose|k: int| 0 <= k < each.len() && each[k] == all[i];
                assert(proper(entries[k].1));
                lemma_arranged_is_proper(entries[k].1);
            }
        },
        _ => {},
    }
}

/// The one text tells documents apart: two documents have the same text only where they are the
/// same but for the order of their members.
pub proof fn law_the_one_text_tells_documents_apart(u: JsonView, v: JsonView)
    requires
        proper(u),
        proper(v),
    ensures
        canonical(u) == canonical(v) <==> arranged(u) == arranged(v),
{
    law_keys_are_in_order(u);
    law_keys_are_in_order(v);
    lemma_arranged_is_proper(u);
    lemma_arranged_is_proper(v);
    if canonical(u) == canonical(v) {
        let e = Seq::<char>::empty();
        assert(written(arranged(u)) + e =~= written(arranged(v)) + e);
        lemma_written_apart(arranged(u), arranged(v), e, e);
    }
}

proof fn lemma_arranged_lookup(entries: Seq<(Seq<char>, JsonView)>, key: Seq<char>)
    ensures
        lookup(arranged_entries(entries), key) == match lookup(entries, key) {
            Some(v) => Some(arranged(v)),
            None => None,
        },
    decreases entries.len(),
{
    if entries.len() > 0 {
        let all = arranged_entries(entries);
        lemma_arranged_lookup(entries.drop_last(), key);
        assert(all.drop_last() =~= arranged_entries(entries.drop_last()));
        assert(all.last() == (entries.last().0, arranged(entries.last().1)));
    }
}

/// What stands under a name shows in the one text: where two documents differ under some name,
/// by more than the order of members, their texts and what is signed over them differ.
pub proof fn law_every_member_shows_in_the_text(
    a: Seq<(Seq<char>, JsonView)>,
    b: Seq<(Seq<char>, JsonView)>,
    key: Seq<char>,
)
    requires
        proper(JsonView::Object(a)),
        proper(JsonView::Object(b)),
        canonical(JsonView::Object(a)) == canonical(JsonView::Object(b)),
    ensures
        lookup(a, key) is Some <==> lookup(b, key) is Some,
        lookup(a, key) is Some ==> arranged(lookup(a, key)->0) == arranged(lookup(b, key)->0),
{
    law_the_one_text_tells_documents_apart(JsonView::Object(a), JsonView::Object(b));
    let e = Seq::<(Seq<char>, JsonView)>::empty();
    lemma_put_all_lookup(e, arranged_entries(a), key);
    lemma_put_all_lookup(e, arranged_entries(b), key);
    lemma_arranged_lookup(a, key);
    lemma_arranged_lookup(b, key);
    assert(put_all(e, arranged_entries(a)) == put_all(e, arranged_entries(b)));
}

/// The digest of a document is that of the bytes of its one text, in hexadecimal digits, two for
/// each byte.
pub proof fn law_digests_are_over_the_one_text(
    value: &Json,
    text: Result<Vec<u8>, Error>,
    digest: Result<String, Error>,
    bytes: &[u8],
    print: String,
    i: int,
)
    requires
        call_ensures(canonical_json, (value,), text),
        call_ensures(sha256_value, (value,), digest),
        call_ensures(sha256_bytes, (bytes,), print),
        0 <= i < sha256_digest(bytes@).len(),
    ensures
        text is Ok && text->Ok_0@ == encode_utf8(canonical(value@)),
        digest is Ok && digest->Ok_0@ == hex_of(sha256_digest(encode_utf8(canonical(value@)))),
        print@.len() == 2 * sha256_digest(bytes@).len(),
        ({
            let byte = sha256_digest(bytes@)[i] as int;
            let high = print@[2 * i];
            let low = print@[2 * i + 1];
            &&& '0' <= high <= '9' ==> byte / 16 == high as int - 48
            &&& 'a' <= high <= 'f' ==> byte / 16 == high as int - 87
            &&& '0' <= low <= '9' ==> byte % 16 == low as int - 48
            &&& 'a' <= low <= 'f' ==> byte % 16 == low as int - 87
            &&& '0' <= high <= '9' || 'a' <= high <= 'f'
            &&& '0' <= low <= '9' || 'a' <= low <= 'f'
        }),
{
    let byte = sha256_digest(bytes@)[i] as int;
    assert(print@[2 * i] == hex_digit(byte / 16)) by {
        assert((2 * i) % 2 == 0 && (2 * i) / 2 == i);
    }
    assert(print@[2 * i + 1] == hex_digit(byte % 16)) by {
        assert((2 * i + 1) % 2 == 1 && (2 * i + 1) / 2 == i);
    }
}

} // verus!
