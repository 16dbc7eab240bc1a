//! JSON documents as plain values.

use vstd::prelude::*;
use crate::map::{lookup, StringMap};
use crate::text::{decimal, number, same, text_of, texts};

verus! {

/// A number of a JSON document. What is no integer of 64 bits is kept as it is written.
#[derive(Debug)]
pub enum Number {
    Unsigned(u64),
    Signed(i64),
    Written(String),
}

/// A JSON document. The members of an object stand in the order of the document.
#[derive(Debug)]
pub enum Json {
    Null,
    Bool(bool),
    Number(Number),
    Text(String),
    Array(Vec<Json>),
    Object(Vec<(String, Json)>),
}

/// A JSON document, its numbers and strings by their text.
pub enum JsonView {
    Null,
    Bool(bool),
    Number(Seq<char>),
    Text(Seq<char>),
    Array(Seq<JsonView>),
    Object(Seq<(Seq<char>, JsonView)>),
}

impl View for Number {
    type V = Seq<char>;

    open spec fn view(&self) -> Seq<char> {
        match self {
            Number::Unsigned(n) => decimal(*n as nat),
            Number::Signed(i) => if *i < 0 {
                seq!['-'] + decimal((-*i) as nat)
            } else {
                decimal(*i as nat)
            },
            Number::Written(s) => s@,
        }
    }
}

/// The view of a document.
pub open spec fn seen(j: Json) -> JsonView
    decreases j,
{
    match j {
        Json::Null => JsonView::Null,
        Json::Bool(b) => JsonView::Bool(b),
        Json::Number(n) => JsonView::Number(n@),
        Json::Text(s) => JsonView::Text(s@),
        Json::Array(items) => JsonView::Array(
            Seq::new(
                items@.len(),
                |i: int|
                    if 0 <= i < items@.len() {
                        seen(items@[i])
                    } else {
                        JsonView::Null
                    },
            ),
        ),
        Json::Object(members) => JsonView::Object(
            Seq::new(
                members@.len(),
                |i: int|
                    if 0 <= i < members@.len() {
                        (members@[i].0@, seen(members@[i].1))
                    } else {
                        (Seq::empty(), JsonView::Null)
                    },
            ),
        ),
    }
}

impl View for Json {
    type V = JsonView;

    open spec fn view(&self) -> JsonView {
        seen(*self)
    }
}

impl Number {
    /// The number as it is written.
    pub fn text(&self) -> (r: String)
        ensures
            r@ == self@,
    {
        match self {
            Number::Unsigned(n) => number(*n),
            Number::Signed(i) => if *i < 0 {
                let mut out = "-".to_owned();
                proof {
                    reveal_strlit("-");
                }
                let size: u64 = if *i == i64::MIN {
                    9223372036854775808
                } else {
                    (-*i) as u64
                };
                out.append(number(size).as_str());
                assert(out@ =~= seq!['-'] + decimal((-*i) as nat));
                out
            } else {
                number(*i as u64)
            },
            Number::Written(s) => s.clone(),
        }
    }
}

/// The document under a key: null where there is no such member, or no object.
pub open spec fn member_of(v: JsonView, key: Seq<char>) -> JsonView {
    match v {
        JsonView::Object(entries) => match lookup(entries, key) {
            Some(found) => found,
            None => JsonView::Null,
        },
        _ => JsonView::Null,
    }
}

pub open spec fn text_in(v: JsonView) -> Option<Seq<char>> {
    match v {
        JsonView::Text(s) => Some(s),
        _ => None,
    }
}

/// A text, or null.
pub open spec fn text_or_null(o: Option<Seq<char>>) -> JsonView {
    match o {
        Some(s) => JsonView::Text(s),
        None => JsonView::Null,
    }
}

/// A whole number.
pub open spec fn whole(n: nat) -> JsonView {
    JsonView::Number(decimal(n))
}

/// A whole number, or null.
pub open spec fn whole_or_null(o: Option<nat>) -> JsonView {
    match o {
        Some(n) => whole(n),
        None => JsonView::Null,
    }
}

/// An array of texts.
pub open spec fn text_list(s: Seq<Seq<char>>) -> JsonView {
    JsonView::Array(s.map_values(|t: Seq<char>| JsonView::Text(t)))
}

/// An object with a text under each key.
pub open spec fn text_object(s: Seq<(Seq<char>, Seq<char>)>) -> JsonView {
    JsonView::Object(s.map_values(|e: (Seq<char>, Seq<char>)| (e.0, JsonView::Text(e.1))))
}

pub open spec fn views(s: Seq<Json>) -> Seq<JsonView> {
    s.map_values(|j: Json| j@)
}

pub open spec fn entry_views(s: Seq<(String, Json)>) -> Seq<(Seq<char>, JsonView)> {
    s.map_values(|e: (String, Json)| (e.0@, e.1@))
}

impl Json {
    pub fn text(s: &str) -> (r: Json)
        ensures
            r@ == JsonView::Text(s@),
    {
        Json::Text(s.to_owned())
    }

    pub fn optional_text(s: &Option<String>) -> (r: Json)
        ensures
            r@ == text_or_null(text_of(*s)),
    {
        match s {
            Some(t) => Json::Text(t.clone()),
            None => Json::Null,
        }
    }

    pub fn unsigned(n: u64) -> (r: Json)
        ensures
            r@ == whole(n as nat),
    {
        Json::Number(Number::Unsigned(n))
    }

    pub fn optional_unsigned(o: Option<u64>) -> (r: Json)
        ensures
            r@ == whole_or_null(
                match o {
                    Some(n) => Some(n as nat),
                    None => None,
                },
            ),
    {
        match o {
            Some(n) => Json::unsigned(n),
            None => Json::Null,
        }
    }

    pub fn list(items: Vec<Json>) -> (r: Json)
        ensures
            r@ == JsonView::Array(views(items@)),
    {
        let j = Json::Array(items);
        assert(j@->Array_0 =~= views(items@));
        j
    }

    pub fn object(entries: Vec<(String, Json)>) -> (r: Json)
        ensures
            r@ == JsonView::Object(entry_views(entries@)),
    {
        let j = Json::Object(entries);
        assert(j@->Object_0 =~= entry_views(entries@));
        j
    }

    pub fn texts(items: &Vec<String>) -> (r: Json)
        ensures
            r@ == text_list(texts(items@)),
    {
        let mut out: Vec<Json> = Vec::new();
        let mut i: usize = 0;
        while i < items.len()
            invariant
                i <= items@.len(),
                out@.len() == i,
                forall|k: int| 0 <= k < i ==> (#[trigger] out@[k])@ == JsonView::Text(items@[k]@),
            decreases items.len() - i,
        {
            out.push(Json::text(items[i].as_str()));
            i += 1;
        }
        assert(views(out@) =~= texts(items@).map_values(|t: Seq<char>| JsonView::Text(t)));
        Json::list(out)
    }

    pub fn text_map(m: &StringMap<String>) -> (r: Json)
        ensures
            r@ == text_object(m@),
    {
        let mut out: Vec<(String, Json)> = Vec::new();
        let mut i: usize = 0;
        while i < m.len()
            invariant
                i <= m@.len(),
                out@.len() == i,
                forall|k: int|
                    0 <= k < i ==> (#[trigger] out@[k]).0@ == m@[k].0 && out@[k].1@
                        == JsonView::Text(m@[k].1),
            decreases m@.len() - i,
        {
            out.push((m.key(i).clone(), Json::text(m.value(i).as_str())));
            i += 1;
        }
        assert(entry_views(out@) =~= m@.map_values(
            |e: (Seq<char>, Seq<char>)| (e.0, JsonView::Text(e.1)),
        ));
        Json::object(out)
    }

    /// The member of an object under a key.
    pub fn get(&self, key: &str) -> (r: Option<&Json>)
        ensures
            match r {
                Some(j) => j@ == member_of(self@, key@) && self@ is Object && lookup(
                    self@->Object_0,
                    key@,
                ) is Some,
                None => member_of(self@, key@) == JsonView::Null && (self@ is Object ==> lookup(
                    self@->Object_0,
                    key@,
                ) is None),
            },
    {
        match self {
            Json::Object(entries) => {
                let ghost all = self@->Object_0;
                let mut i: usize = entries.len();
                assert(all.take(all.len() as int) =~= all);
                while i > 0
                    invariant
                        *self == Json::Object(*entries),
                        all == self@->Object_0,
                        all.len() == entries@.len(),
                        forall|k: int|
                            0 <= k < all.len() ==> #[trigger] all[k] == (
                                entries@[k].0@,
                                entries@[k].1@,
                            ),
                        i <= entries@.len(),
                        lookup(all.take(i as int), key@) == lookup(all, key@),
                    decreases i,
                {
                    proof {
                        assert(all.take(i as int).last() == all[i - 1]);
                        assert(all.take(i as int).drop_last() =~= all.take(i - 1));
                    }
                    if same(entries[i - 1].0.as_str(), key) {
                        return Some(&entries[i - 1].1);
                    }
                    i -= 1;
                }
                None
            },
            _ => None,
        }
    }

    /// The text under a key of an object.
    pub fn get_text(&self, key: &str) -> (r: Option<String>)
        ensures
            text_of(r) == text_in(member_of(self@, key@)),
    {
        match self.get(key) {
            Some(Json::Text(s)) => Some(s.clone()),
            _ => None,
        }
    }

    /// The same document once more.
    pub fn copy(&self) -> (r: Json)
        ensures
            r@ == self@,
        decreases *self,
    {
        match self {
            Json::Null => Json::Null,
            Json::Bool(b) => Json::Bool(*b),
            Json::Number(n) => Json::Number(
                match n {
                    Number::Unsigned(n) => Number::Unsigned(*n),
                    Number::Signed(i) => Number::Signed(*i),
                    Number::Written(s) => Number::Written(s.clone()),
                },
            ),
            Json::Text(s) => Json::Text(s.clone()),
            Json::Array(items) => {
                let mut out: Vec<Json> = Vec::new();
                let mut i: usize = 0;
                while i < items.len()
                    invariant
                        *self == Json::Array(*items),
                        i <= items@.len(),
                        out@.len() == i,
                        forall|k: int| 0 <= k < i ==> (#[trigger] out@[k])@ == items@[k]@,
                    decreases items.len() - i,
                {
                    assert(decreases_to!(*self => self->Array_0));
                    assert(decreases_to!(self->Array_0 => self->Array_0@));
                    assert(decreases_to!(self->Array_0@ => self->Array_0@[i as int]));
                    out.push(items[i].copy());
                    i += 1;
                }
                let j = Json::list(out);
                assert(j@->Array_0 =~= self@->Array_0);
                j
            },
            Json::Object(entries) => {
                let mut out: Vec<(String, Json)> = Vec::new();
                let mut i: usize = 0;
                while i < entries.len()
                    invariant
                        *self == Json::Object(*entries),
                        i <= entries@.len(),
                        out@.len() == i,
                        forall|k: int|
                            0 <= k < i ==> (#[trigger] out@[k]).0@ == entries@[k].0@ && out@[k].1@
                                == entries@[k].1@,
                    decreases entries.len() - i,
                {
                    assert(decreases_to!(*self => self->Object_0));
                    assert(decreases_to!(self->Object_0 => self->Object_0@));
                    assert(decreases_to!(self->Object_0@ => self->Object_0@[i as int]));
                    out.push((entries[i].0.clone(), entries[i].1.copy()));
                    i += 1;
                }
                let j = Json::object(out);
                assert(j@->Object_0 =~= self@->Object_0);
                j
            },
        }
    }
}

/// An object under construction, member by member.
pub struct Members {
    pub entries: Vec<(String, Json)>,
}

impl View for Members {
    type V = Seq<(Seq<char>, JsonView)>;

    open spec fn view(&self) -> Seq<(Seq<char>, JsonView)> {
        entry_views(self.entries@)
    }
}

impl Members {
    pub fn new() -> (r: Members)
        ensures
            r@ == Seq::<(Seq<char>, JsonView)>::empty(),
    {
        let m = Members { entries: Vec::new() };
        assert(m@ =~= Seq::empty());
        m
    }

    /// The members so far, and one more.
    pub fn with(self, key: &str, value: Json) -> (r: Members)
        ensures
            r@ == self@.push((key@, value@)),
    {
        let mut entries = self.entries;
        entries.push((key.to_owned(), value));
        let m = Members { entries };
        assert(m@ =~= self@.push((key@, value@)));
        m
    }

    pub fn object(self) -> (r: Json)
        ensures
            r@ == JsonView::Object(self@),
    {
        Json::object(self.entries)
    }
}

} // verus!
