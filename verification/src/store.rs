//! Closures in the Nix store: what belongs to the identity of a closure, and what does not.

use vstd::prelude::*;
use vstd::relations::sorted_by;
use vstd::seq_lib::lemma_sorted_unique;
use crate::encoding::{base64_of, base64_standard, hex_bytes, hex_decode, hex_fault, is_hex_text};
use crate::error::{outcome, Error};
use crate::json::{
    entry_views, member_of, text_in, text_list, views, whole, Json, JsonView, Members,
};
use crate::map::{
    keys, lemma_lookup_found, lemma_lookup_push, lemma_put_all_lookup, lemma_put_lookup,
    lemma_put_ordered, lookup, ordered, put, put_all, StringMap,
};
use crate::model::json_map;
use crate::sort::{
    law_sorting_forgets_the_order, lemma_text_order, sort_texts, sorted_texts, text_order,
};
use crate::text::{
    before, decimal, glue, is_hex, law_texts_begin_and_end, lemma_before_total, less, starts,
    strip_prefix, texts, without,
};

verus! {

// ------------------------------------------------------ from the database

/// What the database of the store tells of a path.
#[derive(Debug)]
pub struct PathRow {
    pub path: String,
    pub hash: String,
    pub nar_size: Option<u64>,
    pub references: Vec<String>,
}

pub struct PathRowView {
    pub path: Seq<char>,
    pub hash: Seq<char>,
    pub nar_size: Option<u64>,
    pub references: Seq<Seq<char>>,
}

impl View for PathRow {
    type V = PathRowView;

    open spec fn view(&self) -> PathRowView {
        PathRowView {
            path: self.path@,
            hash: self.hash@,
            nar_size: self.nar_size,
            references: texts(self.references@),
        }
    }
}

pub open spec fn rows_view(v: Seq<PathRow>) -> Seq<PathRowView> {
    v.map_values(|r: PathRow| r@)
}

/// The digest of a path's contents, from hexadecimal digits to base64.
pub open spec fn nar_hash_of(hash: Seq<char>) -> Result<Seq<char>, Seq<Seq<char>>> {
    if !starts(hash, "sha256:"@) {
        Err(seq!["Nix store returned a non-sha256 NAR hash"@])
    } else {
        let digits = without(hash, "sha256:"@);
        if is_hex_text(digits) {
            Ok("sha256-"@ + base64_of(hex_bytes(digits), false))
        } else {
            Err(seq![hex_fault(digits)])
        }
    }
}

/// What a closure holds of a path.
pub open spec fn entry_json(nar_hash: Seq<char>, nar_size: nat, references: Seq<Seq<char>>) -> JsonView {
    JsonView::Object(
        seq![
            ("narHash"@, JsonView::Text(nar_hash)),
            ("narSize"@, whole(nar_size)),
            ("references"@, text_list(references)),
        ],
    )
}

/// What a closure holds of a path, by what the database tells of it.
pub open spec fn entry_of(row: PathRowView) -> Result<JsonView, Seq<Seq<char>>> {
    match nar_hash_of(row.hash) {
        Err(e) => Err(e),
        Ok(nar_hash) => match row.nar_size {
            None => Err(seq!["Nix store path has no NAR size"@]),
            Some(n) => Ok(entry_json(nar_hash, n as nat, sorted_texts(row.references))),
        },
    }
}

/// The paths of a closure with what it holds of each, in the order of the paths.
pub open spec fn closure_entries(rows: Seq<PathRowView>) -> Result<
    Seq<(Seq<char>, JsonView)>,
    Seq<Seq<char>>,
>
    decreases rows.len(),
{
    if rows.len() == 0 {
        Ok(Seq::empty())
    } else {
        match closure_entries(rows.drop_last()) {
            Err(e) => Err(e),
            Ok(done) => match entry_of(rows.last()) {
                Err(e) => Err(e),
                Ok(entry) => Ok(put(done, rows.last().path, entry)),
            },
        }
    }
}

/// The digest of a path's contents, from hexadecimal digits to base64.
pub fn nar_hash(hash: &str) -> (r: Result<String, Error>)
    requires
        hash@.len() <= isize::MAX,
    ensures
        outcome(r) == nar_hash_of(hash@),
{
    let digits = match strip_prefix(hash, "sha256:") {
        Some(d) => d,
        None => {
            return Err(Error::new("Nix store returned a non-sha256 NAR hash"));
        },
    };
    match hex_decode(digits.as_str()) {
        Ok(bytes) => Ok(glue("sha256-", base64_standard(bytes.as_slice()).as_str())),
        Err(m) => Err(Error::of(m)),
    }
}

/// What a closure holds of a path.
pub fn query_path_info(row: &PathRow) -> (r: Result<Json, Error>)
    requires
        row.hash@.len() <= isize::MAX,
    ensures
        outcome(r) == entry_of(row@),
{
    let hash = match nar_hash(row.hash.as_str()) {
        Ok(h) => h,
        Err(e) => {
            return Err(e);
        },
    };
    let references = sort_texts(&row.references);
    match row.nar_size {
        None => Err(Error::new("Nix store path has no NAR size")),
        Some(n) => {
            let r = Members::new().with("narHash", Json::text(hash.as_str())).with(
                "narSize",
                Json::unsigned(n),
            ).with("references", Json::texts(&references)).object();
            assert(r@->Object_0 =~= entry_json(hash@, n as nat, texts(references@))->Object_0);
            Ok(r)
        },
    }
}

proof fn lemma_first_bad_row(rows: Seq<PathRowView>, n: int)
    requires
        0 <= n <= rows.len(),
        closure_entries(rows.take(n)) is Err,
    ensures
        closure_entries(rows) == closure_entries(rows.take(n)),
    decreases rows.len(),
{
    if n == rows.len() {
        assert(rows.take(n) =~= rows);
    } else {
        assert(rows.drop_last().take(n) =~= rows.take(n));
        lemma_first_bad_row(rows.drop_last(), n);
    }
}

/// A closure, by what the database tells of its paths.
pub fn path_info(rows: &Vec<PathRow>) -> (r: Result<Json, Error>)
    requires
        forall|i: int| 0 <= i < rows@.len() ==> (#[trigger] rows@[i]).hash@.len() <= isize::MAX,
    ensures
        match r {
            Ok(j) => closure_entries(rows_view(rows@)) matches Ok(entries) && j@
                == JsonView::Object(entries),
            Err(e) => closure_entries(rows_view(rows@)) matches Err(why) && e@ == why,
        },
{
    let ghost all = rows_view(rows@);
    let mut map: StringMap<Json> = StringMap::new();
    let mut i: usize = 0;
    assert(all.take(0).len() == 0);
    while i < rows.len()
        invariant
            forall|i: int|
                0 <= i < rows@.len() ==> (#[trigger] rows@[i]).hash@.len() <= isize::MAX,
            all == rows_view(rows@),
            i <= rows@.len(),
            closure_entries(all.take(i as int)) == Ok::<
                Seq<(Seq<char>, JsonView)>,
                Seq<Seq<char>>,
            >(map@),
        decreases rows.len() - i,
    {
        assert(all.take(i + 1).drop_last() =~= all.take(i as int));
        assert(all.take(i + 1).last() == rows@[i as int]@);
        match query_path_info(&rows[i]) {
            Ok(entry) => {
                map.insert(rows[i].path.clone(), entry);
            },
            Err(e) => {
                proof {
                    lemma_first_bad_row(all, i + 1);
                }
                return Err(e);
            },
        }
        i += 1;
    }
    assert(all.take(all.len() as int) =~= all);
    Ok(json_map(&map))
}

/// The members of an object in the order of their keys, each key once.
pub open spec fn sorted_members(entries: Seq<(Seq<char>, JsonView)>) -> Seq<(Seq<char>, JsonView)> {
    put_all(Seq::empty(), entries)
}

fn members_of(entries: &Vec<(String, Json)>) -> (r: StringMap<Json>)
    ensures
        r@ == sorted_members(entry_views(entries@)),
{
    let ghost all = entry_views(entries@);
    let mut map: StringMap<Json> = StringMap::new();
    let mut i: usize = 0;
    assert(all.take(0) =~= Seq::empty());
    while i < entries.len()
        invariant
            all == entry_views(entries@),
            i <= entries@.len(),
            map@ == put_all(Seq::empty(), all.take(i as int)),
        decreases entries.len() - i,
    {
        assert(all.take(i + 1).drop_last() =~= all.take(i as int));
        assert(all.take(i + 1).last() == (entries@[i as int].0@, entries@[i as int].1@));
        map.insert(entries[i].0.clone(), entries[i].1.copy());
        i += 1;
    }
    assert(all.take(all.len() as int) =~= all);
    map
}

/// The paths of a closure.
pub open spec fn paths_of(closure: JsonView) -> Result<Seq<Seq<char>>, Seq<Seq<char>>> {
    match closure {
        JsonView::Object(entries) => Ok(keys(sorted_members(entries))),
        _ => Err(seq!["expected normalized Nix closure"@]),
    }
}

/// The paths of a closure.
pub fn closure_paths(value: &Json) -> (r: Result<Vec<String>, Error>)
    ensures
        match r {
            Ok(v) => paths_of(value@) == Ok::<Seq<Seq<char>>, Seq<Seq<char>>>(texts(v@)),
            Err(e) => paths_of(value@) == Err::<Seq<Seq<char>>, Seq<Seq<char>>>(e@),
        },
{
    match value {
        Json::Object(entries) => {
            assert(value@->Object_0 =~= entry_views(entries@));
            let map = members_of(entries);
            let mut out: Vec<String> = Vec::new();
            let mut i: usize = 0;
            while i < map.len()
                invariant
                    i <= map@.len(),
                    out@.len() == i,
                    forall|k: int| 0 <= k < i ==> (#[trigger] out@[k])@ == map@[k].0,
                decreases map@.len() - i,
            {
                out.push(map.key(i).clone());
                i += 1;
            }
            assert(texts(out@) =~= keys(map@));
            Ok(out)
        },
        _ => Err(Error::new("expected normalized Nix closure")),
    }
}

// ------------------------------------------------------------ from a report

/// Whether a reference comes before another: by its text, and what is no text first.
pub open spec fn reference_before(a: JsonView, b: JsonView) -> bool {
    match (text_in(a), text_in(b)) {
        (None, Some(_)) => true,
        (Some(x), Some(y)) => before(x, y),
        _ => false,
    }
}

/// The references with one more behind those that do not come after it.
pub open spec fn with_reference(s: Seq<JsonView>, v: JsonView) -> Seq<JsonView>
    decreases s.len(),
{
    if s.len() > 0 && reference_before(v, s.last()) {
        with_reference(s.drop_last(), v).push(s.last())
    } else {
        s.push(v)
    }
}

/// The references in their order.
pub open spec fn sorted_references(s: Seq<JsonView>) -> Seq<JsonView>
    decreases s.len(),
{
    if s.len() == 0 {
        Seq::empty()
    } else {
        with_reference(sorted_references(s.drop_last()), s.last())
    }
}

/// What belongs to the identity of a path: its contents, their size and its references. When
/// the path was registered and who has signed it belong to the store that it lies in.
pub open spec fn identity_entry(info: JsonView) -> Result<JsonView, Seq<Seq<char>>> {
    match text_in(member_of(info, "narHash"@)) {
        None => Err(seq!["closure entry missing NAR hash"@]),
        Some(hash) => match member_of(info, "references"@) {
            JsonView::Array(references) => Ok(
                JsonView::Object(
                    seq![
                        ("narHash"@, JsonView::Text(hash)),
                        ("narSize"@, member_of(info, "narSize"@)),
                        ("references"@, JsonView::Array(sorted_references(references))),
                    ],
                ),
            ),
            _ => Err(seq!["closure entry missing references"@]),
        },
    }
}

/// The paths that a list tells of.
pub open spec fn listed_entries(items: Seq<JsonView>) -> Result<
    Seq<(Seq<char>, JsonView)>,
    Seq<Seq<char>>,
>
    decreases items.len(),
{
    if items.len() == 0 {
        Ok(Seq::empty())
    } else {
        match listed_entries(items.drop_last()) {
            Err(e) => Err(e),
            Ok(done) => match text_in(member_of(items.last(), "path"@)) {
                None => Err(seq!["closure entry missing path"@]),
                Some(path) => Ok(done.push((path, items.last()))),
            },
        }
    }
}

/// The paths of a closure, as one version of the tool or another lists them.
pub open spec fn reported_entries(value: JsonView) -> Result<
    Seq<(Seq<char>, JsonView)>,
    Seq<Seq<char>>,
> {
    match value {
        JsonView::Object(entries) => Ok(sorted_members(entries)),
        JsonView::Array(items) => listed_entries(items),
        _ => Err(seq!["unexpected nix path-info format"@]),
    }
}

/// The identities of paths, in the order of the paths.
pub open spec fn identity_entries(entries: Seq<(Seq<char>, JsonView)>) -> Result<
    Seq<(Seq<char>, JsonView)>,
    Seq<Seq<char>>,
>
    decreases entries.len(),
{
    if entries.len() == 0 {
        Ok(Seq::empty())
    } else {
        match identity_entries(entries.drop_last()) {
            Err(e) => Err(e),
            Ok(done) => match identity_entry(entries.last().1) {
                Err(e) => Err(e),
                Ok(entry) => Ok(put(done, entries.last().0, entry)),
            },
        }
    }
}

/// The identity of a closure.
pub open spec fn normalized(value: JsonView) -> Result<JsonView, Seq<Seq<char>>> {
    match reported_entries(value) {
        Err(e) => Err(e),
        Ok(entries) => match identity_entries(entries) {
            Err(e) => Err(e),
            Ok(done) => Ok(JsonView::Object(done)),
        },
    }
}

fn comes_before(a: &Json, b: &Json) -> (r: bool)
    ensures
        r == reference_before(a@, b@),
{
    match (a, b) {
        (Json::Text(x), Json::Text(y)) => less(x.as_str(), y.as_str()),
        (Json::Text(_), _) => false,
        (_, Json::Text(_)) => true,
        _ => false,
    }
}

fn add_reference(sorted: &mut Vec<Json>, v: Json)
    ensures
        views(final(sorted)@) == with_reference(views(old(sorted)@), v@),
{
    let ghost s = views(sorted@);
    let mut i: usize = sorted.len();
    while i > 0 && comes_before(&v, &sorted[i - 1])
        invariant
            i <= sorted@.len(),
            s == views(sorted@),
            forall|k: int| i <= k < s.len() ==> reference_before(v@, #[trigger] s[k]),
        decreases i,
    {
        assert(s[i - 1] == sorted@[i - 1]@);
        i -= 1;
    }
    let ghost w = v@;
    proof {
        if i > 0 {
            assert(s[i - 1] == sorted@[i - 1]@);
        }
        lemma_with_reference(s, w, i as int);
    }
    sorted.insert(i, v);
    assert(views(sorted@) =~= s.insert(i as int, w));
}

proof fn lemma_with_reference(s: Seq<JsonView>, v: JsonView, i: int)
    requires
        0 <= i <= s.len(),
        forall|k: int| i <= k < s.len() ==> reference_before(v, #[trigger] s[k]),
        i > 0 ==> !reference_before(v, s[i - 1]),
    ensures
        with_reference(s, v) == s.insert(i, v),
    decreases s.len(),
{
    if i < s.len() {
        assert(reference_before(v, s[s.len() - 1]));
        lemma_with_reference(s.drop_last(), v, i);
        assert(s.drop_last().insert(i, v).push(s.last()) =~= s.insert(i, v));
    } else {
        assert(s.push(v) =~= s.insert(i, v));
    }
}

fn sort_references(items: &Vec<Json>) -> (r: Vec<Json>)
    ensures
        views(r@) == sorted_references(views(items@)),
{
    let ghost all = views(items@);
    let mut out: Vec<Json> = Vec::new();
    let mut i: usize = 0;
    assert(views(out@) =~= sorted_references(all.take(0)));
    while i < items.len()
        invariant
            all == views(items@),
            i <= items@.len(),
            views(out@) == sorted_references(all.take(i as int)),
        decreases items.len() - i,
    {
        assert(all.take(i + 1).drop_last() =~= all.take(i as int));
        assert(all.take(i + 1).last() == items@[i as int]@);
        add_reference(&mut out, items[i].copy());
        i += 1;
    }
    assert(all.take(all.len() as int) =~= all);
    out
}

fn identify(info: &Json) -> (r: Result<Json, Error>)
    ensures
        outcome(r) == identity_entry(info@),
{
    let hash = match info.get_text("narHash") {
        Some(h) => h,
        None => {
            return Err(Error::new("closure entry missing NAR hash"));
        },
    };
    let references = match info.get("references") {
        Some(Json::Array(items)) => {
            assert(member_of(info@, "references"@)->Array_0 =~= views(items@));
            sort_references(items)
        },
        _ => {
            return Err(Error::new("closure entry missing references"));
        },
    };
    let size = match info.get("narSize") {
        Some(n) => n.copy(),
        None => Json::Null,
    };
    let r = Members::new().with("narHash", Json::text(hash.as_str())).with("narSize", size).with(
        "references",
        Json::list(references),
    ).object();
    assert(r@->Object_0 =~= identity_entry(info@)->Ok_0->Object_0);
    Ok(r)
}

proof fn lemma_first_bad_entry(entries: Seq<(Seq<char>, JsonView)>, n: int)
    requires
        0 <= n <= entries.len(),
        identity_entries(entries.take(n)) is Err,
    ensures
        identity_entries(entries) == identity_entries(entries.take(n)),
    decreases entries.len(),
{
    if n == entries.len() {
        assert(entries.take(n) =~= entries);
    } else {
        assert(entries.drop_last().take(n) =~= entries.take(n));
        lemma_first_bad_entry(entries.drop_last(), n);
    }
}

proof fn lemma_first_bad_item(items: Seq<JsonView>, n: int)
    requires
        0 <= n <= items.len(),
        listed_entries(items.take(n)) is Err,
    ensures
        listed_entries(items) == listed_entries(items.take(n)),
    decreases items.len(),
{
    if n == items.len() {
        assert(items.take(n) =~= items);
    } else {
        assert(items.drop_last().take(n) =~= items.take(n));
        lemma_first_bad_item(items.drop_last(), n);
    }
}

fn list_entries(items: &Vec<Json>) -> (r: Result<Vec<(String, Json)>, Error>)
    ensures
        match r {
            Ok(v) => listed_entries(views(items@)) == Ok::<
                Seq<(Seq<char>, JsonView)>,
                Seq<Seq<char>>,
            >(entry_views(v@)),
            Err(e) => listed_entries(views(items@)) == Err::<
                Seq<(Seq<char>, JsonView)>,
                Seq<Seq<char>>,
            >(e@),
        },
{
    let ghost all = views(items@);
    let mut out: Vec<(String, Json)> = Vec::new();
    let mut i: usize = 0;
    assert(all.take(0).len() == 0);
    assert(entry_views(out@) =~= Seq::empty());
    while i < items.len()
        invariant
            all == views(items@),
            i <= items@.len(),
            listed_entries(all.take(i as int)) == Ok::<
                Seq<(Seq<char>, JsonView)>,
                Seq<Seq<char>>,
            >(entry_views(out@)),
        decreases items.len() - i,
    {
        let ghost done = entry_views(out@);
        assert(all.take(i + 1).drop_last() =~= all.take(i as int));
        assert(all.take(i + 1).last() == items@[i as int]@);
        match items[i].get_text("path") {
            Some(path) => {
                let ghost p = path@;
                out.push((path, items[i].copy()));
                assert(entry_views(out@) =~= done.push((p, items@[i as int]@)));
            },
            None => {
                proof {
                    lemma_first_bad_item(all, i + 1);
                }
                return Err(Error::new("closure entry missing path"));
            },
        }
        i += 1;
    }
    assert(all.take(all.len() as int) =~= all);
    Ok(out)
}

fn identify_all(entries: &Vec<(String, Json)>) -> (r: Result<Json, Error>)
    ensures
        match r {
            Ok(j) => identity_entries(entry_views(entries@)) matches Ok(done) && j@
                == JsonView::Object(done),
            Err(e) => identity_entries(entry_views(entries@)) matches Err(why) && e@ == why,
        },
{
    let ghost all = entry_views(entries@);
    let mut map: StringMap<Json> = StringMap::new();
    let mut i: usize = 0;
    assert(all.take(0).len() == 0);
    while i < entries.len()
        invariant
            all == entry_views(entries@),
            i <= entries@.len(),
            identity_entries(all.take(i as int)) == Ok::<
                Seq<(Seq<char>, JsonView)>,
                Seq<Seq<char>>,
            >(map@),
        decreases entries.len() - i,
    {
        assert(all.take(i + 1).drop_last() =~= all.take(i as int));
        assert(all.take(i + 1).last() == (entries@[i as int].0@, entries@[i as int].1@));
        match identify(&entries[i].1) {
            Ok(entry) => {
                map.insert(entries[i].0.clone(), entry);
            },
            Err(e) => {
                proof {
                    lemma_first_bad_entry(all, i + 1);
                }
                return Err(e);
            },
        }
        i += 1;
    }
    assert(all.take(all.len() as int) =~= all);
    Ok(json_map(&map))
}

/// The entries of a map, as a list.
fn entries_of(map: &StringMap<Json>) -> (r: Vec<(String, Json)>)
    ensures
        entry_views(r@) == map@,
{
    let mut entries: Vec<(String, Json)> = Vec::new();
    let mut i: usize = 0;
    while i < map.len()
        invariant
            i <= map@.len(),
            entries@.len() == i,
            forall|k: int|
                0 <= k < i ==> (#[trigger] entries@[k]).0@ == map@[k].0 && entries@[k].1@
                    == map@[k].1,
        decreases map@.len() - i,
    {
        entries.push((map.key(i).clone(), map.value(i).copy()));
        i += 1;
    }
    assert(entry_views(entries@) =~= map@);
    entries
}

/// The identity of a closure, as one version of the tool or another reports the closure.
pub fn normalize_closure(value: &Json) -> (r: Result<Json, Error>)
    ensures
        outcome(r) == normalized(value@),
{
    match value {
        Json::Object(entries) => {
            assert(value@->Object_0 =~= entry_views(entries@));
            let map = members_of(entries);
            identify_all(&entries_of(&map))
        },
        Json::Array(items) => {
            assert(value@->Array_0 =~= views(items@));
            match list_entries(items) {
                Ok(entries) => identify_all(&entries),
                Err(e) => Err(e),
            }
        },
        _ => Err(Error::new("unexpected nix path-info format")),
    }
}

// ----------------------------------------------------------------- laws

/// A text among others behind those that do not come after it.
spec fn with_text(s: Seq<Seq<char>>, t: Seq<char>) -> Seq<Seq<char>>
    decreases s.len(),
{
    if s.len() > 0 && before(t, s.last()) {
        with_text(s.drop_last(), t).push(s.last())
    } else {
        s.push(t)
    }
}

spec fn as_texts(s: Seq<Seq<char>>) -> Seq<JsonView> {
    s.map_values(|t: Seq<char>| JsonView::Text(t))
}

proof fn lemma_with_text(s: Seq<Seq<char>>, t: Seq<char>)
    requires
        sorted_by(s, text_order()),
    ensures
        with_reference(as_texts(s), JsonView::Text(t)) == as_texts(with_text(s, t)),
        sorted_by(with_text(s, t), text_order()),
        with_text(s, t).to_multiset() == s.to_multiset().insert(t),
        forall|k: int|
            0 <= k < with_text(s, t).len() ==> (#[trigger] with_text(s, t)[k]) == t || s.contains(
                with_text(s, t)[k],
            ),
    decreases s.len(),
{
    broadcast use vstd::seq_lib::group_to_multiset_ensures;

    let leq = text_order();
    lemma_text_order();
    let r = with_text(s, t);
    if s.len() > 0 && before(t, s.last()) {
        let front = s.drop_last();
        assert(sorted_by(front, leq)) by {
            assert forall|i: int, j: int| 0 <= i < j < front.len() implies #[trigger] leq(
                front[i],
                front[j],
            ) by {
                assert(leq(s[i], s[j]));
            }
        }
        lemma_with_text(front, t);
        assert(as_texts(s).drop_last() =~= as_texts(front));
        assert(as_texts(s).last() == JsonView::Text(s.last()));
        assert(as_texts(with_text(front, t)).push(as_texts(s).last()) =~= as_texts(r));
        let inner = with_text(front, t);
        assert forall|i: int, j: int| 0 <= i < j < r.len() implies #[trigger] leq(r[i], r[j]) by {
            if j < inner.len() {
                assert(leq(inner[i], inner[j]));
            } else {
                assert(inner[i] == t || front.contains(inner[i]));
                if inner[i] != t {
                    let k = choose|k: int| 0 <= k < front.len() && front[k] == inner[i];
                    assert(leq(s[k], s[s.len() - 1]));
                }
            }
        }
        assert(s =~= front.push(s.last()));
        assert(r.to_multiset() =~= s.to_multiset().insert(t));
        assert forall|k: int| 0 <= k < r.len() implies (#[trigger] r[k]) == t || s.contains(
            r[k],
        ) by {
            if k < inner.len() {
                assert(inner[k] == t || front.contains(inner[k]));
                if inner[k] != t {
                    let j = choose|j: int| 0 <= j < front.len() && front[j] == inner[k];
                    assert(s[j] == r[k]);
                }
            } else {
                assert(s[s.len() - 1] == r[k]);
            }
        }
    } else {
        assert(as_texts(s).push(JsonView::Text(t)) =~= as_texts(r));
        if s.len() > 0 {
            assert(as_texts(s).last() == JsonView::Text(s.last()));
            if t != s.last() {
                lemma_before_total(t, s.last());
            }
        }
        assert forall|i: int, j: int| 0 <= i < j < r.len() implies #[trigger] leq(r[i], r[j]) by {
            if j < s.len() {
                assert(leq(s[i], s[j]));
            } else if i < s.len() - 1 {
                assert(leq(s[i], s[s.len() - 1]));
                assert(leq(s[s.len() - 1], t));
            }
        }
        assert forall|k: int| 0 <= k < r.len() implies (#[trigger] r[k]) == t || s.contains(
            r[k],
        ) by {
            if k < s.len() {
                assert(s[k] == r[k]);
            }
        }
    }
}

/// References that are texts stand in the order of texts.
proof fn lemma_sorted_references(s: Seq<Seq<char>>)
    ensures
        sorted_references(as_texts(s)) == as_texts(sorted_texts(s)),
    decreases s.len(),
{
    broadcast use vstd::seq_lib::group_to_multiset_ensures;

    lemma_text_order();
    s.lemma_sort_by_ensures(text_order());
    if s.len() == 0 {
        assert(sorted_texts(s).len() == sorted_texts(s).to_multiset().len());
        assert(s.len() == s.to_multiset().len());
        assert(sorted_texts(s) =~= Seq::empty());
        assert(as_texts(sorted_texts(s)) =~= Seq::empty());
    } else {
        let front = s.drop_last();
        lemma_sorted_references(front);
        front.lemma_sort_by_ensures(text_order());
        lemma_with_text(sorted_texts(front), s.last());
        assert(as_texts(s).drop_last() =~= as_texts(front));
        assert(as_texts(s).last() == JsonView::Text(s.last()));
        assert(s =~= front.push(s.last()));
        lemma_sorted_unique(
            with_text(sorted_texts(front), s.last()),
            sorted_texts(s),
            text_order(),
        );
    }
}

/// Two reports on a path that differ only in what belongs to a store, and in the order of the
/// references, make one identity.
pub proof fn law_store_local_state_is_ignored(
    a: JsonView,
    b: JsonView,
    x: Seq<Seq<char>>,
    y: Seq<Seq<char>>,
)
    requires
        member_of(a, "narHash"@) == member_of(b, "narHash"@),
        member_of(a, "narSize"@) == member_of(b, "narSize"@),
        member_of(a, "references"@) == text_list(x),
        member_of(b, "references"@) == text_list(y),
        x.to_multiset() == y.to_multiset(),
    ensures
        identity_entry(a) == identity_entry(b),
{
    lemma_sorted_references(x);
    lemma_sorted_references(y);
    law_sorting_forgets_the_order(x, y);
}

/// The digest of a path in the store is the same bytes in another writing: in base 64 behind the
/// name of the algorithm. Any other digest is refused.
pub proof fn law_digests_are_written_anew(digits: Seq<char>, hash: Seq<char>)
    ensures
        nar_hash_of("sha256:"@ + digits) is Ok <==> digits.len() % 2 == 0 && forall|i: int|
            0 <= i < digits.len() ==> is_hex(#[trigger] digits[i]),
        nar_hash_of("sha256:"@ + digits) matches Ok(text) ==> text == "sha256-"@ + base64_of(
            hex_bytes(digits),
            false,
        ),
        !starts(hash, "sha256:"@) ==> nar_hash_of(hash) is Err,
{
    law_texts_begin_and_end(hash, "sha256:"@, digits);
}

proof fn lemma_entry_members(hash: Seq<char>, size: nat, references: Seq<Seq<char>>)
    ensures
        member_of(entry_json(hash, size, references), "narHash"@) == JsonView::Text(hash),
        member_of(entry_json(hash, size, references), "narSize"@) == JsonView::Number(
            decimal(size),
        ),
        member_of(entry_json(hash, size, references), "references"@) == text_list(references),
{
    broadcast use lemma_lookup_push;

    reveal_strlit("narHash");
    reveal_strlit("narSize");
    reveal_strlit("references");
    assert("narHash"@.len() == 7 && "narHash"@[3] == 'H');
    assert("narSize"@.len() == 7 && "narSize"@[3] == 'S');
    assert("references"@.len() == 10);
    let m = entry_json(hash, size, references)->Object_0;
    assert(m =~= Seq::<(Seq<char>, JsonView)>::empty().push(m[0]).push(m[1]).push(m[2]));
}

/// A path is told by its digest, its size and all that it refers to, in order; it is refused
/// where its digest cannot be read or its size is not known.
pub proof fn law_paths_are_told_by_their_contents(row: PathRowView)
    ensures
        entry_of(row) is Ok <==> nar_hash_of(row.hash) is Ok && row.nar_size is Some,
        entry_of(row) matches Ok(entry) ==> {
            &&& member_of(entry, "narHash"@) == JsonView::Text(nar_hash_of(row.hash)->Ok_0)
            &&& member_of(entry, "narSize"@) == JsonView::Number(decimal(row.nar_size->0 as nat))
            &&& member_of(entry, "references"@) == text_list(sorted_texts(row.references))
            &&& sorted_texts(row.references).to_multiset() == row.references.to_multiset()
            &&& sorted_by(sorted_texts(row.references), text_order())
        },
{
    lemma_text_order();
    row.references.lemma_sort_by_ensures(text_order());
    if entry_of(row) is Ok {
        lemma_entry_members(
            nar_hash_of(row.hash)->Ok_0,
            row.nar_size->0 as nat,
            sorted_texts(row.references),
        );
    }
}

/// A closure tells every path under its own name, and fails exactly where one of them cannot be
/// told.
pub proof fn law_closures_tell_every_path(rows: Seq<PathRowView>, i: int)
    requires
        forall|j: int, k: int|
            0 <= j < k < rows.len() ==> (#[trigger] rows[j]).path != (#[trigger] rows[k]).path,
    ensures
        closure_entries(rows) is Ok <==> forall|j: int|
            0 <= j < rows.len() ==> entry_of(#[trigger] rows[j]) is Ok,
        closure_entries(rows) matches Ok(entries) ==> {
            &&& ordered(entries)
            &&& 0 <= i < rows.len() ==> lookup(entries, rows[i].path) == Some(
                entry_of(rows[i])->Ok_0,
            )
            &&& forall|path: Seq<char>| #[trigger]
                lookup(entries, path) is Some ==> exists|j: int|
                    0 <= j < rows.len() && (#[trigger] rows[j]).path == path
        },
    decreases rows.len(),
{
    if rows.len() > 0 {
        let t = rows.drop_last();
        let n = rows.len() - 1;
        assert forall|j: int, k: int| 0 <= j < k < t.len() implies (#[trigger] t[j]).path != (
        #[trigger] t[k]).path by {
            assert(rows[j].path != rows[k].path);
        }
        law_closures_tell_every_path(t, i);
        if closure_entries(rows) is Ok {
            let done = closure_entries(t)->Ok_0;
            let entry = entry_of(rows.last())->Ok_0;
            let entries = put(done, rows.last().path, entry);
            lemma_put_ordered(done, rows.last().path, entry);
            assert forall|path: Seq<char>| #[trigger] lookup(entries, path) is Some implies exists|
                j: int,
            | 0 <= j < rows.len() && (#[trigger] rows[j]).path == path by {
                lemma_put_lookup(done, rows.last().path, entry, path);
                if path == rows.last().path {
                    assert(rows[n].path == path);
                } else {
                    let j = choose|j: int| 0 <= j < t.len() && (#[trigger] t[j]).path == path;
                    assert(rows[j].path == path);
                }
            }
            if 0 <= i < rows.len() {
                lemma_put_lookup(done, rows.last().path, entry, rows[i].path);
                if i < n {
                    assert(rows[i].path != rows[n].path);
                    assert(t[i] == rows[i]);
                }
            }
            assert forall|j: int| 0 <= j < rows.len() implies entry_of(
                #[trigger] rows[j],
            ) is Ok by {
                if j < n {
                    assert(t[j] == rows[j]);
                }
            }
        }
        if forall|j: int| 0 <= j < rows.len() ==> entry_of(#[trigger] rows[j]) is Ok {
            assert forall|j: int| 0 <= j < t.len() implies entry_of(#[trigger] t[j]) is Ok by {
                assert(t[j] == rows[j]);
            }
            assert(entry_of(rows[n]) is Ok);
        }
    }
}

/// The paths of a closure are the names under which it tells something, each once and in order.
pub proof fn law_closures_name_their_paths(entries: Seq<(Seq<char>, JsonView)>, path: Seq<char>)
    ensures
        paths_of(JsonView::Object(entries)) matches Ok(paths) && (paths.contains(path) <==> lookup(
            entries,
            path,
        ) is Some) && forall|i: int, j: int|
            0 <= i < j < paths.len() ==> before(#[trigger] paths[i], #[trigger] paths[j]),
        paths_of(JsonView::Null) is Err,
{
    let all = sorted_members(entries);
    lemma_members_ordered(entries);
    let e = Seq::<(Seq<char>, JsonView)>::empty();
    lemma_put_all_lookup(e, entries, path);
    lemma_lookup_found(all, path);
    let paths = keys(all);
    if let Some(w) = lookup(all, path) {
        let i = choose|i: int| 0 <= i < all.len() && all[i] == (path, w);
        assert(paths[i] == path);
    }
    if paths.contains(path) {
        let i = choose|i: int| 0 <= i < paths.len() && paths[i] == path;
        assert(all[i].0 == path);
    }
    assert forall|i: int, j: int| 0 <= i < j < paths.len() implies before(
        #[trigger] paths[i],
        #[trigger] paths[j],
    ) by {
        assert(before(all[i].0, all[j].0));
    }
}

proof fn lemma_members_ordered(entries: Seq<(Seq<char>, JsonView)>)
    ensures
        ordered(sorted_members(entries)),
    decreases entries.len(),
{
    if entries.len() > 0 {
        lemma_members_ordered(entries.drop_last());
        lemma_put_ordered(
            sorted_members(entries.drop_last()),
            entries.last().0,
            entries.last().1,
        );
    }
}

/// Of a path that is reported its digest, its size and its references count, in order, and nothing
/// else; it is refused where the digest or the references are missing.
pub proof fn law_reported_paths_are_identified(info: JsonView)
    ensures
        identity_entry(info) is Ok <==> member_of(info, "narHash"@) is Text && member_of(
            info,
            "references"@,
        ) is Array,
        identity_entry(info) matches Ok(entry) ==> {
            &&& entry->Object_0.len() == 3
            &&& member_of(entry, "narHash"@) == member_of(info, "narHash"@)
            &&& member_of(entry, "narSize"@) == member_of(info, "narSize"@)
            &&& member_of(entry, "references"@) is Array
            &&& member_of(entry, "references"@)->Array_0.to_multiset() == member_of(
                info,
                "references"@,
            )->Array_0.to_multiset()
        },
{
    broadcast use lemma_lookup_push;

    reveal_strlit("narHash");
    reveal_strlit("narSize");
    reveal_strlit("references");
    assert("narHash"@.len() == 7 && "narHash"@[3] == 'H');
    assert("narSize"@.len() == 7 && "narSize"@[3] == 'S');
    assert("references"@.len() == 10);
    if let Ok(entry) = identity_entry(info) {
        let m = entry->Object_0;
        assert(m =~= Seq::<(Seq<char>, JsonView)>::empty().push(m[0]).push(m[1]).push(m[2]));
        lemma_references_kept(member_of(info, "references"@)->Array_0);
    }
}

proof fn lemma_reference_added(s: Seq<JsonView>, v: JsonView)
    ensures
        with_reference(s, v).to_multiset() == s.to_multiset().insert(v),
    decreases s.len(),
{
    broadcast use vstd::seq_lib::group_to_multiset_ensures;

    if s.len() > 0 && reference_before(v, s.last()) {
        lemma_reference_added(s.drop_last(), v);
        assert(s =~= s.drop_last().push(s.last()));
        assert(with_reference(s, v).to_multiset() =~= s.to_multiset().insert(v));
    }
}

proof fn lemma_references_kept(s: Seq<JsonView>)
    ensures
        sorted_references(s).to_multiset() == s.to_multiset(),
    decreases s.len(),
{
    broadcast use vstd::seq_lib::group_to_multiset_ensures;

    if s.len() > 0 {
        lemma_references_kept(s.drop_last());
        lemma_reference_added(sorted_references(s.drop_last()), s.last());
        assert(s =~= s.drop_last().push(s.last()));
        assert(sorted_references(s).to_multiset() =~= s.to_multiset());
    }
}

proof fn lemma_identity_lookup(entries: Seq<(Seq<char>, JsonView)>, path: Seq<char>)
    requires
        identity_entries(entries) is Ok,
    ensures
        lookup(identity_entries(entries)->Ok_0, path) == match lookup(entries, path) {
            Some(info) => Some(identity_entry(info)->Ok_0),
            None => None,
        },
    decreases entries.len(),
{
    if entries.len() > 0 {
        let t = entries.drop_last();
        lemma_identity_lookup(t, path);
        lemma_put_lookup(
            identity_entries(t)->Ok_0,
            entries.last().0,
            identity_entry(entries.last().1)->Ok_0,
            path,
        );
    }
}

/// What identifies a closure tells, under the name of each path, what identifies that path, and
/// nothing else, whether the paths are reported under their names or in a list.
pub proof fn law_closures_are_identified_path_by_path(
    entries: Seq<(Seq<char>, JsonView)>,
    items: Seq<JsonView>,
    path: Seq<char>,
)
    ensures
        normalized(JsonView::Object(entries)) matches Ok(v) ==> lookup(v->Object_0, path)
            == match lookup(entries, path) {
            Some(info) => Some(identity_entry(info)->Ok_0),
            None => None,
        },
        normalized(JsonView::Array(items)) matches Ok(v) ==> lookup(v->Object_0, path)
            == match lookup(listed_entries(items)->Ok_0, path) {
            Some(info) => Some(identity_entry(info)->Ok_0),
            None => None,
        },
        listed_entries(items) matches Ok(all) ==> all.len() == items.len() && forall|i: int|
            0 <= i < items.len() ==> (#[trigger] all[i]).1 == items[i] && member_of(
                items[i],
                "path"@,
            ) == JsonView::Text(all[i].0),
{
    if normalized(JsonView::Object(entries)) is Ok {
        lemma_identity_lookup(sorted_members(entries), path);
        lemma_put_all_lookup(Seq::<(Seq<char>, JsonView)>::empty(), entries, path);
    }
    if normalized(JsonView::Array(items)) is Ok {
        lemma_identity_lookup(listed_entries(items)->Ok_0, path);
    }
    lemma_listed(items);
}

proof fn lemma_listed(items: Seq<JsonView>)
    ensures
        listed_entries(items) matches Ok(all) ==> all.len() == items.len() && forall|i: int|
            0 <= i < items.len() ==> (#[trigger] all[i]).1 == items[i] && member_of(
                items[i],
                "path"@,
            ) == JsonView::Text(all[i].0),
    decreases items.len(),
{
    if items.len() > 0 {
        let t = items.drop_last();
        lemma_listed(t);
        if let Ok(all) = listed_entries(items) {
            let done = listed_entries(t)->Ok_0;
            assert forall|i: int| 0 <= i < items.len() implies (#[trigger] all[i]).1 == items[i]
                && member_of(items[i], "path"@) == JsonView::Text(all[i].0) by {
                if i < t.len() {
                    assert(all[i] == done[i]);
                    assert(t[i] == items[i]);
                }
            }
        }
    }
}

/// What the store is asked is answered by what it holds.
pub proof fn law_stores_answer_by_what_they_hold(
    rows: &Vec<PathRow>,
    told: Result<Json, Error>,
    value: &Json,
    paths: Result<Vec<String>, Error>,
    identity: Result<Json, Error>,
    i: int,
    path: Seq<char>,
)
    requires
        call_ensures(path_info, (rows,), told),
        call_ensures(closure_paths, (value,), paths),
        call_ensures(normalize_closure, (value,), identity),
        0 <= i < rows@.len(),
        forall|j: int, k: int|
            0 <= j < k < rows@.len() ==> (#[trigger] rows@[j]).path@ != (#[trigger] rows@[k]).path@,
    ensures
        told matches Ok(v) ==> (entry_of(rows@[i]@) matches Ok(entry) && member_of(
            v@,
            rows@[i].path@,
        ) == entry),
        paths matches Ok(found) ==> value@ is Object && (texts(found@).contains(path) <==> lookup(
            value@->Object_0,
            path,
        ) is Some),
        value@ is Object ==> (identity matches Ok(v) ==> match lookup(value@->Object_0, path) {
            Some(info) => identity_entry(info) is Ok ==> member_of(v@, path) == identity_entry(
                info,
            )->Ok_0,
            None => member_of(v@, path) == JsonView::Null,
        }),
{
    let all = rows_view(rows@);
    assert forall|j: int, k: int| 0 <= j < k < all.len() implies (#[trigger] all[j]).path != (
    #[trigger] all[k]).path by {
        assert(rows@[j].path@ != rows@[k].path@);
    }
    law_closures_tell_every_path(all, i);
    assert(all[i] == rows@[i]@);
    if value@ is Object {
        law_closures_name_their_paths(value@->Object_0, path);
        law_closures_are_identified_path_by_path(value@->Object_0, Seq::empty(), path);
    }
}

} // verus!
