//! Outputs of a task: which of them a node collects, how a directory becomes one file, and
//! where an output is published.

use vstd::prelude::*;
use crate::error::{outcome, Error};
use crate::json::{member_of, text_or_null, whole, Json, JsonView, Members};
use crate::map::lemma_lookup_push;
use crate::model::{fault, relative, relative_path};
use crate::path::{
    absolute, below, components, is_within, join_path, parts, parts_view, within, Component, Part,
};
use crate::sort::{
    law_sorting_forgets_the_order, lemma_text_order, sort_texts, sorted_texts, text_order,
};
use crate::text::{
    decimal, glue, glue3, law_texts_begin_and_end, lemma_decimal_reads_back, number, same, starts,
    strip_prefix, text_of, texts, trim_end_char, trimmed_end, without,
};

verus! {

/// An output that a task declares.
#[derive(Debug)]
pub struct TaskOutput {
    pub path: String,
    pub kind: String,
    pub scope: String,
    pub required: bool,
    pub destination: Option<String>,
}

// ------------------------------------------------------------ collecting

/// Whether a node collects an output: one of the leader only on the first node, and one that
/// need not be there only where it is.
pub open spec fn collects(scope: Seq<char>, required: bool, rank: nat, exists_there: bool) -> bool {
    !(scope == "leader"@ && rank != 0) && (required || exists_there)
}

impl TaskOutput {
    /// Whether a node collects the output.
    pub fn is_collected(&self, rank: u32, exists_there: bool) -> (r: bool)
        ensures
            r == collects(self.scope@, self.required, rank as nat, exists_there),
    {
        if same(self.scope.as_str(), "leader") && rank != 0 {
            return false;
        }
        self.required || exists_there
    }
}

/// The places on the way to an output, from the directory of the outputs on, the output last.
pub open spec fn places_below(root: Seq<char>, names: Seq<Part>) -> Seq<Seq<char>>
    decreases names.len(),
{
    if names.len() == 0 {
        Seq::empty()
    } else {
        let before_it = places_below(root, names.drop_last());
        let base = if before_it.len() == 0 {
            root
        } else {
            before_it.last()
        };
        match names.last() {
            Part::Normal(n) => before_it.push(below(base, n)),
            _ => before_it,
        }
    }
}

/// The places on the way to an output, where it is a sound path.
pub open spec fn output_way(root: Seq<char>, path: Seq<char>) -> Result<
    Seq<Seq<char>>,
    Seq<Seq<char>>,
> {
    match relative(path) {
        Err(e) => Err(e),
        Ok(_) => Ok(places_below(root, parts(path))),
    }
}

/// The places to look at on the way to an output, in their order.
pub fn way_to_output(root: &str, path: &str) -> (r: Result<Vec<String>, Error>)
    ensures
        match r {
            Ok(v) => output_way(root@, path@) == Ok::<Seq<Seq<char>>, Seq<Seq<char>>>(texts(v@)),
            Err(e) => output_way(root@, path@) == Err::<Seq<Seq<char>>, Seq<Seq<char>>>(e@),
        },
{
    match relative_path(path) {
        Ok(_) => {},
        Err(e) => {
            return Err(e);
        },
    }
    let found = components(path);
    let ghost all = parts(path@);
    let mut out: Vec<String> = Vec::new();
    let mut i: usize = 0;
    assert(texts(out@) =~= places_below(root@, all.take(0)));
    while i < found.len()
        invariant
            all == parts(path@),
            parts_view(found@) == all,
            i <= found@.len(),
            texts(out@) == places_below(root@, all.take(i as int)),
        decreases found.len() - i,
    {
        let ghost done = texts(out@);
        assert(all.take(i + 1).drop_last() =~= all.take(i as int));
        assert(all.take(i + 1).last() == found@[i as int]@);
        if let Component::Normal(name) = &found[i] {
            let next = if out.len() == 0 {
                join_path(root, name.as_str())
            } else {
                assert(done.last() == out@[out@.len() - 1]@);
                join_path(out[out.len() - 1].as_str(), name.as_str())
            };
            out.push(next);
            assert(texts(out@) =~= done.push(next@));
        }
        i += 1;
    }
    assert(all.take(all.len() as int) =~= all);
    Ok(out)
}

/// Whether an output may be collected: no link on the way to it, and nothing that leads out
/// of the directory of the outputs.
pub open spec fn output_check(
    links: Seq<bool>,
    resolved: Seq<char>,
    root: Seq<char>,
) -> Result<(), Seq<Seq<char>>> {
    if links.contains(true) {
        fault("output symlinks are unsupported"@)
    } else if !within(parts(resolved), parts(root)) {
        fault("output escapes workspace"@)
    } else {
        Ok(())
    }
}

/// Whether an output may be collected, by which of the places on the way are links, and by
/// the output and the directory of the outputs with every link followed.
pub fn checked_output(links: &Vec<bool>, resolved: &str, root: &str) -> (r: Result<(), Error>)
    ensures
        outcome(r) == output_check(links@, resolved@, root@),
{
    let mut i: usize = 0;
    while i < links.len()
        invariant
            i <= links@.len(),
            forall|k: int| 0 <= k < i ==> !#[trigger] links@[k],
        decreases links.len() - i,
    {
        if links[i] {
            assert(links@[i as int]);
            return Err(Error::new("output symlinks are unsupported"));
        }
        i += 1;
    }
    if !is_within(&components(resolved), &components(root)) {
        return Err(Error::new("output escapes workspace"));
    }
    Ok(())
}

/// What stands at a place, the place itself and not what a link leads to.
#[derive(Debug, Clone, Copy, PartialEq, Eq, Structural)]
pub enum Found {
    File(u64),
    Directory,
    Other,
}

/// Whether what was found is what was declared.
pub open spec fn kind_check(kind: Seq<char>, found: Found) -> Result<(), Seq<Seq<char>>> {
    if kind == "file"@ && found is File || kind == "directory"@ && found is Directory {
        Ok(())
    } else {
        fault("output type differs from declared "@ + kind)
    }
}

/// Whether what was found is what was declared.
pub fn check_kind(kind: &str, found: Found) -> (r: Result<(), Error>)
    ensures
        outcome(r) == kind_check(kind@, found),
{
    let fits = match found {
        Found::File(_) => same(kind, "file"),
        Found::Directory => same(kind, "directory"),
        Found::Other => false,
    };
    if fits {
        Ok(())
    } else {
        Err(Error::of(glue("output type differs from declared ", kind)))
    }
}

// -------------------------------------------------------------- archives

/// The head of an entry of an archive: its owner, group and time among what it holds.
#[derive(Debug, Clone, Copy)]
pub struct EntryHead {
    pub directory: bool,
    pub mode: u32,
    pub size: u64,
    pub uid: u64,
    pub gid: u64,
    pub mtime: u64,
}

/// The head of an entry, by what stands there. Owner, group and time are zero in all of them.
pub open spec fn head_of(found: Found) -> Option<EntryHead> {
    match found {
        Found::Directory => Some(
            EntryHead { directory: true, mode: 0o755, size: 0, uid: 0, gid: 0, mtime: 0 },
        ),
        Found::File(size) => Some(
            EntryHead { directory: false, mode: 0o644, size, uid: 0, gid: 0, mtime: 0 },
        ),
        Found::Other => None,
    }
}

/// The entries of a directory, in the order in which they go into the archive.
pub open spec fn entries_below(base: Seq<char>, names: Seq<Seq<char>>) -> Seq<Seq<char>> {
    sorted_texts(names).map_values(|n: Seq<char>| below(base, n))
}

/// What is still to go into an archive, the next last, after what stands at an entry: the
/// entries of a directory come right behind it.
pub open spec fn after_entry(
    pending: Seq<Seq<char>>,
    entry: Seq<char>,
    found: Found,
    names: Seq<Seq<char>>,
) -> Seq<Seq<char>> {
    if found is Directory {
        pending + entries_below(entry, names).reverse()
    } else {
        pending
    }
}

/// A directory on its way into an archive.
pub struct Archive {
    pending: Vec<String>,
}

impl View for Archive {
    type V = Seq<Seq<char>>;

    /// What is still to go into the archive, the next last.
    closed spec fn view(&self) -> Seq<Seq<char>> {
        texts(self.pending@)
    }
}

impl Archive {
    /// The whole directory is still to go.
    pub fn new() -> (r: Archive)
        ensures
            r@ == seq!["."@],
    {
        let mut pending: Vec<String> = Vec::new();
        pending.push(".".to_owned());
        assert(texts(pending@) =~= seq!["."@]);
        Archive { pending }
    }

    /// The next entry, relative to the directory.
    pub fn next(&mut self) -> (r: Option<String>)
        ensures
            match r {
                None => old(self)@.len() == 0 && final(self)@ == old(self)@,
                Some(p) => old(self)@.len() > 0 && p@ == old(self)@.last() && final(self)@ == old(
                    self,
                )@.drop_last(),
            },
    {
        let ghost t = self@;
        let last = self.pending.pop();
        if last.is_some() {
            assert(texts(self.pending@) =~= t.drop_last());
        }
        last
    }

    /// Takes what stands at an entry, and the names in it where it is a directory. The head
    /// of the entry comes back. `place` is where it stands on the host.
    pub fn add(&mut self, entry: &str, place: &str, found: Found, names: &Vec<String>) -> (r: Result<
        EntryHead,
        Error,
    >)
        ensures
            match r {
                Ok(head) => head_of(found) == Some(head) && final(self)@ == after_entry(
                    old(self)@,
                    entry@,
                    found,
                    texts(names@),
                ),
                Err(e) => head_of(found) is None && final(self)@ == old(self)@ && e@ == seq![
                    "output contains a symlink or special file: "@ + place@,
                ],
            },
    {
        match found {
            Found::Other => Err(
                Error::of(glue("output contains a symlink or special file: ", place)),
            ),
            Found::File(size) => Ok(
                EntryHead { directory: false, mode: 0o644, size, uid: 0, gid: 0, mtime: 0 },
            ),
            Found::Directory => {
                let sorted = sort_texts(names);
                let ghost start = self@;
                let ghost all = entries_below(entry@, texts(names@));
                let ghost back = all.reverse();
                let mut i: usize = sorted.len();
                assert(start + back.take(0) =~= start);
                while i > 0
                    invariant
                        i <= sorted@.len(),
                        texts(sorted@) == sorted_texts(texts(names@)),
                        all == entries_below(entry@, texts(names@)),
                        back == all.reverse(),
                        self@ == start + back.take(sorted@.len() - i),
                    decreases i,
                {
                    let ghost done = self@;
                    let ghost n = sorted@.len() - i;
                    i -= 1;
                    let p = join_path(entry, sorted[i].as_str());
                    assert(texts(sorted@)[i as int] == sorted@[i as int]@);
                    assert(all[i as int] == p@);
                    assert(back[n] == p@);
                    self.pending.push(p);
                    assert(self@ =~= done.push(p@));
                    assert(back.take(n + 1) =~= back.take(n).push(back[n]));
                    assert(start + back.take(n).push(p@) =~= (start + back.take(n)).push(p@));
                }
                assert(back.take(back.len() as int) =~= back);
                Ok(EntryHead { directory: true, mode: 0o755, size: 0, uid: 0, gid: 0, mtime: 0 })
            },
        }
    }
}

// ------------------------------------------------------------ publishing

/// Where an output of a node is published.
pub open spec fn publication_place(
    destination: Seq<char>,
    scope: Seq<char>,
    rank: nat,
    name: Seq<char>,
) -> Seq<char> {
    trimmed_end(destination, '/') + "/"@ + (if scope == "per-node"@ {
        "nodes/"@ + decimal(rank)
    } else {
        "leader"@
    }) + "/"@ + name
}

/// How an output is published.
#[derive(Debug)]
pub enum Upload {
    /// It is copied to a file.
    Copy { target: String, uri: String },
    /// It is sent to an address.
    Send { url: String },
}

pub enum UploadView {
    Copy { target: Seq<char>, uri: Seq<char> },
    Send { url: Seq<char> },
}

impl View for Upload {
    type V = UploadView;

    open spec fn view(&self) -> UploadView {
        match self {
            Upload::Copy { target, uri } => UploadView::Copy { target: target@, uri: uri@ },
            Upload::Send { url } => UploadView::Send { url: url@ },
        }
    }
}

/// An object is named by its digest.
pub open spec fn object_file(root: Seq<char>, digest: Seq<char>) -> Seq<char> {
    below(below(root, "sha256"@), digest)
}

/// How an output is published under a destination, by its digest.
pub open spec fn upload_of(
    destination: Seq<char>,
    digest: Seq<char>,
    endpoint: Option<Seq<char>>,
) -> Result<UploadView, Seq<Seq<char>>> {
    if starts(destination, "file://"@) {
        let target = object_file(without(destination, "file://"@), digest);
        Ok(UploadView::Copy { target, uri: "file://"@ + target })
    } else if starts(destination, "s3://"@) {
        match endpoint {
            None => Err(
                seq![
                    "s3:// outputs require NIX_COMPUTE_S3_ENDPOINT (provider-managed HTTP gateway)"@,
                ],
            ),
            Some(e) => Ok(
                UploadView::Send {
                    url: trimmed_end(e, '/') + "/"@ + without(destination, "s3://"@) + "/sha256/"@
                        + digest,
                },
            ),
        }
    } else {
        Err(seq!["unsupported output destination; use file:// or s3://"@])
    }
}

/// How an output is published under a destination.
pub fn plan_upload(destination: &str, digest: &str, endpoint: Option<String>) -> (r: Result<
    Upload,
    Error,
>)
    ensures
        outcome(r) == upload_of(destination@, digest@, text_of(endpoint)),
{
    if let Some(root) = strip_prefix(destination, "file://") {
        let objects = join_path(root.as_str(), "sha256");
        let target = join_path(objects.as_str(), digest);
        let uri = glue("file://", target.as_str());
        return Ok(Upload::Copy { target, uri });
    }
    if let Some(rest) = strip_prefix(destination, "s3://") {
        return match endpoint {
            None => Err(
                Error::new(
                    "s3:// outputs require NIX_COMPUTE_S3_ENDPOINT (provider-managed HTTP gateway)",
                ),
            ),
            Some(e) => {
                let base = trim_end_char(e.as_str(), '/');
                let mut url = glue3(base.as_str(), "/", rest.as_str());
                url.append("/sha256/");
                url.append(digest);
                Ok(Upload::Send { url })
            },
        };
    }
    Err(Error::new("unsupported output destination; use file:// or s3://"))
}

/// How an output of a task is published, if it is.
pub open spec fn output_upload(
    output: TaskOutput,
    name: Seq<char>,
    rank: nat,
    digest: Seq<char>,
    endpoint: Option<Seq<char>>,
) -> Result<Option<UploadView>, Seq<Seq<char>>> {
    match text_of(output.destination) {
        None => Ok(None),
        Some(d) => match upload_of(
            publication_place(d, output.scope@, rank, name),
            digest,
            endpoint,
        ) {
            Ok(u) => Ok(Some(u)),
            Err(e) => Err(e),
        },
    }
}

/// How an output is written in the report.
pub open spec fn output_entry(
    output: TaskOutput,
    name: Seq<char>,
    rank: nat,
    digest: Seq<char>,
    uri: Option<Seq<char>>,
) -> JsonView {
    JsonView::Object(
        seq![
            ("name"@, JsonView::Text(name)),
            ("path"@, JsonView::Text(output.path@)),
            ("kind"@, JsonView::Text(output.kind@)),
            ("scope"@, JsonView::Text(output.scope@)),
            ("node_rank"@, whole(rank)),
            ("sha256"@, JsonView::Text(digest)),
            (
                "encoding"@,
                JsonView::Text(
                    if output.kind@ == "directory"@ {
                        "tar"@
                    } else {
                        "identity"@
                    },
                ),
            ),
            ("uri"@, text_or_null(uri)),
        ],
    )
}

/// Where an output ends up once it was published.
pub open spec fn upload_uri(u: UploadView) -> Seq<char> {
    match u {
        UploadView::Copy { uri, .. } => uri,
        UploadView::Send { url } => url,
    }
}

impl Upload {
    /// Where the output ends up.
    pub fn uri(&self) -> (r: String)
        ensures
            r@ == upload_uri(self@),
    {
        match self {
            Upload::Copy { uri, .. } => uri.clone(),
            Upload::Send { url } => url.clone(),
        }
    }
}

impl TaskOutput {
    /// How the output is published, if it is.
    pub fn upload(&self, name: &str, rank: u32, digest: &str, endpoint: Option<String>) -> (r: Result<
        Option<Upload>,
        Error,
    >)
        ensures
            match r {
                Ok(None) => output_upload(*self, name@, rank as nat, digest@, text_of(endpoint))
                    == Ok::<Option<UploadView>, Seq<Seq<char>>>(None),
                Ok(Some(u)) => output_upload(*self, name@, rank as nat, digest@, text_of(endpoint))
                    == Ok::<Option<UploadView>, Seq<Seq<char>>>(Some(u@)),
                Err(e) => output_upload(*self, name@, rank as nat, digest@, text_of(endpoint))
                    == Err::<Option<UploadView>, Seq<Seq<char>>>(e@),
            },
    {
        match &self.destination {
            None => Ok(None),
            Some(d) => {
                let base = trim_end_char(d.as_str(), '/');
                let scope = if same(self.scope.as_str(), "per-node") {
                    glue("nodes/", number(rank as u64).as_str())
                } else {
                    "leader".to_owned()
                };
                let mut place = glue3(base.as_str(), "/", scope.as_str());
                place.append("/");
                place.append(name);
                match plan_upload(place.as_str(), digest, endpoint) {
                    Ok(u) => Ok(Some(u)),
                    Err(e) => Err(e),
                }
            },
        }
    }

    /// How the output is written in the report, by its digest and where it was published.
    pub fn collect_output(&self, name: &str, rank: u32, digest: &str, uri: &Option<String>) -> (r:
        Json)
        ensures
            r@ == output_entry(*self, name@, rank as nat, digest@, text_of(*uri)),
    {
        let encoding = if same(self.kind.as_str(), "directory") {
            "tar"
        } else {
            "identity"
        };
        let r = Members::new().with("name", Json::text(name)).with(
            "path",
            Json::text(self.path.as_str()),
        ).with("kind", Json::text(self.kind.as_str())).with(
            "scope",
            Json::text(self.scope.as_str()),
        ).with("node_rank", Json::unsigned(rank as u64)).with("sha256", Json::text(digest)).with(
            "encoding",
            Json::text(encoding),
        ).with("uri", Json::optional_text(uri)).object();
        assert(r@->Object_0 =~= output_entry(
            *self,
            name@,
            rank as nat,
            digest@,
            text_of(*uri),
        )->Object_0);
        r
    }
}

// ----------------------------------------------------------------- laws

/// The order in which a file system lists a directory does not change the archive.
pub proof fn law_archives_forget_the_listing(
    pending: Seq<Seq<char>>,
    entry: Seq<char>,
    found: Found,
    names: Seq<Seq<char>>,
    other: Seq<Seq<char>>,
)
    requires
        names.to_multiset() == other.to_multiset(),
    ensures
        after_entry(pending, entry, found, names) == after_entry(pending, entry, found, other),
{
    law_sorting_forgets_the_order(names, other);
}

/// The entries that go into an archive, each with its head, in `steps` steps from what is still
/// to go, by what stands at each entry and the names that a directory lists. An entry that has
/// no head ends the archive.
pub open spec fn archived(
    pending: Seq<Seq<char>>,
    found: spec_fn(Seq<char>) -> Found,
    listing: spec_fn(Seq<char>) -> Seq<Seq<char>>,
    steps: nat,
) -> Seq<(Seq<char>, EntryHead)>
    decreases steps,
{
    if steps == 0 || pending.len() == 0 {
        Seq::empty()
    } else {
        let entry = pending.last();
        match head_of(found(entry)) {
            None => Seq::empty(),
            Some(head) => seq![(entry, head)] + archived(
                after_entry(pending.drop_last(), entry, found(entry), listing(entry)),
                found,
                listing,
                (steps - 1) as nat,
            ),
        }
    }
}

/// A directory makes one archive, entry by entry, on every host that holds the same files under
/// the same names: neither the order in which a file system lists them nor their owners, modes
/// and times are seen in it.
pub proof fn law_archives_are_alike(
    pending: Seq<Seq<char>>,
    found: spec_fn(Seq<char>) -> Found,
    listing: spec_fn(Seq<char>) -> Seq<Seq<char>>,
    other: spec_fn(Seq<char>) -> Seq<Seq<char>>,
    steps: nat,
)
    requires
        forall|entry: Seq<char>| #[trigger]
            listing(entry).to_multiset() == other(entry).to_multiset(),
    ensures
        archived(pending, found, listing, steps) == archived(pending, found, other, steps),
        forall|i: int|
            0 <= i < archived(pending, found, listing, steps).len() ==> {
                let (entry, head) = #[trigger] archived(pending, found, listing, steps)[i];
                head_of(found(entry)) == Some(head) && head.uid == 0 && head.gid == 0 && head.mtime
                    == 0
            },
    decreases steps,
{
    if steps > 0 && pending.len() > 0 {
        let entry = pending.last();
        let rest = pending.drop_last();
        if head_of(found(entry)) is Some {
            assert(listing(entry).to_multiset() == other(entry).to_multiset());
            law_archives_forget_the_listing(
                rest,
                entry,
                found(entry),
                listing(entry),
                other(entry),
            );
            law_archives_are_alike(
                after_entry(rest, entry, found(entry), listing(entry)),
                found,
                listing,
                other,
                (steps - 1) as nat,
            );
        }
    }
}

/// Whether an archive is done within `steps` steps: nothing is left to go, and everything had a
/// head.
pub open spec fn archive_is_done(
    pending: Seq<Seq<char>>,
    found: spec_fn(Seq<char>) -> Found,
    listing: spec_fn(Seq<char>) -> Seq<Seq<char>>,
    steps: nat,
) -> bool
    decreases steps,
{
    pending.len() == 0 || steps > 0 && head_of(found(pending.last())) is Some && archive_is_done(
        after_entry(
            pending.drop_last(),
            pending.last(),
            found(pending.last()),
            listing(pending.last()),
        ),
        found,
        listing,
        (steps - 1) as nat,
    )
}

/// Whether an entry goes into the archive from some place on.
pub open spec fn has_entry(
    entries: Seq<(Seq<char>, EntryHead)>,
    from: int,
    entry: Seq<char>,
) -> bool {
    exists|j: int| from <= j < entries.len() && (#[trigger] entries[j]).0 == entry
}

proof fn lemma_sorted_members(names: Seq<Seq<char>>, n: Seq<char>)
    ensures
        sorted_texts(names).contains(n) <==> names.contains(n),
{
    broadcast use vstd::seq_lib::group_to_multiset_ensures;

    lemma_text_order();
    names.lemma_sort_by_ensures(text_order());
    assert(names.contains(n) <==> names.to_multiset().count(n) > 0);
    assert(sorted_texts(names).contains(n) <==> sorted_texts(names).to_multiset().count(n) > 0);
}

/// What waits behind a directory: what waited before, and an entry for every name in it.
proof fn lemma_after_entry(
    rest: Seq<Seq<char>>,
    entry: Seq<char>,
    found: Found,
    names: Seq<Seq<char>>,
)
    ensures
        forall|k: int|
            0 <= k < rest.len() ==> #[trigger] after_entry(rest, entry, found, names).contains(
                rest[k],
            ),
        found is Directory ==> forall|n: Seq<char>|
            names.contains(n) ==> after_entry(rest, entry, found, names).contains(
                #[trigger] below(entry, n),
            ),
        forall|p: Seq<char>| #[trigger]
            after_entry(rest, entry, found, names).contains(p) ==> rest.contains(p) || found
                is Directory && exists|n: Seq<char>|
                names.contains(n) && p == #[trigger] below(entry, n),
{
    let after = after_entry(rest, entry, found, names);
    assert forall|k: int| 0 <= k < rest.len() implies #[trigger] after.contains(rest[k]) by {
        assert(after[k] == rest[k]);
    }
    if found is Directory {
        let sorted = sorted_texts(names);
        let all = entries_below(entry, names);
        let back = all.reverse();
        assert forall|n: Seq<char>| names.contains(n) implies after.contains(
            #[trigger] below(entry, n),
        ) by {
            lemma_sorted_members(names, n);
            let i = choose|i: int| 0 <= i < sorted.len() && sorted[i] == n;
            assert(all[i] == below(entry, n));
            assert(back[all.len() - 1 - i] == all[i]);
            assert(after[rest.len() + (all.len() - 1 - i)] == below(entry, n));
        }
        assert forall|p: Seq<char>| #[trigger] after.contains(p) implies rest.contains(p)
            || exists|n: Seq<char>| names.contains(n) && p == #[trigger] below(entry, n) by {
            let k = choose|k: int| 0 <= k < after.len() && after[k] == p;
            if k < rest.len() {
                assert(rest[k] == p);
            } else {
                let i = all.len() - 1 - (k - rest.len());
                assert(back[k - rest.len()] == all[i]);
                let n = sorted[i];
                assert(sorted.contains(n));
                lemma_sorted_members(names, n);
                assert(p == below(entry, n));
            }
        }
    }
}

/// Nothing is left out of an archive: everything that waits goes into it, and behind every
/// directory an entry for every name that it lists, be it a file or a directory that is empty
/// itself.
pub proof fn law_every_name_is_archived(
    pending: Seq<Seq<char>>,
    found: spec_fn(Seq<char>) -> Found,
    listing: spec_fn(Seq<char>) -> Seq<Seq<char>>,
    steps: nat,
)
    requires
        archive_is_done(pending, found, listing, steps),
    ensures
        ({
            let entries = archived(pending, found, listing, steps);
            &&& forall|k: int|
                0 <= k < pending.len() ==> has_entry(entries, 0, #[trigger] pending[k])
            &&& forall|i: int, n: Seq<char>|
                0 <= i < entries.len() && (#[trigger] entries[i]).1.directory && listing(
                    entries[i].0,
                ).contains(n) ==> has_entry(entries, i + 1, #[trigger] below(entries[i].0, n))
        }),
    decreases steps,
{
    let entries = archived(pending, found, listing, steps);
    if pending.len() > 0 {
        let entry = pending.last();
        let rest = pending.drop_last();
        let after = after_entry(rest, entry, found(entry), listing(entry));
        let later = archived(after, found, listing, (steps - 1) as nat);
        law_every_name_is_archived(after, found, listing, (steps - 1) as nat);
        lemma_after_entry(rest, entry, found(entry), listing(entry));
        assert forall|p: Seq<char>, from: int| #[trigger]
            has_entry(later, from, p) && from >= 0 implies has_entry(entries, from + 1, p) by {
            let j = choose|j: int| from <= j < later.len() && (#[trigger] later[j]).0 == p;
            assert(entries[j + 1] == later[j]);
        }
        assert forall|p: Seq<char>| #[trigger] after.contains(p) implies has_entry(later, 0, p) by {
            let k = choose|k: int| 0 <= k < after.len() && after[k] == p;
            assert(has_entry(later, 0, after[k]));
        }
        assert forall|k: int| 0 <= k < pending.len() implies has_entry(
            entries,
            0,
            #[trigger] pending[k],
        ) by {
            if k == pending.len() - 1 {
                assert(entries[0].0 == pending[k]);
            } else {
                assert(after.contains(rest[k]));
                assert(has_entry(later, 0, pending[k]));
                assert(has_entry(entries, 1, pending[k]));
                let j = choose|j: int|
                    1 <= j < entries.len() && (#[trigger] entries[j]).0 == pending[k];
                assert(entries[j].0 == pending[k]);
            }
        }
        assert forall|i: int, n: Seq<char>|
            0 <= i < entries.len() && (#[trigger] entries[i]).1.directory && listing(
                entries[i].0,
            ).contains(n) implies has_entry(entries, i + 1, #[trigger] below(entries[i].0, n)) by {
            if i == 0 {
                assert(after.contains(below(entry, n)));
                assert(has_entry(later, 0, below(entry, n)));
            } else {
                assert(entries[i] == later[i - 1]);
                assert(has_entry(later, (i - 1) + 1, below(later[i - 1].0, n)));
            }
        }
    }
}

/// A name as a directory lists it.
pub open spec fn plain_name(n: Seq<char>) -> bool {
    n.len() > 0 && !n.contains('/')
}

pub open spec fn lists_plain_names(listing: spec_fn(Seq<char>) -> Seq<Seq<char>>) -> bool {
    forall|e: Seq<char>, n: Seq<char>| #[trigger] listing(e).contains(n) ==> plain_name(n)
}

spec fn is_place(p: Seq<char>) -> bool {
    p.len() > 0 && p.last() != '/'
}

proof fn lemma_below_apart(d: Seq<char>, m: Seq<char>, e: Seq<char>, n: Seq<char>)
    requires
        is_place(d),
        is_place(e),
        plain_name(m),
        plain_name(n),
        below(d, m) == below(e, n),
    ensures
        d == e,
        m == n,
{
    let s = below(d, m);
    assert(m.contains(m[0]) && n.contains(n[0]));
    assert(s == d + seq!['/'] + m);
    assert(s == e + seq!['/'] + n);
    if d.len() < e.len() {
        assert(s[e.len() as int] == '/');
        assert(m[e.len() - d.len() - 1] == '/');
        assert(m.contains('/'));
    }
    if e.len() < d.len() {
        assert(s[d.len() as int] == '/');
        assert(n[d.len() - e.len() - 1] == '/');
        assert(n.contains('/'));
    }
    assert(d =~= s.take(d.len() as int));
    assert(e =~= s.take(e.len() as int));
    assert(m =~= s.skip(d.len() as int + 1));
    assert(n =~= s.skip(e.len() as int + 1));
}

proof fn lemma_below_is_place(e: Seq<char>, n: Seq<char>)
    requires
        is_place(e),
        plain_name(n),
    ensures
        is_place(below(e, n)),
        below(e, n).len() > 2,
{
    assert(n.contains(n[0]));
    assert(n.contains(n.last()));
    assert(below(e, n).last() == n.last());
}

/// Every entry waited from the start, or stands for a name that a directory before it lists.
proof fn lemma_entries_come_from_listings(
    pending: Seq<Seq<char>>,
    found: spec_fn(Seq<char>) -> Found,
    listing: spec_fn(Seq<char>) -> Seq<Seq<char>>,
    steps: nat,
)
    requires
        lists_plain_names(listing),
        forall|k: int| 0 <= k < pending.len() ==> is_place(#[trigger] pending[k]),
    ensures
        ({
            let entries = archived(pending, found, listing, steps);
            forall|i: int|
                0 <= i < entries.len() ==> is_place((#[trigger] entries[i]).0) && head_of(
                    found(entries[i].0),
                ) == Some(entries[i].1) && (pending.contains(entries[i].0) || listed_in(
                    entries,
                    listing,
                    entries[i].0,
                ))
        }),
    decreases steps,
{
    let entries = archived(pending, found, listing, steps);
    if steps > 0 && pending.len() > 0 && head_of(found(pending.last())) is Some {
        let entry = pending.last();
        let rest = pending.drop_last();
        let after = after_entry(rest, entry, found(entry), listing(entry));
        let later = archived(after, found, listing, (steps - 1) as nat);
        lemma_after_entry(rest, entry, found(entry), listing(entry));
        assert(is_place(pending[pending.len() - 1]));
        assert forall|k: int| 0 <= k < after.len() implies is_place(#[trigger] after[k]) by {
            assert(after.contains(after[k]));
            if rest.contains(after[k]) {
                let j = choose|j: int| 0 <= j < rest.len() && rest[j] == after[k];
                assert(pending[j] == after[k]);
            } else {
                let n = choose|n: Seq<char>|
                    listing(entry).contains(n) && after[k] == #[trigger] below(entry, n);
                lemma_below_is_place(entry, n);
            }
        }
        lemma_entries_come_from_listings(after, found, listing, (steps - 1) as nat);
        assert forall|i: int| 0 <= i < entries.len() implies is_place((#[trigger] entries[i]).0)
            && head_of(found(entries[i].0)) == Some(entries[i].1) && (pending.contains(
            entries[i].0,
        ) || listed_in(entries, listing, entries[i].0)) by {
            let p = entries[i].0;
            if i == 0 {
                assert(pending[pending.len() - 1] == p);
            } else {
                assert(entries[i] == later[i - 1]);
                if after.contains(p) {
                    if rest.contains(p) {
                        let j = choose|j: int| 0 <= j < rest.len() && rest[j] == p;
                        assert(pending[j] == p);
                    } else {
                        let n = choose|n: Seq<char>|
                            listing(entry).contains(n) && p == #[trigger] below(entry, n);
                        assert(is_listed(entries, listing, p, 0, n));
                    }
                } else {
                    let (j, n) = choose|j: int, n: Seq<char>|
                        is_listed(later, listing, p, j, n);
                    assert(entries[j + 1] == later[j]);
                    assert(is_listed(entries, listing, p, j + 1, n));
                }
            }
        }
    }
}

spec fn is_listed(
    entries: Seq<(Seq<char>, EntryHead)>,
    listing: spec_fn(Seq<char>) -> Seq<Seq<char>>,
    p: Seq<char>,
    j: int,
    n: Seq<char>,
) -> bool {
    0 <= j < entries.len() && entries[j].1.directory && listing(entries[j].0).contains(n) && p
        == below(entries[j].0, n)
}

spec fn listed_in(
    entries: Seq<(Seq<char>, EntryHead)>,
    listing: spec_fn(Seq<char>) -> Seq<Seq<char>>,
    p: Seq<char>,
) -> bool {
    exists|j: int, n: Seq<char>| is_listed(entries, listing, p, j, n)
}

/// What a directory of an archive lists, the entries of the archive tell.
proof fn lemma_entries_tell_listings(
    found: spec_fn(Seq<char>) -> Found,
    listing: spec_fn(Seq<char>) -> Seq<Seq<char>>,
    steps: nat,
    i: int,
    n: Seq<char>,
)
    requires
        lists_plain_names(listing),
        archive_is_done(seq!["."@], found, listing, steps),
        0 <= i < archived(seq!["."@], found, listing, steps).len(),
        archived(seq!["."@], found, listing, steps)[i].1.directory,
        plain_name(n),
    ensures
        listing(archived(seq!["."@], found, listing, steps)[i].0).contains(n) <==> has_entry(
            archived(seq!["."@], found, listing, steps),
            0,
            below(archived(seq!["."@], found, listing, steps)[i].0, n),
        ),
{
    reveal_strlit(".");
    let start = seq!["."@];
    let entries = archived(start, found, listing, steps);
    let e = entries[i].0;
    let p = below(e, n);
    assert(is_place("."@));
    lemma_entries_come_from_listings(start, found, listing, steps);
    law_every_name_is_archived(start, found, listing, steps);
    if listing(e).contains(n) {
        assert(has_entry(entries, i + 1, below(entries[i].0, n)));
        let j = choose|j: int| i + 1 <= j < entries.len() && (#[trigger] entries[j]).0 == p;
        assert(entries[j].0 == p);
    }
    if has_entry(entries, 0, p) {
        let j = choose|j: int| 0 <= j < entries.len() && (#[trigger] entries[j]).0 == p;
        lemma_below_is_place(e, n);
        assert(!start.contains(p)) by {
            assert("."@.len() == 1);
        }
        assert(listed_in(entries, listing, entries[j].0));
        let (k, m) = choose|k: int, m: Seq<char>| is_listed(entries, listing, p, k, m);
        lemma_below_apart(entries[k].0, m, e, n);
    }
}

/// Two directories make one archive only where they hold the same: every file the same size, and
/// every directory the same names. So another file, another size or one more empty directory
/// makes another list of entries.
pub proof fn law_archives_tell_directories_apart(
    found: spec_fn(Seq<char>) -> Found,
    listing: spec_fn(Seq<char>) -> Seq<Seq<char>>,
    steps: nat,
    other_found: spec_fn(Seq<char>) -> Found,
    other_listing: spec_fn(Seq<char>) -> Seq<Seq<char>>,
    other_steps: nat,
)
    requires
        lists_plain_names(listing),
        lists_plain_names(other_listing),
        archive_is_done(seq!["."@], found, listing, steps),
        archive_is_done(seq!["."@], other_found, other_listing, other_steps),
        archived(seq!["."@], found, listing, steps) == archived(
            seq!["."@],
            other_found,
            other_listing,
            other_steps,
        ),
    ensures
        has_entry(archived(seq!["."@], found, listing, steps), 0, "."@),
        forall|e: Seq<char>| #[trigger]
            has_entry(archived(seq!["."@], found, listing, steps), 0, e) ==> found(e)
                == other_found(e) && (found(e) is Directory ==> forall|n: Seq<char>| #[trigger]
                listing(e).contains(n) <==> other_listing(e).contains(n)),
{
    reveal_strlit(".");
    let start = seq!["."@];
    let entries = archived(start, found, listing, steps);
    assert(is_place("."@));
    lemma_entries_come_from_listings(start, found, listing, steps);
    lemma_entries_come_from_listings(start, other_found, other_listing, other_steps);
    law_every_name_is_archived(start, found, listing, steps);
    assert(has_entry(entries, 0, start[0]));
    assert forall|e: Seq<char>| #[trigger] has_entry(entries, 0, e) implies found(e)
        == other_found(e) && (found(e) is Directory ==> forall|n: Seq<char>| #[trigger]
        listing(e).contains(n) <==> other_listing(e).contains(n)) by {
        let i = choose|i: int| 0 <= i < entries.len() && (#[trigger] entries[i]).0 == e;
        assert(head_of(found(e)) == Some(entries[i].1));
        assert(head_of(other_found(e)) == Some(entries[i].1));
        if found(e) is Directory {
            assert forall|n: Seq<char>| #[trigger]
                listing(e).contains(n) <==> other_listing(e).contains(n) by {
                if plain_name(n) {
                    lemma_entries_tell_listings(found, listing, steps, i, n);
                    lemma_entries_tell_listings(
                        other_found,
                        other_listing,
                        other_steps,
                        i,
                        n,
                    );
                }
            }
        }
    }
}

/// An output that goes to a file ends up under its destination, the node or the leader, its
/// name and its digest. The report says so, and that a directory is one archive.
#[verifier::rlimit(50)]
#[verifier::spinoff_prover]
pub proof fn law_files_are_published_by_digest(
    output: TaskOutput,
    destination: Seq<char>,
    name: Seq<char>,
    rank: nat,
    digest: Seq<char>,
    endpoint: Option<Seq<char>>,
)
    requires
        text_of(output.destination) == Some(destination),
        starts(trimmed_end(destination, '/'), "file://"@),
        name.len() > 0,
        name.last() != '/',
        !absolute(digest),
    ensures
        output_upload(output, name, rank, digest, endpoint) matches Ok(Some(u)) && upload_uri(u)
            == trimmed_end(destination, '/') + (if output.scope@ == "per-node"@ {
            "/nodes/"@ + decimal(rank)
        } else {
            "/leader"@
        }) + "/"@ + name + "/sha256/"@ + digest && output_entry(
            output,
            name,
            rank,
            digest,
            Some(upload_uri(u)),
        )->Object_0.contains(("uri"@, JsonView::Text(upload_uri(u)))),
        forall|uri: Option<Seq<char>>|
            output.kind@ == "directory"@ ==> (#[trigger] output_entry(
                output,
                name,
                rank,
                digest,
                uri,
            ))->Object_0.contains(("encoding"@, JsonView::Text("tar"@))),
{
    reveal_strlit("file://");
    reveal_strlit("/");
    reveal_strlit("nodes/");
    reveal_strlit("/nodes/");
    reveal_strlit("leader");
    reveal_strlit("/leader");
    reveal_strlit("sha256");
    reveal_strlit("/sha256/");
    let base = trimmed_end(destination, '/');
    let root = without(base, "file://"@);
    let scope = if output.scope@ == "per-node"@ {
        "/nodes/"@ + decimal(rank)
    } else {
        "/leader"@
    };
    let place = publication_place(destination, output.scope@, rank, name);
    assert(place =~= base + scope + "/"@ + name);
    assert(place.subrange(0, 7) =~= base.subrange(0, 7));
    let below_root = without(place, "file://"@);
    assert(below_root =~= root + scope + "/"@ + name);
    let target = object_file(below_root, digest);
    assert(below_root.last() == name.last());
    assert(below(below_root, "sha256"@) =~= below_root + "/sha256"@) by {
        reveal_strlit("/sha256");
    }
    assert(target =~= below_root + "/sha256/"@ + digest) by {
        reveal_strlit("/sha256");
        assert((below_root + "/sha256"@).last() == '6');
    }
    let uri = "file://"@ + target;
    assert(base =~= "file://"@ + root);
    assert(uri =~= base + scope + "/"@ + name + "/sha256/"@ + digest);
    assert(output_entry(output, name, rank, digest, Some(uri))->Object_0[7] == (
        "uri"@,
        JsonView::Text(uri),
    ));
    assert forall|o: Option<Seq<char>>| output.kind@ == "directory"@ implies (
    #[trigger] output_entry(output, name, rank, digest, o))->Object_0.contains(
        ("encoding"@, JsonView::Text("tar"@)),
    ) by {
        assert(output_entry(output, name, rank, digest, o)->Object_0[6] == (
            "encoding"@,
            JsonView::Text("tar"@),
        ));
    }
}

/// Leaders' outputs are collected on the first node alone, and all that are required are
/// collected there.
pub proof fn law_leader_outputs(scope: Seq<char>, required: bool, rank: nat, exists_there: bool)
    requires
        scope == "leader"@,
    ensures
        rank != 0 ==> !collects(scope, required, rank, exists_there),
        rank == 0 && required ==> collects(scope, required, rank, exists_there),
{
}

/// Two nodes never publish the outputs that each of them has at one place.
pub proof fn law_nodes_publish_apart(
    destination: Seq<char>,
    name: Seq<char>,
    a: nat,
    b: nat,
)
    requires
        a != b,
    ensures
        publication_place(destination, "per-node"@, a, name) != publication_place(
            destination,
            "per-node"@,
            b,
            name,
        ),
{
    let front = trimmed_end(destination, '/') + "/"@ + "nodes/"@;
    let back = "/"@ + name;
    let x = publication_place(destination, "per-node"@, a, name);
    let y = publication_place(destination, "per-node"@, b, name);
    assert(x =~= front + decimal(a) + back);
    assert(y =~= front + decimal(b) + back);
    if x == y {
        assert(decimal(a).len() == decimal(b).len());
        assert(decimal(a) =~= x.subrange(
            front.len() as int,
            front.len() + decimal(a).len() as int,
        ));
        assert(decimal(b) =~= y.subrange(
            front.len() as int,
            front.len() + decimal(b).len() as int,
        ));
        lemma_decimal_reads_back(a);
        lemma_decimal_reads_back(b);
    }
}

/// An output is reported with its name, its place, what it is, whose it is, its digest and where it
/// went, each under its own name.
#[verifier::rlimit(50)]
#[verifier::spinoff_prover]
pub proof fn law_outputs_are_reported(
    output: TaskOutput,
    name: Seq<char>,
    rank: nat,
    digest: Seq<char>,
    uri: Option<Seq<char>>,
)
    ensures
        member_of(output_entry(output, name, rank, digest, uri), "name"@) == JsonView::Text(name),
        member_of(output_entry(output, name, rank, digest, uri), "path"@) == JsonView::Text(output.path@),
        member_of(output_entry(output, name, rank, digest, uri), "kind"@) == JsonView::Text(output.kind@),
        member_of(output_entry(output, name, rank, digest, uri), "scope"@) == JsonView::Text(output.scope@),
        member_of(output_entry(output, name, rank, digest, uri), "node_rank"@) == JsonView::Number(decimal(rank)),
        member_of(output_entry(output, name, rank, digest, uri), "sha256"@) == JsonView::Text(digest),
        member_of(output_entry(output, name, rank, digest, uri), "encoding"@) == JsonView::Text(
            if output.kind@ == "directory"@ {
                "tar"@
            } else {
                "identity"@
            },
        ),
        member_of(output_entry(output, name, rank, digest, uri), "uri"@) == (match uri {
            Some(u) => JsonView::Text(u),
            None => JsonView::Null,
        }),
        output_entry(output, name, rank, digest, uri)->Object_0.len() == 8,
{
    broadcast use lemma_lookup_push;

    reveal_strlit("name");
    reveal_strlit("path");
    reveal_strlit("kind");
    reveal_strlit("scope");
    reveal_strlit("node_rank");
    reveal_strlit("sha256");
    reveal_strlit("encoding");
    reveal_strlit("uri");
    assert("name"@.len() == 4 && "name"@[0] == 'n');
    assert("path"@.len() == 4 && "path"@[0] == 'p');
    assert("kind"@.len() == 4 && "kind"@[0] == 'k');
    assert("scope"@.len() == 5);
    assert("node_rank"@.len() == 9);
    assert("sha256"@.len() == 6);
    assert("encoding"@.len() == 8);
    assert("uri"@.len() == 3);
    let all = Seq::<(Seq<char>, JsonView)>::empty()
        .push(("name"@, JsonView::Text(name)))
        .push(("path"@, JsonView::Text(output.path@)))
        .push(("kind"@, JsonView::Text(output.kind@)))
        .push(("scope"@, JsonView::Text(output.scope@)))
        .push(("node_rank"@, whole(rank)))
        .push(("sha256"@, JsonView::Text(digest)))
        .push(("encoding"@, JsonView::Text(if output.kind@ == "directory"@ { "tar"@ } else { "identity"@ })))
        .push(("uri"@, text_or_null(uri)));
    assert(output_entry(output, name, rank, digest, uri)->Object_0 =~= all);
    assert(output_entry(output, name, rank, digest, uri) == JsonView::Object(all));
}

/// An output of the leader is collected on the first node, one of every node on each; one that
/// must be there is always collected, any other where it is. What is collected must be of the kind
/// that was declared, reached without a link, and lie below the directory of the outputs.
pub proof fn law_outputs_are_collected_where_they_are_due(
    scope: Seq<char>,
    required: bool,
    rank: nat,
    there: bool,
    kind: Seq<char>,
    found: Found,
    links: Seq<bool>,
    resolved: Seq<char>,
    root: Seq<char>,
)
    ensures
        collects(scope, required, rank, there) <==> (scope != "leader"@ || rank == 0) && (required
            || there),
        kind_check(kind, found) is Ok <==> kind == "file"@ && found is File || kind == "directory"@
            && found is Directory,
        output_check(links, resolved, root) is Ok <==> (forall|i: int|
            0 <= i < links.len() ==> !#[trigger] links[i]) && parts(root).len() <= parts(
            resolved,
        ).len() && parts(resolved).take(parts(root).len() as int) == parts(root),
        head_of(Found::Other) is None,
        head_of(Found::Directory) matches Some(h) && h.directory && h.mode == 493 && h.size == 0
            && h.uid == 0 && h.gid == 0 && h.mtime == 0,
        found matches Found::File(size) ==> (head_of(found) matches Some(h) && !h.directory
            && h.mode == 420 && h.size == size && h.uid == 0 && h.gid == 0 && h.mtime == 0),
{
    reveal_strlit("file");
    reveal_strlit("directory");
    assert("file"@.len() != "directory"@.len());
    if !links.contains(true) {
        assert forall|i: int| 0 <= i < links.len() implies !#[trigger] links[i] by {
            if links[i] {
                assert(links.contains(true));
            }
        }
    }
    if parts(root).len() <= parts(resolved).len() {
        assert(parts(resolved).subrange(0, parts(root).len() as int) =~= parts(resolved).take(
            parts(root).len() as int,
        ));
    }
}

/// Every place on the way to an output is looked at, one below the other, the output last.
pub proof fn law_every_place_on_the_way_is_seen(root: Seq<char>, names: Seq<Seq<char>>, i: int)
    requires
        0 <= i < names.len(),
    ensures
        ({
            let way = places_below(root, names.map_values(|n: Seq<char>| Part::Normal(n)));
            &&& way.len() == names.len()
            &&& way[i] == below(
                if i == 0 {
                    root
                } else {
                    way[i - 1]
                },
                names[i],
            )
        }),
    decreases names.len(),
{
    let all = names.map_values(|n: Seq<char>| Part::Normal(n));
    let t = names.drop_last();
    let front = t.map_values(|n: Seq<char>| Part::Normal(n));
    assert(all.drop_last() =~= front);
    assert(all.last() == Part::Normal(names.last()));
    let before_it = places_below(root, front);
    if t.len() > 0 {
        law_every_place_on_the_way_is_seen(
            root,
            t,
            if i < t.len() {
                i
            } else {
                t.len() - 1
            },
        );
    } else {
        assert(front =~= Seq::<Part>::empty());
        assert(before_it.len() == 0);
    }
}

/// An output that goes to a bucket ends up behind the gateway, under its destination, the node or
/// the leader, its name and its digest; without a gateway it cannot. Without a destination it
/// stays, and with any other one it is refused.
#[verifier::rlimit(50)]
#[verifier::spinoff_prover]
pub proof fn law_buckets_are_reached_through_the_gateway(
    output: TaskOutput,
    rest: Seq<char>,
    name: Seq<char>,
    rank: nat,
    digest: Seq<char>,
    endpoint: Option<Seq<char>>,
)
    requires
        rest.len() > 0,
        rest.last() != '/',
    ensures
        output.destination is None ==> output_upload(output, name, rank, digest, endpoint) == Ok::<
            Option<UploadView>,
            Seq<Seq<char>>,
        >(None),
        text_of(output.destination) == Some("s3://"@ + rest) && endpoint is None ==> output_upload(
            output,
            name,
            rank,
            digest,
            endpoint,
        ) is Err,
        text_of(output.destination) == Some("s3://"@ + rest) && endpoint is Some ==> (output_upload(
            output,
            name,
            rank,
            digest,
            endpoint,
        ) matches Ok(Some(u)) && u is Send && upload_uri(u) == trimmed_end(endpoint->0, '/') + "/"@
            + rest + (if output.scope@ == "per-node"@ {
            "/nodes/"@ + decimal(rank)
        } else {
            "/leader"@
        }) + "/"@ + name + "/sha256/"@ + digest),
{
    reveal_strlit("s3://");
    reveal_strlit("file://");
    reveal_strlit("/");
    reveal_strlit("nodes/");
    reveal_strlit("/nodes/");
    reveal_strlit("leader");
    reveal_strlit("/leader");
    let destination = "s3://"@ + rest;
    if text_of(output.destination) == Some(destination) {
        assert(destination.last() == rest.last());
        assert(trimmed_end(destination, '/') == destination);
        let scope = if output.scope@ == "per-node"@ {
            "/nodes/"@ + decimal(rank)
        } else {
            "/leader"@
        };
        let place = publication_place(destination, output.scope@, rank, name);
        let more = rest + scope + "/"@ + name;
        assert(place =~= "s3://"@ + more);
        law_texts_begin_and_end(place, "s3://"@, more);
        assert(place[0] == 's');
        if starts(place, "file://"@) {
            assert(place.subrange(0, 7)[0] == "file://"@[0]);
        }
        if let Some(e) = endpoint {
            assert(trimmed_end(e, '/') + "/"@ + more + "/sha256/"@ + digest =~= trimmed_end(e, '/')
                + "/"@ + rest + scope + "/"@ + name + "/sha256/"@ + digest);
        }
    }
}

/// An output is reported with its own digest and the place where it was put.
pub proof fn law_collected_outputs_are_reported(
    output: &TaskOutput,
    name: &str,
    rank: u32,
    digest: &str,
    uri: &Option<String>,
    entry: Json,
    there: bool,
    collected: bool,
    upload: Result<Option<Upload>, Error>,
    endpoint: Option<String>,
)
    requires
        call_ensures(TaskOutput::collect_output, (output, name, rank, digest, uri), entry),
        call_ensures(TaskOutput::is_collected, (output, rank, there), collected),
        call_ensures(TaskOutput::upload, (output, name, rank, digest, endpoint), upload),
    ensures
        member_of(entry@, "name"@) == JsonView::Text(name@),
        member_of(entry@, "path"@) == JsonView::Text(output.path@),
        member_of(entry@, "sha256"@) == JsonView::Text(digest@),
        member_of(entry@, "node_rank"@) == JsonView::Number(decimal(rank as nat)),
        *uri is Some ==> member_of(entry@, "uri"@) == JsonView::Text((*uri)->0@),
        output.kind@ == "directory"@ ==> member_of(entry@, "encoding"@) == JsonView::Text("tar"@),
        output.kind@ != "directory"@ ==> member_of(entry@, "encoding"@) == JsonView::Text(
            "identity"@,
        ),
        collected <==> (output.scope@ != "leader"@ || rank == 0) && (output.required || there),
        output.destination is None ==> (upload matches Ok(None)),
        output.destination is Some && name@.len() > 0 && name@.last() != '/' && !absolute(digest@)
            && starts(trimmed_end(output.destination->0@, '/'), "file://"@) ==> (upload matches Ok(
            Some(u),
        ) && u@ is Copy && upload_uri(u@) == trimmed_end(output.destination->0@, '/') + (
        if output.scope@ == "per-node"@ {
            "/nodes/"@ + decimal(rank as nat)
        } else {
            "/leader"@
        }) + "/"@ + name@ + "/sha256/"@ + digest@),
{
    law_outputs_are_reported(*output, name@, rank as nat, digest@, text_of(*uri));
    if output.destination is Some && name@.len() > 0 && name@.last() != '/' && !absolute(digest@)
        && starts(trimmed_end(output.destination->0@, '/'), "file://"@) {
        let d = output.destination->0@;
        law_files_are_published_by_digest(
            *output,
            d,
            name@,
            rank as nat,
            digest@,
            text_of(endpoint),
        );
        reveal_strlit("file://");
        reveal_strlit("s3://");
        let place = publication_place(d, output.scope@, rank as nat, name@);
        let base = trimmed_end(d, '/');
        assert(place.subrange(0, 7) =~= base.subrange(0, 7));
    }
}

/// An archive starts with the whole directory, takes its entries one by one, and gives each the
/// head that is due to what stands there.
pub proof fn law_archives_take_entry_by_entry(
    start: Archive,
    archive: &mut Archive,
    next: Option<String>,
    other: &mut Archive,
    entry: &str,
    place: &str,
    found: Found,
    names: &Vec<String>,
    head: Result<EntryHead, Error>,
)
    requires
        call_ensures(Archive::new, (), start),
        call_ensures(Archive::next, (archive,), next),
        call_ensures(Archive::add, (other, entry, place, found, names), head),
    ensures
        start@ == seq!["."@],
        next is None <==> old(archive)@.len() == 0,
        next matches Some(p) ==> final(archive)@.push(p@) == old(archive)@,
        head is Err <==> found is Other,
        head matches Ok(h) ==> head_of(found) == Some(h),
        found is File ==> final(other)@ == old(other)@,
        found is Directory ==> final(other)@.len() == old(other)@.len() + names@.len(),
        found is Directory ==> forall|i: int|
            0 <= i < names@.len() ==> final(other)@.contains(below(entry@, (#[trigger] names@[i])@)),
{
    if let Some(p) = next {
        assert(old(archive)@.drop_last().push(p@) =~= old(archive)@);
    }
    if found is Directory {
        let all = texts(names@);
        lemma_after_entry(old(other)@, entry@, found, all);
        lemma_text_order();
        all.lemma_sort_by_ensures(text_order());
        assert(sorted_texts(all).len() == all.len()) by {
            broadcast use vstd::seq_lib::group_to_multiset_ensures;

            assert(sorted_texts(all).len() == sorted_texts(all).to_multiset().len());
            assert(all.len() == all.to_multiset().len());
        }
        assert forall|i: int| 0 <= i < names@.len() implies final(other)@.contains(
            below(entry@, (#[trigger] names@[i])@),
        ) by {
            assert(all[i] == names@[i]@);
            assert(all.contains(all[i]));
        }
    }
}

/// What stands on the way to an output, and what it is, is checked as it is found.
pub proof fn law_found_outputs_are_checked(
    root: &str,
    path: &str,
    way: Result<Vec<String>, Error>,
    links: &Vec<bool>,
    resolved: &str,
    reached: Result<(), Error>,
    kind: &str,
    found: Found,
    fits: Result<(), Error>,
    upload: &Upload,
    uri: String,
)
    requires
        call_ensures(way_to_output, (root, path), way),
        call_ensures(checked_output, (links, resolved, root), reached),
        call_ensures(check_kind, (kind, found), fits),
        call_ensures(Upload::uri, (upload,), uri),
    ensures
        way is Ok <==> relative(path@) is Ok,
        way matches Ok(places) ==> texts(places@) == places_below(root@, parts(path@)),
        reached is Ok <==> !links@.contains(true) && within(parts(resolved@), parts(root@)),
        fits is Ok <==> kind@ == "file"@ && found is File || kind@ == "directory"@ && found
            is Directory,
        upload matches Upload::Copy { target: _, uri: place } ==> uri@ == place@,
        upload matches Upload::Send { url } ==> uri@ == url@,
{
}

} // verus!
