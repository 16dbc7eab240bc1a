//! What is asked of Nix: which flake and job a selector names, and what the answers must be.

use vstd::prelude::*;
use crate::canonical::{canonical_text, quoted};
use crate::error::{outcome, Error};
use crate::json::{member_of, text_in, Json, JsonView, Members};
use crate::map::lemma_lookup_push;
use crate::model::{
    fault, is_plain_name, lemma_plain_name, name_char, relative, relative_path, safe, safe_name,
    stored,
};
use crate::path::{absolute, below, is_absolute, join_path};
use crate::reading::{document, read};
use crate::text::{
    chars_of, ends, glue, glue3, hex_char, is_hex, law_texts_begin_and_end, starts, starts_with,
    string_of, strip_prefix, text_of, without,
};

verus! {

/// A flake, and a job in it.
#[derive(Debug)]
pub struct Selector {
    pub flake: String,
    pub job: String,
}

pub struct SelectorView {
    pub flake: Seq<char>,
    pub job: Seq<char>,
}

impl View for Selector {
    type V = SelectorView;

    open spec fn view(&self) -> SelectorView {
        SelectorView { flake: self.flake@, job: self.job@ }
    }
}

/// What stands before and behind the last occurrence of a character.
pub open spec fn last_split(s: Seq<char>, c: char) -> Option<(Seq<char>, Seq<char>)>
    decreases s.len(),
{
    if s.len() == 0 {
        None
    } else if s.last() == c {
        Some((s.drop_last(), Seq::empty()))
    } else {
        match last_split(s.drop_last(), c) {
            None => None,
            Some((a, b)) => Some((a, b.push(s.last()))),
        }
    }
}

/// What stands before the first occurrence of a character, or everything.
pub open spec fn before_first(s: Seq<char>, c: char) -> Seq<char>
    decreases s.len(),
{
    if s.len() == 0 || s[0] == c {
        Seq::empty()
    } else {
        seq![s[0]] + before_first(s.skip(1), c)
    }
}

/// The flake and the job that a text names.
pub open spec fn selector_of(value: Seq<char>) -> Result<SelectorView, Seq<Seq<char>>> {
    match last_split(value, '#') {
        None => Err(seq!["selector must be <flake>#<job>"@]),
        Some((flake, job)) => if flake.len() > 0 && flake[0] != '-' && safe(job) {
            Ok(SelectorView { flake, job })
        } else {
            Err(seq!["invalid flake or job selector"@])
        },
    }
}

fn split_last(s: &str, c: char) -> (r: Option<(String, String)>)
    ensures
        match r {
            None => last_split(s@, c) is None,
            Some(p) => last_split(s@, c) == Some((p.0@, p.1@)),
        },
{
    let x = chars_of(s);
    let mut i: usize = x.len();
    proof {
        assert(s@.take(s@.len() as int) =~= s@);
        lemma_split_tail(s@, c, s@.len() as int);
    }
    while i > 0 && x[i - 1] != c
        invariant
            x@ == s@,
            i <= x@.len(),
            forall|k: int| i <= k < x@.len() ==> #[trigger] s@[k] != c,
        decreases i,
    {
        i -= 1;
    }
    proof {
        lemma_split_tail(s@, c, i as int);
    }
    if i == 0 {
        assert(s@.take(0).len() == 0);
        return None;
    }
    assert(s@.take(i as int).last() == c);
    assert(s@.take(i as int).drop_last() =~= s@.subrange(0, i - 1));
    assert(Seq::<char>::empty() + s@.skip(i as int) =~= s@.subrange(i as int, s@.len() as int));
    Some((string_of(&x, 0, i - 1), string_of(&x, i, x.len())))
}

/// What stands behind the last occurrence does not matter to where it is.
proof fn lemma_split_tail(s: Seq<char>, c: char, i: int)
    requires
        0 <= i <= s.len(),
        forall|k: int| i <= k < s.len() ==> #[trigger] s[k] != c,
    ensures
        last_split(s, c) == match last_split(s.take(i), c) {
            None => None,
            Some((a, b)) => Some((a, b + s.skip(i))),
        },
    decreases s.len() - i,
{
    if i == s.len() {
        assert(s.take(i) =~= s);
        if let Some((a, b)) = last_split(s, c) {
            assert(b + s.skip(i) =~= b);
        }
    } else {
        lemma_split_tail(s, c, i + 1);
        assert(s.take(i + 1).drop_last() =~= s.take(i));
        assert(s.take(i + 1).last() == s[i]);
        if let Some((a, b)) = last_split(s.take(i), c) {
            assert(b.push(s[i]) + s.skip(i + 1) =~= b + s.skip(i));
        }
    }
}

impl Selector {
    /// The flake and the job that a text names.
    pub fn parse(value: &str) -> (r: Result<Selector, Error>)
        ensures
            outcome(r) == selector_of(value@),
    {
        match split_last(value, '#') {
            None => Err(Error::new("selector must be <flake>#<job>")),
            Some((flake, job)) => {
                let x = chars_of(flake.as_str());
                if x.len() > 0 && x[0] != '-' && safe_name(job.as_str()) {
                    Ok(Selector { flake, job })
                } else {
                    Err(Error::new("invalid flake or job selector"))
                }
            },
        }
    }
}

// ------------------------------------------------------------- snapshots

/// The path that a reference to a local flake names.
pub open spec fn local_path(reference: Seq<char>, directory: Seq<char>) -> Option<Seq<char>> {
    if starts(reference, "path:"@) {
        let path = before_first(without(reference, "path:"@), '?');
        Some(
            if absolute(path) {
                path
            } else {
                below(directory, path)
            },
        )
    } else {
        None
    }
}

fn text_before(s: &str, c: char) -> (r: String)
    ensures
        r@ == before_first(s@, c),
{
    let x = chars_of(s);
    let mut i: usize = 0;
    assert(s@.skip(0) =~= s@);
    assert(s@.subrange(0, 0) + before_first(s@, c) =~= before_first(s@, c));
    while i < x.len() && x[i] != c
        invariant
            x@ == s@,
            i <= x@.len(),
            before_first(s@, c) == s@.subrange(0, i as int) + before_first(s@.skip(i as int), c),
        decreases x.len() - i,
    {
        assert(s@.skip(i as int)[0] == x@[i as int]);
        assert(s@.skip(i as int).skip(1) =~= s@.skip(i + 1));
        assert(s@.subrange(0, i + 1) =~= s@.subrange(0, i as int) + seq![s@[i as int]]);
        assert(s@.subrange(0, i as int) + (seq![s@[i as int]] + before_first(s@.skip(i + 1), c))
            =~= s@.subrange(0, i + 1) + before_first(s@.skip(i + 1), c));
        i += 1;
    }
    assert(before_first(s@.skip(i as int), c) =~= Seq::empty()) by {
        if i < x.len() {
            assert(s@.skip(i as int)[0] == x@[i as int]);
        }
    }
    assert(before_first(s@, c) =~= s@.subrange(0, i as int));
    string_of(&x, 0, i)
}

/// The path that a reference to a local flake names, seen from a directory.
pub fn path_reference_base(reference: &str, directory: &str) -> (r: Option<String>)
    ensures
        text_of(r) == local_path(reference@, directory@),
{
    match strip_prefix(reference, "path:") {
        None => None,
        Some(rest) => {
            let path = text_before(rest.as_str(), '?');
            if is_absolute(path.as_str()) {
                Some(path)
            } else {
                Some(join_path(directory, path.as_str()))
            }
        },
    }
}

/// What a lock file tells of the flake itself.
pub open spec fn locked_root(lock: JsonView) -> JsonView {
    let nodes = member_of(lock, "nodes"@);
    let name = match text_in(member_of(nodes, "root"@)) {
        Some(n) => n,
        None => "root"@,
    };
    member_of(member_of(nodes, name), "locked"@)
}

pub open spec fn hex_only(s: Seq<char>) -> bool {
    forall|i: int| 0 <= i < s.len() ==> is_hex(#[trigger] s[i])
}

/// The directory of the flake in its source.
pub open spec fn flake_directory(locked: JsonView) -> Seq<char> {
    match text_in(member_of(locked, "dir"@)) {
        Some(d) => d,
        None => ""@,
    }
}

/// Whether what a lock file tells of the flake can be trusted in a reference.
pub open spec fn locked_check(locked: JsonView) -> Result<(), Seq<Seq<char>>> {
    let dir = flake_directory(locked);
    if dir.len() > 0 && relative(dir) is Err {
        relative(dir)
    } else {
        match text_in(member_of(locked, "rev"@)) {
            Some(rev) => if hex_only(rev) {
                Ok(())
            } else {
                fault("invalid source revision"@)
            },
            None => Ok(()),
        }
    }
}

/// The reference to a snapshot.
pub open spec fn snapshot_reference(root: Seq<char>, dir: Seq<char>) -> Seq<char> {
    "path:"@ + root + if dir.len() == 0 {
        ""@
    } else {
        "?dir="@ + dir
    }
}

/// What the report tells of the source.
pub open spec fn source_json(
    flake: Seq<char>,
    root: Seq<char>,
    lock: JsonView,
    closure: JsonView,
) -> JsonView {
    let locked = locked_root(lock);
    JsonView::Object(
        seq![
            (
                "metadata"@,
                JsonView::Object(
                    seq![
                        ("url"@, JsonView::Text(flake)),
                        ("locked"@, locked),
                        ("revision"@, member_of(locked, "rev"@)),
                        ("lastModified"@, member_of(locked, "lastModified"@)),
                        ("path"@, JsonView::Text(root)),
                    ],
                ),
            ),
            ("lock"@, lock),
            ("source"@, closure),
            ("archive"@, JsonView::Object(seq![("path"@, JsonView::Text(root))])),
        ],
    )
}

/// What a snapshot comes to: the selector for it, and what the report tells of the source.
pub open spec fn snapshot_is(
    of: SelectorView,
    root: Seq<char>,
    lock: JsonView,
    closure: JsonView,
    r: Result<(Selector, Json), Error>,
) -> bool {
    match r {
        Ok((s, source)) => locked_check(locked_root(lock)) is Ok && s@ == (SelectorView {
            flake: snapshot_reference(root, flake_directory(locked_root(lock))),
            job: of.job,
        }) && source@ == source_json(of.flake, root, lock, closure),
        Err(e) => locked_check(locked_root(lock)) matches Err(why) && e@ == why,
    }
}

fn member_copy(v: &Json, key: &str) -> (r: Json)
    ensures
        r@ == member_of(v@, key@),
{
    match v.get(key) {
        Some(j) => j.copy(),
        None => Json::Null,
    }
}

fn all_hex(s: &str) -> (r: bool)
    ensures
        r == hex_only(s@),
{
    let x = chars_of(s);
    let mut i: usize = 0;
    while i < x.len()
        invariant
            x@ == s@,
            i <= x@.len(),
            forall|k: int| 0 <= k < i ==> is_hex(#[trigger] s@[k]),
        decreases x.len() - i,
    {
        if !hex_char(x[i]) {
            assert(!is_hex(s@[i as int]));
            return false;
        }
        i += 1;
    }
    true
}

fn read_lock(lock: &Json) -> (r: Json)
    ensures
        r@ == locked_root(lock@),
{
    let nodes = member_copy(lock, "nodes");
    let name = match nodes.get_text("root") {
        Some(n) => n,
        None => "root".to_owned(),
    };
    let node = member_copy(&nodes, name.as_str());
    member_copy(&node, "locked")
}

impl Selector {
    /// The selector for the snapshot of a flake that lies at `root` in the store, and what the
    /// report tells of the source: its lock file and its closure.
    pub fn pinned(&self, root: &str, lock: &Json, closure: &Json) -> (r: Result<
        (Selector, Json),
        Error,
    >)
        ensures
            snapshot_is(self@, root@, lock@, closure@, r),
    {
        let locked = read_lock(lock);
        let dir = match locked.get_text("dir") {
            Some(d) => d,
            None => "".to_owned(),
        };
        proof {
            reveal_strlit("");
        }
        let empty = dir.as_str().unicode_len() == 0;
        if !empty {
            match relative_path(dir.as_str()) {
                Ok(_) => {},
                Err(e) => {
                    return Err(e);
                },
            }
        }
        if let Some(rev) = locked.get_text("rev") {
            if !all_hex(rev.as_str()) {
                return Err(Error::new("invalid source revision"));
            }
        }
        let tail = if empty {
            "".to_owned()
        } else {
            glue("?dir=", dir.as_str())
        };
        let flake = glue3("path:", root, tail.as_str());
        let metadata = Members::new().with("url", Json::text(self.flake.as_str())).with(
            "locked",
            locked.copy(),
        ).with("revision", member_copy(&locked, "rev")).with(
            "lastModified",
            member_copy(&locked, "lastModified"),
        ).with("path", Json::text(root)).object();
        let archive = Members::new().with("path", Json::text(root)).object();
        assert(archive@->Object_0 =~= seq![("path"@, JsonView::Text(root@))]);
        let ghost expected = source_json(self@.flake, root@, lock@, closure@);
        assert(metadata@->Object_0 =~= expected->Object_0[0].1->Object_0);
        let source = Members::new().with("metadata", metadata).with("lock", lock.copy()).with(
            "source",
            closure.copy(),
        ).with("archive", archive).object();
        assert(source@->Object_0 =~= expected->Object_0);
        Ok((Selector { flake, job: self.job.clone() }, source))
    }

    /// The selector for the snapshot of a flake, and what the report tells of the source, by
    /// the lock file as it lies in the snapshot.
    pub fn snapshot(&self, root: &str, lock: &[u8], closure: &Json) -> (r: Result<
        (Selector, Json),
        Error,
    >)
        ensures
            match document(lock@) {
                Ok(found) => snapshot_is(self@, root@, found, closure@, r),
                Err(why) => r matches Err(e) && e@ == why,
            },
    {
        match read(lock) {
            Ok(found) => self.pinned(root, &found, closure),
            Err(e) => Err(e),
        }
    }
}

// ------------------------------------------------------------ expressions

/// The expression that copies a directory into the store.
pub fn archive_expression(path: &str) -> (r: String)
    ensures
        r@ == "builtins.fetchTree { type = \"path\"; path = "@ + quoted(path@) + "; }"@,
{
    let text = canonical_text(&Json::text(path));
    glue3("builtins.fetchTree { type = \"path\"; path = ", text.as_str(), "; }")
}

/// The expression for where the source of a flake lies.
pub fn source_expression(flake: &str) -> (r: String)
    ensures
        r@ == "(builtins.getFlake "@ + quoted(flake@) + ").sourceInfo"@,
{
    let text = canonical_text(&Json::text(flake));
    glue3("(builtins.getFlake ", text.as_str(), ").sourceInfo")
}

/// A selector names a flake and no output of it.
pub fn check_fragment(fragment: &str) -> (r: Result<(), Error>)
    ensures
        outcome(r) == if fragment@.len() == 0 {
            Ok(())
        } else {
            fault("flake selector must not contain an output fragment"@)
        },
{
    if fragment.unicode_len() == 0 {
        Ok(())
    } else {
        Err(Error::new("flake selector must not contain an output fragment"))
    }
}

/// Takes a job, and leaves of each of its targets what is needed to choose one.
pub open spec fn projection() -> Seq<char> {
    "j: if (j.schema_version or 1) != 3 then throw \"unsupported schema; migrate inputs to source and rebuild with schema v3\" else builtins.removeAttrs j [ \"targets\" ] // { targets = builtins.mapAttrs (_: t: { inherit (t) name system executor accelerator resources execution; }) j.targets; }"@
}

/// The function that takes the jobs of a flake and gives one of them.
pub open spec fn job_function(job: Seq<char>) -> Seq<char> {
    "(jobs: if jobs ? \""@ + job + "\" then ("@ + projection() + ") jobs.\""@ + job
        + "\" else if builtins.any (name: builtins.match \".*-(linux|darwin)\" name != null) (builtins.attrNames jobs) then throw \"schema v1 is unsupported; migrate to compute.jobs.<job>.targets and perTarget\" else throw \"unknown compute job "@
        + job + "\")"@
}

/// The function that takes the outputs of a flake and gives a target.
pub open spec fn target_function(job: Seq<char>, name: Seq<char>) -> Seq<char> {
    "o: o.computeJobs.\""@ + job + "\".targets.\""@ + name + "\""@
}

impl Selector {
    /// The function that takes the jobs of a flake and gives this one.
    pub fn job(&self) -> (r: String)
        ensures
            r@ == job_function(self@.job),
    {
        let mut out = glue3("(jobs: if jobs ? \"", self.job.as_str(), "\" then (");
        out.append(
            "j: if (j.schema_version or 1) != 3 then throw \"unsupported schema; migrate inputs to source and rebuild with schema v3\" else builtins.removeAttrs j [ \"targets\" ] // { targets = builtins.mapAttrs (_: t: { inherit (t) name system executor accelerator resources execution; }) j.targets; }",
        );
        out.append(") jobs.\"");
        out.append(self.job.as_str());
        out.append(
            "\" else if builtins.any (name: builtins.match \".*-(linux|darwin)\" name != null) (builtins.attrNames jobs) then throw \"schema v1 is unsupported; migrate to compute.jobs.<job>.targets and perTarget\" else throw \"unknown compute job ",
        );
        out.append(self.job.as_str());
        out.append("\")");
        out
    }

    /// The function that takes the outputs of a flake and gives a target of this job.
    pub fn target(&self, name: &str) -> (r: Result<String, Error>)
        ensures
            outcome(r) == if safe(name@) {
                Ok::<Seq<char>, Seq<Seq<char>>>(target_function(self@.job, name@))
            } else {
                Err::<Seq<char>, Seq<Seq<char>>>(seq!["invalid target name"@])
            },
    {
        if !safe_name(name) {
            return Err(Error::new("invalid target name"));
        }
        let mut out = glue3("o: o.computeJobs.\"", self.job.as_str(), "\".targets.\"");
        out.append(name);
        out.append("\"");
        Ok(out)
    }

    /// Takes the path of an output that was built. Only a path in the store will do.
    pub fn build(path: String) -> (r: Result<String, Error>)
        ensures
            outcome(r) == if stored(path@) {
                Ok::<Seq<char>, Seq<Seq<char>>>(path@)
            } else {
                Err::<Seq<char>, Seq<Seq<char>>>(seq!["expected one Nix output path"@])
            },
    {
        if starts_with(path.as_str(), "/nix/store/") {
            Ok(path)
        } else {
            Err(Error::new("expected one Nix output path"))
        }
    }
}

/// The function that takes the outputs of a flake and gives one of them.
pub fn output_function(output: &str) -> (r: String)
    ensures
        r@ == "o: o."@ + output@,
{
    glue("o: o.", output)
}

// ----------------------------------------------------------------- laws

/// A selector is a flake and a job with a mark between them. The job is a plain name, so
/// nothing in it can end the name in an expression; the flake is no option of a command.
pub proof fn law_selectors_are_plain(value: Seq<char>)
    requires
        selector_of(value) is Ok,
    ensures
        ({
            let s = selector_of(value)->Ok_0;
            &&& value == s.flake + seq!['#'] + s.job
            &&& safe(s.job)
            &&& !s.job.contains('#')
            &&& !s.job.contains('"')
            &&& !s.job.contains('.')
            &&& s.flake.len() > 0
            &&& s.flake[0] != '-'
        }),
{
    lemma_last_split(value, '#');
    let s = selector_of(value)->Ok_0;
    assert forall|c: char| c == '#' || c == '"' || c == '.' implies !(#[trigger] s.job.contains(
        c,
    )) by {
        if s.job.contains(c) {
            let i = choose|i: int| 0 <= i < s.job.len() && s.job[i] == c;
            assert(name_char(s.job[i]));
        }
    }
}

proof fn lemma_last_split(s: Seq<char>, c: char)
    ensures
        last_split(s, c) matches Some((a, b)) ==> s == a + seq![c] + b,
    decreases s.len(),
{
    if s.len() > 0 {
        if s.last() == c {
            assert(s =~= s.drop_last() + seq![c] + Seq::empty());
        } else {
            lemma_last_split(s.drop_last(), c);
            if let Some((a, b)) = last_split(s.drop_last(), c) {
                assert(s =~= s.drop_last().push(s.last()));
                assert(a + seq![c] + b.push(s.last()) =~= (a + seq![c] + b).push(s.last()));
            }
        }
    }
}

proof fn lemma_split_at(flake: Seq<char>, c: char, job: Seq<char>)
    requires
        !job.contains(c),
    ensures
        last_split(flake + seq![c] + job, c) == Some((flake, job)),
    decreases job.len(),
{
    let s = flake + seq![c] + job;
    if job.len() == 0 {
        assert(s.last() == c);
        assert(s.drop_last() =~= flake);
        assert(job =~= Seq::empty());
    } else {
        let front = job.drop_last();
        assert(job[job.len() - 1] != c);
        assert(!front.contains(c)) by {
            if front.contains(c) {
                let i = choose|i: int| 0 <= i < front.len() && front[i] == c;
                assert(job[i] == c);
            }
        }
        assert(s.last() == job.last());
        assert(s.drop_last() =~= flake + seq![c] + front);
        lemma_split_at(flake, c, front);
        assert(front.push(job.last()) =~= job);
    }
}

/// A selector is a reference to a flake and the plain name of a job behind the last number sign:
/// every such text is read as these two, however many signs the reference holds.
pub proof fn law_selectors_are_read_as_written(flake: Seq<char>, job: Seq<char>)
    requires
        is_plain_name(job),
    ensures
        selector_of(flake + seq!['#'] + job) is Ok <==> flake.len() > 0 && flake[0] != '-',
        selector_of(flake + seq!['#'] + job) matches Ok(s) ==> s.flake == flake && s.job == job,
        !flake.contains('#') ==> selector_of(flake) is Err,
{
    assert(!job.contains('#')) by {
        if job.contains('#') {
            let i = choose|i: int| 0 <= i < job.len() && job[i] == '#';
            assert(job[i] == '#');
        }
    }
    lemma_plain_name(job);
    lemma_split_at(flake, '#', job);
    lemma_last_split(flake, '#');
    if let Some((a, b)) = last_split(flake, '#') {
        assert((a + seq!['#'] + b)[a.len() as int] == '#');
        assert(flake.contains('#'));
    }
}

proof fn lemma_before_first(path: Seq<char>, c: char, rest: Seq<char>)
    requires
        !path.contains(c),
        rest.len() == 0 || rest[0] == c,
    ensures
        before_first(path + rest, c) == path,
    decreases path.len(),
{
    let all = path + rest;
    if path.len() > 0 {
        assert(path[0] != c);
        assert(all[0] == path[0]);
        assert(all.skip(1) =~= path.skip(1) + rest);
        assert(!path.skip(1).contains(c)) by {
            if path.skip(1).contains(c) {
                let i = choose|i: int| 0 <= i < path.skip(1).len() && path.skip(1)[i] == c;
                assert(path[i + 1] == c);
            }
        }
        lemma_before_first(path.skip(1), c, rest);
        assert(seq![path[0]] + path.skip(1) =~= path);
    } else {
        assert(all =~= rest);
    }
}

/// A reference to a local directory is its path, up to its query; one that does not start at the
/// root is taken from the directory that it stands in. No other reference is local.
pub proof fn law_local_references_are_paths(
    path: Seq<char>,
    query: Seq<char>,
    directory: Seq<char>,
    reference: Seq<char>,
)
    requires
        !path.contains('?'),
        query.len() == 0 || query[0] == '?',
        directory.len() > 0,
        directory.last() != '/',
    ensures
        path.len() > 0 && path[0] == '/' ==> local_path("path:"@ + (path + query), directory)
            == Some(path),
        path.len() == 0 || path[0] != '/' ==> local_path("path:"@ + (path + query), directory)
            == Some(directory + "/"@ + path),
        !(reference.len() >= 5 && reference.take(5) == "path:"@) ==> local_path(
            reference,
            directory,
        ) is None,
{
    reveal_strlit("path:");
    reveal_strlit("/");
    law_texts_begin_and_end(reference, "path:"@, path + query);
    lemma_before_first(path, '?', query);
    if path.len() == 0 || path[0] != '/' {
        assert(below(directory, path) =~= directory + "/"@ + path);
    }
    if reference.len() >= 5 {
        assert(reference.subrange(0, 5) =~= reference.take(5));
    }
}

/// A snapshot is taken exactly where the subdirectory of the flake leads down and its revision is
/// one in hexadecimal digits. It refers to the copy in the store, and it tells the reference that
/// was given, the lock as it was found and what the source holds.
#[verifier::rlimit(50)]
#[verifier::spinoff_prover]
pub proof fn law_snapshots_refer_to_the_copy(
    flake: Seq<char>,
    root: Seq<char>,
    lock: JsonView,
    closure: JsonView,
    locked: JsonView,
    dir: Seq<char>,
)
    ensures
        locked_check(locked) is Ok <==> ({
            let d = member_of(locked, "dir"@);
            let rev = member_of(locked, "rev"@);
            &&& d is Text && d->Text_0.len() > 0 ==> relative(d->Text_0) is Ok
            &&& rev is Text ==> forall|i: int|
                0 <= i < rev->Text_0.len() ==> is_hex(#[trigger] rev->Text_0[i])
        }),
        dir.len() == 0 ==> snapshot_reference(root, dir) == "path:"@ + root,
        dir.len() > 0 ==> snapshot_reference(root, dir) == "path:"@ + root + "?dir="@ + dir,
        member_of(locked, "dir"@) is Text ==> flake_directory(locked) == member_of(
            locked,
            "dir"@,
        )->Text_0,
        !(member_of(locked, "dir"@) is Text) ==> flake_directory(locked).len() == 0,
        ({
            let nodes = member_of(lock, "nodes"@);
            let name = member_of(nodes, "root"@);
            locked_root(lock) == member_of(
                member_of(
                    nodes,
                    if name is Text {
                        name->Text_0
                    } else {
                        "root"@
                    },
                ),
                "locked"@,
            )
        }),
        ({
            let source = source_json(flake, root, lock, closure);
            let metadata = member_of(source, "metadata"@);
            &&& member_of(source, "lock"@) == lock
            &&& member_of(source, "source"@) == closure
            &&& member_of(member_of(source, "archive"@), "path"@) == JsonView::Text(root)
            &&& member_of(metadata, "url"@) == JsonView::Text(flake)
            &&& member_of(metadata, "locked"@) == locked_root(lock)
            &&& member_of(metadata, "revision"@) == member_of(locked_root(lock), "rev"@)
            &&& member_of(metadata, "lastModified"@) == member_of(
                locked_root(lock),
                "lastModified"@,
            )
            &&& member_of(metadata, "path"@) == JsonView::Text(root)
        }),
{
    broadcast use lemma_lookup_push;

    reveal_strlit("metadata");
    reveal_strlit("lock");
    reveal_strlit("source");
    reveal_strlit("archive");
    assert("metadata"@.len() == 8);
    assert("lock"@.len() == 4);
    assert("source"@.len() == 6);
    assert("archive"@.len() == 7);
    reveal_strlit("url");
    reveal_strlit("locked");
    reveal_strlit("revision");
    reveal_strlit("lastModified");
    reveal_strlit("path");
    assert("url"@.len() == 3);
    assert("locked"@.len() == 6);
    assert("revision"@.len() == 8);
    assert("lastModified"@.len() == 12);
    assert("path"@.len() == 4);
    reveal_strlit("");
    assert(""@ =~= Seq::empty());
    let d = flake_directory(locked);
    assert("path:"@ + root + Seq::<char>::empty() =~= "path:"@ + root);
    if dir.len() > 0 {
        assert(snapshot_reference(root, dir) =~= "path:"@ + root + "?dir="@ + dir);
    }
    if locked_check(locked) is Ok && member_of(locked, "rev"@) is Text {
        assert(hex_only(member_of(locked, "rev"@)->Text_0));
    }
    let source = source_json(flake, root, lock, closure);
    let s = source->Object_0;
    let e = Seq::<(Seq<char>, JsonView)>::empty();
    assert(s =~= e.push(s[0]).push(s[1]).push(s[2]).push(s[3]));
    let metadata = s[0].1;
    let m = metadata->Object_0;
    assert(m =~= e.push(m[0]).push(m[1]).push(m[2]).push(m[3]).push(m[4]));
    let archive = s[3].1;
    let a = archive->Object_0;
    assert(a =~= e.push(a[0]));
    assert(member_of(source, "metadata"@) == metadata);
    assert(member_of(source, "archive"@) == archive);
}

/// A job or a target is asked for under its own name, a target only under a plain one, and what
/// was built must lie in the store.
pub proof fn law_names_are_asked_for_as_they_are(
    selector: &Selector,
    name: &str,
    function: Result<String, Error>,
    path: String,
    built: Result<String, Error>,
)
    requires
        call_ensures(Selector::target, (selector, name), function),
        call_ensures(Selector::build, (path,), built),
    ensures
        function is Ok <==> is_plain_name(name@),
        function matches Ok(text) ==> text@ == "o: o.computeJobs.\""@ + selector.job@
            + "\".targets.\""@ + name@ + "\""@,
        built is Ok <==> path@.len() >= 11 && path@.take(11) == "/nix/store/"@,
        built matches Ok(place) ==> place@ == path@,
{
    lemma_plain_name(name@);
    reveal_strlit("/nix/store/");
    if path@.len() >= 11 {
        assert(path@.subrange(0, 11) =~= path@.take(11));
    }
}

/// A selector that is read names the flake and the job that were written, and the expressions that
/// are built from it quote what they are given.
pub proof fn law_expressions_quote_what_they_are_given(
    value: &str,
    read: Result<Selector, Error>,
    flake: Seq<char>,
    job: Seq<char>,
    path: &str,
    archive: String,
    source: String,
    fragment: Result<(), Error>,
    output: String,
)
    requires
        call_ensures(Selector::parse, (value,), read),
        value@ == flake + seq!['#'] + job,
        is_plain_name(job),
        call_ensures(archive_expression, (path,), archive),
        call_ensures(source_expression, (path,), source),
        call_ensures(check_fragment, (path,), fragment),
        call_ensures(output_function, (path,), output),
    ensures
        read is Ok <==> flake.len() > 0 && flake[0] != '-',
        read matches Ok(s) ==> s.flake@ == flake && s.job@ == job,
        archive@ == "builtins.fetchTree { type = \"path\"; path = "@ + quoted(path@) + "; }"@,
        source@ == "(builtins.getFlake "@ + quoted(path@) + ").sourceInfo"@,
        fragment is Ok <==> path@.len() == 0,
        output@ == "o: o."@ + path@,
{
    law_selectors_are_read_as_written(flake, job);
}

/// A job is asked for by its name in the outputs of its flake, in the version that is understood;
/// one that is not there is told to be unknown.
#[verifier::rlimit(50)]
#[verifier::spinoff_prover]
pub proof fn law_jobs_are_asked_for_by_name(selector: &Selector, text: String)
    requires
        call_ensures(Selector::job, (selector,), text),
    ensures
        starts(text@, "(jobs: if jobs ? \""@ + selector.job@ + "\" then (j: if (j.schema_version or 1) != 3 then throw "@),
        ends(text@, "throw \"unknown compute job "@ + selector.job@ + "\")"@),
{
    reveal_strlit("\" then (");
    reveal_strlit("j: if (j.schema_version or 1) != 3 then throw \"unsupported schema; migrate inputs to source and rebuild with schema v3\" else builtins.removeAttrs j [ \"targets\" ] // { targets = builtins.mapAttrs (_: t: { inherit (t) name system executor accelerator resources execution; }) j.targets; }");
    reveal_strlit("\" then (j: if (j.schema_version or 1) != 3 then throw ");
    reveal_strlit("\" else if builtins.any (name: builtins.match \".*-(linux|darwin)\" name != null) (builtins.attrNames jobs) then throw \"schema v1 is unsupported; migrate to compute.jobs.<job>.targets and perTarget\" else throw \"unknown compute job ");
    reveal_strlit("throw \"unknown compute job ");
    let head = "(jobs: if jobs ? \""@ + selector.job@;
    let middle = "\" then ("@ + projection();
    let known = "\" then (j: if (j.schema_version or 1) != 3 then throw "@;
    assert(middle.take(known.len() as int) =~= known);
    assert(text@.subrange(0, (head + known).len() as int) =~= head + known);
    let long = "\" else if builtins.any (name: builtins.match \".*-(linux|darwin)\" name != null) (builtins.attrNames jobs) then throw \"schema v1 is unsupported; migrate to compute.jobs.<job>.targets and perTarget\" else throw \"unknown compute job "@;
    let short = "throw \"unknown compute job "@;
    assert(long.skip(long.len() - short.len()) =~= short);
    let tail = short + selector.job@ + "\")"@;
    assert(text@.subrange(text@.len() - tail.len(), text@.len() as int) =~= tail);
}

/// A snapshot refers to the copy in the store and keeps the job; a local reference is its path.
pub proof fn law_pinned_selectors_keep_their_job(
    selector: &Selector,
    root: &str,
    lock: &Json,
    closure: &Json,
    r: Result<(Selector, Json), Error>,
    reference: &str,
    directory: &str,
    local: Option<String>,
)
    requires
        call_ensures(Selector::pinned, (selector, root, lock, closure), r),
        call_ensures(path_reference_base, (reference, directory), local),
    ensures
        r is Ok <==> locked_check(locked_root(lock@)) is Ok,
        r matches Ok(pair) ==> {
            &&& pair.0.job@ == selector.job@
            &&& starts(pair.0.flake@, "path:"@ + root@)
            &&& member_of(pair.1@, "lock"@) == lock@
            &&& member_of(pair.1@, "source"@) == closure@
            &&& member_of(member_of(pair.1@, "metadata"@), "url"@) == JsonView::Text(
                selector.flake@,
            )
        },
        local is Some <==> reference@.len() >= 5 && reference@.take(5) == "path:"@,
{
    let dir = flake_directory(locked_root(lock@));
    law_snapshots_refer_to_the_copy(
        selector.flake@,
        root@,
        lock@,
        closure@,
        locked_root(lock@),
        dir,
    );
    if let Ok(pair) = r {
        let head = "path:"@ + root@;
        assert(pair.0.flake@.subrange(0, head.len() as int) =~= head);
    }
    reveal_strlit("path:");
    if reference@.len() >= 5 {
        assert(reference@.subrange(0, 5) =~= reference@.take(5));
    }
}

} // verus!
