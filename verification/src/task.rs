//! A built task: where it lies, what it depends on, and what identifies it.

use vstd::prelude::*;
use crate::error::{outcome, Error};
use crate::json::{member_of, text_in, Json, JsonView, Members};
use crate::map::{lemma_lookup_push, StringMap};
use crate::model::{
    fault, is_plain_name, law_accepted_paths_lead_down, leads_down, lemma_plain_name, relative,
    relative_path, safe, safe_name, Target,
};
use crate::outputs::TaskOutput;
use crate::path::{
    components, is_within, is_within_any, named_parts, parts, parts_view, within, within_any,
    Component, Part,
};
use crate::selection::optional;
use crate::text::{glue, glue3, lemma_last_piece, pieces, text_of, texts};

verus! {

/// An input of a task: a path of the store, and where the workload finds it.
#[derive(Debug)]
pub struct TaskInput {
    pub source: String,
    pub path: String,
}

impl View for TaskInput {
    type V = TaskInput;

    open spec fn view(&self) -> TaskInput {
        *self
    }
}

impl View for TaskOutput {
    type V = TaskOutput;

    open spec fn view(&self) -> TaskOutput {
        *self
    }
}

/// A task that was built for one target.
#[derive(Debug)]
pub struct Task {
    pub source: String,
    pub target: Target,
    pub nodes: u32,
    pub image: Option<String>,
    pub inputs: StringMap<TaskInput>,
    pub outputs: StringMap<TaskOutput>,
}

/// The version of the files that describe tasks.
pub const TASK_SCHEMA: u32 = 3;

/// Whether a task is described in a way that is understood.
pub open spec fn schema_check(version: u32) -> Result<(), Seq<Seq<char>>> {
    if version == TASK_SCHEMA {
        Ok(())
    } else {
        fault("unsupported task schema; rebuild the task"@)
    }
}

/// Whether a task is described in a way that is understood.
pub fn check_schema(version: u32) -> (r: Result<(), Error>)
    ensures
        outcome(r) == schema_check(version),
{
    if version == TASK_SCHEMA {
        Ok(())
    } else {
        Err(Error::new("unsupported task schema; rebuild the task"))
    }
}

/// Whether a task asks for a node at least.
pub open spec fn nodes_check(nodes: u32) -> Result<(), Seq<Seq<char>>> {
    if nodes > 0 {
        Ok(())
    } else {
        fault("resources must be positive"@)
    }
}

/// Whether a task asks for a node at least.
pub fn check_nodes(nodes: u32) -> (r: Result<(), Error>)
    ensures
        outcome(r) == nodes_check(nodes),
{
    if nodes > 0 {
        Ok(())
    } else {
        Err(Error::new("resources must be positive"))
    }
}

/// Whether an input or an output, as `sort` says, has a name and a path that will do.
pub open spec fn artifact_check(sort: Seq<char>, name: Seq<char>, path: Seq<char>) -> Result<
    (),
    Seq<Seq<char>>,
> {
    if !safe(name) {
        fault("invalid "@ + sort + " name "@ + name)
    } else {
        relative(path)
    }
}

/// Whether an input or an output, as `sort` says, has a name and a path that will do.
pub fn check_artifact(sort: &str, name: &str, path: &str) -> (r: Result<(), Error>)
    ensures
        outcome(r) == artifact_check(sort@, name@, path@),
{
    if !safe_name(name) {
        let front = glue3("invalid ", sort, " name ");
        return Err(Error::of(glue(front.as_str(), name)));
    }
    relative_path(path)
}

/// What identifies a job, whatever its target.
pub open spec fn job_identity_of(job: JsonView) -> JsonView {
    JsonView::Object(
        seq![
            ("schema_version"@, member_of(job, "schema_version"@)),
            ("name"@, member_of(job, "name"@)),
            ("artifacts"@, member_of(job, "artifacts"@)),
            ("parameters"@, member_of(job, "parameters"@)),
            ("reproducibility"@, member_of(job, "reproducibility"@)),
        ],
    )
}

fn member(job: &Json, key: &str) -> (r: Json)
    ensures
        r@ == member_of(job@, key@),
{
    match job.get(key) {
        Some(found) => found.copy(),
        None => Json::Null,
    }
}

/// What identifies a job, whatever its target.
pub fn job_identity(job: &Json) -> (r: Json)
    ensures
        r@ == job_identity_of(job@),
{
    let r = Members::new().with("schema_version", member(job, "schema_version")).with(
        "name",
        member(job, "name"),
    ).with("artifacts", member(job, "artifacts")).with(
        "parameters",
        member(job, "parameters"),
    ).with("reproducibility", member(job, "reproducibility")).object();
    assert(r@->Object_0 =~= job_identity_of(job@)->Object_0);
    r
}

/// A task lies directly in the store.
pub open spec fn task_place_check(root: Seq<char>) -> Result<(), Seq<Seq<char>>> {
    let p = parts(root);
    if p.len() > 0 && p.last() is Normal && p.drop_last() == parts("/nix/store"@) {
        Ok(())
    } else {
        fault("task must be a top-level Nix store output"@)
    }
}

/// Whether a task lies directly in the store, once every link to it is followed.
pub fn check_task_place(root: &str) -> (r: Result<(), Error>)
    ensures
        outcome(r) == task_place_check(root@),
{
    let mut p = components(root);
    let store = components("/nix/store");
    let ghost whole = parts_view(p@);
    match p.pop() {
        Some(Component::Normal(_)) => {
            assert(parts_view(p@) =~= whole.drop_last());
            if is_within(&p, &store) && is_within(&store, &p) {
                proof {
                    let a = parts_view(p@);
                    let b = parts_view(store@);
                    assert(a.subrange(0, b.len() as int) =~= a);
                    assert(b.subrange(0, a.len() as int) =~= b);
                }
                return Ok(());
            }
            proof {
                let a = parts_view(p@);
                let b = parts_view(store@);
                if a == b {
                    assert(a.subrange(0, b.len() as int) =~= a);
                }
            }
            Err(Error::new("task must be a top-level Nix store output"))
        },
        _ => Err(Error::new("task must be a top-level Nix store output")),
    }
}

/// A task for several nodes needs to be told its place among them.
pub fn check_single_node(task: &Task) -> (r: Result<(), Error>)
    ensures
        outcome(r) == if task.nodes == 1 {
            Ok(())
        } else {
            fault("multi-node execution requires --context and --coordination-dir"@)
        },
{
    if task.nodes == 1 {
        Ok(())
    } else {
        Err(Error::new("multi-node execution requires --context and --coordination-dir"))
    }
}

// ----------------------------------------------------------- dependencies

pub open spec fn input_sources(inputs: Seq<(Seq<char>, TaskInput)>) -> Seq<Seq<char>> {
    inputs.map_values(|e: (Seq<char>, TaskInput)| e.1.source@)
}

/// Everything that a task depends on.
pub open spec fn dependencies_of(t: Task) -> Seq<Seq<char>> {
    seq![t.target.entrypoint@[0]@, t.target.program@] + optional(text_of(t.target.probe)) + texts(
        t.target.runtime_paths@,
    ) + input_sources(t.inputs@) + optional(text_of(t.image)) + seq![t.source@]
}

/// Where a dependency lies.
#[derive(Debug)]
pub enum Located {
    /// It is not there, and why.
    Missing(String),
    /// Its place, once every link is followed.
    At(String),
}

pub enum LocatedView {
    Missing(Seq<char>),
    At(Seq<char>),
}

impl View for Located {
    type V = LocatedView;

    open spec fn view(&self) -> LocatedView {
        match self {
            Located::Missing(why) => LocatedView::Missing(why@),
            Located::At(p) => LocatedView::At(p@),
        }
    }
}

/// Whether a dependency lies in the closure of its task.
pub open spec fn dependency_check(
    path: Seq<char>,
    found: LocatedView,
    closure: Seq<Seq<char>>,
) -> Result<(), Seq<Seq<char>>> {
    match found {
        LocatedView::Missing(why) => Err(seq!["missing task dependency "@ + path, why]),
        LocatedView::At(place) => if within_any(parts(place), closure) {
            Ok(())
        } else {
            fault("task dependency is outside bundle closure: "@ + path)
        },
    }
}

fn push_text(out: &mut Vec<String>, s: &str)
    ensures
        texts(final(out)@) == texts(old(out)@).push(s@),
{
    let ghost done = texts(out@);
    out.push(s.to_owned());
    assert(texts(out@) =~= done.push(s@));
}

fn push_texts(out: &mut Vec<String>, more: &Vec<String>)
    ensures
        texts(final(out)@) == texts(old(out)@) + texts(more@),
{
    let ghost start = texts(out@);
    let mut i: usize = 0;
    assert(start + texts(more@).take(0) =~= start);
    while i < more.len()
        invariant
            i <= more@.len(),
            texts(out@) == start + texts(more@).take(i as int),
        decreases more.len() - i,
    {
        push_text(out, more[i].as_str());
        assert(texts(more@).take(i + 1) =~= texts(more@).take(i as int).push(more@[i as int]@));
        assert(texts(out@) =~= start + texts(more@).take(i + 1));
        i += 1;
    }
    assert(texts(more@).take(more@.len() as int) =~= texts(more@));
}

impl Task {
    /// Everything that the task depends on.
    pub fn dependencies(&self) -> (r: Vec<String>)
        requires
            self.target.entrypoint@.len() > 0,
        ensures
            texts(r@) == dependencies_of(*self),
    {
        let mut out: Vec<String> = Vec::new();
        push_text(&mut out, self.target.entrypoint[0].as_str());
        push_text(&mut out, self.target.program.as_str());
        assert(texts(out@) =~= seq![self.target.entrypoint@[0]@, self.target.program@]);
        let ghost a = texts(out@);
        if let Some(p) = &self.target.probe {
            push_text(&mut out, p.as_str());
        }
        assert(texts(out@) =~= a + optional(text_of(self.target.probe)));
        push_texts(&mut out, &self.target.runtime_paths);
        let ghost b = texts(out@);
        let ghost sources = input_sources(self.inputs@);
        let mut i: usize = 0;
        assert(b + sources.take(0) =~= b);
        while i < self.inputs.len()
            invariant
                sources == input_sources(self.inputs@),
                i <= self.inputs@.len(),
                texts(out@) == b + sources.take(i as int),
            decreases self.inputs@.len() - i,
        {
            push_text(&mut out, self.inputs.value(i).source.as_str());
            assert(sources.take(i + 1) =~= sources.take(i as int).push(sources[i as int]));
            assert(texts(out@) =~= b + sources.take(i + 1));
            i += 1;
        }
        assert(sources.take(sources.len() as int) =~= sources);
        let ghost c = texts(out@);
        if let Some(p) = &self.image {
            push_text(&mut out, p.as_str());
        }
        assert(texts(out@) =~= c + optional(text_of(self.image)));
        let ghost d = texts(out@);
        push_text(&mut out, self.source.as_str());
        assert(texts(out@) =~= d + seq![self.source@]);
        out
    }
}

/// Whether a dependency lies in the closure of its task.
pub fn check_dependency(path: &str, found: Located, closure: &Vec<String>) -> (r: Result<
    (),
    Error,
>)
    ensures
        outcome(r) == dependency_check(path@, found@, texts(closure@)),
{
    match found {
        Located::Missing(why) => {
            let message = glue("missing task dependency ", path);
            let e = Error::of(why).context(message.as_str());
            assert(e@ =~= seq![message@, why@]);
            Err(e)
        },
        Located::At(place) => if is_within_any(&components(place.as_str()), closure) {
            Ok(())
        } else {
            Err(Error::of(glue("task dependency is outside bundle closure: ", path)))
        },
    }
}

// -------------------------------------------------------------- identity

/// What identifies a task: its path in the store, and the digest of its contents.
pub open spec fn task_identity_json(path: Seq<char>, nar_hash: Seq<char>) -> JsonView {
    JsonView::Object(
        seq![("path"@, JsonView::Text(path)), ("nar_hash"@, JsonView::Text(nar_hash))],
    )
}

/// What identifies a task, by its closure.
pub open spec fn task_identity_of(path: Seq<char>, closure: JsonView) -> Result<
    JsonView,
    Seq<Seq<char>>,
> {
    match text_in(member_of(member_of(closure, path), "narHash"@)) {
        Some(hash) => Ok(task_identity_json(path, hash)),
        None => Err(seq!["bundle NAR hash missing"@]),
    }
}

/// What identifies a task, by its closure.
pub fn task_identity(path: &str, closure: &Json) -> (r: Result<Json, Error>)
    ensures
        outcome(r) == task_identity_of(path@, closure@),
{
    let hash = match closure.get(path) {
        Some(info) => info.get_text("narHash"),
        None => None,
    };
    match hash {
        Some(h) => {
            let r = Members::new().with("path", Json::text(path)).with(
                "nar_hash",
                Json::text(h.as_str()),
            ).object();
            assert(r@->Object_0 =~= task_identity_json(path@, h@)->Object_0);
            Ok(r)
        },
        None => Err(Error::new("bundle NAR hash missing")),
    }
}

/// What identifies the job of a task is what its description says, each thing under its own name.
#[verifier::rlimit(50)]
#[verifier::spinoff_prover]
pub proof fn law_jobs_of_tasks_are_identified(job: JsonView)
    ensures
        member_of(job_identity_of(job), "schema_version"@) == member_of(job, "schema_version"@),
        member_of(job_identity_of(job), "name"@) == member_of(job, "name"@),
        member_of(job_identity_of(job), "artifacts"@) == member_of(job, "artifacts"@),
        member_of(job_identity_of(job), "parameters"@) == member_of(job, "parameters"@),
        member_of(job_identity_of(job), "reproducibility"@) == member_of(job, "reproducibility"@),
        job_identity_of(job)->Object_0.len() == 5,
{
    broadcast use lemma_lookup_push;

    reveal_strlit("schema_version");
    reveal_strlit("name");
    reveal_strlit("artifacts");
    reveal_strlit("parameters");
    reveal_strlit("reproducibility");
    assert("schema_version"@.len() == 14);
    assert("name"@.len() == 4);
    assert("artifacts"@.len() == 9);
    assert("parameters"@.len() == 10);
    assert("reproducibility"@.len() == 15);
    let all = Seq::<(Seq<char>, JsonView)>::empty()
        .push(("schema_version"@, member_of(job, "schema_version"@)))
        .push(("name"@, member_of(job, "name"@)))
        .push(("artifacts"@, member_of(job, "artifacts"@)))
        .push(("parameters"@, member_of(job, "parameters"@)))
        .push(("reproducibility"@, member_of(job, "reproducibility"@)));
    assert(job_identity_of(job)->Object_0 =~= all);
    assert(job_identity_of(job) == JsonView::Object(all));
}

/// A task is accepted exactly where it is described in the version that is understood, asks for a
/// node, and its inputs and outputs have plain names and lead down.
pub proof fn law_accepted_tasks_are_sound(
    version: u32,
    nodes: u32,
    sort: Seq<char>,
    name: Seq<char>,
    path: Seq<char>,
)
    ensures
        schema_check(version) is Ok <==> version == 3,
        nodes_check(nodes) is Ok <==> nodes >= 1,
        artifact_check(sort, name, path) is Ok <==> is_plain_name(name) && leads_down(path),
{
    lemma_plain_name(name);
    law_accepted_paths_lead_down(path);
}

/// A task must lie directly in the store: there is one name below it, and no more.
#[verifier::rlimit(50)]
#[verifier::spinoff_prover]
pub proof fn law_tasks_lie_directly_in_the_store(root: Seq<char>)
    ensures
        task_place_check(root) is Ok <==> parts(root).len() == 4 && parts(root)[0] == Part::Root
            && parts(root)[1] == Part::Normal("nix"@) && parts(root)[2] == Part::Normal("store"@)
            && parts(root)[3] is Normal,
{
    reveal_strlit("/nix/store");
    reveal_strlit("nix");
    reveal_strlit("store");
    reveal_strlit(".");
    reveal_strlit("..");
    let empty = Seq::<char>::empty();
    let first = seq!['/'] + "nix"@;
    assert(!"nix"@.contains('/'));
    assert(!"store"@.contains('/'));
    lemma_last_piece(empty, '/', empty);
    lemma_last_piece(empty, '/', "nix"@);
    assert(empty + seq!['/'] + "nix"@ =~= first);
    lemma_last_piece(first, '/', "store"@);
    assert(first + seq!['/'] + "store"@ =~= "/nix/store"@);
    let between = pieces("/nix/store"@, '/');
    assert(between =~= seq![empty, "nix"@, "store"@]);
    let two = between.drop_last();
    let one = two.drop_last();
    assert(two =~= seq![empty, "nix"@]);
    assert(one =~= seq![empty]);
    assert(one.drop_last() =~= Seq::<Seq<char>>::empty());
    assert(named_parts(one.drop_last()) =~= Seq::empty());
    assert(one.last() =~= empty);
    assert(named_parts(one) =~= Seq::empty());
    assert(named_parts(two) =~= seq![Part::Normal("nix"@)]);
    assert(named_parts(between) =~= seq![Part::Normal("nix"@), Part::Normal("store"@)]);
    let store = parts("/nix/store"@);
    assert(store =~= seq![Part::Root, Part::Normal("nix"@), Part::Normal("store"@)]);
    let p = parts(root);
    if task_place_check(root) is Ok {
        assert(p.drop_last().len() == 3);
        assert(p[0] == p.drop_last()[0] && p[1] == p.drop_last()[1] && p[2] == p.drop_last()[2]);
    }
    if p.len() == 4 && p[0] == Part::Root && p[1] == Part::Normal("nix"@) && p[2] == Part::Normal(
        "store"@,
    ) {
        assert(p.drop_last() =~= store);
    }
}

/// A task depends on everything that it needs to run: its entrypoint and its program, its probe,
/// its runtime, the source of every input, its image and the source of the job, and on nothing
/// else.
#[verifier::rlimit(50)]
#[verifier::spinoff_prover]
pub proof fn law_tasks_depend_on_all_they_need(t: Task, path: Seq<char>)
    requires
        t.target.entrypoint@.len() > 0,
    ensures
        dependencies_of(t).contains(path) <==> {
            ||| path == t.target.entrypoint@[0]@
            ||| path == t.target.program@
            ||| t.target.probe is Some && path == t.target.probe->0@
            ||| exists|i: int|
                0 <= i < t.target.runtime_paths@.len() && path == (
                #[trigger] t.target.runtime_paths@[i])@
            ||| exists|i: int|
                0 <= i < t.inputs@.len() && path == (#[trigger] t.inputs@[i]).1.source@
            ||| t.image is Some && path == t.image->0@
            ||| path == t.source@
        },
{
    let a = seq![t.target.entrypoint@[0]@, t.target.program@];
    let b = optional(text_of(t.target.probe));
    let c = texts(t.target.runtime_paths@);
    let d = input_sources(t.inputs@);
    let e = optional(text_of(t.image));
    let f = seq![t.source@];
    let all = dependencies_of(t);
    assert(all == a + b + c + d + e + f);
    lemma_either(a, b, path);
    lemma_either(a + b, c, path);
    lemma_either(a + b + c, d, path);
    lemma_either(a + b + c + d, e, path);
    lemma_either(a + b + c + d + e, f, path);
    assert(a.contains(path) <==> path == t.target.entrypoint@[0]@ || path == t.target.program@) by {
        assert(a[0] == t.target.entrypoint@[0]@ && a[1] == t.target.program@);
    }
    assert(b.contains(path) <==> t.target.probe is Some && path == t.target.probe->0@) by {
        if t.target.probe is Some {
            assert(b[0] == t.target.probe->0@);
        }
    }
    assert(e.contains(path) <==> t.image is Some && path == t.image->0@) by {
        if t.image is Some {
            assert(e[0] == t.image->0@);
        }
    }
    assert(f.contains(path) <==> path == t.source@) by {
        assert(f[0] == t.source@);
    }
    if c.contains(path) {
        let i = choose|i: int| 0 <= i < c.len() && c[i] == path;
        assert(path == t.target.runtime_paths@[i]@);
    }
    if exists|i: int|
        0 <= i < t.target.runtime_paths@.len() && path == (#[trigger] t.target.runtime_paths@[i])@ {
        let i = choose|i: int|
            0 <= i < t.target.runtime_paths@.len() && path == (
            #[trigger] t.target.runtime_paths@[i])@;
        assert(c[i] == path);
    }
    if d.contains(path) {
        let i = choose|i: int| 0 <= i < d.len() && d[i] == path;
        assert(path == t.inputs@[i].1.source@);
    }
    if exists|i: int| 0 <= i < t.inputs@.len() && path == (#[trigger] t.inputs@[i]).1.source@ {
        let i = choose|i: int|
            0 <= i < t.inputs@.len() && path == (#[trigger] t.inputs@[i]).1.source@;
        assert(d[i] == path);
    }
}

/// What several lists hold is in one of them.
pub proof fn lemma_either(a: Seq<Seq<char>>, b: Seq<Seq<char>>, x: Seq<char>)
    ensures
        (a + b).contains(x) <==> a.contains(x) || b.contains(x),
{
    if (a + b).contains(x) {
        let i = choose|i: int| 0 <= i < (a + b).len() && (a + b)[i] == x;
        if i < a.len() {
            assert(a[i] == x);
        } else {
            assert(b[i - a.len()] == x);
        }
    }
    if a.contains(x) {
        let i = choose|i: int| 0 <= i < a.len() && a[i] == x;
        assert((a + b)[i] == x);
    }
    if b.contains(x) {
        let i = choose|i: int| 0 <= i < b.len() && b[i] == x;
        assert((a + b)[a.len() + i] == x);
    }
}

/// A dependency is accepted exactly where it is there and lies in a path of the closure. A task
/// is identified by its place and the digest that its closure holds of it, and by nothing where
/// there is none.
pub proof fn law_dependencies_lie_in_the_closure(
    path: Seq<char>,
    place: Seq<char>,
    why: Seq<char>,
    closure: Seq<Seq<char>>,
    document: JsonView,
)
    ensures
        dependency_check(path, LocatedView::Missing(why), closure) is Err,
        dependency_check(path, LocatedView::At(place), closure) is Ok <==> exists|i: int|
            0 <= i < closure.len() && within(parts(place), parts(#[trigger] closure[i])),
        task_identity_of(path, document) is Ok <==> member_of(
            member_of(document, path),
            "narHash"@,
        ) is Text,
        task_identity_of(path, document) matches Ok(id) ==> member_of(id, "path"@)
            == JsonView::Text(path) && member_of(id, "nar_hash"@) == member_of(
            member_of(document, path),
            "narHash"@,
        ),
{
    broadcast use lemma_lookup_push;

    reveal_strlit("path");
    reveal_strlit("nar_hash");
    assert("path"@.len() == 4 && "nar_hash"@.len() == 8);
    if let Ok(id) = task_identity_of(path, document) {
        let all = id->Object_0;
        assert(all =~= Seq::<(Seq<char>, JsonView)>::empty().push(all[0]).push(all[1]));
    }
}

/// Without a place in a group a task must ask for one node.
pub proof fn law_a_group_needs_a_place(task: &Task, r: Result<(), Error>)
    requires
        call_ensures(check_single_node, (task,), r),
    ensures
        r is Ok <==> task.nodes == 1,
{
}

/// A task that is loaded depends on what it needs and is identified by its closure.
pub proof fn law_loaded_tasks_are_checked(
    task: &Task,
    needed: Vec<String>,
    root: &str,
    place: Result<(), Error>,
    path: &str,
    found: Located,
    closure: &Vec<String>,
    there: Result<(), Error>,
    document: &Json,
    identity: Result<Json, Error>,
)
    requires
        task.target.entrypoint@.len() > 0,
        call_ensures(Task::dependencies, (task,), needed),
        call_ensures(check_task_place, (root,), place),
        call_ensures(check_dependency, (path, found, closure), there),
        call_ensures(task_identity, (path, document), identity),
    ensures
        texts(needed@).contains(task.source@),
        texts(needed@).contains(task.target.program@),
        texts(needed@).contains(task.target.entrypoint@[0]@),
        task.image matches Some(p) ==> texts(needed@).contains(p@),
        task.target.probe matches Some(p) ==> texts(needed@).contains(p@),
        forall|i: int|
            0 <= i < task.inputs@.len() ==> texts(needed@).contains(
                (#[trigger] task.inputs@[i]).1.source@,
            ),
        place is Ok ==> parts(root@).len() == 4 && parts(root@)[1] == Part::Normal("nix"@) && parts(
            root@,
        )[2] == Part::Normal("store"@),
        found is Missing ==> there is Err,
        found matches Located::At(p) ==> (there is Ok <==> within_any(
            parts(p@),
            texts(closure@),
        )),
        identity matches Ok(id) ==> member_of(id@, "path"@) == JsonView::Text(path@) && member_of(
            id@,
            "nar_hash"@,
        ) == member_of(member_of(document@, path@), "narHash"@),
{
    law_tasks_depend_on_all_they_need(*task, task.source@);
    law_tasks_depend_on_all_they_need(*task, task.target.program@);
    law_tasks_depend_on_all_they_need(*task, task.target.entrypoint@[0]@);
    if let Some(p) = task.image {
        law_tasks_depend_on_all_they_need(*task, p@);
    }
    if let Some(p) = task.target.probe {
        law_tasks_depend_on_all_they_need(*task, p@);
    }
    assert forall|i: int| 0 <= i < task.inputs@.len() implies texts(needed@).contains(
        (#[trigger] task.inputs@[i]).1.source@,
    ) by {
        law_tasks_depend_on_all_they_need(*task, task.inputs@[i].1.source@);
    }
    law_tasks_lie_directly_in_the_store(root@);
    law_dependencies_lie_in_the_closure(
        path@,
        Seq::empty(),
        Seq::empty(),
        texts(closure@),
        document@,
    );
}

} // verus!
