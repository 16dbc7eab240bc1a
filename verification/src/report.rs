//! What is reported of a run: how it ended, what identifies it, and what is signed when.

use vstd::prelude::*;
use crate::accelerator::{devices_view, DeviceView, Launch};
use crate::canonical::{
    arranged, canonical, document_digest, law_every_member_shows_in_the_text, proper, sha256_value,
};
use crate::error::{outcome, Error};
use crate::json::{member_of, text_or_null, whole, Json, JsonView, Members, Number};
use crate::map::{keys, lemma_lookup_push, lemma_put_lookup, lookup, put, StringMap};
use crate::model::json_map;
use crate::node::{context_json, ContextView, NodeContext};
use crate::process::{CANCELLED, TIMED_OUT};
use crate::text::{
    decimal, glue, glue3, is_digit, joined, lemma_decimal_reads_back, same, text_of, texts,
};

verus! {

// ---------------------------------------------------------------- status

/// How a run on one host ended.
pub open spec fn run_status_of(exit_code: Option<i32>, succeeded: bool, cancelled: bool) -> Seq<char> {
    if exit_code == Some(TIMED_OUT) {
        "timed_out"@
    } else if exit_code == Some(CANCELLED) {
        "cancelled"@
    } else if !succeeded && cancelled {
        "cancelled"@
    } else if succeeded {
        "succeeded"@
    } else {
        "failed"@
    }
}

/// How the part of a node in a run ended. What has ended by itself was not cancelled.
pub open spec fn node_status_of(exit_code: Option<i32>, succeeded: bool, cancelled: bool) -> Seq<
    char,
> {
    if exit_code == Some(TIMED_OUT) {
        "timed_out"@
    } else if exit_code == Some(CANCELLED) {
        "cancelled"@
    } else if succeeded {
        "succeeded"@
    } else if exit_code is None && cancelled {
        "cancelled"@
    } else {
        "failed"@
    }
}

fn is_code(exit_code: Option<i32>, code: i32) -> (r: bool)
    ensures
        r == (exit_code == Some(code)),
{
    match exit_code {
        Some(c) => c == code,
        None => false,
    }
}

/// How a run on one host ended.
pub fn run_status(exit_code: Option<i32>, succeeded: bool, cancelled: bool) -> (r: &'static str)
    ensures
        r@ == run_status_of(exit_code, succeeded, cancelled),
{
    if is_code(exit_code, TIMED_OUT) {
        "timed_out"
    } else if is_code(exit_code, CANCELLED) {
        "cancelled"
    } else if !succeeded && cancelled {
        "cancelled"
    } else if succeeded {
        "succeeded"
    } else {
        "failed"
    }
}

/// How the part of a node in a run ended.
pub fn node_status(exit_code: Option<i32>, succeeded: bool, cancelled: bool) -> (r: &'static str)
    ensures
        r@ == node_status_of(exit_code, succeeded, cancelled),
{
    if is_code(exit_code, TIMED_OUT) {
        "timed_out"
    } else if is_code(exit_code, CANCELLED) {
        "cancelled"
    } else if succeeded {
        "succeeded"
    } else if exit_code.is_none() && cancelled {
        "cancelled"
    } else {
        "failed"
    }
}

/// Whether a workload has done its work, by its code.
pub open spec fn exit_check(code: i32) -> Result<(), Seq<Seq<char>>> {
    if code == 0 {
        Ok(())
    } else {
        Err(seq!["workload exited with code "@ + code_text(code)])
    }
}

/// A code as it is written.
pub open spec fn code_text(code: i32) -> Seq<char> {
    if code < 0 {
        seq!['-'] + decimal((-code) as nat)
    } else {
        decimal(code as nat)
    }
}

/// Whether a workload has done its work, by its code.
pub fn check_exit(code: i32) -> (r: Result<(), Error>)
    ensures
        outcome(r) == exit_check(code),
{
    if code == 0 {
        return Ok(());
    }
    let text = Number::Signed(code as i64).text();
    assert(text@ == code_text(code));
    Err(Error::of(glue("workload exited with code ", text.as_str())))
}

// --------------------------------------------------------------- payload

/// What is known of a run.
#[derive(Debug)]
pub struct Facts {
    pub run_id: String,
    pub source: Json,
    pub job: Json,
    pub target: Json,
    pub closure: Json,
    pub host: Json,
    pub allocation: Json,
    pub driver_files: Json,
    pub image_archive: Json,
    pub image_id: Option<String>,
    pub inputs: Json,
    pub outputs: Json,
    pub status: String,
    pub exit_code: Option<i32>,
    pub error: Option<String>,
    pub started_at: u64,
    pub finished_at: u64,
}

pub struct FactsView {
    pub run_id: Seq<char>,
    pub source: JsonView,
    pub job: JsonView,
    pub target: JsonView,
    pub closure: JsonView,
    pub host: JsonView,
    pub allocation: JsonView,
    pub driver_files: JsonView,
    pub image_archive: JsonView,
    pub image_id: Option<Seq<char>>,
    pub inputs: JsonView,
    pub outputs: JsonView,
    pub status: Seq<char>,
    pub exit_code: Option<i32>,
    pub error: Option<Seq<char>>,
    pub started_at: nat,
    pub finished_at: nat,
}

impl View for Facts {
    type V = FactsView;

    open spec fn view(&self) -> FactsView {
        FactsView {
            run_id: self.run_id@,
            source: self.source@,
            job: self.job@,
            target: self.target@,
            closure: self.closure@,
            host: self.host@,
            allocation: self.allocation@,
            driver_files: self.driver_files@,
            image_archive: self.image_archive@,
            image_id: text_of(self.image_id),
            inputs: self.inputs@,
            outputs: self.outputs@,
            status: self.status@,
            exit_code: self.exit_code,
            error: text_of(self.error),
            started_at: self.started_at as nat,
            finished_at: self.finished_at as nat,
        }
    }
}

/// What identifies a job: its source, and what all of its targets share.
pub open spec fn job_identity_of(f: FactsView) -> JsonView {
    JsonView::Object(seq![("source"@, f.source), ("job"@, f.job)])
}

/// What identifies a target: its job, what it declares, and everything it depends on.
pub open spec fn target_identity_of(f: FactsView) -> JsonView {
    JsonView::Object(
        seq![
            ("job_id"@, JsonView::Text(document_digest(job_identity_of(f)))),
            ("target"@, f.target),
            ("closure"@, f.closure),
        ],
    )
}

pub open spec fn code_or_null(code: Option<i32>) -> JsonView {
    match code {
        Some(c) => JsonView::Number(code_text(c)),
        None => JsonView::Null,
    }
}

/// What is reported of a run, with what else belongs to a report of its version.
pub open spec fn payload_of(
    version: nat,
    f: FactsView,
    more: Seq<(Seq<char>, JsonView)>,
) -> JsonView {
    JsonView::Object(
        seq![
            ("schema_version"@, whole(version)),
            ("canonicalization"@, JsonView::Text("nix-compute-sorted-json-v1"@)),
            ("run_id"@, JsonView::Text(f.run_id)),
            ("job_id"@, JsonView::Text(document_digest(job_identity_of(f)))),
            ("job_identity"@, job_identity_of(f)),
            ("target_id"@, JsonView::Text(document_digest(target_identity_of(f)))),
            ("target_identity"@, target_identity_of(f)),
            ("host"@, f.host),
            ("allocation"@, f.allocation),
            ("host_driver_files"@, f.driver_files),
            ("closure_sha256"@, JsonView::Text(document_digest(f.closure))),
            ("image_archive"@, f.image_archive),
            ("image_id"@, text_or_null(f.image_id)),
            ("inputs"@, f.inputs),
            ("outputs"@, f.outputs),
            ("status"@, JsonView::Text(f.status)),
            ("exit_code"@, code_or_null(f.exit_code)),
            ("error"@, text_or_null(f.error)),
            ("started_at"@, whole(f.started_at)),
            ("finished_at"@, whole(f.finished_at)),
        ] + more,
    )
}

/// What is reported of a run on one host.
pub open spec fn run_payload_of(f: FactsView, source_ref: Seq<char>) -> JsonView {
    payload_of(2, f, seq![("source_ref"@, JsonView::Text(source_ref))])
}

/// What is reported of the part of a node in a run.
pub open spec fn node_payload_of(f: FactsView, node: ContextView, task_identity: JsonView) -> JsonView {
    payload_of(
        3,
        f,
        seq![
            ("node"@, context_json(node)),
            ("task_id"@, JsonView::Text(document_digest(task_identity))),
            ("task_identity"@, task_identity),
        ],
    )
}

fn digest_of(v: &Json) -> (r: String)
    ensures
        r@ == document_digest(v@),
{
    match sha256_value(v) {
        Ok(s) => s,
        Err(_) => String::new(),
    }
}

impl Facts {
    /// What identifies the job.
    pub fn job_identity(&self) -> (r: Json)
        ensures
            r@ == job_identity_of(self@),
    {
        let r = Members::new().with("source", self.source.copy()).with(
            "job",
            self.job.copy(),
        ).object();
        assert(r@->Object_0 =~= job_identity_of(self@)->Object_0);
        r
    }

    /// What identifies the target.
    pub fn target_identity(&self) -> (r: Json)
        ensures
            r@ == target_identity_of(self@),
    {
        let job_id = digest_of(&self.job_identity());
        let r = Members::new().with("job_id", Json::text(job_id.as_str())).with(
            "target",
            self.target.copy(),
        ).with("closure", self.closure.copy()).object();
        assert(r@->Object_0 =~= target_identity_of(self@)->Object_0);
        r
    }

    fn members(&self, version: u64) -> (r: Members)
        ensures
            r@ == payload_of(version as nat, self@, Seq::empty())->Object_0,
    {
        let job = self.job_identity();
        let target = self.target_identity();
        let job_id = digest_of(&job);
        let target_id = digest_of(&target);
        let closure_id = digest_of(&self.closure);
        let code = match self.exit_code {
            Some(c) => Json::Number(Number::Signed(c as i64)),
            None => Json::Null,
        };
        assert(code@ == code_or_null(self.exit_code));
        let r = Members::new().with("schema_version", Json::unsigned(version)).with(
            "canonicalization",
            Json::text("nix-compute-sorted-json-v1"),
        ).with("run_id", Json::text(self.run_id.as_str())).with(
            "job_id",
            Json::text(job_id.as_str()),
        ).with("job_identity", job).with("target_id", Json::text(target_id.as_str())).with(
            "target_identity",
            target,
        ).with("host", self.host.copy()).with("allocation", self.allocation.copy()).with(
            "host_driver_files",
            self.driver_files.copy(),
        ).with("closure_sha256", Json::text(closure_id.as_str())).with(
            "image_archive",
            self.image_archive.copy(),
        ).with("image_id", Json::optional_text(&self.image_id)).with(
            "inputs",
            self.inputs.copy(),
        ).with("outputs", self.outputs.copy()).with(
            "status",
            Json::text(self.status.as_str()),
        ).with("exit_code", code).with("error", Json::optional_text(&self.error)).with(
            "started_at",
            Json::unsigned(self.started_at),
        ).with("finished_at", Json::unsigned(self.finished_at));
        assert(r@ =~= payload_of(version as nat, self@, Seq::empty())->Object_0);
        r
    }

    /// What is reported of a run on one host.
    pub fn run_payload(&self, source_ref: &str) -> (r: Json)
        ensures
            r@ == run_payload_of(self@, source_ref@),
    {
        let r = self.members(2).with("source_ref", Json::text(source_ref)).object();
        assert(r@->Object_0 =~= run_payload_of(self@, source_ref@)->Object_0);
        r
    }

    /// What is reported of the part of a node in a run.
    pub fn node_payload(&self, node: &NodeContext, task_identity: &Json) -> (r: Json)
        ensures
            r@ == node_payload_of(self@, node@, task_identity@),
    {
        let task_id = digest_of(task_identity);
        let r = self.members(3).with("node", node.to_json()).with(
            "task_id",
            Json::text(task_id.as_str()),
        ).with("task_identity", task_identity.copy()).object();
        assert(r@->Object_0 =~= node_payload_of(self@, node@, task_identity@)->Object_0);
        r
    }
}

// --------------------------------------------------------------- entries

/// An input as a run on one host reports it.
pub fn fetched_input(name: &str, path: &str, sha256: &str) -> (r: Json)
    ensures
        r@ == JsonView::Object(
            seq![
                ("name"@, JsonView::Text(name@)),
                ("path"@, JsonView::Text(path@)),
                ("sha256"@, JsonView::Text(sha256@)),
            ],
        ),
{
    let r = Members::new().with("name", Json::text(name)).with("path", Json::text(path)).with(
        "sha256",
        Json::text(sha256),
    ).object();
    assert(r@->Object_0 =~= seq![
        ("name"@, JsonView::Text(name@)),
        ("path"@, JsonView::Text(path@)),
        ("sha256"@, JsonView::Text(sha256@)),
    ]);
    r
}

/// An input as a node reports it.
pub fn linked_input(name: &str, path: &str, source: &str) -> (r: Json)
    ensures
        r@ == JsonView::Object(
            seq![
                ("name"@, JsonView::Text(name@)),
                ("path"@, JsonView::Text(path@)),
                ("source"@, JsonView::Text(source@)),
            ],
        ),
{
    let r = Members::new().with("name", Json::text(name)).with("path", Json::text(path)).with(
        "source",
        Json::text(source),
    ).object();
    assert(r@->Object_0 =~= seq![
        ("name"@, JsonView::Text(name@)),
        ("path"@, JsonView::Text(path@)),
        ("source"@, JsonView::Text(source@)),
    ]);
    r
}

/// An output as a run on one host reports it.
pub fn collected_output(name: &str, path: &str, sha256: &str, uri: &Option<String>) -> (r: Json)
    ensures
        r@ == JsonView::Object(
            seq![
                ("name"@, JsonView::Text(name@)),
                ("path"@, JsonView::Text(path@)),
                ("sha256"@, JsonView::Text(sha256@)),
                ("uri"@, text_or_null(text_of(*uri))),
            ],
        ),
{
    let r = Members::new().with("name", Json::text(name)).with("path", Json::text(path)).with(
        "sha256",
        Json::text(sha256),
    ).with("uri", Json::optional_text(uri)).object();
    assert(r@->Object_0 =~= seq![
        ("name"@, JsonView::Text(name@)),
        ("path"@, JsonView::Text(path@)),
        ("sha256"@, JsonView::Text(sha256@)),
        ("uri"@, text_or_null(text_of(*uri))),
    ]);
    r
}

/// The archive of an image, as it is reported.
pub fn archive_entry(path: &str, sha256: &str) -> (r: Json)
    ensures
        r@ == JsonView::Object(
            seq![("path"@, JsonView::Text(path@)), ("sha256"@, JsonView::Text(sha256@))],
        ),
{
    let r = Members::new().with("path", Json::text(path)).with(
        "sha256",
        Json::text(sha256),
    ).object();
    assert(r@->Object_0 =~= seq![
        ("path"@, JsonView::Text(path@)),
        ("sha256"@, JsonView::Text(sha256@)),
    ]);
    r
}

/// Why an input is not there.
pub fn input_failure(name: &str, cause: Error) -> (r: Error)
    ensures
        r@ == seq!["materializing input "@ + name@] + cause@,
{
    cause.context(glue("materializing input ", name).as_str())
}

/// Why an output is not there.
pub fn output_failure(name: &str, cause: Error) -> (r: Error)
    ensures
        r@ == seq!["required output "@ + name@ + " missing or invalid"@] + cause@,
{
    cause.context(glue3("required output ", name, " missing or invalid").as_str())
}

// ---------------------------------------------------------- driver files

/// What stands at a place of a driver.
#[derive(Debug)]
pub enum DriverFile {
    /// A link to a file, with the place that it leads to and the digest of the file.
    Link { target: String, sha256: String },
    /// A link to anything else.
    StrayLink,
    /// A directory, with the places of its entries.
    Directory(Vec<String>),
    /// A file, with its digest.
    File(String),
    Other,
}

pub enum DriverFileView {
    Link { target: Seq<char>, sha256: Seq<char> },
    StrayLink,
    Directory(Seq<Seq<char>>),
    File(Seq<char>),
    Other,
}

impl View for DriverFile {
    type V = DriverFileView;

    open spec fn view(&self) -> DriverFileView {
        match self {
            DriverFile::Link { target, sha256 } => DriverFileView::Link {
                target: target@,
                sha256: sha256@,
            },
            DriverFile::StrayLink => DriverFileView::StrayLink,
            DriverFile::Directory(entries) => DriverFileView::Directory(texts(entries@)),
            DriverFile::File(sha256) => DriverFileView::File(sha256@),
            DriverFile::Other => DriverFileView::Other,
        }
    }
}

/// How far the inventory of driver files has come: the places that are still to be looked at,
/// the next first, and what is reported of each file.
pub struct DriverView {
    pub pending: Seq<Seq<char>>,
    pub files: Seq<(Seq<char>, JsonView)>,
}

/// What a place makes of the inventory of driver files. The entries of a directory come before
/// everything else that is left. A directory that is reached by a link is not followed, so it
/// cannot be attested.
pub open spec fn driver_file_seen(d: DriverView, path: Seq<char>, found: DriverFileView) -> Result<
    DriverView,
    Seq<Seq<char>>,
> {
    match found {
        DriverFileView::StrayLink => Err(
            seq!["host driver directory symlink cannot be attested: "@ + path],
        ),
        DriverFileView::Other => Err(seq!["unsupported host driver file "@ + path]),
        DriverFileView::Directory(entries) => Ok(
            DriverView { pending: entries + d.pending, files: d.files },
        ),
        DriverFileView::File(sha256) => Ok(
            DriverView {
                pending: d.pending,
                files: put(
                    d.files,
                    path,
                    JsonView::Object(seq![("sha256"@, JsonView::Text(sha256))]),
                ),
            },
        ),
        DriverFileView::Link { target, sha256 } => Ok(
            DriverView {
                pending: d.pending,
                files: put(
                    d.files,
                    path,
                    JsonView::Object(
                        seq![
                            ("target"@, JsonView::Text(target)),
                            ("sha256"@, JsonView::Text(sha256)),
                        ],
                    ),
                ),
            },
        ),
    }
}

/// The places where the drivers of devices stand on the host.
pub open spec fn driver_roots_of(devices: Seq<DeviceView>) -> Seq<Seq<char>>
    decreases devices.len(),
{
    if devices.len() == 0 {
        Seq::empty()
    } else {
        driver_roots_of(devices.drop_last()) + keys(devices.last().driver_mounts)
    }
}

/// The texts in reverse, each behind those that are already there.
fn push_reversed(out: &mut Vec<String>, items: &Vec<String>)
    ensures
        texts(final(out)@) == texts(old(out)@) + texts(items@).reverse(),
{
    let ghost start = texts(out@);
    let ghost back = texts(items@).reverse();
    let mut i: usize = items.len();
    assert(start + back.take(0) =~= start);
    while i > 0
        invariant
            i <= items@.len(),
            back == texts(items@).reverse(),
            texts(out@) == start + back.take(items@.len() - i),
        decreases i,
    {
        let ghost done = texts(out@);
        let ghost n = items@.len() - i;
        i -= 1;
        out.push(items[i].clone());
        assert(texts(out@) =~= done.push(back[n]));
        assert(start + back.take(n + 1) =~= (start + back.take(n)).push(back[n]));
    }
    assert(back.take(items@.len() as int) =~= back);
}

/// The inventory of the files of drivers.
pub struct DriverFiles {
    /// The places that are still to be looked at, the next last.
    pending: Vec<String>,
    files: StringMap<Json>,
}

impl View for DriverFiles {
    type V = DriverView;

    closed spec fn view(&self) -> DriverView {
        DriverView { pending: texts(self.pending@).reverse(), files: self.files@ }
    }
}

impl DriverFiles {
    /// The inventory for the devices of a launch.
    pub fn new(launch: &Launch) -> (r: DriverFiles)
        ensures
            r@ == (DriverView {
                pending: driver_roots_of(launch@.devices),
                files: Seq::empty(),
            }),
    {
        let ghost all = launch@.devices;
        let mut pending: Vec<String> = Vec::new();
        let mut i: usize = 0;
        assert(texts(pending@) =~= driver_roots_of(all.take(0)));
        while i < launch.devices.len()
            invariant
                all == devices_view(launch.devices@),
                i <= launch.devices@.len(),
                texts(pending@) == driver_roots_of(all.take(i as int)),
            decreases launch.devices.len() - i,
        {
            assert(all.take(i + 1).drop_last() =~= all.take(i as int));
            assert(all.take(i + 1).last() == launch.devices@[i as int]@);
            let mounts = &launch.devices[i].driver_mounts;
            let ghost start = texts(pending@);
            let ghost names = keys(mounts@);
            let mut k: usize = 0;
            assert(start + names.take(0) =~= start);
            while k < mounts.len()
                invariant
                    names == keys(mounts@),
                    k <= mounts@.len(),
                    texts(pending@) == start + names.take(k as int),
                decreases mounts@.len() - k,
            {
                let ghost done = texts(pending@);
                pending.push(mounts.key(k).clone());
                assert(texts(pending@) =~= done.push(names[k as int]));
                assert(names.take(k + 1) =~= names.take(k as int).push(names[k as int]));
                assert(start + names.take(k + 1) =~= (start + names.take(k as int)).push(
                    names[k as int],
                ));
                k += 1;
            }
            assert(names.take(names.len() as int) =~= names);
            i += 1;
        }
        assert(all.take(all.len() as int) =~= all);
        let mut stack: Vec<String> = Vec::new();
        push_reversed(&mut stack, &pending);
        assert(texts(stack@).reverse() =~= texts(pending@));
        DriverFiles { pending: stack, files: StringMap::new() }
    }

    /// The next place to look at.
    pub fn next(&mut self) -> (r: Option<String>)
        ensures
            match r {
                None => old(self)@.pending.len() == 0 && final(self)@ == old(self)@,
                Some(p) => old(self)@.pending.len() > 0 && p@ == old(self)@.pending[0]
                    && final(self)@ == (DriverView {
                    pending: old(self)@.pending.skip(1),
                    ..old(self)@
                }),
            },
    {
        let ghost t = self@;
        let ghost before_call = texts(self.pending@);
        let last = self.pending.pop();
        if last.is_some() {
            assert(texts(self.pending@) =~= before_call.drop_last());
            assert(texts(self.pending@).reverse() =~= t.pending.skip(1));
        }
        last
    }

    /// Takes what stands at a place.
    pub fn see(&mut self, path: &str, found: DriverFile) -> (r: Result<(), Error>)
        ensures
            match r {
                Ok(_) => driver_file_seen(old(self)@, path@, found@) == Ok::<
                    DriverView,
                    Seq<Seq<char>>,
                >(final(self)@),
                Err(e) => driver_file_seen(old(self)@, path@, found@) == Err::<
                    DriverView,
                    Seq<Seq<char>>,
                >(e@) && final(self)@ == old(self)@,
            },
    {
        match found {
            DriverFile::StrayLink => Err(
                Error::of(glue("host driver directory symlink cannot be attested: ", path)),
            ),
            DriverFile::Other => Err(Error::of(glue("unsupported host driver file ", path))),
            DriverFile::Directory(entries) => {
                let ghost t = self@;
                push_reversed(&mut self.pending, &entries);
                assert(texts(self.pending@).reverse() =~= texts(entries@) + t.pending);
                Ok(())
            },
            DriverFile::File(sha256) => {
                let entry = Members::new().with("sha256", Json::text(sha256.as_str())).object();
                assert(entry@->Object_0 =~= seq![("sha256"@, JsonView::Text(sha256@))]);
                self.files.insert(path.to_owned(), entry);
                Ok(())
            },
            DriverFile::Link { target, sha256 } => {
                let entry = Members::new().with("target", Json::text(target.as_str())).with(
                    "sha256",
                    Json::text(sha256.as_str()),
                ).object();
                assert(entry@->Object_0 =~= seq![
                    ("target"@, JsonView::Text(target@)),
                    ("sha256"@, JsonView::Text(sha256@)),
                ]);
                self.files.insert(path.to_owned(), entry);
                Ok(())
            },
        }
    }

    /// What is reported of the files.
    pub fn driver_identity(&self) -> (r: Json)
        ensures
            r@ == JsonView::Object(self@.files),
    {
        json_map(&self.files)
    }
}

// ---------------------------------------------------------- what is signed

/// The status of the report that a node signs before the other nodes are done. A success of
/// the group is never signed that early.
pub open spec fn provisional_status_of(status: Seq<char>, nodes: nat) -> Seq<char> {
    if status == "succeeded"@ && nodes > 1 {
        "prepared"@
    } else {
        status
    }
}

/// A report that is signed anew, and whether it is the last one for the group.
pub struct AmendmentView {
    pub status: Seq<char>,
    pub error: Option<Seq<char>>,
    pub candidate: bool,
}

/// The report that is signed once all nodes are prepared, or are known not to be. A run that
/// has not succeeded has nothing to add.
pub open spec fn prepared_amendment(
    status: Seq<char>,
    prepared: Result<(), Seq<Seq<char>>>,
) -> Option<AmendmentView> {
    if status == "succeeded"@ {
        Some(
            match prepared {
                Ok(_) => AmendmentView { status: "succeeded"@, error: None, candidate: true },
                Err(e) => AmendmentView {
                    status: "failed"@,
                    error: Some(joined(e, ": "@)),
                    candidate: false,
                },
            },
        )
    } else {
        None
    }
}

/// The report that is signed where a run that had succeeded on its node fails at the end.
pub open spec fn final_amendment(
    status: Seq<char>,
    finished: Result<(), Seq<Seq<char>>>,
) -> Option<AmendmentView> {
    match finished {
        Err(e) => if status == "succeeded"@ {
            Some(
                AmendmentView {
                    status: "failed"@,
                    error: Some(joined(e, ": "@)),
                    candidate: false,
                },
            )
        } else {
            None
        },
        Ok(_) => None,
    }
}

/// A report that is signed anew.
#[derive(Debug)]
pub struct Amendment {
    pub status: String,
    pub error: Option<String>,
    pub candidate: bool,
}

impl View for Amendment {
    type V = AmendmentView;

    open spec fn view(&self) -> AmendmentView {
        AmendmentView {
            status: self.status@,
            error: text_of(self.error),
            candidate: self.candidate,
        }
    }
}

pub open spec fn amendment_view(o: Option<Amendment>) -> Option<AmendmentView> {
    match o {
        Some(a) => Some(a@),
        None => None,
    }
}

/// The status of the report that a node signs before the other nodes are done.
pub fn provisional_status(status: &str, nodes: u32) -> (r: String)
    ensures
        r@ == provisional_status_of(status@, nodes as nat),
{
    if same(status, "succeeded") && nodes > 1 {
        "prepared".to_owned()
    } else {
        status.to_owned()
    }
}

/// The report that is signed once all nodes are prepared, or are known not to be.
pub fn amend_prepared(status: &str, prepared: &Result<(), Error>) -> (r: Option<Amendment>)
    ensures
        amendment_view(r) == prepared_amendment(status@, outcome(*prepared)),
{
    if !same(status, "succeeded") {
        return None;
    }
    match prepared {
        Ok(_) => Some(
            Amendment { status: "succeeded".to_owned(), error: None, candidate: true },
        ),
        Err(e) => Some(
            Amendment { status: "failed".to_owned(), error: Some(e.detail()), candidate: false },
        ),
    }
}

/// The report that is signed where a run that had succeeded on its node fails at the end.
pub fn amend_finished(status: &str, finished: &Result<(), Error>) -> (r: Option<Amendment>)
    ensures
        amendment_view(r) == final_amendment(status@, outcome(*finished)),
{
    match finished {
        Ok(_) => None,
        Err(e) => if same(status, "succeeded") {
            Some(
                Amendment {
                    status: "failed".to_owned(),
                    error: Some(e.detail()),
                    candidate: false,
                },
            )
        } else {
            None
        },
    }
}

// ----------------------------------------------------------------- laws

/// In a group of several nodes no success is signed before every node is prepared: the first
/// report does not tell it, and a later one tells it only where all nodes came to the barrier,
/// as the last report for the group.
pub proof fn law_success_is_not_signed_early(
    status: Seq<char>,
    nodes: nat,
    prepared: Result<(), Seq<Seq<char>>>,
    finished: Result<(), Seq<Seq<char>>>,
)
    requires
        nodes > 1,
    ensures
        provisional_status_of(status, nodes) != "succeeded"@,
        prepared_amendment(status, prepared) matches Some(a) ==> a.status != "succeeded"@
            || a.candidate && prepared is Ok,
        final_amendment(status, finished) matches Some(a) ==> a.status != "succeeded"@,
{
    reveal_strlit("succeeded");
    reveal_strlit("prepared");
    reveal_strlit("failed");
    assert("prepared"@.len() != "succeeded"@.len());
    assert("failed"@.len() != "succeeded"@.len());
}

/// A run that was cancelled or ran out of time is never reported as a success.
pub proof fn law_interrupted_runs_have_not_succeeded(succeeded: bool, cancelled: bool)
    ensures
        run_status_of(Some(TIMED_OUT), succeeded, cancelled) == "timed_out"@,
        node_status_of(Some(TIMED_OUT), succeeded, cancelled) == "timed_out"@,
        run_status_of(Some(CANCELLED), succeeded, cancelled) == "cancelled"@,
        node_status_of(Some(CANCELLED), succeeded, cancelled) == "cancelled"@,
        run_status_of(None, false, true) == "cancelled"@,
        node_status_of(None, false, true) == "cancelled"@,
{
}

/// Whether a report says of a run what is the case, each thing under its own name: what was run
/// and on what, what went in and what came out, and how it ended.
pub open spec fn tells(v: JsonView, f: FactsView) -> bool {
    &&& member_of(v, "canonicalization"@) == JsonView::Text("nix-compute-sorted-json-v1"@)
    &&& member_of(v, "run_id"@) == JsonView::Text(f.run_id)
    &&& member_of(v, "job_id"@) == JsonView::Text(document_digest(JsonView::Object(seq![("source"@, f.source), ("job"@, f.job)])))
    &&& member_of(v, "job_identity"@) == JsonView::Object(seq![("source"@, f.source), ("job"@, f.job)])
    &&& member_of(v, "host"@) == f.host
    &&& member_of(v, "allocation"@) == f.allocation
    &&& member_of(v, "host_driver_files"@) == f.driver_files
    &&& member_of(v, "closure_sha256"@) == JsonView::Text(document_digest(f.closure))
    &&& member_of(v, "image_archive"@) == f.image_archive
    &&& member_of(v, "inputs"@) == f.inputs
    &&& member_of(v, "outputs"@) == f.outputs
    &&& member_of(v, "status"@) == JsonView::Text(f.status)
    &&& member_of(v, "started_at"@) == JsonView::Number(decimal(f.started_at))
    &&& member_of(v, "finished_at"@) == JsonView::Number(decimal(f.finished_at))
    &&& member_of(member_of(v, "target_identity"@), "job_id"@) == member_of(v, "job_id"@)
    &&& member_of(member_of(v, "target_identity"@), "target"@) == f.target
    &&& member_of(member_of(v, "target_identity"@), "closure"@) == f.closure
    &&& member_of(v, "target_id"@) == JsonView::Text(
        document_digest(member_of(v, "target_identity"@)),
    )
    &&& f.image_id is None ==> member_of(v, "image_id"@) == JsonView::Null
    &&& f.image_id matches Some(id) ==> member_of(v, "image_id"@) == JsonView::Text(id)
    &&& f.error is None ==> member_of(v, "error"@) == JsonView::Null
    &&& f.error matches Some(why) ==> member_of(v, "error"@) == JsonView::Text(why)
    &&& f.exit_code is None ==> member_of(v, "exit_code"@) == JsonView::Null
    &&& f.exit_code matches Some(code) ==> member_of(v, "exit_code"@) == JsonView::Number(
        if code >= 0 {
            decimal(code as nat)
        } else {
            seq!['-'] + decimal((-code) as nat)
        },
    )
}

/// The report of a run and that of a node tell every fact under its own name, with the version of
/// the report, where the job came from, the place of the node and the task.
#[verifier::rlimit(50)]
#[verifier::spinoff_prover]
pub proof fn law_reports_tell_every_fact(
    f: FactsView,
    source_ref: Seq<char>,
    node: ContextView,
    task_identity: JsonView,
)
    ensures
        tells(run_payload_of(f, source_ref), f),
        member_of(run_payload_of(f, source_ref), "schema_version"@) == JsonView::Number("2"@),
        member_of(run_payload_of(f, source_ref), "source_ref"@) == JsonView::Text(source_ref),
        run_payload_of(f, source_ref)->Object_0.len() == 21,
        tells(node_payload_of(f, node, task_identity), f),
        member_of(node_payload_of(f, node, task_identity), "schema_version"@) == JsonView::Number(
            "3"@,
        ),
        member_of(node_payload_of(f, node, task_identity), "task_identity"@) == task_identity,
        member_of(node_payload_of(f, node, task_identity), "task_id"@) == JsonView::Text(
            document_digest(task_identity),
        ),
        node_payload_of(f, node, task_identity)->Object_0.len() == 23,
        ({
            let place = member_of(node_payload_of(f, node, task_identity), "node"@);
            &&& member_of(place, "run_id"@) == JsonView::Text(node.run_id)
            &&& member_of(place, "node_id"@) == JsonView::Text(node.node_id)
            &&& member_of(place, "node_rank"@) == JsonView::Number(decimal(node.node_rank))
            &&& member_of(place, "node_count"@) == JsonView::Number(decimal(node.node_count))
            &&& member_of(place, "master_addr"@) == JsonView::Text(node.master_addr)
            &&& member_of(place, "master_port"@) == JsonView::Number(decimal(node.master_port))
        }),
{
    broadcast use lemma_lookup_push;

    lemma_report_names();
    assert(decimal(2) =~= "2"@) by {
        reveal_strlit("2");
    }
    assert(decimal(3) =~= "3"@) by {
        reveal_strlit("3");
    }
    let p = run_payload_of(f, source_ref);
    let q = node_payload_of(f, node, task_identity);
    let base = payload_of(2, f, Seq::empty())->Object_0;
    let node_base = payload_of(3, f, Seq::empty())->Object_0;
    assert(p->Object_0 =~= base.push(("source_ref"@, JsonView::Text(source_ref))));
    assert(q->Object_0 =~= node_base.push(("node"@, context_json(node))).push(
        ("task_id"@, JsonView::Text(document_digest(task_identity))),
    ).push(("task_identity"@, task_identity)));
    lemma_payload_members(2, f);
    lemma_payload_members(3, f);
    let place = Seq::<(Seq<char>, JsonView)>::empty()
        .push(("run_id"@, JsonView::Text(node.run_id)))
        .push(("node_id"@, JsonView::Text(node.node_id)))
        .push(("node_rank"@, whole(node.node_rank)))
        .push(("node_count"@, whole(node.node_count)))
        .push(("master_addr"@, JsonView::Text(node.master_addr)))
        .push(("master_port"@, whole(node.master_port)));
    assert(context_json(node)->Object_0 =~= place);
    assert(context_json(node) == JsonView::Object(place));
}

#[verifier::rlimit(50)]
#[verifier::spinoff_prover]
proof fn lemma_payload_members(version: nat, f: FactsView)
    ensures
        tells(payload_of(version, f, Seq::empty()), f),
        member_of(payload_of(version, f, Seq::empty()), "schema_version"@) == whole(version),
{
    broadcast use lemma_lookup_push;

    lemma_report_names();
    let v = payload_of(version, f, Seq::empty());
    let all = Seq::<(Seq<char>, JsonView)>::empty()
        .push(("schema_version"@, whole(version)))
        .push(("canonicalization"@, JsonView::Text("nix-compute-sorted-json-v1"@)))
        .push(("run_id"@, JsonView::Text(f.run_id)))
        .push(("job_id"@, JsonView::Text(document_digest(job_identity_of(f)))))
        .push(("job_identity"@, job_identity_of(f)))
        .push(("target_id"@, JsonView::Text(document_digest(target_identity_of(f)))))
        .push(("target_identity"@, target_identity_of(f)))
        .push(("host"@, f.host))
        .push(("allocation"@, f.allocation))
        .push(("host_driver_files"@, f.driver_files))
        .push(("closure_sha256"@, JsonView::Text(document_digest(f.closure))))
        .push(("image_archive"@, f.image_archive))
        .push(("image_id"@, text_or_null(f.image_id)))
        .push(("inputs"@, f.inputs))
        .push(("outputs"@, f.outputs))
        .push(("status"@, JsonView::Text(f.status)))
        .push(("exit_code"@, code_or_null(f.exit_code)))
        .push(("error"@, text_or_null(f.error)))
        .push(("started_at"@, whole(f.started_at)))
        .push(("finished_at"@, whole(f.finished_at)));
    assert(v->Object_0 =~= all);
    assert(v == JsonView::Object(all));
    assert(member_of(v, "target_identity"@) == target_identity_of(f));
    let target = Seq::<(Seq<char>, JsonView)>::empty()
        .push(("job_id"@, JsonView::Text(document_digest(job_identity_of(f)))))
        .push(("target"@, f.target))
        .push(("closure"@, f.closure));
    assert(target_identity_of(f)->Object_0 =~= target);
    assert(target_identity_of(f) == JsonView::Object(target));
}

/// The names of the members of a report are all different.
#[verifier::rlimit(50)]
#[verifier::spinoff_prover]
proof fn lemma_report_names()
    ensures
        "schema_version"@.len() == 14 && "schema_version"@[0] == 's',
        "canonicalization"@.len() == 16,
        "run_id"@.len() == 6 && "run_id"@[0] == 'r',
        "job_id"@.len() == 6 && "job_id"@[0] == 'j',
        "job_identity"@.len() == 12,
        "target_id"@.len() == 9 && "target_id"@[0] == 't',
        "target_identity"@.len() == 15,
        "host"@.len() == 4 && "host"@[0] == 'h',
        "allocation"@.len() == 10 && "allocation"@[0] == 'a',
        "host_driver_files"@.len() == 17,
        "closure_sha256"@.len() == 14 && "closure_sha256"@[0] == 'c',
        "image_archive"@.len() == 13 && "image_archive"@[0] == 'i',
        "image_id"@.len() == 8,
        "inputs"@.len() == 6 && "inputs"@[0] == 'i',
        "outputs"@.len() == 7 && "outputs"@[0] == 'o',
        "status"@.len() == 6 && "status"@[0] == 's' && "status"@[1] == 't',
        "exit_code"@.len() == 9 && "exit_code"@[0] == 'e',
        "error"@.len() == 5,
        "started_at"@.len() == 10 && "started_at"@[0] == 's' && "started_at"@[1] == 't',
        "finished_at"@.len() == 11 && "finished_at"@[0] == 'f',
        "source_ref"@.len() == 10 && "source_ref"@[0] == 's' && "source_ref"@[1] == 'o',
        "node"@.len() == 4 && "node"@[0] == 'n',
        "task_id"@.len() == 7 && "task_id"@[0] == 't',
        "task_identity"@.len() == 13 && "task_identity"@[0] == 't',
        "source"@.len() == 6 && "source"@[0] == 's' && "source"@[1] == 'o',
        "job"@.len() == 3,
        "target"@.len() == 6 && "target"@[0] == 't',
        "closure"@.len() == 7 && "closure"@[0] == 'c',
        "node_rank"@.len() == 9 && "node_rank"@[0] == 'n',
        "node_count"@.len() == 10 && "node_count"@[0] == 'n',
        "node_id"@.len() == 7 && "node_id"@[0] == 'n',
        "master_addr"@.len() == 11 && "master_addr"@[0] == 'm' && "master_addr"@[7] == 'a',
        "master_port"@.len() == 11 && "master_port"@[0] == 'm' && "master_port"@[7] == 'p',
{
    reveal_strlit("schema_version");
    reveal_strlit("canonicalization");
    reveal_strlit("run_id");
    reveal_strlit("job_id");
    reveal_strlit("job_identity");
    reveal_strlit("target_id");
    reveal_strlit("target_identity");
    reveal_strlit("host");
    reveal_strlit("allocation");
    reveal_strlit("host_driver_files");
    reveal_strlit("closure_sha256");
    reveal_strlit("image_archive");
    reveal_strlit("image_id");
    reveal_strlit("inputs");
    reveal_strlit("outputs");
    reveal_strlit("status");
    reveal_strlit("exit_code");
    reveal_strlit("error");
    reveal_strlit("started_at");
    reveal_strlit("finished_at");
    reveal_strlit("source_ref");
    reveal_strlit("node");
    reveal_strlit("task_id");
    reveal_strlit("task_identity");
    reveal_strlit("source");
    reveal_strlit("job");
    reveal_strlit("target");
    reveal_strlit("closure");
    reveal_strlit("node_rank");
    reveal_strlit("node_count");
    reveal_strlit("node_id");
    reveal_strlit("master_addr");
    reveal_strlit("master_port");
}

/// Runs that differ in what came out, or in anything else that is told, have different reports:
/// the texts that are signed differ.
pub proof fn law_different_runs_have_different_reports(
    f: FactsView,
    g: FactsView,
    source_ref: Seq<char>,
    node: ContextView,
    task_identity: JsonView,
)
    requires
        proper(run_payload_of(f, source_ref)),
        proper(run_payload_of(g, source_ref)),
        proper(node_payload_of(f, node, task_identity)),
        proper(node_payload_of(g, node, task_identity)),
    ensures
        canonical(run_payload_of(f, source_ref)) == canonical(run_payload_of(g, source_ref))
            ==> told_alike(f, g),
        canonical(node_payload_of(f, node, task_identity)) == canonical(
            node_payload_of(g, node, task_identity),
        ) ==> told_alike(f, g),
{
    law_reports_tell_every_fact(f, source_ref, node, task_identity);
    law_reports_tell_every_fact(g, source_ref, node, task_identity);
    lemma_told_alike(run_payload_of(f, source_ref), f, run_payload_of(g, source_ref), g);
    lemma_told_alike(
        node_payload_of(f, node, task_identity),
        f,
        node_payload_of(g, node, task_identity),
        g,
    );
}

/// Whether two runs are the same but for the order of members in what they report.
pub open spec fn told_alike(f: FactsView, g: FactsView) -> bool {
    &&& f.run_id == g.run_id
    &&& arranged(f.host) == arranged(g.host)
    &&& arranged(f.allocation) == arranged(g.allocation)
    &&& arranged(f.driver_files) == arranged(g.driver_files)
    &&& arranged(f.image_archive) == arranged(g.image_archive)
    &&& f.image_id == g.image_id
    &&& arranged(f.inputs) == arranged(g.inputs)
    &&& arranged(f.outputs) == arranged(g.outputs)
    &&& f.status == g.status
    &&& f.error == g.error
    &&& f.exit_code == g.exit_code
    &&& f.started_at == g.started_at
    &&& f.finished_at == g.finished_at
}

proof fn lemma_member_told(u: JsonView, v: JsonView, key: Seq<char>)
    requires
        u is Object,
        v is Object,
        proper(u),
        proper(v),
        canonical(u) == canonical(v),
    ensures
        arranged(member_of(u, key)) == arranged(member_of(v, key)),
{
    law_every_member_shows_in_the_text(u->Object_0, v->Object_0, key);
}

#[verifier::rlimit(50)]
#[verifier::spinoff_prover]
proof fn lemma_told_alike(u: JsonView, f: FactsView, v: JsonView, g: FactsView)
    requires
        u is Object,
        v is Object,
        proper(u),
        proper(v),
        tells(u, f),
        tells(v, g),
    ensures
        canonical(u) == canonical(v) ==> told_alike(f, g),
{
    if canonical(u) == canonical(v) {
        lemma_member_told(u, v, "run_id"@);
        lemma_member_told(u, v, "host"@);
        lemma_member_told(u, v, "allocation"@);
        lemma_member_told(u, v, "host_driver_files"@);
        lemma_member_told(u, v, "image_archive"@);
        lemma_member_told(u, v, "image_id"@);
        lemma_member_told(u, v, "inputs"@);
        lemma_member_told(u, v, "outputs"@);
        lemma_member_told(u, v, "status"@);
        lemma_member_told(u, v, "error"@);
        lemma_member_told(u, v, "exit_code"@);
        lemma_member_told(u, v, "started_at"@);
        lemma_member_told(u, v, "finished_at"@);
        lemma_decimal_reads_back(f.started_at);
        lemma_decimal_reads_back(g.started_at);
        lemma_decimal_reads_back(f.finished_at);
        lemma_decimal_reads_back(g.finished_at);
        if f.exit_code is Some && g.exit_code is Some {
            let a = f.exit_code->0;
            let b = g.exit_code->0;
            let x = decimal(if a >= 0 {
                a as nat
            } else {
                (-a) as nat
            });
            let y = decimal(if b >= 0 {
                b as nat
            } else {
                (-b) as nat
            });
            lemma_decimal_reads_back(if a >= 0 {
                a as nat
            } else {
                (-a) as nat
            });
            lemma_decimal_reads_back(if b >= 0 {
                b as nat
            } else {
                (-b) as nat
            });
            assert(is_digit(x[0]) && is_digit(y[0]));
            assert((seq!['-'] + x).skip(1) =~= x);
            assert((seq!['-'] + y).skip(1) =~= y);
            assert((seq!['-'] + x)[0] == '-');
            assert((seq!['-'] + y)[0] == '-');
        }
    }
}

/// A run that went to its end without a failure has succeeded, and only such a run has; one that
/// has failed while it was being cancelled was cancelled. Of a node the same is said, but that it
/// counts as cancelled only where its workload was not run to an end.
pub proof fn law_statuses_tell_how_a_run_ended(
    exit_code: Option<i32>,
    succeeded: bool,
    cancelled: bool,
)
    requires
        exit_code != Some(124i32),
        exit_code != Some(130i32),
    ensures
        run_status_of(exit_code, succeeded, cancelled) == if succeeded {
            "succeeded"@
        } else if cancelled {
            "cancelled"@
        } else {
            "failed"@
        },
        node_status_of(exit_code, succeeded, cancelled) == if succeeded {
            "succeeded"@
        } else if cancelled && exit_code is None {
            "cancelled"@
        } else {
            "failed"@
        },
        run_status_of(Some(124i32), succeeded, cancelled) == "timed_out"@,
        node_status_of(Some(124i32), succeeded, cancelled) == "timed_out"@,
        run_status_of(Some(130i32), succeeded, cancelled) == "cancelled"@,
        node_status_of(Some(130i32), succeeded, cancelled) == "cancelled"@,
        forall|code: i32| #[trigger] exit_check(code) is Ok <==> code == 0,
{
}

/// What has failed stays as it was told. A success is told for good where all nodes are prepared,
/// as the report for the group; where they are not, or where the group ends in a failure, the
/// report tells that failure. A single node tells its success at once.
pub proof fn law_reports_are_amended_for_the_group(
    status: Seq<char>,
    nodes: nat,
    why: Seq<Seq<char>>,
)
    ensures
        status != "succeeded"@ || nodes <= 1 ==> provisional_status_of(status, nodes) == status,
        status == "succeeded"@ && nodes > 1 ==> provisional_status_of(status, nodes) == "prepared"@,
        status != "succeeded"@ ==> prepared_amendment(status, Ok(())) is None
            && prepared_amendment(status, Err(why)) is None && final_amendment(status, Err(why))
            is None,
        status == "succeeded"@ ==> {
            &&& prepared_amendment(status, Ok(())) matches Some(a) && a.status == "succeeded"@
                && a.error is None && a.candidate
            &&& prepared_amendment(status, Err(why)) matches Some(a) && a.status == "failed"@
                && a.error == Some(joined(why, ": "@)) && !a.candidate
            &&& final_amendment(status, Err(why)) matches Some(a) && a.status == "failed"@
                && a.error == Some(joined(why, ": "@)) && !a.candidate
        },
        final_amendment(status, Ok(())) is None,
{
}

/// Every driver file that is seen is told with its digest, a link with what it leads to besides; a
/// directory is looked into, entry by entry, before anything else. Nothing that was told before is
/// lost, and what can be neither is refused.
pub proof fn law_driver_files_are_told(
    d: DriverView,
    path: Seq<char>,
    other: Seq<char>,
    target: Seq<char>,
    sha256: Seq<char>,
    entries: Seq<Seq<char>>,
)
    ensures
        driver_file_seen(d, path, DriverFileView::File(sha256)) matches Ok(e) && e.pending
            == d.pending && (lookup(e.files, path) matches Some(v) && member_of(v, "sha256"@)
            == JsonView::Text(sha256)) && (other != path ==> lookup(e.files, other) == lookup(
            d.files,
            other,
        )),
        driver_file_seen(d, path, DriverFileView::Link { target, sha256 }) matches Ok(e)
            && e.pending == d.pending && (lookup(e.files, path) matches Some(v) && member_of(
            v,
            "sha256"@,
        ) == JsonView::Text(sha256) && member_of(v, "target"@) == JsonView::Text(target)) && (other
            != path ==> lookup(e.files, other) == lookup(d.files, other)),
        driver_file_seen(d, path, DriverFileView::Directory(entries)) matches Ok(e) && e.files
            == d.files && e.pending.len() == entries.len() + d.pending.len() && e.pending.take(
            entries.len() as int,
        ) == entries && e.pending.skip(entries.len() as int) == d.pending,
        driver_file_seen(d, path, DriverFileView::StrayLink) is Err,
        driver_file_seen(d, path, DriverFileView::Other) is Err,
{
    broadcast use lemma_lookup_push;

    reveal_strlit("sha256");
    reveal_strlit("target");
    assert("sha256"@.len() == 6 && "sha256"@[0] == 's');
    assert("target"@.len() == 6 && "target"@[0] == 't');
    let one = JsonView::Object(seq![("sha256"@, JsonView::Text(sha256))]);
    let two = JsonView::Object(
        seq![("target"@, JsonView::Text(target)), ("sha256"@, JsonView::Text(sha256))],
    );
    lemma_put_lookup(d.files, path, one, other);
    lemma_put_lookup(d.files, path, two, other);
    let e = Seq::<(Seq<char>, JsonView)>::empty();
    assert(two->Object_0 =~= e.push(("target"@, JsonView::Text(target))).push(
        ("sha256"@, JsonView::Text(sha256)),
    ));
    assert((entries + d.pending).take(entries.len() as int) =~= entries);
    assert((entries + d.pending).skip(entries.len() as int) =~= d.pending);
}

/// What a node signs lists the outputs that it has collected and the inputs that it was given,
/// with how the run has ended.
pub proof fn law_signed_reports_list_the_outputs(
    facts: &Facts,
    node: &NodeContext,
    task_identity: &Json,
    source_ref: &str,
    of_node: Json,
    of_run: Json,
)
    requires
        call_ensures(Facts::node_payload, (facts, node, task_identity), of_node),
        call_ensures(Facts::run_payload, (facts, source_ref), of_run),
    ensures
        member_of(of_node@, "outputs"@) == facts.outputs@,
        member_of(of_node@, "inputs"@) == facts.inputs@,
        member_of(of_node@, "status"@) == JsonView::Text(facts.status@),
        member_of(of_node@, "host"@) == facts.host@,
        member_of(of_node@, "allocation"@) == facts.allocation@,
        member_of(of_node@, "host_driver_files"@) == facts.driver_files@,
        member_of(of_node@, "image_archive"@) == facts.image_archive@,
        member_of(of_node@, "task_identity"@) == task_identity@,
        member_of(member_of(of_node@, "node"@), "node_rank"@) == JsonView::Number(
            decimal(node.node_rank as nat),
        ),
        member_of(of_run@, "outputs"@) == facts.outputs@,
        member_of(of_run@, "inputs"@) == facts.inputs@,
        member_of(of_run@, "status"@) == JsonView::Text(facts.status@),
        member_of(of_run@, "host"@) == facts.host@,
        member_of(of_run@, "allocation"@) == facts.allocation@,
        member_of(of_run@, "host_driver_files"@) == facts.driver_files@,
        member_of(of_run@, "image_archive"@) == facts.image_archive@,
        member_of(of_run@, "source_ref"@) == JsonView::Text(source_ref@),
        member_of(member_of(of_run@, "job_identity"@), "job"@) == facts.job@,
        member_of(member_of(of_run@, "job_identity"@), "source"@) == facts.source@,
{
    broadcast use lemma_lookup_push;

    law_reports_tell_every_fact(facts@, source_ref@, node@, task_identity@);
    lemma_report_names();
    let job = member_of(of_run@, "job_identity"@);
    let m = job->Object_0;
    assert(m =~= Seq::<(Seq<char>, JsonView)>::empty().push(("source"@, facts.source@)).push(
        ("job"@, facts.job@),
    ));
}

/// Inputs and outputs are listed by name and place, an input with its digest or its source, an
/// output with its digest and where it went. A failure names the input or the output before its
/// cause.
#[verifier::rlimit(50)]
#[verifier::spinoff_prover]
pub proof fn law_entries_of_a_report(
    name: &str,
    path: &str,
    digest: &str,
    uri: &Option<String>,
    cause: Error,
    fetched: Json,
    linked: Json,
    collected: Json,
    archived: Json,
    input: Error,
    output: Error,
)
    requires
        call_ensures(fetched_input, (name, path, digest), fetched),
        call_ensures(linked_input, (name, path, digest), linked),
        call_ensures(collected_output, (name, path, digest, uri), collected),
        call_ensures(archive_entry, (path, digest), archived),
        call_ensures(input_failure, (name, cause), input),
        call_ensures(output_failure, (name, cause), output),
    ensures
        member_of(fetched@, "name"@) == JsonView::Text(name@),
        member_of(fetched@, "path"@) == JsonView::Text(path@),
        member_of(fetched@, "sha256"@) == JsonView::Text(digest@),
        member_of(linked@, "name"@) == JsonView::Text(name@),
        member_of(linked@, "path"@) == JsonView::Text(path@),
        member_of(linked@, "source"@) == JsonView::Text(digest@),
        member_of(collected@, "name"@) == JsonView::Text(name@),
        member_of(collected@, "path"@) == JsonView::Text(path@),
        member_of(collected@, "sha256"@) == JsonView::Text(digest@),
        *uri is None ==> member_of(collected@, "uri"@) == JsonView::Null,
        *uri is Some ==> member_of(collected@, "uri"@) == JsonView::Text((*uri)->0@),
        member_of(archived@, "path"@) == JsonView::Text(path@),
        member_of(archived@, "sha256"@) == JsonView::Text(digest@),
        input@.len() == cause@.len() + 1 && input@.skip(1) == cause@,
        output@.len() == cause@.len() + 1 && output@.skip(1) == cause@,
        input@[0] == "materializing input "@ + name@,
        output@[0] == "required output "@ + name@ + " missing or invalid"@,
{
    broadcast use lemma_lookup_push;

    reveal_strlit("name");
    reveal_strlit("path");
    reveal_strlit("sha256");
    reveal_strlit("source");
    reveal_strlit("uri");
    assert("name"@.len() == 4 && "name"@[0] == 'n');
    assert("path"@.len() == 4 && "path"@[0] == 'p');
    assert("sha256"@.len() == 6 && "sha256"@[1] == 'h');
    assert("source"@.len() == 6 && "source"@[1] == 'o');
    assert("uri"@.len() == 3);
    let e = Seq::<(Seq<char>, JsonView)>::empty();
    let f = fetched@->Object_0;
    assert(f =~= e.push(f[0]).push(f[1]).push(f[2]));
    let l = linked@->Object_0;
    assert(l =~= e.push(l[0]).push(l[1]).push(l[2]));
    let c = collected@->Object_0;
    assert(c =~= e.push(c[0]).push(c[1]).push(c[2]).push(c[3]));
    let a = archived@->Object_0;
    assert(a =~= e.push(a[0]).push(a[1]));
    assert(input@.skip(1) =~= cause@);
    assert(output@.skip(1) =~= cause@);
}

/// Driver files are looked for under every root that a device mounts, and nowhere else.
pub proof fn law_every_driver_root_is_looked_at(devices: Seq<DeviceView>, root: Seq<char>)
    ensures
        driver_roots_of(devices).contains(root) <==> exists|i: int, k: int|
            0 <= i < devices.len() && 0 <= k < devices[i].driver_mounts.len() && #[trigger]
                devices[i].driver_mounts[k].0 == root,
    decreases devices.len(),
{
    if devices.len() > 0 {
        let t = devices.drop_last();
        let n = devices.len() - 1;
        let front = driver_roots_of(t);
        let last = keys(devices.last().driver_mounts);
        let all = driver_roots_of(devices);
        law_every_driver_root_is_looked_at(t, root);
        if all.contains(root) {
            let j = choose|j: int| 0 <= j < all.len() && all[j] == root;
            if j < front.len() {
                assert(front[j] == root);
                let (i, k) = choose|i: int, k: int|
                    0 <= i < t.len() && 0 <= k < t[i].driver_mounts.len() && #[trigger]
                        t[i].driver_mounts[k].0 == root;
                assert(devices[i].driver_mounts[k].0 == root);
            } else {
                assert(last[j - front.len()] == root);
                assert(devices[n].driver_mounts[j - front.len()].0 == root);
            }
        }
        if exists|i: int, k: int|
            0 <= i < devices.len() && 0 <= k < devices[i].driver_mounts.len() && #[trigger]
                devices[i].driver_mounts[k].0 == root {
            let (i, k) = choose|i: int, k: int|
                0 <= i < devices.len() && 0 <= k < devices[i].driver_mounts.len() && #[trigger]
                    devices[i].driver_mounts[k].0 == root;
            if i < n {
                assert(t[i].driver_mounts[k].0 == root);
                let j = choose|j: int| 0 <= j < front.len() && front[j] == root;
                assert(all[j] == root);
            } else {
                assert(last[k] == root);
                assert(all[front.len() + k] == root);
            }
        }
    }
}

/// What is asked about the end of a run is answered by how it ended.
pub proof fn law_endings_are_told(
    exit_code: Option<i32>,
    succeeded: bool,
    cancelled: bool,
    of_run: &'static str,
    of_node: &'static str,
    code: i32,
    exit: Result<(), Error>,
    status: &str,
    nodes: u32,
    first: String,
    prepared: &Result<(), Error>,
    amended: Option<Amendment>,
    finished: Option<Amendment>,
)
    requires
        call_ensures(run_status, (exit_code, succeeded, cancelled), of_run),
        call_ensures(node_status, (exit_code, succeeded, cancelled), of_node),
        call_ensures(check_exit, (code,), exit),
        call_ensures(provisional_status, (status, nodes), first),
        call_ensures(amend_prepared, (status, prepared), amended),
        call_ensures(amend_finished, (status, prepared), finished),
    ensures
        exit_code == Some(124i32) ==> of_run@ == "timed_out"@ && of_node@ == "timed_out"@,
        exit_code == Some(130i32) ==> of_run@ == "cancelled"@ && of_node@ == "cancelled"@,
        exit_code is None && succeeded ==> of_run@ == "succeeded"@ && of_node@ == "succeeded"@,
        exit_code == Some(0i32) && !succeeded && !cancelled ==> of_run@ == "failed"@ && of_node@
            == "failed"@,
        exit is Ok <==> code == 0,
        code > 0 ==> (exit matches Err(e) && e@ == seq![
            "workload exited with code "@ + decimal(code as nat),
        ]),
        status@ == "succeeded"@ && nodes > 1 ==> first@ == "prepared"@,
        !(status@ == "succeeded"@ && nodes > 1) ==> first@ == status@,
        amended is Some <==> status@ == "succeeded"@,
        amended matches Some(a) ==> (a.candidate <==> prepared is Ok) && (prepared is Ok ==> a.status@
            == "succeeded"@ && a.error is None) && (prepared is Err ==> a.status@ == "failed"@
            && a.error is Some),
        finished is Some <==> status@ == "succeeded"@ && prepared is Err,
        finished matches Some(a) ==> a.status@ == "failed"@ && a.error is Some && !a.candidate,
{
    law_reports_are_amended_for_the_group(status@, nodes as nat, Seq::empty());
}

/// Driver files are looked at one by one and told as they were seen.
pub proof fn law_driver_files_are_looked_at(
    launch: &Launch,
    start: DriverFiles,
    files: &mut DriverFiles,
    next: Option<String>,
    other: &mut DriverFiles,
    path: &str,
    found: DriverFile,
    seen: Result<(), Error>,
    told: &DriverFiles,
    identity: Json,
)
    requires
        call_ensures(DriverFiles::new, (launch,), start),
        call_ensures(DriverFiles::next, (files,), next),
        call_ensures(DriverFiles::see, (other, path, found), seen),
        call_ensures(DriverFiles::driver_identity, (told,), identity),
    ensures
        start@.pending == driver_roots_of(launch@.devices) && start@.files.len() == 0,
        next is None <==> old(files)@.pending.len() == 0,
        next matches Some(p) ==> p@ == old(files)@.pending[0] && final(files)@.pending == old(
            files,
        )@.pending.skip(1),
        final(files)@.files == old(files)@.files,
        seen is Ok <==> !(found is StrayLink) && !(found is Other),
        found matches DriverFile::File(sha256) ==> (lookup(final(other)@.files, path@) matches Some(v)
            && member_of(v, "sha256"@) == JsonView::Text(sha256@)),
        found matches DriverFile::Link { target, sha256 } ==> (lookup(
            final(other)@.files,
            path@,
        ) matches Some(v) && member_of(v, "sha256"@) == JsonView::Text(sha256@) && member_of(
            v,
            "target"@,
        ) == JsonView::Text(target@)),
        found matches DriverFile::Directory(entries) ==> final(other)@.pending == texts(entries@)
            + old(other)@.pending,
        identity@ == JsonView::Object(told@.files),
{
    let target = if let DriverFile::Link { target, .. } = found {
        target@
    } else {
        Seq::empty()
    };
    let sha256 = match found {
        DriverFile::Link { sha256, .. } => sha256@,
        DriverFile::File(sha256) => sha256@,
        _ => Seq::empty(),
    };
    law_driver_files_are_told(old(other)@, path@, path@, target, sha256, Seq::empty());
}

} // verus!
