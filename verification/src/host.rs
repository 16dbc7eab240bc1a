//! What a host offers, and which targets it can run.

use vstd::prelude::*;
use crate::error::{outcome, Error};
use crate::json::{member_of, text_or_null, whole, Json, JsonView, Members};
use crate::map::{lemma_lookup_push, StringMap};
use crate::model::{fault, TargetSummary};
use crate::reading::{document, read, read_text, string_in};
use crate::text::{
    chars_of, decimal, ends, ends_with, glue, glue3, is_digit, is_white, join, joined,
    law_numbers_are_read_as_written, law_only_white_space_is_trimmed, law_texts_begin_and_end,
    left_trimmed, lemma_decimal_reads_back, number, number_result, parse_number, parse_unsigned,
    pieces, same, split, starts, starts_with, string_of, strip_prefix, text_of, texts, trim,
    trimmed, unsigned, white_char, without,
};

verus! {

/// What a host offers.
#[derive(Debug)]
pub struct Capabilities {
    pub system: String,
    pub cpu_cores: usize,
    pub memory_mib: u64,
    pub container_runtime: Option<String>,
    pub container_runtime_version: Option<String>,
    pub oci_cpu_limits: bool,
    pub oci_memory_limits: bool,
}

pub struct CapabilitiesView {
    pub system: Seq<char>,
    pub cpu_cores: nat,
    pub memory_mib: nat,
    pub container_runtime: Option<Seq<char>>,
    pub container_runtime_version: Option<Seq<char>>,
    pub oci_cpu_limits: bool,
    pub oci_memory_limits: bool,
}

impl View for Capabilities {
    type V = CapabilitiesView;

    open spec fn view(&self) -> CapabilitiesView {
        CapabilitiesView {
            system: self.system@,
            cpu_cores: self.cpu_cores as nat,
            memory_mib: self.memory_mib as nat,
            container_runtime: text_of(self.container_runtime),
            container_runtime_version: text_of(self.container_runtime_version),
            oci_cpu_limits: self.oci_cpu_limits,
            oci_memory_limits: self.oci_memory_limits,
        }
    }
}

pub open spec fn capabilities_json(c: CapabilitiesView) -> JsonView {
    JsonView::Object(
        seq![
            ("system"@, JsonView::Text(c.system)),
            ("cpu_cores"@, whole(c.cpu_cores)),
            ("memory_mib"@, whole(c.memory_mib)),
            ("container_runtime"@, text_or_null(c.container_runtime)),
            ("container_runtime_version"@, text_or_null(c.container_runtime_version)),
            ("oci_cpu_limits"@, JsonView::Bool(c.oci_cpu_limits)),
            ("oci_memory_limits"@, JsonView::Bool(c.oci_memory_limits)),
        ],
    )
}

impl Capabilities {
    pub fn to_json(&self) -> (r: Json)
        ensures
            r@ == capabilities_json(self@),
    {
        let r = Members::new().with("system", Json::text(self.system.as_str())).with(
            "cpu_cores",
            Json::unsigned(self.cpu_cores as u64),
        ).with("memory_mib", Json::unsigned(self.memory_mib)).with(
            "container_runtime",
            Json::optional_text(&self.container_runtime),
        ).with(
            "container_runtime_version",
            Json::optional_text(&self.container_runtime_version),
        ).with("oci_cpu_limits", Json::Bool(self.oci_cpu_limits)).with(
            "oci_memory_limits",
            Json::Bool(self.oci_memory_limits),
        ).object();
        assert(r@->Object_0 =~= capabilities_json(self@)->Object_0);
        r
    }
}

// -------------------------------------------------------------- targets

/// Whether a host can run a target: what is wrong first, if anything is.
pub open spec fn host_check(target: TargetSummary, caps: CapabilitiesView) -> Result<
    (),
    Seq<Seq<char>>,
> {
    let r = target.resources;
    if target.system@ != caps.system {
        fault("target system "@ + target.system@ + " differs from host "@ + caps.system)
    } else if r.cpu_cores is Some && r.cpu_cores->0 > caps.cpu_cores {
        fault("insufficient CPU cores"@)
    } else if r.memory_mib is Some && r.memory_mib->0 > caps.memory_mib {
        fault("insufficient host memory"@)
    } else if target.executor@ == "oci"@ {
        if caps.container_runtime is None {
            fault("no working local Podman/Docker service"@)
        } else if r.enforce && r.cpu_cores is Some && !caps.oci_cpu_limits {
            fault("OCI runtime cannot confirm CPU quota enforcement"@)
        } else if r.enforce && r.memory_mib is Some && !caps.oci_memory_limits {
            fault("OCI runtime cannot confirm memory/swap limit enforcement"@)
        } else {
            Ok(())
        }
    } else if target.executor@ == "native"@ {
        if target.execution.network@ != "host"@ {
            fault(
                "native executor cannot enforce network isolation; explicitly select execution.network = host"@,
            )
        } else if target.execution.isolation@ != "none"@ {
            fault("native executor cannot enforce container isolation"@)
        } else if r.enforce && (r.cpu_cores is Some || r.memory_mib is Some) {
            fault("native executor cannot enforce CPU/memory limits"@)
        } else {
            Ok(())
        }
    } else {
        fault("unknown executor"@)
    }
}

/// Whether a host can run a target.
pub fn check_host(target: &TargetSummary, caps: &Capabilities) -> (r: Result<(), Error>)
    ensures
        outcome(r) == host_check(*target, caps@),
{
    if !same(target.system.as_str(), caps.system.as_str()) {
        let first = glue3("target system ", target.system.as_str(), " differs from host ");
        return Err(Error::of(glue(first.as_str(), caps.system.as_str())));
    }
    if let Some(n) = target.resources.cpu_cores {
        if n as u64 > caps.cpu_cores as u64 {
            return Err(Error::new("insufficient CPU cores"));
        }
    }
    if let Some(n) = target.resources.memory_mib {
        if n > caps.memory_mib {
            return Err(Error::new("insufficient host memory"));
        }
    }
    let enforce = target.resources.enforce;
    let cpu = target.resources.cpu_cores.is_some();
    let memory = target.resources.memory_mib.is_some();
    if same(target.executor.as_str(), "oci") {
        if caps.container_runtime.is_none() {
            return Err(Error::new("no working local Podman/Docker service"));
        }
        if enforce && cpu && !caps.oci_cpu_limits {
            return Err(Error::new("OCI runtime cannot confirm CPU quota enforcement"));
        }
        if enforce && memory && !caps.oci_memory_limits {
            return Err(Error::new("OCI runtime cannot confirm memory/swap limit enforcement"));
        }
        Ok(())
    } else if same(target.executor.as_str(), "native") {
        if !same(target.execution.network.as_str(), "host") {
            return Err(
                Error::new(
                    "native executor cannot enforce network isolation; explicitly select execution.network = host",
                ),
            );
        }
        if !same(target.execution.isolation.as_str(), "none") {
            return Err(Error::new("native executor cannot enforce container isolation"));
        }
        if enforce && (cpu || memory) {
            return Err(Error::new("native executor cannot enforce CPU/memory limits"));
        }
        Ok(())
    } else {
        Err(Error::new("unknown executor"))
    }
}

/// Whether a target fits, or why it does not.
#[derive(Debug)]
pub enum Candidate {
    Fits,
    Refused(String),
}

impl View for Candidate {
    type V = Option<Seq<char>>;

    /// The reason against the target, if there is one.
    open spec fn view(&self) -> Option<Seq<char>> {
        match self {
            Candidate::Fits => None,
            Candidate::Refused(why) => Some(why@),
        }
    }
}

/// The names of the targets that fit.
pub open spec fn fitting_names(s: Seq<(Seq<char>, Option<Seq<char>>)>) -> Seq<Seq<char>>
    decreases s.len(),
{
    if s.len() == 0 {
        Seq::empty()
    } else {
        let rest = fitting_names(s.drop_last());
        if s.last().1 is None {
            rest.push(s.last().0)
        } else {
            rest
        }
    }
}

/// A target and whether it fits, in words.
pub open spec fn standing(e: (Seq<char>, Option<Seq<char>>)) -> Seq<char> {
    e.0 + ": "@ + match e.1 {
        None => "compatible"@,
        Some(why) => why,
    }
}

/// The one target that fits.
pub open spec fn selection(s: Seq<(Seq<char>, Option<Seq<char>>)>) -> Result<
    Seq<char>,
    Seq<Seq<char>>,
> {
    let fitting = fitting_names(s);
    if fitting.len() == 1 {
        Ok(fitting[0])
    } else {
        Err(
            seq![
                decimal(fitting.len()) + " compatible targets; select --target explicitly. "@
                    + joined(s.map_values(|e: (Seq<char>, Option<Seq<char>>)| standing(e)), "; "@),
            ],
        )
    }
}

/// Chooses the one target that fits.
pub fn select(candidates: &StringMap<Candidate>) -> (r: Result<String, Error>)
    ensures
        outcome(r) == selection(candidates@),
{
    let ghost all = candidates@;
    let ghost words = all.map_values(|e: (Seq<char>, Option<Seq<char>>)| standing(e));
    let mut fitting: Vec<String> = Vec::new();
    let mut details: Vec<String> = Vec::new();
    let mut i: usize = 0;
    assert(texts(fitting@) =~= fitting_names(all.take(0)));
    assert(texts(details@) =~= words.take(0));
    while i < candidates.len()
        invariant
            all == candidates@,
            words == all.map_values(|e: (Seq<char>, Option<Seq<char>>)| standing(e)),
            i <= all.len(),
            fitting@.len() <= i,
            texts(fitting@) == fitting_names(all.take(i as int)),
            texts(details@) == words.take(i as int),
        decreases all.len() - i,
    {
        let ghost done = texts(fitting@);
        let ghost told = texts(details@);
        assert(all.take(i + 1).drop_last() =~= all.take(i as int));
        assert(all.take(i + 1).last() == all[i as int]);
        let name = candidates.key(i);
        let why = match candidates.value(i) {
            Candidate::Fits => {
                fitting.push(name.clone());
                assert(texts(fitting@) =~= done.push(name@));
                "compatible"
            },
            Candidate::Refused(why) => why.as_str(),
        };
        let line = glue3(name.as_str(), ": ", why);
        details.push(line);
        assert(texts(details@) =~= told.push(line@));
        assert(words.take(i + 1) =~= words.take(i as int).push(words[i as int]));
        i += 1;
    }
    assert(all.take(all.len() as int) =~= all);
    assert(words.take(words.len() as int) =~= words);
    if fitting.len() == 1 {
        assert(texts(fitting@)[0] == fitting@[0]@);
        return Ok(fitting[0].clone());
    }
    let head = glue(
        number(fitting.len() as u64).as_str(),
        " compatible targets; select --target explicitly. ",
    );
    Err(Error::of(glue(head.as_str(), join(&details, "; ").as_str())))
}

// --------------------------------------------------------------- memory

/// The characters before the first white space.
pub open spec fn leading_word(s: Seq<char>) -> Seq<char>
    decreases s.len(),
{
    if s.len() == 0 || is_white(s[0]) {
        Seq::empty()
    } else {
        seq![s[0]] + leading_word(s.skip(1))
    }
}

/// The memory in KiB that a line tells, where it is the line that tells it.
pub open spec fn memory_in(line: Seq<char>) -> Option<nat> {
    if starts(line, "MemTotal:"@) {
        let word = leading_word(left_trimmed(without(line, "MemTotal:"@)));
        if word.len() == 0 {
            None
        } else {
            unsigned(word, u64::MAX as nat)
        }
    } else {
        None
    }
}

/// The memory that the first line with a memory tells.
pub open spec fn first_memory(lines: Seq<Seq<char>>) -> Option<nat>
    decreases lines.len(),
{
    if lines.len() == 0 {
        None
    } else if memory_in(lines[0]) is Some {
        memory_in(lines[0])
    } else {
        first_memory(lines.skip(1))
    }
}

/// The memory of a Linux host in MiB, by what the kernel tells of it.
pub open spec fn linux_memory(report: Seq<char>) -> Result<nat, Seq<Seq<char>>> {
    match first_memory(pieces(report, '\n')) {
        None => Err(seq!["cannot determine host memory"@]),
        Some(kib) => Ok(kib / 1024),
    }
}

/// The memory of a Darwin host in MiB, by the number of its bytes.
pub open spec fn darwin_memory(report: Seq<char>) -> Result<nat, Seq<Seq<char>>> {
    match number_result(trimmed(report), u64::MAX as nat) {
        Err(m) => Err(seq![m]),
        Ok(bytes) => Ok(bytes / 1024 / 1024),
    }
}

fn first_word(s: &str) -> (r: String)
    ensures
        r@ == leading_word(left_trimmed(s@)),
{
    let x = chars_of(s);
    let mut i: usize = 0;
    assert(s@.skip(0) =~= s@);
    while i < x.len() && white_char(x[i])
        invariant
            x@ == s@,
            i <= x@.len(),
            left_trimmed(s@.skip(i as int)) == left_trimmed(s@),
        decreases x.len() - i,
    {
        assert(s@.skip(i as int)[0] == x@[i as int]);
        assert(s@.skip(i as int).skip(1) =~= s@.skip(i + 1));
        i += 1;
    }
    let ghost word = s@.skip(i as int);
    assert(left_trimmed(s@) == word);
    let mut j: usize = i;
    assert(word =~= s@.subrange(i as int, j as int) + s@.skip(j as int));
    assert(leading_word(word) =~= s@.subrange(i as int, j as int) + leading_word(
        s@.skip(j as int),
    ));
    while j < x.len() && !white_char(x[j])
        invariant
            x@ == s@,
            i <= j <= x@.len(),
            leading_word(word) == s@.subrange(i as int, j as int) + leading_word(
                s@.skip(j as int),
            ),
        decreases x.len() - j,
    {
        assert(s@.skip(j as int)[0] == x@[j as int]);
        assert(s@.skip(j as int).skip(1) =~= s@.skip(j + 1));
        assert(s@.subrange(i as int, j + 1) =~= s@.subrange(i as int, j as int) + seq![
            s@[j as int],
        ]);
        assert(s@.subrange(i as int, j as int) + (seq![s@[j as int]] + leading_word(
            s@.skip(j + 1),
        )) =~= s@.subrange(i as int, j + 1) + leading_word(s@.skip(j + 1)));
        j += 1;
    }
    assert(leading_word(s@.skip(j as int)) =~= Seq::empty()) by {
        if j < x.len() {
            assert(s@.skip(j as int)[0] == x@[j as int]);
        }
    }
    assert(leading_word(word) =~= s@.subrange(i as int, j as int));
    string_of(&x, i, j)
}

/// The memory of a Linux host in MiB, by what the kernel tells of it.
pub fn memory_of_linux(report: &str) -> (r: Result<u64, Error>)
    ensures
        match r {
            Ok(n) => linux_memory(report@) matches Ok(m) && n == m,
            Err(e) => linux_memory(report@) matches Err(f) && e@ == f,
        },
{
    let lines = split(report, '\n');
    let ghost all = pieces(report@, '\n');
    let mut i: usize = 0;
    assert(all.skip(0) =~= all);
    while i < lines.len()
        invariant
            all == pieces(report@, '\n'),
            texts(lines@) == all,
            i <= lines@.len(),
            first_memory(all.skip(i as int)) == first_memory(all),
        decreases lines.len() - i,
    {
        assert(texts(lines@)[i as int] == lines@[i as int]@);
        assert(all.skip(i as int)[0] == lines@[i as int]@);
        assert(all.skip(i as int).skip(1) =~= all.skip(i + 1));
        if let Some(rest) = strip_prefix(lines[i].as_str(), "MemTotal:") {
            let word = first_word(rest.as_str());
            if word.as_str().unicode_len() > 0 {
                if let Some(kib) = parse_unsigned(word.as_str(), u64::MAX) {
                    return Ok(kib / 1024);
                }
            }
        }
        i += 1;
    }
    Err(Error::new("cannot determine host memory"))
}

/// The memory of a Darwin host in MiB, by the number of its bytes.
pub fn memory_of_darwin(report: &str) -> (r: Result<u64, Error>)
    ensures
        match r {
            Ok(n) => darwin_memory(report@) matches Ok(m) && n == m,
            Err(e) => darwin_memory(report@) matches Err(f) && e@ == f,
        },
{
    match parse_number(trim(report).as_str(), u64::MAX) {
        Ok(bytes) => Ok(bytes / 1024 / 1024),
        Err(m) => Err(Error::of(m)),
    }
}

// ------------------------------------------------------------- runtimes

/// Whether an array holds a text.
pub open spec fn lists_text(v: JsonView, name: Seq<char>) -> bool {
    v is Array && v->Array_0.contains(JsonView::Text(name))
}

/// Whether Podman can limit by a controller.
pub open spec fn podman_controls(host: JsonView, name: Seq<char>) -> bool {
    member_of(host, "cgroupVersion"@) == JsonView::Text("v2"@) && lists_text(
        member_of(host, "cgroupControllers"@),
        name,
    )
}

/// Which limits Podman can enforce, the processor's and the memory's.
pub open spec fn podman_limits_of(info: JsonView) -> Result<(bool, bool), Seq<Seq<char>>> {
    let host = member_of(info, "host"@);
    if member_of(host, "serviceIsRemote"@) != JsonView::Bool(false) {
        Err(seq!["remote Podman execution is unsupported"@])
    } else {
        Ok((podman_controls(host, "cpu"@), podman_controls(host, "memory"@)))
    }
}

/// The endpoint that the environment sets for Docker: a context that is named goes
/// before a host.
pub open spec fn docker_override(
    context: Option<Seq<char>>,
    host: Option<Seq<char>>,
) -> Option<Seq<char>> {
    if context is Some && context->0.len() > 0 {
        None
    } else {
        host
    }
}

/// Only a local socket will do.
pub open spec fn docker_endpoint_check(endpoint: Seq<char>) -> Result<(), Seq<Seq<char>>> {
    if starts(endpoint, "unix://"@) {
        Ok(())
    } else {
        fault("remote Docker execution is unsupported"@)
    }
}

/// Which limits Docker can enforce, the processor's and the memory's.
pub open spec fn docker_limits_of(info: JsonView) -> (bool, bool) {
    (
        member_of(info, "CpuCfsQuota"@) == JsonView::Bool(true),
        member_of(info, "MemoryLimit"@) == JsonView::Bool(true) && member_of(info, "SwapLimit"@)
            == JsonView::Bool(true),
    )
}

fn is_flag(info: &Json, key: &str, value: bool) -> (r: bool)
    ensures
        r == (member_of(info@, key@) == JsonView::Bool(value)),
{
    match info.get(key) {
        Some(Json::Bool(b)) => *b == value,
        _ => false,
    }
}

fn has_text(list: &Json, name: &str) -> (r: bool)
    ensures
        r == lists_text(list@, name@),
{
    match list {
        Json::Array(items) => {
            let mut i: usize = 0;
            while i < items.len()
                invariant
                    *list == Json::Array(*items),
                    i <= items@.len(),
                    forall|k: int|
                        0 <= k < i ==> (#[trigger] list@->Array_0[k]) != JsonView::Text(name@),
                decreases items.len() - i,
            {
                assert(list@->Array_0[i as int] == items@[i as int]@);
                if let Json::Text(s) = &items[i] {
                    if same(s.as_str(), name) {
                        return true;
                    }
                }
                i += 1;
            }
            false
        },
        _ => false,
    }
}

fn controls(host: &Json, name: &str) -> (r: bool)
    ensures
        r == podman_controls(host@, name@),
{
    let unified = match host.get_text("cgroupVersion") {
        Some(v) => same(v.as_str(), "v2"),
        None => false,
    };
    match host.get("cgroupControllers") {
        Some(list) => unified && has_text(list, name),
        None => false,
    }
}

/// Which limits Podman can enforce, by what it tells of itself.
pub fn podman_limits(info: &Json) -> (r: Result<(bool, bool), Error>)
    ensures
        match r {
            Ok(limits) => podman_limits_of(info@) == Ok::<(bool, bool), Seq<Seq<char>>>(limits),
            Err(e) => podman_limits_of(info@) == Err::<(bool, bool), Seq<Seq<char>>>(e@),
        },
{
    let nothing = Json::Null;
    let host = match info.get("host") {
        Some(h) => h,
        None => &nothing,
    };
    assert(host@ == member_of(info@, "host"@));
    if !is_flag(host, "serviceIsRemote", false) {
        return Err(Error::new("remote Podman execution is unsupported"));
    }
    Ok((controls(host, "cpu"), controls(host, "memory")))
}

/// The endpoint that the environment sets for Docker.
pub fn docker_host(context: Option<String>, host: Option<String>) -> (r: Option<String>)
    ensures
        text_of(r) == docker_override(text_of(context), text_of(host)),
{
    if let Some(name) = &context {
        if name.as_str().unicode_len() > 0 {
            return None;
        }
    }
    host
}

/// Refuses a Docker service on another host.
pub fn check_docker_endpoint(endpoint: &str) -> (r: Result<(), Error>)
    ensures
        outcome(r) == docker_endpoint_check(endpoint@),
{
    if starts_with(endpoint, "unix://") {
        Ok(())
    } else {
        Err(Error::new("remote Docker execution is unsupported"))
    }
}

/// Which limits Docker can enforce, by what it tells of itself.
pub fn docker_limits(info: &Json) -> (r: (bool, bool))
    ensures
        r == docker_limits_of(info@),
{
    (
        is_flag(info, "CpuCfsQuota", true),
        is_flag(info, "MemoryLimit", true) && is_flag(info, "SwapLimit", true),
    )
}

/// Which limits a runtime can enforce, by what it tells of itself.
pub open spec fn limits_of(runtime: Seq<char>, info: JsonView) -> Result<
    (bool, bool),
    Seq<Seq<char>>,
> {
    if runtime == "podman"@ {
        podman_limits_of(info)
    } else {
        Ok(docker_limits_of(info))
    }
}

/// Which limits a runtime can enforce, by what it has written of itself.
pub fn runtime_limits(runtime: &str, report: &[u8]) -> (r: Result<(bool, bool), Error>)
    ensures
        match document(report@) {
            Err(why) => r matches Err(e) && e@ == why,
            Ok(info) => match r {
                Ok(limits) => limits_of(runtime@, info) == Ok::<(bool, bool), Seq<Seq<char>>>(
                    limits,
                ),
                Err(e) => limits_of(runtime@, info) == Err::<(bool, bool), Seq<Seq<char>>>(e@),
            },
        },
{
    let info = match read(report) {
        Ok(info) => info,
        Err(e) => {
            return Err(e);
        },
    };
    if same(runtime, "podman") {
        podman_limits(&info)
    } else {
        Ok(docker_limits(&info))
    }
}

/// Refuses a Docker service on another host, by what Docker has written of its context.
pub fn check_docker_context(report: &[u8]) -> (r: Result<(), Error>)
    ensures
        outcome(r) == match string_in(report@) {
            Ok(endpoint) => docker_endpoint_check(endpoint),
            Err(why) => Err(why),
        },
{
    match read_text(report) {
        Ok(endpoint) => check_docker_endpoint(endpoint.as_str()),
        Err(e) => Err(e),
    }
}

/// The question to a runtime for what it can do.
pub open spec fn limits_question(runtime: Seq<char>) -> Seq<Seq<char>> {
    seq![
        "info"@,
        "--format"@,
        if runtime == "podman"@ {
            "json"@
        } else {
            "{{json .}}"@
        },
    ]
}

/// The question to a runtime for what it can do.
pub fn limits_command(runtime: &str) -> (r: Vec<String>)
    ensures
        texts(r@) == limits_question(runtime@),
{
    let mut out: Vec<String> = Vec::new();
    out.push("info".to_owned());
    out.push("--format".to_owned());
    if same(runtime, "podman") {
        out.push("json".to_owned());
    } else {
        out.push("{{json .}}".to_owned());
    }
    assert(texts(out@) =~= limits_question(runtime@));
    out
}

/// The question to Docker for the endpoint of its context.
pub fn docker_context_command() -> (r: Vec<String>)
    ensures
        texts(r@) == seq![
            "context"@,
            "inspect"@,
            "--format"@,
            "{{json .Endpoints.docker.Host}}"@,
        ],
{
    let mut out: Vec<String> = Vec::new();
    out.push("context".to_owned());
    out.push("inspect".to_owned());
    out.push("--format".to_owned());
    out.push("{{json .Endpoints.docker.Host}}".to_owned());
    assert(texts(out@) =~= seq![
        "context"@,
        "inspect"@,
        "--format"@,
        "{{json .Endpoints.docker.Host}}"@,
    ]);
    out
}

/// The container runtimes, the preferred one first.
pub open spec fn runtime_order() -> Seq<Seq<char>> {
    seq!["podman"@, "docker"@]
}

/// The first runtime that works, and its limits.
pub open spec fn first_working(heard: Seq<Option<(bool, bool)>>) -> Option<(int, (bool, bool))>
    decreases heard.len(),
{
    if heard.len() == 0 {
        None
    } else if first_working(heard.drop_last()) is Some {
        first_working(heard.drop_last())
    } else {
        match heard.last() {
            Some(limits) => Some((heard.len() - 1, limits)),
            None => None,
        }
    }
}

/// A container runtime and the limits that it can enforce.
#[derive(Debug)]
pub struct FoundRuntime {
    pub name: String,
    pub cpu: bool,
    pub memory: bool,
}

/// The search for a container runtime that works.
pub struct RuntimeSearch {
    asked: usize,
    found: Option<FoundRuntime>,
    heard: Ghost<Seq<Option<(bool, bool)>>>,
}

impl View for RuntimeSearch {
    type V = Seq<Option<(bool, bool)>>;

    /// What was heard of each runtime that was asked.
    closed spec fn view(&self) -> Seq<Option<(bool, bool)>> {
        self.heard@
    }
}

impl RuntimeSearch {
    #[verifier::type_invariant]
    spec fn told(self) -> bool {
        &&& self.asked == self.heard@.len()
        &&& self.asked <= 2
        &&& match self.found {
            None => first_working(self.heard@) is None,
            Some(f) => first_working(self.heard@) matches Some((k, limits)) && 0 <= k
                < self.heard@.len() && f.name@ == runtime_order()[k] && limits == (f.cpu, f.memory),
        }
    }

    pub fn new() -> (r: RuntimeSearch)
        ensures
            r@ == Seq::<Option<(bool, bool)>>::empty(),
    {
        RuntimeSearch { asked: 0, found: None, heard: Ghost(Seq::empty()) }
    }

    /// The runtime to ask next. None is asked once one works.
    pub fn next(&self) -> (r: Option<String>)
        ensures
            text_of(r) == if first_working(self@) is Some || self@.len() >= 2 {
                None
            } else {
                Some(runtime_order()[self@.len() as int])
            },
    {
        proof {
            use_type_invariant(self);
        }
        if self.found.is_some() {
            None
        } else if self.asked == 0 {
            Some("podman".to_owned())
        } else if self.asked == 1 {
            Some("docker".to_owned())
        } else {
            None
        }
    }

    /// Takes what was heard of the runtime that was asked: its limits, or nothing
    /// where it does not work.
    pub fn record(&mut self, limits: Option<(bool, bool)>)
        requires
            first_working(old(self)@) is None,
            old(self)@.len() < 2,
        ensures
            final(self)@ == old(self)@.push(limits),
    {
        proof {
            use_type_invariant(&*self);
        }
        let asked = self.asked;
        let ghost before = self.heard@;
        let name = if asked == 0 {
            "podman"
        } else {
            "docker"
        };
        let found = match limits {
            Some(l) => Some(FoundRuntime { name: name.to_owned(), cpu: l.0, memory: l.1 }),
            None => None,
        };
        let ghost heard = before.push(limits);
        assert(heard.drop_last() =~= before);
        *self = RuntimeSearch { asked: asked + 1, found, heard: Ghost(heard) };
    }

    /// The runtime that works, where one was found.
    pub fn finish(self) -> (r: Option<FoundRuntime>)
        ensures
            match r {
                None => first_working(self@) is None,
                Some(f) => first_working(self@) matches Some((k, limits)) && f.name@
                    == runtime_order()[k] && limits == (f.cpu, f.memory),
            },
    {
        proof {
            use_type_invariant(&self);
        }
        self.found
    }
}

/// What a host offers, by what was read of it.
pub open spec fn capabilities_of(
    system: Seq<char>,
    cpu_cores: nat,
    memory: Seq<char>,
    runtime: Option<(Seq<char>, bool, bool)>,
    version: Seq<char>,
) -> Result<CapabilitiesView, Seq<Seq<char>>> {
    let mib = if ends(system, "-darwin"@) {
        darwin_memory(memory)
    } else {
        linux_memory(memory)
    };
    match mib {
        Err(e) => Err(e),
        Ok(memory_mib) => Ok(
            CapabilitiesView {
                system,
                cpu_cores,
                memory_mib,
                container_runtime: match runtime {
                    Some(r) => Some(r.0),
                    None => None,
                },
                container_runtime_version: match runtime {
                    Some(_) => Some(trimmed(version)),
                    None => None,
                },
                oci_cpu_limits: runtime matches Some(r) && r.1,
                oci_memory_limits: runtime matches Some(r) && r.2,
            },
        ),
    }
}

/// A runtime that was found, by its parts.
pub open spec fn runtime_parts(r: Option<FoundRuntime>) -> Option<(Seq<char>, bool, bool)> {
    match r {
        Some(f) => Some((f.name@, f.cpu, f.memory)),
        None => None,
    }
}

/// What a host offers, by what was read of it: the system, the number of its cores,
/// the report on its memory, the container runtime and what that tells as its version.
pub fn detect_capabilities(
    system: String,
    cpu_cores: usize,
    memory: &str,
    runtime: Option<FoundRuntime>,
    version: &str,
) -> (r: Result<Capabilities, Error>)
    ensures
        outcome(r) == capabilities_of(
            system@,
            cpu_cores as nat,
            memory@,
            runtime_parts(runtime),
            version@,
        ),
{
    let mib = if ends_with(system.as_str(), "-darwin") {
        memory_of_darwin(memory)
    } else {
        memory_of_linux(memory)
    };
    let memory_mib = match mib {
        Ok(n) => n,
        Err(e) => {
            return Err(e);
        },
    };
    match runtime {
        Some(f) => Ok(
            Capabilities {
                system,
                cpu_cores,
                memory_mib,
                container_runtime: Some(f.name),
                container_runtime_version: Some(trim(version)),
                oci_cpu_limits: f.cpu,
                oci_memory_limits: f.memory,
            },
        ),
        None => Ok(
            Capabilities {
                system,
                cpu_cores,
                memory_mib,
                container_runtime: None,
                container_runtime_version: None,
                oci_cpu_limits: false,
                oci_memory_limits: false,
            },
        ),
    }
}

// ----------------------------------------------------------------- laws

/// The target that is chosen is the only one that fits.
pub proof fn law_selected_target_is_the_only_fit(s: Seq<(Seq<char>, Option<Seq<char>>)>)
    ensures
        selection(s) matches Ok(name) ==> exists|i: int|
            #![trigger s[i]]
            0 <= i < s.len() && s[i].0 == name && s[i].1 is None && forall|j: int|
                0 <= j < s.len() && j != i ==> (#[trigger] s[j]).1 is Some,
{
    if selection(s) is Ok {
        lemma_one_fits(s);
    }
}

/// Where nothing fits, every target has a reason against it.
proof fn lemma_none_fits(s: Seq<(Seq<char>, Option<Seq<char>>)>)
    requires
        fitting_names(s).len() == 0,
    ensures
        forall|j: int| 0 <= j < s.len() ==> (#[trigger] s[j]).1 is Some,
    decreases s.len(),
{
    if s.len() > 0 {
        let t = s.drop_last();
        lemma_none_fits(t);
        assert forall|j: int| 0 <= j < s.len() implies (#[trigger] s[j]).1 is Some by {
            if j < t.len() {
                assert(t[j].1 is Some);
            }
        }
    }
}

proof fn lemma_one_fits(s: Seq<(Seq<char>, Option<Seq<char>>)>)
    requires
        fitting_names(s).len() == 1,
    ensures
        exists|i: int|
            #![trigger s[i]]
            0 <= i < s.len() && s[i].0 == fitting_names(s)[0] && s[i].1 is None && forall|j: int|
                0 <= j < s.len() && j != i ==> (#[trigger] s[j]).1 is Some,
    decreases s.len(),
{
    let t = s.drop_last();
    let n = s.len() - 1;
    if s.last().1 is None {
        lemma_none_fits(t);
        assert(s[n].1 is None);
        assert forall|j: int| 0 <= j < s.len() && j != n implies (#[trigger] s[j]).1 is Some by {
            assert(t[j].1 is Some);
        }
    } else {
        lemma_one_fits(t);
        let i = choose|i: int|
            #![trigger t[i]]
            0 <= i < t.len() && t[i].0 == fitting_names(t)[0] && t[i].1 is None && forall|j: int|
                0 <= j < t.len() && j != i ==> (#[trigger] t[j]).1 is Some;
        assert(s[i] == t[i]);
        assert forall|j: int| 0 <= j < s.len() && j != i implies (#[trigger] s[j]).1 is Some by {
            if j < n {
                assert(t[j].1 is Some);
            }
        }
    }
}

/// A workload is never started without a container where isolation from the network, a
/// container or limits were asked for.
pub proof fn law_native_execution_is_explicit(target: TargetSummary, caps: CapabilitiesView)
    requires
        host_check(target, caps) is Ok,
        target.executor@ == "native"@,
    ensures
        target.execution.network@ == "host"@,
        target.execution.isolation@ == "none"@,
        target.resources.enforce ==> target.resources.cpu_cores is None
            && target.resources.memory_mib is None,
{
    reveal_strlit("native");
    reveal_strlit("oci");
    assert("native"@.len() != "oci"@.len());
}

/// What a host offers is told, each thing under its own name.
#[verifier::rlimit(50)]
#[verifier::spinoff_prover]
pub proof fn law_hosts_are_told(c: CapabilitiesView)
    ensures
        member_of(capabilities_json(c), "system"@) == JsonView::Text(c.system),
        member_of(capabilities_json(c), "cpu_cores"@) == JsonView::Number(decimal(c.cpu_cores)),
        member_of(capabilities_json(c), "memory_mib"@) == JsonView::Number(decimal(c.memory_mib)),
        member_of(capabilities_json(c), "container_runtime"@) == (match c.container_runtime {
            Some(s) => JsonView::Text(s),
            None => JsonView::Null,
        }),
        member_of(capabilities_json(c), "container_runtime_version"@) == (match c.container_runtime_version {
            Some(s) => JsonView::Text(s),
            None => JsonView::Null,
        }),
        member_of(capabilities_json(c), "oci_cpu_limits"@) == JsonView::Bool(c.oci_cpu_limits),
        member_of(capabilities_json(c), "oci_memory_limits"@) == JsonView::Bool(c.oci_memory_limits),
        capabilities_json(c)->Object_0.len() == 7,
{
    broadcast use lemma_lookup_push;

    reveal_strlit("system");
    reveal_strlit("cpu_cores");
    reveal_strlit("memory_mib");
    reveal_strlit("container_runtime");
    reveal_strlit("container_runtime_version");
    reveal_strlit("oci_cpu_limits");
    reveal_strlit("oci_memory_limits");
    assert("system"@.len() == 6);
    assert("cpu_cores"@.len() == 9);
    assert("memory_mib"@.len() == 10);
    assert("container_runtime"@.len() == 17 && "container_runtime"@[0] == 'c');
    assert("container_runtime_version"@.len() == 25);
    assert("oci_cpu_limits"@.len() == 14);
    assert("oci_memory_limits"@.len() == 17 && "oci_memory_limits"@[0] == 'o');
    let all = Seq::<(Seq<char>, JsonView)>::empty()
        .push(("system"@, JsonView::Text(c.system)))
        .push(("cpu_cores"@, whole(c.cpu_cores)))
        .push(("memory_mib"@, whole(c.memory_mib)))
        .push(("container_runtime"@, text_or_null(c.container_runtime)))
        .push(("container_runtime_version"@, text_or_null(c.container_runtime_version)))
        .push(("oci_cpu_limits"@, JsonView::Bool(c.oci_cpu_limits)))
        .push(("oci_memory_limits"@, JsonView::Bool(c.oci_memory_limits)));
    assert(capabilities_json(c)->Object_0 =~= all);
    assert(capabilities_json(c) == JsonView::Object(all));
}

/// A host takes a target exactly where it is the system that was asked for, has the cores and the
/// memory, and can keep what the target demands: in a container a runtime that enforces the
/// limits, without one no isolation and no limit at all.
pub proof fn law_hosts_take_what_they_can_keep(target: TargetSummary, caps: CapabilitiesView)
    ensures
        host_check(target, caps) is Ok <==> {
            let r = target.resources;
            &&& target.system@ == caps.system
            &&& r.cpu_cores is Some ==> r.cpu_cores->0 <= caps.cpu_cores
            &&& r.memory_mib is Some ==> r.memory_mib->0 <= caps.memory_mib
            &&& {
                ||| {
                    &&& target.executor@ == "oci"@
                    &&& caps.container_runtime is Some
                    &&& r.enforce && r.cpu_cores is Some ==> caps.oci_cpu_limits
                    &&& r.enforce && r.memory_mib is Some ==> caps.oci_memory_limits
                }
                ||| {
                    &&& target.executor@ == "native"@
                    &&& target.execution.network@ == "host"@
                    &&& target.execution.isolation@ == "none"@
                    &&& r.enforce ==> r.cpu_cores is None && r.memory_mib is None
                }
            }
        },
{
    reveal_strlit("native");
    reveal_strlit("oci");
    assert("native"@.len() != "oci"@.len());
}

proof fn lemma_only_fit(s: Seq<(Seq<char>, Option<Seq<char>>)>, i: int)
    requires
        0 <= i < s.len(),
        s[i].1 is None,
        forall|j: int| 0 <= j < s.len() && j != i ==> (#[trigger] s[j]).1 is Some,
    ensures
        fitting_names(s) == seq![s[i].0],
    decreases s.len(),
{
    let t = s.drop_last();
    if i == s.len() - 1 {
        assert forall|j: int| 0 <= j < t.len() implies (#[trigger] t[j]).1 is Some by {
            assert(s[j].1 is Some);
        }
        lemma_all_refused(t);
        assert(fitting_names(s) =~= seq![s[i].0]);
    } else {
        assert(s[s.len() - 1].1 is Some);
        assert forall|j: int| 0 <= j < t.len() && j != i implies (#[trigger] t[j]).1 is Some by {
            assert(s[j].1 is Some);
        }
        lemma_only_fit(t, i);
    }
}

proof fn lemma_all_refused(s: Seq<(Seq<char>, Option<Seq<char>>)>)
    requires
        forall|j: int| 0 <= j < s.len() ==> (#[trigger] s[j]).1 is Some,
    ensures
        fitting_names(s).len() == 0,
    decreases s.len(),
{
    if s.len() > 0 {
        let t = s.drop_last();
        assert forall|j: int| 0 <= j < t.len() implies (#[trigger] t[j]).1 is Some by {
            assert(s[j].1 is Some);
        }
        lemma_all_refused(t);
        assert(s[s.len() - 1].1 is Some);
    }
}

/// The one target that fits is selected; where none fits, or several, the choice is refused.
pub proof fn law_the_only_fit_is_selected(s: Seq<(Seq<char>, Option<Seq<char>>)>, i: int)
    requires
        0 <= i < s.len(),
    ensures
        s[i].1 is None && (forall|j: int|
            0 <= j < s.len() && j != i ==> (#[trigger] s[j]).1 is Some) ==> selection(s) == Ok::<
            Seq<char>,
            Seq<Seq<char>>,
        >(s[i].0),
        (forall|j: int| 0 <= j < s.len() ==> (#[trigger] s[j]).1 is Some) ==> selection(s) is Err,
        s[i].1 is None && (exists|j: int|
            0 <= j < s.len() && j != i && (#[trigger] s[j]).1 is None) ==> selection(s) is Err,
{
    if s[i].1 is None && (forall|j: int|
        0 <= j < s.len() && j != i ==> (#[trigger] s[j]).1 is Some) {
        lemma_only_fit(s, i);
    }
    if forall|j: int| 0 <= j < s.len() ==> (#[trigger] s[j]).1 is Some {
        lemma_all_refused(s);
    }
    if selection(s) is Ok {
        lemma_one_fits(s);
        let k = choose|k: int|
            #![trigger s[k]]
            0 <= k < s.len() && s[k].0 == fitting_names(s)[0] && s[k].1 is None && forall|j: int|
                0 <= j < s.len() && j != k ==> (#[trigger] s[j]).1 is Some;
        if s[i].1 is None {
            assert(i == k);
        }
    }
}

proof fn lemma_leading_word(word: Seq<char>, rest: Seq<char>)
    requires
        forall|i: int| 0 <= i < word.len() ==> !is_white(#[trigger] word[i]),
        rest.len() == 0 || is_white(rest[0]),
    ensures
        leading_word(word + rest) == word,
    decreases word.len(),
{
    let all = word + rest;
    if word.len() > 0 {
        assert(all[0] == word[0]);
        assert(all.skip(1) =~= word.skip(1) + rest);
        lemma_leading_word(word.skip(1), rest);
        assert(seq![word[0]] + word.skip(1) =~= word);
    } else {
        assert(all =~= rest);
    }
}

/// The memory of a Linux host is the number in the line that begins with its name, in units of
/// 1024, whatever stands in the other lines; without such a line it is unknown.
pub proof fn law_memory_is_read_from_its_line(
    report: Seq<char>,
    i: int,
    pad: Seq<char>,
    n: nat,
    rest: Seq<char>,
)
    requires
        0 <= i < pieces(report, '\n').len(),
        forall|k: int|
            0 <= k < i ==> !starts(#[trigger] pieces(report, '\n')[k], "MemTotal:"@),
        forall|k: int| 0 <= k < pad.len() ==> is_white(#[trigger] pad[k]),
        rest.len() == 0 || is_white(rest[0]),
        n <= u64::MAX,
        pieces(report, '\n')[i] == "MemTotal:"@ + (pad + (decimal(n) + rest)),
    ensures
        linux_memory(report) == Ok::<nat, Seq<Seq<char>>>(n / 1024),
{
    let lines = pieces(report, '\n');
    let word = decimal(n);
    law_numbers_are_read_as_written(n, u64::MAX as nat);
    lemma_decimal_reads_back(n);
    law_texts_begin_and_end(lines[i], "MemTotal:"@, pad + (word + rest));
    assert(!is_white(word[0]));
    assert((word + rest)[0] == word[0]);
    assert(pad + (word + rest) =~= pad + (word + rest) + Seq::<char>::empty());
    lemma_pad_is_trimmed(pad, word + rest);
    assert forall|k: int| 0 <= k < word.len() implies !is_white(#[trigger] word[k]) by {
        assert(is_digit(word[k]));
    }
    lemma_leading_word(word, rest);
    assert(memory_in(lines[i]) == Some(n));
    lemma_first_memory(lines, i);
}

proof fn lemma_pad_is_trimmed(pad: Seq<char>, s: Seq<char>)
    requires
        forall|k: int| 0 <= k < pad.len() ==> is_white(#[trigger] pad[k]),
        s.len() > 0,
        !is_white(s[0]),
    ensures
        left_trimmed(pad + s) == s,
    decreases pad.len(),
{
    if pad.len() > 0 {
        assert((pad + s)[0] == pad[0]);
        assert((pad + s).drop_first() =~= pad.drop_first() + s);
        lemma_pad_is_trimmed(pad.drop_first(), s);
    } else {
        assert(pad + s =~= s);
    }
}

proof fn lemma_first_memory(lines: Seq<Seq<char>>, i: int)
    requires
        0 <= i < lines.len(),
        memory_in(lines[i]) is Some,
        forall|k: int| 0 <= k < i ==> !starts(#[trigger] lines[k], "MemTotal:"@),
    ensures
        first_memory(lines) == memory_in(lines[i]),
    decreases i,
{
    if i > 0 {
        assert(!starts(lines[0], "MemTotal:"@));
        let rest = lines.skip(1);
        assert forall|k: int| 0 <= k < i - 1 implies !starts(#[trigger] rest[k], "MemTotal:"@) by {
            assert(rest[k] == lines[k + 1]);
        }
        lemma_first_memory(rest, i - 1);
    }
}

/// The memory of an Apple host is the number that it tells, in bytes.
pub proof fn law_apple_memory_is_read_as_told(a: Seq<char>, n: nat, b: Seq<char>)
    requires
        forall|k: int| 0 <= k < a.len() ==> is_white(#[trigger] a[k]),
        forall|k: int| 0 <= k < b.len() ==> is_white(#[trigger] b[k]),
        n <= u64::MAX,
    ensures
        darwin_memory(a + decimal(n) + b) == Ok::<nat, Seq<Seq<char>>>(n / 1048576),
{
    law_numbers_are_read_as_written(n, u64::MAX as nat);
    lemma_decimal_reads_back(n);
    law_only_white_space_is_trimmed(a, decimal(n), b);
    assert(n / 1024 / 1024 == n / 1048576) by (nonlinear_arith);
}

/// A container runtime is taken at its word only where it runs on this host. It enforces a limit
/// exactly where it says so: Podman by the controllers of the one hierarchy, Docker by its own
/// members, with the memory only together with the swap.
#[verifier::rlimit(50)]
#[verifier::spinoff_prover]
pub proof fn law_runtimes_enforce_what_they_say(
    info: JsonView,
    endpoint: Seq<char>,
    context: Option<Seq<char>>,
    host: Option<Seq<char>>,
)
    ensures
        limits_of("podman"@, info) is Ok <==> member_of(
            member_of(info, "host"@),
            "serviceIsRemote"@,
        ) == JsonView::Bool(false),
        limits_of("podman"@, info) matches Ok(limits) ==> {
            let controllers = member_of(member_of(info, "host"@), "cgroupControllers"@);
            let new = member_of(member_of(info, "host"@), "cgroupVersion"@) == JsonView::Text(
                "v2"@,
            );
            &&& limits.0 <==> new && controllers is Array && controllers->Array_0.contains(
                JsonView::Text("cpu"@),
            )
            &&& limits.1 <==> new && controllers is Array && controllers->Array_0.contains(
                JsonView::Text("memory"@),
            )
        },
        limits_of("docker"@, info) matches Ok(limits) && (limits.0 <==> member_of(
            info,
            "CpuCfsQuota"@,
        ) == JsonView::Bool(true)) && (limits.1 <==> member_of(info, "MemoryLimit"@)
            == JsonView::Bool(true) && member_of(info, "SwapLimit"@) == JsonView::Bool(true)),
        docker_endpoint_check(endpoint) is Ok <==> endpoint.len() >= 7 && endpoint.take(7)
            == "unix://"@,
        context is Some && context->0.len() > 0 ==> docker_override(context, host) is None,
        context is None || context->0.len() == 0 ==> docker_override(context, host) == host,
        runtime_order() == seq!["podman"@, "docker"@],
        limits_question("podman"@) == seq!["info"@, "--format"@, "json"@],
        limits_question("docker"@) == seq!["info"@, "--format"@, "{{json .}}"@],
{
    reveal_strlit("podman");
    reveal_strlit("docker");
    reveal_strlit("unix://");
    assert("podman"@[0] != "docker"@[0]);
    if endpoint.len() >= 7 {
        assert(endpoint.subrange(0, 7) =~= endpoint.take(7));
    }
    assert(limits_question("podman"@) =~= seq!["info"@, "--format"@, "json"@]);
    assert(limits_question("docker"@) =~= seq!["info"@, "--format"@, "{{json .}}"@]);
}

/// The first runtime that works is the one that is found.
pub proof fn law_the_first_runtime_that_works_is_found(heard: Seq<Option<(bool, bool)>>, i: int)
    requires
        0 <= i < heard.len(),
        heard[i] is Some,
        forall|k: int| 0 <= k < i ==> (#[trigger] heard[k]) is None,
    ensures
        first_working(heard) == Some((i, heard[i]->0)),
        first_working(heard.take(i)) is None,
    decreases heard.len(),
{
    let t = heard.drop_last();
    if i < heard.len() - 1 {
        law_the_first_runtime_that_works_is_found(t, i);
        assert(t.take(i) =~= heard.take(i));
    } else {
        assert(t =~= heard.take(i));
        lemma_none_works(t);
    }
}

proof fn lemma_none_works(heard: Seq<Option<(bool, bool)>>)
    requires
        forall|k: int| 0 <= k < heard.len() ==> (#[trigger] heard[k]) is None,
    ensures
        first_working(heard) is None,
    decreases heard.len(),
{
    if heard.len() > 0 {
        let t = heard.drop_last();
        assert forall|k: int| 0 <= k < t.len() implies (#[trigger] t[k]) is None by {
            assert(heard[k] is None);
        }
        lemma_none_works(t);
        assert(heard[heard.len() - 1] is None);
    }
}

/// A host is described by what was found out about it: its memory read as its system tells it,
/// and of a container runtime its name, its version and the limits that it enforces.
pub proof fn law_hosts_are_described_as_found(
    system: Seq<char>,
    cores: nat,
    memory: Seq<char>,
    runtime: Option<(Seq<char>, bool, bool)>,
    version: Seq<char>,
)
    ensures
        ({
            let mib = if ends(system, "-darwin"@) {
                darwin_memory(memory)
            } else {
                linux_memory(memory)
            };
            let r = capabilities_of(system, cores, memory, runtime, version);
            &&& r is Ok <==> mib is Ok
            &&& r matches Ok(c) ==> {
                &&& c.system == system
                &&& c.cpu_cores == cores
                &&& c.memory_mib == mib->Ok_0
                &&& runtime is None ==> c.container_runtime is None && c.container_runtime_version
                    is None && !c.oci_cpu_limits && !c.oci_memory_limits
                &&& runtime matches Some((name, cpu, mem)) ==> c.container_runtime == Some(name)
                    && c.container_runtime_version == Some(trimmed(version)) && c.oci_cpu_limits
                    == cpu && c.oci_memory_limits == mem
            }
        }),
{
}

/// What a host is asked is answered by what it offers, and what it offers is what was found out.
pub proof fn law_hosts_answer_by_what_they_offer(
    target: &TargetSummary,
    caps: &Capabilities,
    fits: Result<(), Error>,
    system: String,
    cores: usize,
    memory: &str,
    runtime: Option<FoundRuntime>,
    version: &str,
    found: Result<Capabilities, Error>,
    candidates: &StringMap<Candidate>,
    chosen: Result<String, Error>,
)
    requires
        call_ensures(check_host, (target, caps), fits),
        call_ensures(detect_capabilities, (system, cores, memory, runtime, version), found),
        call_ensures(select, (candidates,), chosen),
    ensures
        fits is Ok ==> target.system@ == caps.system@ && (target.resources.cpu_cores matches Some(n)
            ==> n <= caps.cpu_cores) && (target.resources.memory_mib matches Some(n) ==> n
            <= caps.memory_mib) && (target.executor@ == "oci"@ || target.executor@ == "native"@),
        fits is Ok <==> host_check(*target, caps@) is Ok,
        found matches Ok(c) ==> {
            &&& c.system@ == system@
            &&& c.cpu_cores == cores
            &&& ends(system@, "-darwin"@) ==> darwin_memory(memory@) == Ok::<nat, Seq<Seq<char>>>(
                c.memory_mib as nat,
            )
            &&& !ends(system@, "-darwin"@) ==> linux_memory(memory@) == Ok::<nat, Seq<Seq<char>>>(
                c.memory_mib as nat,
            )
            &&& c.container_runtime is Some <==> runtime is Some
            &&& runtime matches Some(f) ==> c.container_runtime->0@ == f.name@ && c.oci_cpu_limits
                == f.cpu && c.oci_memory_limits == f.memory
            &&& runtime is None ==> !c.oci_cpu_limits && !c.oci_memory_limits
        },
        chosen matches Ok(name) ==> exists|i: int|
            #![trigger candidates@[i]]
            0 <= i < candidates@.len() && candidates@[i].0 == name@ && candidates@[i].1 is None
                && forall|j: int|
                0 <= j < candidates@.len() && j != i ==> (#[trigger] candidates@[j]).1 is Some,
{
    law_hosts_take_what_they_can_keep(*target, caps@);
    law_selected_target_is_the_only_fit(candidates@);
}

/// Podman is asked before Docker, neither is asked twice, and what is found is the first that
/// answered, with the limits that it told.
pub proof fn law_runtimes_are_asked_in_turn(
    search: &RuntimeSearch,
    next: Option<String>,
    done: RuntimeSearch,
    found: Option<FoundRuntime>,
    info: &Json,
    limits: Result<(bool, bool), Error>,
    of_docker: (bool, bool),
    endpoint: &str,
    local: Result<(), Error>,
)
    requires
        call_ensures(RuntimeSearch::next, (search,), next),
        call_ensures(RuntimeSearch::finish, (done,), found),
        call_ensures(podman_limits, (info,), limits),
        call_ensures(docker_limits, (info,), of_docker),
        call_ensures(check_docker_endpoint, (endpoint,), local),
    ensures
        search@.len() == 0 ==> (next matches Some(name) && name@ == "podman"@),
        search@.len() == 1 && search@[0] is None ==> (next matches Some(name) && name@
            == "docker"@),
        search@.len() == 1 && search@[0] is Some ==> next is None,
        search@.len() >= 2 ==> next is None,
        done@.len() == 1 && done@[0] is Some ==> (found matches Some(f) && f.name@ == "podman"@ && (
        f.cpu,
        f.memory,
    ) == done@[0]->0),
        done@.len() == 2 && done@[0] is None && done@[1] is Some ==> (found matches Some(f)
            && f.name@ == "docker"@ && (f.cpu, f.memory) == done@[1]->0),
        done@.len() == 2 && done@[0] is None && done@[1] is None ==> found is None,
        limits is Ok <==> member_of(member_of(info@, "host"@), "serviceIsRemote"@)
            == JsonView::Bool(false),
        of_docker.0 <==> member_of(info@, "CpuCfsQuota"@) == JsonView::Bool(true),
        of_docker.1 <==> member_of(info@, "MemoryLimit"@) == JsonView::Bool(true) && member_of(
            info@,
            "SwapLimit"@,
        ) == JsonView::Bool(true),
        local is Ok <==> endpoint@.len() >= 7 && endpoint@.take(7) == "unix://"@,
{
    law_runtimes_enforce_what_they_say(info@, endpoint@, None, None);
    if search@.len() == 0 {
        lemma_none_works(search@);
    }
    if search@.len() == 1 {
        if search@[0] is Some {
            law_the_first_runtime_that_works_is_found(search@, 0);
        } else {
            lemma_none_works(search@);
        }
    }
    if done@.len() == 1 && done@[0] is Some {
        law_the_first_runtime_that_works_is_found(done@, 0);
    }
    if done@.len() == 2 && done@[0] is None {
        if done@[1] is Some {
            law_the_first_runtime_that_works_is_found(done@, 1);
        } else {
            lemma_none_works(done@);
        }
    }
}

/// What a host is asked is asked in the way of its runtime, and its memory is what it reports.
pub proof fn law_hosts_are_asked_in_their_way(
    report: &str,
    linux: Result<u64, Error>,
    darwin: Result<u64, Error>,
    context: Option<String>,
    host: Option<String>,
    chosen: Option<String>,
    runtime: &str,
    question: Vec<String>,
)
    requires
        call_ensures(memory_of_linux, (report,), linux),
        call_ensures(memory_of_darwin, (report,), darwin),
        call_ensures(docker_host, (context, host), chosen),
        call_ensures(limits_command, (runtime,), question),
    ensures
        linux is Ok <==> linux_memory(report@) is Ok,
        linux matches Ok(n) ==> linux_memory(report@) == Ok::<nat, Seq<Seq<char>>>(n as nat),
        darwin is Ok <==> darwin_memory(report@) is Ok,
        darwin matches Ok(n) ==> darwin_memory(report@) == Ok::<nat, Seq<Seq<char>>>(n as nat),
        context is Some && context->0@.len() > 0 ==> chosen is None,
        context is None || context->0@.len() == 0 ==> (chosen is Some <==> host is Some) && (
        host matches Some(h) ==> chosen->0@ == h@),
        question@.len() == 3 && texts(question@)[0] == "info"@,
        runtime@ == "podman"@ ==> texts(question@)[2] == "json"@,
        runtime@ == "docker"@ ==> texts(question@)[2] == "{{json .}}"@,
{
    law_runtimes_enforce_what_they_say(JsonView::Null, Seq::empty(), None, None);
    assert(texts(question@).len() == question@.len());
}

} // verus!
