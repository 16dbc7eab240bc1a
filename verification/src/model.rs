//! What a job and its targets declare, and when a declaration is sound.

use vstd::prelude::*;
use crate::error::{first_fault, lemma_fault_step, lemma_no_fault, outcome, Error};
use crate::json::{
    entry_views, member_of, text_list, text_object, text_or_null, whole, whole_or_null, Json,
    JsonView, Members,
};
use crate::map::{lemma_lookup_push, StringMap};
use crate::path::{
    absolute, below, components, is_within, law_names_lead_down, normal, parts, parts_view, within,
    Component,
};
use crate::text::{
    alphanumeric_char, chars_of, debug_text, debugged, decimal, digit_char, ends, ends_with, glue,
    has_char, hex_char, is_alphanumeric, is_digit, is_hex, same, starts, starts_with, text_of,
    texts,
};
use crate::version::{parse_range, parsed_range};

verus! {

/// A job: what it reads and writes, and the alternative targets that can run it.
#[derive(Debug)]
pub struct ComputeJob {
    pub schema_version: u32,
    pub name: String,
    pub artifacts: Artifacts,
    pub parameters: StringMap<Json>,
    pub reproducibility: Reproducibility,
    pub targets: StringMap<TargetSummary>,
}

/// What is needed to choose a target: where it runs, and on what.
#[derive(Debug)]
pub struct TargetSummary {
    pub name: String,
    pub system: String,
    pub executor: String,
    pub accelerator: Accelerator,
    pub resources: Resources,
    pub execution: Execution,
}

/// A target with its program and everything the program depends on.
#[derive(Debug)]
pub struct Target {
    pub summary: TargetSummary,
    pub program_output: String,
    pub program: String,
    pub entrypoint: Vec<String>,
    pub probe_output: Option<String>,
    pub probe: Option<String>,
    pub image_output: Option<String>,
    pub image_name: String,
    pub runtime_paths: Vec<String>,
    pub runtime_output: Option<String>,
}

/// The devices that a target asks for, per node.
#[derive(Debug)]
pub struct Accelerator {
    pub id: String,
    pub count: u32,
    pub min_memory_mib: u64,
    pub architectures: Vec<String>,
    pub driver_range: Option<String>,
    pub runtime_version: Option<String>,
    pub topology: StringMap<String>,
}

#[derive(Debug)]
pub struct Resources {
    pub cpu_cores: Option<u32>,
    pub memory_mib: Option<u64>,
    pub enforce: bool,
}

#[derive(Debug)]
pub struct Execution {
    pub network: String,
    pub isolation: String,
    pub timeout_seconds: Option<u64>,
    pub env: StringMap<String>,
}

#[derive(Debug)]
pub struct Artifacts {
    pub inputs: StringMap<InputArtifact>,
    pub outputs: StringMap<OutputArtifact>,
}

#[derive(Debug)]
pub struct InputArtifact {
    pub uri: String,
    pub sha256: String,
    pub path: String,
}

#[derive(Debug)]
pub struct OutputArtifact {
    pub path: String,
    pub destination: Option<String>,
    pub required: bool,
}

#[derive(Debug)]
pub struct Reproducibility {
    pub contract: String,
    pub seed: Option<u64>,
}

impl View for InputArtifact {
    type V = InputArtifact;

    open spec fn view(&self) -> InputArtifact {
        *self
    }
}

impl View for OutputArtifact {
    type V = OutputArtifact;

    open spec fn view(&self) -> OutputArtifact {
        *self
    }
}

impl View for TargetSummary {
    type V = TargetSummary;

    open spec fn view(&self) -> TargetSummary {
        *self
    }
}

// ----------------------------------------------------------------- names

pub open spec fn name_char(c: char) -> bool {
    is_alphanumeric(c) || c == '_' || c == '-'
}

/// A name of letters, digits, `_` and `-`, at least one of them.
pub open spec fn safe(name: Seq<char>) -> bool {
    name.len() > 0 && forall|i: int| 0 <= i < name.len() ==> name_char(#[trigger] name[i])
}

/// A SHA-256 digest in hexadecimal digits of either case.
pub open spec fn digest(value: Seq<char>) -> bool {
    value.len() == 64 && forall|i: int| 0 <= i < value.len() ==> is_hex(#[trigger] value[i])
}

/// An environment variable's name: letters, digits and `_`, no digit first.
pub open spec fn env_key(key: Seq<char>) -> bool {
    &&& key.len() > 0
    &&& forall|i: int| 0 <= i < key.len() ==> is_alphanumeric(#[trigger] key[i]) || key[i] == '_'
    &&& !is_digit(key[0])
}

pub fn safe_name(name: &str) -> (r: bool)
    ensures
        r == safe(name@),
{
    let x = chars_of(name);
    let mut i: usize = 0;
    while i < x.len()
        invariant
            x@ == name@,
            i <= x@.len(),
            forall|k: int| 0 <= k < i ==> name_char(#[trigger] name@[k]),
        decreases x.len() - i,
    {
        if !(alphanumeric_char(x[i]) || x[i] == '_' || x[i] == '-') {
            assert(!name_char(name@[i as int]));
            return false;
        }
        i += 1;
    }
    x.len() > 0
}

pub fn digest_valid(value: &str) -> (r: bool)
    ensures
        r == digest(value@),
{
    let x = chars_of(value);
    let mut i: usize = 0;
    while i < x.len()
        invariant
            x@ == value@,
            i <= x@.len(),
            forall|k: int| 0 <= k < i ==> is_hex(#[trigger] value@[k]),
        decreases x.len() - i,
    {
        if !hex_char(x[i]) {
            assert(!is_hex(value@[i as int]));
            return false;
        }
        i += 1;
    }
    x.len() == 64
}

fn env_key_valid(key: &str) -> (r: bool)
    ensures
        r == env_key(key@),
{
    let x = chars_of(key);
    if x.len() == 0 || digit_char(x[0]) {
        return false;
    }
    let mut i: usize = 0;
    while i < x.len()
        invariant
            x@ == key@,
            i <= x@.len(),
            forall|k: int| 0 <= k < i ==> is_alphanumeric(#[trigger] key@[k]) || key@[k] == '_',
        decreases x.len() - i,
    {
        if !(alphanumeric_char(x[i]) || x[i] == '_') {
            assert(!is_alphanumeric(key@[i as int]));
            return false;
        }
        i += 1;
    }
    true
}

/// The failure with one message.
pub open spec fn fault(message: Seq<char>) -> Result<(), Seq<Seq<char>>> {
    Err(seq![message])
}

/// A path of names only.
pub open spec fn names_only(path: Seq<char>) -> bool {
    forall|i: int| 0 <= i < parts(path).len() ==> normal(#[trigger] parts(path)[i])
}

/// A path of an artifact is a text of names only, without backslash and NUL.
pub open spec fn relative(path: Seq<char>) -> Result<(), Seq<Seq<char>>> {
    if path.len() == 0 || path.contains('\\') || path.contains('\0') {
        fault("invalid relative artifact path "@ + debugged(path))
    } else if !names_only(path) {
        fault("artifact path must contain only relative normal components: "@ + path)
    } else {
        Ok(())
    }
}

pub fn relative_path(path: &str) -> (r: Result<(), Error>)
    ensures
        outcome(r) == relative(path@),
{
    if path.is_empty() || has_char(path, '\\') || has_char(path, '\0') {
        return Err(
            Error::of(glue("invalid relative artifact path ", debug_text(path).as_str())),
        );
    }
    let found = components(path);
    let mut i: usize = 0;
    while i < found.len()
        invariant
            parts_view(found@) == parts(path@),
            i <= found@.len(),
            path@.len() > 0,
            !path@.contains('\\'),
            !path@.contains('\0'),
            forall|k: int| 0 <= k < i ==> normal(#[trigger] parts(path@)[k]),
        decreases found.len() - i,
    {
        assert(parts(path@)[i as int] == found@[i as int]@);
        match &found[i] {
            Component::Normal(_) => {},
            _ => {
                assert(!normal(parts(path@)[i as int]));
                return Err(
                    Error::of(
                        glue(
                            "artifact path must contain only relative normal components: ",
                            path,
                        ),
                    ),
                );
            },
        }
        i += 1;
    }
    Ok(())
}

// --------------------------------------------------------------- targets

/// Whether a target may set an environment variable.
pub open spec fn env_entry_check(entry: (Seq<char>, Seq<char>)) -> Result<(), Seq<Seq<char>>> {
    if !env_key(entry.0) {
        fault("invalid environment key"@)
    } else if starts(entry.0, "NIX_COMPUTE_"@) || entry.1.contains('\0') {
        fault("reserved or invalid environment variable "@ + entry.0)
    } else {
        Ok(())
    }
}

/// The first entry of an environment that a target may not set decides.
pub open spec fn env_check(env: Seq<(Seq<char>, Seq<char>)>) -> Result<(), Seq<Seq<char>>> {
    first_fault(env, |e: (Seq<char>, Seq<char>)| env_entry_check(e))
}

fn check_env_entry(key: &str, value: &str) -> (r: Result<(), Error>)
    ensures
        outcome(r) == env_entry_check((key@, value@)),
{
    if !env_key_valid(key) {
        return Err(Error::new("invalid environment key"));
    }
    if starts_with(key, "NIX_COMPUTE_") || has_char(value, '\0') {
        return Err(Error::of(glue("reserved or invalid environment variable ", key)));
    }
    Ok(())
}

fn check_env(env: &StringMap<String>) -> (r: Result<(), Error>)
    ensures
        outcome(r) == env_check(env@),
{
    let ghost check = |e: (Seq<char>, Seq<char>)| env_entry_check(e);
    let mut i: usize = 0;
    assert(env@.take(0).len() == 0);
    while i < env.len()
        invariant
            i <= env@.len(),
            check == (|e: (Seq<char>, Seq<char>)| env_entry_check(e)),
            first_fault(env@.take(i as int), check) is Ok,
        decreases env@.len() - i,
    {
        proof {
            lemma_fault_step(env@, check, i as int);
        }
        match check_env_entry(env.key(i).as_str(), env.value(i).as_str()) {
            Ok(_) => {},
            Err(e) => {
                return Err(e);
            },
        }
        i += 1;
    }
    assert(env@.take(env@.len() as int) =~= env@);
    Ok(())
}

/// The systems that a target can name.
pub open spec fn known_system(system: Seq<char>) -> bool {
    system == "x86_64-linux"@ || system == "aarch64-linux"@ || system == "aarch64-darwin"@
}

/// A CPU target asks for nothing of an accelerator.
pub open spec fn no_accelerator(a: Accelerator) -> bool {
    &&& a.count == 1
    &&& a.min_memory_mib == 0
    &&& a.architectures@.len() == 0
    &&& a.topology@.len() == 0
    &&& a.driver_range is None
    &&& a.runtime_version is None
}

/// What the backend asks of the system and the executor.
pub open spec fn backend_check(s: TargetSummary) -> Result<(), Seq<Seq<char>>> {
    let id = s.accelerator.id@;
    let linux = ends(s.system@, "-linux"@);
    let oci = s.executor@ == "oci"@;
    let native = s.executor@ == "native"@;
    if id == "cpu"@ {
        if no_accelerator(s.accelerator) {
            Ok(())
        } else {
            fault("use resources for CPU requirements"@)
        }
    } else if id == "metal"@ {
        if s.system@ == "aarch64-darwin"@ && native {
            Ok(())
        } else {
            fault("Metal requires native Apple Silicon"@)
        }
    } else if id == "tpu"@ {
        if linux && native {
            Ok(())
        } else {
            fault("TPU requires native Linux"@)
        }
    } else if id == "cuda"@ || id == "cann"@ {
        if linux && oci {
            Ok(())
        } else {
            fault("backend requires Linux OCI"@)
        }
    } else if id == "rocm"@ || id == "oneapi"@ {
        if s.system@ == "x86_64-linux"@ && oci {
            Ok(())
        } else {
            fault("backend requires x86_64 Linux OCI"@)
        }
    } else {
        fault("unsupported accelerator "@ + id)
    }
}

/// What every accelerator but the CPU must pin down.
pub open spec fn pinned_check(a: Accelerator) -> Result<(), Seq<Seq<char>>> {
    if a.driver_range is None {
        fault("accelerators require an explicit driver_range"@)
    } else if parsed_range(a.driver_range->0@) is Err {
        Err(
            seq![
                "invalid driver_range (use semver syntax)"@,
                parsed_range(a.driver_range->0@)->Err_0,
            ],
        )
    } else if a.runtime_version is None || a.runtime_version->0@.len() == 0 {
        fault("accelerators require an exact runtime_version"@)
    } else if a.architectures@.len() == 0 {
        fault("accelerators require explicit architectures"@)
    } else {
        Ok(())
    }
}

/// The accelerator of a target: its count, its backend, what it must pin down.
pub open spec fn accelerator_check(s: TargetSummary) -> Result<(), Seq<Seq<char>>> {
    if s.accelerator.count == 0 {
        fault("accelerator count must be positive"@)
    } else if backend_check(s) is Err {
        backend_check(s)
    } else if s.accelerator.id@ != "cpu"@ {
        pinned_check(s.accelerator)
    } else {
        Ok(())
    }
}

/// The first thing that is wrong with a target's summary, if anything is.
pub open spec fn summary_check(s: TargetSummary) -> Result<(), Seq<Seq<char>>> {
    if !safe(s.name@) {
        fault("invalid target name"@)
    } else if !known_system(s.system@) {
        fault("unsupported target system"@)
    } else if s.executor@ != "oci"@ && s.executor@ != "native"@ {
        fault("unsupported executor"@)
    } else if s.executor@ == "oci"@ && !ends(s.system@, "-linux"@) {
        fault("OCI requires Linux"@)
    } else if s.execution.network@ != "none"@ && s.execution.network@ != "host"@ {
        fault("unsupported network policy"@)
    } else if s.execution.isolation@ != "none"@ && s.execution.isolation@ != "container"@ {
        fault("unsupported isolation policy"@)
    } else if s.execution.timeout_seconds == Some(0u64) {
        fault("timeout must be positive"@)
    } else if s.resources.cpu_cores == Some(0u32) || s.resources.memory_mib == Some(0u64) {
        fault("resources must be positive"@)
    } else if env_check(s.execution.env@) is Err {
        env_check(s.execution.env@)
    } else {
        accelerator_check(s)
    }
}

fn zero64(o: Option<u64>) -> (r: bool)
    ensures
        r == (o == Some(0u64)),
{
    match o {
        Some(n) => n == 0,
        None => false,
    }
}

fn zero32(o: Option<u32>) -> (r: bool)
    ensures
        r == (o == Some(0u32)),
{
    match o {
        Some(n) => n == 0,
        None => false,
    }
}

impl TargetSummary {
    fn check_backend(&self) -> (r: Result<(), Error>)
        ensures
            outcome(r) == backend_check(*self),
    {
        let id = self.accelerator.id.as_str();
        let linux = ends_with(self.system.as_str(), "-linux");
        let oci = same(self.executor.as_str(), "oci");
        let native = same(self.executor.as_str(), "native");
        if same(id, "cpu") {
            let a = &self.accelerator;
            if a.count == 1 && a.min_memory_mib == 0 && a.architectures.len() == 0
                && a.topology.len() == 0 && a.driver_range.is_none() && a.runtime_version.is_none() {
                Ok(())
            } else {
                Err(Error::new("use resources for CPU requirements"))
            }
        } else if same(id, "metal") {
            if same(self.system.as_str(), "aarch64-darwin") && native {
                Ok(())
            } else {
                Err(Error::new("Metal requires native Apple Silicon"))
            }
        } else if same(id, "tpu") {
            if linux && native {
                Ok(())
            } else {
                Err(Error::new("TPU requires native Linux"))
            }
        } else if same(id, "cuda") || same(id, "cann") {
            if linux && oci {
                Ok(())
            } else {
                Err(Error::new("backend requires Linux OCI"))
            }
        } else if same(id, "rocm") || same(id, "oneapi") {
            if same(self.system.as_str(), "x86_64-linux") && oci {
                Ok(())
            } else {
                Err(Error::new("backend requires x86_64 Linux OCI"))
            }
        } else {
            Err(Error::of(glue("unsupported accelerator ", id)))
        }
    }

    fn check_accelerator(&self) -> (r: Result<(), Error>)
        ensures
            outcome(r) == accelerator_check(*self),
    {
        let a = &self.accelerator;
        if a.count == 0 {
            return Err(Error::new("accelerator count must be positive"));
        }
        match self.check_backend() {
            Ok(_) => {},
            Err(e) => {
                return Err(e);
            },
        }
        if same(a.id.as_str(), "cpu") {
            return Ok(());
        }
        match &a.driver_range {
            None => {
                return Err(Error::new("accelerators require an explicit driver_range"));
            },
            Some(range) => {
                match parse_range(range.as_str()) {
                    Ok(_) => {},
                    Err(cause) => {
                        let e = Error::of(cause).context("invalid driver_range (use semver syntax)");
                        assert(e@ =~= pinned_check(*a)->Err_0);
                        return Err(e);
                    },
                }
            },
        }
        let exact = match &a.runtime_version {
            Some(v) => !v.as_str().is_empty(),
            None => false,
        };
        if !exact {
            return Err(Error::new("accelerators require an exact runtime_version"));
        }
        if a.architectures.len() == 0 {
            return Err(Error::new("accelerators require explicit architectures"));
        }
        Ok(())
    }

    /// Whether the summary is sound.
    pub fn validate(&self) -> (r: Result<(), Error>)
        ensures
            outcome(r) == summary_check(*self),
    {
        if !safe_name(self.name.as_str()) {
            return Err(Error::new("invalid target name"));
        }
        let system = self.system.as_str();
        if !(same(system, "x86_64-linux") || same(system, "aarch64-linux") || same(
            system,
            "aarch64-darwin",
        )) {
            return Err(Error::new("unsupported target system"));
        }
        let executor = self.executor.as_str();
        if !(same(executor, "oci") || same(executor, "native")) {
            return Err(Error::new("unsupported executor"));
        }
        if same(executor, "oci") && !ends_with(system, "-linux") {
            return Err(Error::new("OCI requires Linux"));
        }
        let network = self.execution.network.as_str();
        if !(same(network, "none") || same(network, "host")) {
            return Err(Error::new("unsupported network policy"));
        }
        let isolation = self.execution.isolation.as_str();
        if !(same(isolation, "none") || same(isolation, "container")) {
            return Err(Error::new("unsupported isolation policy"));
        }
        if zero64(self.execution.timeout_seconds) {
            return Err(Error::new("timeout must be positive"));
        }
        if zero32(self.resources.cpu_cores) || zero64(self.resources.memory_mib) {
            return Err(Error::new("resources must be positive"));
        }
        match check_env(&self.execution.env) {
            Ok(_) => {},
            Err(e) => {
                return Err(e);
            },
        }
        self.check_accelerator()
    }
}

/// In the Nix store.
pub open spec fn stored(path: Seq<char>) -> bool {
    starts(path, "/nix/store/"@)
}

pub open spec fn all_stored(paths: Seq<Seq<char>>) -> bool {
    forall|i: int| 0 <= i < paths.len() ==> stored(#[trigger] paths[i])
}

pub open spec fn none_has_nul(words: Seq<Seq<char>>) -> bool {
    forall|i: int| 0 <= i < words.len() ==> !(#[trigger] words[i]).contains('\0')
}

pub open spec fn optional_stored(path: Option<String>) -> bool {
    path is Some && stored(path->0@)
}

/// The first thing that is wrong with a target, if anything is.
pub open spec fn target_check(t: Target) -> Result<(), Seq<Seq<char>>> {
    let command = texts(t.entrypoint@);
    if summary_check(t.summary) is Err {
        summary_check(t.summary)
    } else if !stored(t.program@) {
        fault("program must be a Nix store derivation output"@)
    } else if !(command.len() > 0 && stored(command[0]) && none_has_nul(command)) {
        fault("entrypoint must use a Nix store executable"@)
    } else if (t.summary.executor@ == "oci"@) != (t.image_output is Some) {
        fault("image/executor mismatch"@)
    } else if t.summary.accelerator.id@ != "cpu"@ && !(optional_stored(t.probe)
        && t.probe_output is Some) {
        fault("accelerator requires a locked probe derivation"@)
    } else if t.summary.accelerator.id@ != "cpu"@ && !(t.runtime_paths@.len() > 0 && all_stored(
        texts(t.runtime_paths@),
    )) {
        fault("accelerator requires locked runtimePackages"@)
    } else {
        Ok(())
    }
}

fn in_store(path: &str) -> (r: bool)
    ensures
        r == stored(path@),
{
    starts_with(path, "/nix/store/")
}

impl Target {
    /// Whether the target is sound.
    pub fn validate(&self) -> (r: Result<(), Error>)
        ensures
            outcome(r) == target_check(*self),
    {
        match self.summary.validate() {
            Ok(_) => {},
            Err(e) => {
                return Err(e);
            },
        }
        if !in_store(self.program.as_str()) {
            return Err(Error::new("program must be a Nix store derivation output"));
        }
        let ghost command = texts(self.entrypoint@);
        let mut clean = true;
        let mut i: usize = 0;
        while i < self.entrypoint.len()
            invariant
                command == texts(self.entrypoint@),
                i <= self.entrypoint@.len(),
                clean <==> forall|k: int| 0 <= k < i ==> !(#[trigger] command[k]).contains('\0'),
            decreases self.entrypoint.len() - i,
        {
            assert(command[i as int] == self.entrypoint@[i as int]@);
            if has_char(self.entrypoint[i].as_str(), '\0') {
                clean = false;
            }
            i += 1;
        }
        if !(self.entrypoint.len() > 0 && in_store(self.entrypoint[0].as_str()) && clean) {
            return Err(Error::new("entrypoint must use a Nix store executable"));
        }
        let oci = same(self.summary.executor.as_str(), "oci");
        if oci != self.image_output.is_some() {
            return Err(Error::new("image/executor mismatch"));
        }
        if !same(self.summary.accelerator.id.as_str(), "cpu") {
            let probe_stored = match &self.probe {
                Some(p) => in_store(p.as_str()),
                None => false,
            };
            if !(probe_stored && self.probe_output.is_some()) {
                return Err(Error::new("accelerator requires a locked probe derivation"));
            }
            let ghost paths = texts(self.runtime_paths@);
            let mut all = true;
            let mut k: usize = 0;
            while k < self.runtime_paths.len()
                invariant
                    paths == texts(self.runtime_paths@),
                    k <= self.runtime_paths@.len(),
                    all <==> forall|j: int| 0 <= j < k ==> stored(#[trigger] paths[j]),
                decreases self.runtime_paths.len() - k,
            {
                assert(paths[k as int] == self.runtime_paths@[k as int]@);
                if !in_store(self.runtime_paths[k].as_str()) {
                    all = false;
                }
                k += 1;
            }
            if !(self.runtime_paths.len() > 0 && all) {
                return Err(Error::new("accelerator requires locked runtimePackages"));
            }
        }
        Ok(())
    }
}

// ------------------------------------------------------------------ jobs

pub open spec fn input_check(entry: (Seq<char>, InputArtifact)) -> Result<(), Seq<Seq<char>>> {
    if !safe(entry.0) {
        fault("invalid input name "@ + entry.0)
    } else if relative(entry.1.path@) is Err {
        relative(entry.1.path@)
    } else if !digest(entry.1.sha256@) {
        fault("invalid input digest "@ + entry.0)
    } else {
        Ok(())
    }
}

pub open spec fn output_check(entry: (Seq<char>, OutputArtifact)) -> Result<(), Seq<Seq<char>>> {
    if !safe(entry.0) {
        fault("invalid output name "@ + entry.0)
    } else {
        relative(entry.1.path@)
    }
}

pub open spec fn named_target_check(
    entry: (Seq<char>, TargetSummary),
) -> Result<(), Seq<Seq<char>>> {
    if entry.0 != entry.1.name@ {
        fault("target name mismatch"@)
    } else {
        summary_check(entry.1)
    }
}

/// One of two paths lies in the other.
pub open spec fn overlap(a: Seq<char>, b: Seq<char>) -> bool {
    within(parts(a), parts(b)) || within(parts(b), parts(a))
}

/// No two inputs share a path, and none lies in another.
pub open spec fn inputs_apart(inputs: Seq<(Seq<char>, InputArtifact)>) -> bool {
    forall|i: int, j: int|
        0 <= i < j < inputs.len() ==> !overlap(
            (#[trigger] inputs[i]).1.path@,
            (#[trigger] inputs[j]).1.path@,
        )
}

/// The first thing that is wrong with a job, if anything is.
pub open spec fn job_check(job: ComputeJob) -> Result<(), Seq<Seq<char>>> {
    let inputs = first_fault(
        job.artifacts.inputs@,
        |e: (Seq<char>, InputArtifact)| input_check(e),
    );
    let outputs = first_fault(
        job.artifacts.outputs@,
        |e: (Seq<char>, OutputArtifact)| output_check(e),
    );
    if job.schema_version != 2 {
        fault(
            "unsupported schema; migrate to compute.jobs.<job>.targets.<target> and perTarget"@,
        )
    } else if !safe(job.name@) {
        fault("invalid job name"@)
    } else if job.targets@.len() == 0 {
        fault("job must explicitly declare targets"@)
    } else if job.reproducibility.contract@ != "environment-inputs"@ {
        fault("unsupported reproducibility contract"@)
    } else if inputs is Err {
        inputs
    } else if !inputs_apart(job.artifacts.inputs@) {
        fault("input paths overlap"@)
    } else if outputs is Err {
        outputs
    } else {
        first_fault(job.targets@, |e: (Seq<char>, TargetSummary)| named_target_check(e))
    }
}

fn check_input(name: &str, input: &InputArtifact) -> (r: Result<(), Error>)
    ensures
        outcome(r) == input_check((name@, *input)),
{
    if !safe_name(name) {
        return Err(Error::of(glue("invalid input name ", name)));
    }
    match relative_path(input.path.as_str()) {
        Ok(_) => {},
        Err(e) => {
            return Err(e);
        },
    }
    if !digest_valid(input.sha256.as_str()) {
        return Err(Error::of(glue("invalid input digest ", name)));
    }
    Ok(())
}

fn check_inputs(inputs: &StringMap<InputArtifact>) -> (r: Result<(), Error>)
    ensures
        outcome(r) == first_fault(inputs@, |e: (Seq<char>, InputArtifact)| input_check(e)),
{
    let ghost check = |e: (Seq<char>, InputArtifact)| input_check(e);
    let mut i: usize = 0;
    assert(inputs@.take(0).len() == 0);
    while i < inputs.len()
        invariant
            i <= inputs@.len(),
            check == (|e: (Seq<char>, InputArtifact)| input_check(e)),
            first_fault(inputs@.take(i as int), check) is Ok,
        decreases inputs@.len() - i,
    {
        proof {
            lemma_fault_step(inputs@, check, i as int);
        }
        match check_input(inputs.key(i).as_str(), inputs.value(i)) {
            Ok(_) => {},
            Err(e) => {
                return Err(e);
            },
        }
        i += 1;
    }
    assert(inputs@.take(inputs@.len() as int) =~= inputs@);
    Ok(())
}

fn paths_overlap(a: &str, b: &str) -> (r: bool)
    ensures
        r == overlap(a@, b@),
{
    let x = components(a);
    let y = components(b);
    is_within(&x, &y) || is_within(&y, &x)
}

fn check_inputs_apart(inputs: &StringMap<InputArtifact>) -> (r: bool)
    ensures
        r == inputs_apart(inputs@),
{
    let mut i: usize = 0;
    while i < inputs.len()
        invariant
            i <= inputs@.len(),
            forall|p: int, q: int|
                0 <= p < i && p < q < inputs@.len() ==> !overlap(
                    (#[trigger] inputs@[p]).1.path@,
                    (#[trigger] inputs@[q]).1.path@,
                ),
        decreases inputs@.len() - i,
    {
        let mut j: usize = i + 1;
        while j < inputs.len()
            invariant
                i < j <= inputs@.len(),
                forall|q: int|
                    i < q < j ==> !overlap(
                        inputs@[i as int].1.path@,
                        (#[trigger] inputs@[q]).1.path@,
                    ),
            decreases inputs@.len() - j,
        {
            if paths_overlap(inputs.value(i).path.as_str(), inputs.value(j).path.as_str()) {
                assert(overlap(inputs@[i as int].1.path@, inputs@[j as int].1.path@));
                return false;
            }
            j += 1;
        }
        i += 1;
    }
    true
}

fn check_outputs(outputs: &StringMap<OutputArtifact>) -> (r: Result<(), Error>)
    ensures
        outcome(r) == first_fault(outputs@, |e: (Seq<char>, OutputArtifact)| output_check(e)),
{
    let ghost check = |e: (Seq<char>, OutputArtifact)| output_check(e);
    let mut i: usize = 0;
    assert(outputs@.take(0).len() == 0);
    while i < outputs.len()
        invariant
            i <= outputs@.len(),
            check == (|e: (Seq<char>, OutputArtifact)| output_check(e)),
            first_fault(outputs@.take(i as int), check) is Ok,
        decreases outputs@.len() - i,
    {
        proof {
            lemma_fault_step(outputs@, check, i as int);
        }
        let name = outputs.key(i);
        if !safe_name(name.as_str()) {
            return Err(Error::of(glue("invalid output name ", name.as_str())));
        }
        match relative_path(outputs.value(i).path.as_str()) {
            Ok(_) => {},
            Err(e) => {
                return Err(e);
            },
        }
        i += 1;
    }
    assert(outputs@.take(outputs@.len() as int) =~= outputs@);
    Ok(())
}

fn check_targets(targets: &StringMap<TargetSummary>) -> (r: Result<(), Error>)
    ensures
        outcome(r) == first_fault(targets@, |e: (Seq<char>, TargetSummary)| named_target_check(e)),
{
    let ghost check = |e: (Seq<char>, TargetSummary)| named_target_check(e);
    let mut i: usize = 0;
    assert(targets@.take(0).len() == 0);
    while i < targets.len()
        invariant
            i <= targets@.len(),
            check == (|e: (Seq<char>, TargetSummary)| named_target_check(e)),
            first_fault(targets@.take(i as int), check) is Ok,
        decreases targets@.len() - i,
    {
        proof {
            lemma_fault_step(targets@, check, i as int);
        }
        if !same(targets.key(i).as_str(), targets.value(i).name.as_str()) {
            return Err(Error::new("target name mismatch"));
        }
        match targets.value(i).validate() {
            Ok(_) => {},
            Err(e) => {
                return Err(e);
            },
        }
        i += 1;
    }
    assert(targets@.take(targets@.len() as int) =~= targets@);
    Ok(())
}

impl ComputeJob {
    /// Whether the job is sound.
    pub fn validate(&self) -> (r: Result<(), Error>)
        ensures
            outcome(r) == job_check(*self),
    {
        if self.schema_version != 2 {
            return Err(
                Error::new(
                    "unsupported schema; migrate to compute.jobs.<job>.targets.<target> and perTarget",
                ),
            );
        }
        if !safe_name(self.name.as_str()) {
            return Err(Error::new("invalid job name"));
        }
        if self.targets.len() == 0 {
            return Err(Error::new("job must explicitly declare targets"));
        }
        if !same(self.reproducibility.contract.as_str(), "environment-inputs") {
            return Err(Error::new("unsupported reproducibility contract"));
        }
        match check_inputs(&self.artifacts.inputs) {
            Ok(_) => {},
            Err(e) => {
                return Err(e);
            },
        }
        if !check_inputs_apart(&self.artifacts.inputs) {
            return Err(Error::new("input paths overlap"));
        }
        match check_outputs(&self.artifacts.outputs) {
            Ok(_) => {},
            Err(e) => {
                return Err(e);
            },
        }
        check_targets(&self.targets)
    }
}

// ------------------------------------------------------------- documents

pub open spec fn input_json(a: InputArtifact) -> JsonView {
    JsonView::Object(
        seq![
            ("uri"@, JsonView::Text(a.uri@)),
            ("sha256"@, JsonView::Text(a.sha256@)),
            ("path"@, JsonView::Text(a.path@)),
        ],
    )
}

pub open spec fn output_json(a: OutputArtifact) -> JsonView {
    JsonView::Object(
        seq![
            ("path"@, JsonView::Text(a.path@)),
            ("destination"@, text_or_null(text_of(a.destination))),
            ("required"@, JsonView::Bool(a.required)),
        ],
    )
}

pub open spec fn artifacts_json(a: Artifacts) -> JsonView {
    JsonView::Object(
        seq![
            (
                "inputs"@,
                JsonView::Object(
                    a.inputs@.map_values(|e: (Seq<char>, InputArtifact)| (e.0, input_json(e.1))),
                ),
            ),
            (
                "outputs"@,
                JsonView::Object(
                    a.outputs@.map_values(|e: (Seq<char>, OutputArtifact)| (e.0, output_json(e.1))),
                ),
            ),
        ],
    )
}

pub open spec fn reproducibility_json(r: Reproducibility) -> JsonView {
    JsonView::Object(
        seq![
            ("contract"@, JsonView::Text(r.contract@)),
            (
                "seed"@,
                whole_or_null(
                    match r.seed {
                        Some(n) => Some(n as nat),
                        None => None,
                    },
                ),
            ),
        ],
    )
}

/// What all targets of a job have in common.
pub open spec fn identity_json(job: ComputeJob) -> JsonView {
    JsonView::Object(
        seq![
            ("schema_version"@, whole(job.schema_version as nat)),
            ("name"@, JsonView::Text(job.name@)),
            ("artifacts"@, artifacts_json(job.artifacts)),
            ("parameters"@, JsonView::Object(job.parameters@)),
            ("reproducibility"@, reproducibility_json(job.reproducibility)),
        ],
    )
}

pub open spec fn accelerator_json(a: Accelerator) -> JsonView {
    JsonView::Object(
        seq![
            ("id"@, JsonView::Text(a.id@)),
            ("count"@, whole(a.count as nat)),
            ("min_memory_mib"@, whole(a.min_memory_mib as nat)),
            ("architectures"@, text_list(texts(a.architectures@))),
            ("driver_range"@, text_or_null(text_of(a.driver_range))),
            ("runtime_version"@, text_or_null(text_of(a.runtime_version))),
            ("topology"@, text_object(a.topology@)),
        ],
    )
}

pub open spec fn resources_json(r: Resources) -> JsonView {
    JsonView::Object(
        seq![
            (
                "cpu_cores"@,
                whole_or_null(
                    match r.cpu_cores {
                        Some(n) => Some(n as nat),
                        None => None,
                    },
                ),
            ),
            (
                "memory_mib"@,
                whole_or_null(
                    match r.memory_mib {
                        Some(n) => Some(n as nat),
                        None => None,
                    },
                ),
            ),
            ("enforce"@, JsonView::Bool(r.enforce)),
        ],
    )
}

pub open spec fn execution_json(e: Execution) -> JsonView {
    JsonView::Object(
        seq![
            ("network"@, JsonView::Text(e.network@)),
            ("isolation"@, JsonView::Text(e.isolation@)),
            (
                "timeout_seconds"@,
                whole_or_null(
                    match e.timeout_seconds {
                        Some(n) => Some(n as nat),
                        None => None,
                    },
                ),
            ),
            ("env"@, text_object(e.env@)),
        ],
    )
}

pub open spec fn summary_members(s: TargetSummary) -> Seq<(Seq<char>, JsonView)> {
    seq![
        ("name"@, JsonView::Text(s.name@)),
        ("system"@, JsonView::Text(s.system@)),
        ("executor"@, JsonView::Text(s.executor@)),
        ("accelerator"@, accelerator_json(s.accelerator)),
        ("resources"@, resources_json(s.resources)),
        ("execution"@, execution_json(s.execution)),
    ]
}

/// A target: the members of its summary, and its own behind them.
pub open spec fn target_json(t: Target) -> JsonView {
    JsonView::Object(
        summary_members(t.summary) + seq![
            ("program_output"@, JsonView::Text(t.program_output@)),
            ("program"@, JsonView::Text(t.program@)),
            ("entrypoint"@, text_list(texts(t.entrypoint@))),
            ("probe_output"@, text_or_null(text_of(t.probe_output))),
            ("probe"@, text_or_null(text_of(t.probe))),
            ("image_output"@, text_or_null(text_of(t.image_output))),
            ("image_name"@, JsonView::Text(t.image_name@)),
            ("runtime_paths"@, text_list(texts(t.runtime_paths@))),
            ("runtime_output"@, text_or_null(text_of(t.runtime_output))),
        ],
    )
}

fn wide(o: Option<u32>) -> (r: Option<u64>)
    ensures
        match o {
            Some(n) => r == Some(n as u64),
            None => r is None,
        },
{
    match o {
        Some(n) => Some(n as u64),
        None => None,
    }
}

impl Artifacts {
    pub fn to_json(&self) -> (r: Json)
        ensures
            r@ == artifacts_json(*self),
    {
        let mut inputs: Vec<(String, Json)> = Vec::new();
        let mut i: usize = 0;
        while i < self.inputs.len()
            invariant
                i <= self.inputs@.len(),
                inputs@.len() == i,
                forall|k: int|
                    0 <= k < i ==> (#[trigger] inputs@[k]).0@ == self.inputs@[k].0 && inputs@[k].1@
                        == input_json(self.inputs@[k].1),
            decreases self.inputs@.len() - i,
        {
            let a = self.inputs.value(i);
            let j = Members::new().with("uri", Json::text(a.uri.as_str())).with(
                "sha256",
                Json::text(a.sha256.as_str()),
            ).with("path", Json::text(a.path.as_str())).object();
            assert(j@->Object_0 =~= input_json(*a)->Object_0);
            inputs.push((self.inputs.key(i).clone(), j));
            i += 1;
        }
        let mut outputs: Vec<(String, Json)> = Vec::new();
        let mut k: usize = 0;
        while k < self.outputs.len()
            invariant
                k <= self.outputs@.len(),
                outputs@.len() == k,
                forall|n: int|
                    0 <= n < k ==> (#[trigger] outputs@[n]).0@ == self.outputs@[n].0
                        && outputs@[n].1@ == output_json(self.outputs@[n].1),
            decreases self.outputs@.len() - k,
        {
            let a = self.outputs.value(k);
            let j = Members::new().with("path", Json::text(a.path.as_str())).with(
                "destination",
                Json::optional_text(&a.destination),
            ).with("required", Json::Bool(a.required)).object();
            assert(j@->Object_0 =~= output_json(*a)->Object_0);
            outputs.push((self.outputs.key(k).clone(), j));
            k += 1;
        }
        let ghost ins = inputs@;
        let ghost outs = outputs@;
        let r = Members::new().with("inputs", Json::object(inputs)).with(
            "outputs",
            Json::object(outputs),
        ).object();
        proof {
            assert(entry_views(ins) =~= self.inputs@.map_values(
                |e: (Seq<char>, InputArtifact)| (e.0, input_json(e.1)),
            ));
            assert(entry_views(outs) =~= self.outputs@.map_values(
                |e: (Seq<char>, OutputArtifact)| (e.0, output_json(e.1)),
            ));
            assert(r@->Object_0 =~= artifacts_json(*self)->Object_0);
        }
        r
    }
}

impl ComputeJob {
    /// What all targets of the job have in common: what identifies the job.
    pub fn common_identity(&self) -> (r: Json)
        ensures
            r@ == identity_json(*self),
    {
        let reproducibility = Members::new().with(
            "contract",
            Json::text(self.reproducibility.contract.as_str()),
        ).with("seed", Json::optional_unsigned(self.reproducibility.seed)).object();
        assert(reproducibility@->Object_0 =~= reproducibility_json(self.reproducibility)->Object_0);
        let r = Members::new().with(
            "schema_version",
            Json::unsigned(self.schema_version as u64),
        ).with("name", Json::text(self.name.as_str())).with(
            "artifacts",
            self.artifacts.to_json(),
        ).with("parameters", json_map(&self.parameters)).with(
            "reproducibility",
            reproducibility,
        ).object();
        assert(r@->Object_0 =~= identity_json(*self)->Object_0);
        r
    }
}

/// The object with the documents of a map.
pub fn json_map(m: &StringMap<Json>) -> (r: Json)
    ensures
        r@ == JsonView::Object(m@),
{
    let mut out: Vec<(String, Json)> = Vec::new();
    let mut i: usize = 0;
    while i < m.len()
        invariant
            i <= m@.len(),
            out@.len() == i,
            forall|k: int|
                0 <= k < i ==> (#[trigger] out@[k]).0@ == m@[k].0 && out@[k].1@ == m@[k].1,
        decreases m@.len() - i,
    {
        out.push((m.key(i).clone(), m.value(i).copy()));
        i += 1;
    }
    assert(entry_views(out@) =~= m@);
    Json::object(out)
}

impl Accelerator {
    pub fn to_json(&self) -> (r: Json)
        ensures
            r@ == accelerator_json(*self),
    {
        let r = Members::new().with("id", Json::text(self.id.as_str())).with(
            "count",
            Json::unsigned(self.count as u64),
        ).with("min_memory_mib", Json::unsigned(self.min_memory_mib)).with(
            "architectures",
            Json::texts(&self.architectures),
        ).with("driver_range", Json::optional_text(&self.driver_range)).with(
            "runtime_version",
            Json::optional_text(&self.runtime_version),
        ).with("topology", Json::text_map(&self.topology)).object();
        assert(r@->Object_0 =~= accelerator_json(*self)->Object_0);
        r
    }
}

impl TargetSummary {
    fn members(&self) -> (r: Members)
        ensures
            r@ == summary_members(*self),
    {
        let resources = Members::new().with(
            "cpu_cores",
            Json::optional_unsigned(wide(self.resources.cpu_cores)),
        ).with("memory_mib", Json::optional_unsigned(self.resources.memory_mib)).with(
            "enforce",
            Json::Bool(self.resources.enforce),
        ).object();
        assert(resources@->Object_0 =~= resources_json(self.resources)->Object_0);
        let execution = Members::new().with(
            "network",
            Json::text(self.execution.network.as_str()),
        ).with("isolation", Json::text(self.execution.isolation.as_str())).with(
            "timeout_seconds",
            Json::optional_unsigned(self.execution.timeout_seconds),
        ).with("env", Json::text_map(&self.execution.env)).object();
        assert(execution@->Object_0 =~= execution_json(self.execution)->Object_0);
        let r = Members::new().with("name", Json::text(self.name.as_str())).with(
            "system",
            Json::text(self.system.as_str()),
        ).with("executor", Json::text(self.executor.as_str())).with(
            "accelerator",
            self.accelerator.to_json(),
        ).with("resources", resources).with("execution", execution);
        assert(r@ =~= summary_members(*self));
        r
    }

    pub fn to_json(&self) -> (r: Json)
        ensures
            r@ == JsonView::Object(summary_members(*self)),
    {
        self.members().object()
    }
}

impl Target {
    /// The target as a document.
    pub fn to_json(&self) -> (r: Json)
        ensures
            r@ == target_json(*self),
    {
        let r = self.summary.members().with(
            "program_output",
            Json::text(self.program_output.as_str()),
        ).with("program", Json::text(self.program.as_str())).with(
            "entrypoint",
            Json::texts(&self.entrypoint),
        ).with("probe_output", Json::optional_text(&self.probe_output)).with(
            "probe",
            Json::optional_text(&self.probe),
        ).with("image_output", Json::optional_text(&self.image_output)).with(
            "image_name",
            Json::text(self.image_name.as_str()),
        ).with("runtime_paths", Json::texts(&self.runtime_paths)).with(
            "runtime_output",
            Json::optional_text(&self.runtime_output),
        ).object();
        assert(r@->Object_0 =~= target_json(*self)->Object_0);
        r
    }
}

// ----------------------------------------------------------------- laws

/// An artifact with a sound path stays below the directory that it is taken from.
pub proof fn law_artifacts_stay_below(root: Seq<char>, path: Seq<char>)
    requires
        absolute(root),
        relative(path) is Ok,
    ensures
        within(parts(below(root, path)), parts(root)),
{
    law_names_lead_down(root, path);
}

/// A sound target for an accelerator pins down everything that decides whether a device fits:
/// the drivers, the runtime, the architectures, the probe and the runtime packages.
pub proof fn law_sound_targets_are_pinned(t: Target)
    requires
        target_check(t) is Ok,
    ensures
        stored(t.program@),
        t.entrypoint@.len() > 0 && stored(t.entrypoint@[0]@),
        t.summary.accelerator.count > 0,
        t.summary.accelerator.id@ != "cpu"@ ==> {
            &&& t.summary.accelerator.driver_range matches Some(range) && parsed_range(
                range@,
            ) is Ok
            &&& t.summary.accelerator.runtime_version matches Some(v) && v@.len() > 0
            &&& t.summary.accelerator.architectures@.len() > 0
            &&& t.probe matches Some(p) && stored(p@)
            &&& t.runtime_paths@.len() > 0
            &&& all_stored(texts(t.runtime_paths@))
        },
{
    assert(texts(t.entrypoint@)[0] == t.entrypoint@[0]@);
}

/// No sound target sets a variable that is reserved.
pub proof fn law_reserved_variables_are_refused(s: TargetSummary, i: int)
    requires
        summary_check(s) is Ok,
        0 <= i < s.execution.env@.len(),
    ensures
        !starts(s.execution.env@[i].0, "NIX_COMPUTE_"@),
        env_key(s.execution.env@[i].0),
{
    let check = |e: (Seq<char>, Seq<char>)| env_entry_check(e);
    lemma_no_fault(s.execution.env@, check);
    assert(check(s.execution.env@[i]) is Ok);
}

/// The inputs of a sound job never share a place.
pub proof fn law_inputs_do_not_overlap(job: ComputeJob, i: int, j: int)
    requires
        job_check(job) is Ok,
        0 <= i < j < job.artifacts.inputs@.len(),
    ensures
        !overlap(job.artifacts.inputs@[i].1.path@, job.artifacts.inputs@[j].1.path@),
        relative(job.artifacts.inputs@[i].1.path@) is Ok,
        digest(job.artifacts.inputs@[i].1.sha256@),
{
    let check = |e: (Seq<char>, InputArtifact)| input_check(e);
    lemma_no_fault(job.artifacts.inputs@, check);
    assert(check(job.artifacts.inputs@[i]) is Ok);
}

/// Whether a name is made of letters, digits, `_` and `-` alone.
pub open spec fn is_plain_name(name: Seq<char>) -> bool {
    name.len() > 0 && forall|i: int|
        0 <= i < name.len() ==> {
            let c = #[trigger] name[i];
            'a' <= c <= 'z' || 'A' <= c <= 'Z' || '0' <= c <= '9' || c == '_' || c == '-'
        }
}

/// Whether a path leads down from where it starts: it has a name at least, and neither a root nor
/// a step that goes up or stays.
pub open spec fn leads_down(path: Seq<char>) -> bool {
    &&& path.len() > 0
    &&& !path.contains('\\')
    &&& !path.contains('\0')
    &&& forall|i: int| 0 <= i < parts(path).len() ==> (#[trigger] parts(path)[i]) is Normal
}

/// Whether a variable may be set by a target.
pub open spec fn may_be_set(e: (Seq<char>, Seq<char>)) -> bool {
    &&& e.0.len() > 0
    &&& !('0' <= e.0[0] <= '9')
    &&& forall|i: int|
        0 <= i < e.0.len() ==> {
            let c = #[trigger] e.0[i];
            'a' <= c <= 'z' || 'A' <= c <= 'Z' || '0' <= c <= '9' || c == '_'
        }
    &&& !(e.0.len() >= 12 && e.0.take(12) == "NIX_COMPUTE_"@)
    &&& !e.1.contains('\0')
}

proof fn lemma_may_be_set(e: (Seq<char>, Seq<char>))
    ensures
        env_entry_check(e) is Ok <==> may_be_set(e),
{
    reveal_strlit("NIX_COMPUTE_");
    if e.0.len() >= 12 {
        assert(e.0.subrange(0, 12) =~= e.0.take(12));
    }
    if env_key(e.0) {
        assert forall|i: int| 0 <= i < e.0.len() implies ({
            let c = #[trigger] e.0[i];
            'a' <= c <= 'z' || 'A' <= c <= 'Z' || '0' <= c <= '9' || c == '_'
        }) by {
            assert(is_alphanumeric(e.0[i]) || e.0[i] == '_');
        }
    }
}

/// What each backend runs on: the CPU anywhere, with nothing asked of an accelerator; Apple's
/// devices and the TPU without a container; all others in one.
pub open spec fn runs_on(s: TargetSummary) -> bool {
    let a = s.accelerator;
    ||| a.id@ == "cpu"@ && a.count == 1 && a.min_memory_mib == 0 && a.architectures@.len() == 0
        && a.topology@.len() == 0 && a.driver_range is None && a.runtime_version is None
    ||| a.id@ == "metal"@ && s.system@ == "aarch64-darwin"@ && s.executor@ == "native"@
    ||| a.id@ == "tpu"@ && (s.system@ == "x86_64-linux"@ || s.system@ == "aarch64-linux"@)
        && s.executor@ == "native"@
    ||| (a.id@ == "cuda"@ || a.id@ == "cann"@) && (s.system@ == "x86_64-linux"@ || s.system@
        == "aarch64-linux"@) && s.executor@ == "oci"@
    ||| (a.id@ == "rocm"@ || a.id@ == "oneapi"@) && s.system@ == "x86_64-linux"@ && s.executor@
        == "oci"@
}

#[verifier::rlimit(50)]
#[verifier::spinoff_prover]
proof fn lemma_model_words()
    ensures
        "cpu"@.len() == 3 && "cpu"@[0] == 'c',
        "tpu"@.len() == 3 && "tpu"@[0] == 't',
        "metal"@.len() == 5,
        "cuda"@.len() == 4 && "cuda"@[0] == 'c' && "cuda"@[1] == 'u',
        "cann"@.len() == 4 && "cann"@[0] == 'c' && "cann"@[1] == 'a',
        "rocm"@.len() == 4 && "rocm"@[0] == 'r',
        "oneapi"@.len() == 6,
        "oci"@.len() == 3,
        "native"@.len() == 6,
        "x86_64-linux"@.len() == 12,
        "aarch64-linux"@.len() == 13,
        "aarch64-darwin"@.len() == 14,
        ends("x86_64-linux"@, "-linux"@),
        ends("aarch64-linux"@, "-linux"@),
        !ends("aarch64-darwin"@, "-linux"@),
{
    reveal_strlit("cpu");
    reveal_strlit("tpu");
    reveal_strlit("metal");
    reveal_strlit("cuda");
    reveal_strlit("cann");
    reveal_strlit("rocm");
    reveal_strlit("oneapi");
    reveal_strlit("oci");
    reveal_strlit("native");
    reveal_strlit("x86_64-linux");
    reveal_strlit("aarch64-linux");
    reveal_strlit("aarch64-darwin");
    reveal_strlit("-linux");
    assert("x86_64-linux"@.subrange(6, 12) =~= "-linux"@);
    assert("aarch64-linux"@.subrange(7, 13) =~= "-linux"@);
    assert("aarch64-darwin"@.subrange(8, 14)[0] != "-linux"@[0]);
}

/// Whether all that decides which device fits is told: the drivers, the one runtime and the
/// architectures.
pub open spec fn is_pinned(a: Accelerator) -> bool {
    &&& a.driver_range is Some && parsed_range(a.driver_range->0@) is Ok
    &&& a.runtime_version is Some && a.runtime_version->0@.len() > 0
    &&& a.architectures@.len() > 0
}

/// A target is accepted exactly where every part of it is one that can be honoured.
#[verifier::rlimit(50)]
#[verifier::spinoff_prover]
pub proof fn law_accepted_targets_can_be_honoured(s: TargetSummary)
    ensures
        summary_check(s) is Ok <==> {
            &&& is_plain_name(s.name@)
            &&& s.system@ == "x86_64-linux"@ || s.system@ == "aarch64-linux"@ || s.system@
                == "aarch64-darwin"@
            &&& s.executor@ == "native"@ || s.executor@ == "oci"@ && s.system@ != "aarch64-darwin"@
            &&& s.execution.network@ == "none"@ || s.execution.network@ == "host"@
            &&& s.execution.isolation@ == "none"@ || s.execution.isolation@ == "container"@
            &&& s.execution.timeout_seconds != Some(0u64)
            &&& s.resources.cpu_cores != Some(0u32)
            &&& s.resources.memory_mib != Some(0u64)
            &&& forall|i: int|
                0 <= i < s.execution.env@.len() ==> may_be_set(#[trigger] s.execution.env@[i])
            &&& s.accelerator.count > 0
            &&& runs_on(s)
            &&& s.accelerator.id@ == "cpu"@ || is_pinned(s.accelerator)
        },
{
    lemma_model_words();
    let check = |e: (Seq<char>, Seq<char>)| env_entry_check(e);
    lemma_no_fault(s.execution.env@, check);
    assert forall|i: int| 0 <= i < s.execution.env@.len() implies (check(
        #[trigger] s.execution.env@[i],
    ) is Ok <==> may_be_set(s.execution.env@[i])) by {
        lemma_may_be_set(s.execution.env@[i]);
    }
    assert(env_check(s.execution.env@) is Ok <==> forall|i: int|
        0 <= i < s.execution.env@.len() ==> may_be_set(#[trigger] s.execution.env@[i]));
    assert(safe(s.name@) <==> is_plain_name(s.name@)) by {
        if safe(s.name@) {
            assert forall|i: int| 0 <= i < s.name@.len() implies ({
                let c = #[trigger] s.name@[i];
                'a' <= c <= 'z' || 'A' <= c <= 'Z' || '0' <= c <= '9' || c == '_' || c == '-'
            }) by {
                assert(name_char(s.name@[i]));
            }
        }
    }
}

/// Whether a path lies in the store.
pub open spec fn in_the_store(path: Seq<char>) -> bool {
    path.len() >= 11 && path.take(11) == "/nix/store/"@
}

proof fn lemma_in_the_store(path: Seq<char>)
    ensures
        stored(path) <==> in_the_store(path),
{
    reveal_strlit("/nix/store/");
    if path.len() >= 11 {
        assert(path.subrange(0, 11) =~= path.take(11));
    }
}

/// A built target is accepted exactly where it can be honoured, its program, its entrypoint and
/// what an accelerator needs lie in the store, and it has an image exactly where it runs in a
/// container.
pub proof fn law_accepted_builds_lie_in_the_store(t: Target)
    ensures
        target_check(t) is Ok <==> {
            &&& summary_check(t.summary) is Ok
            &&& in_the_store(t.program@)
            &&& t.entrypoint@.len() > 0 && in_the_store(t.entrypoint@[0]@)
            &&& forall|i: int|
                0 <= i < t.entrypoint@.len() ==> !(#[trigger] t.entrypoint@[i])@.contains('\0')
            &&& (t.summary.executor@ == "oci"@ <==> t.image_output is Some)
            &&& t.summary.accelerator.id@ == "cpu"@ || {
                &&& t.probe_output is Some && t.probe is Some && in_the_store(t.probe->0@)
                &&& t.runtime_paths@.len() > 0
                &&& forall|i: int|
                    0 <= i < t.runtime_paths@.len() ==> in_the_store(
                        (#[trigger] t.runtime_paths@[i])@,
                    )
            }
        },
{
    let command = texts(t.entrypoint@);
    let paths = texts(t.runtime_paths@);
    lemma_in_the_store(t.program@);
    if t.entrypoint@.len() > 0 {
        lemma_in_the_store(t.entrypoint@[0]@);
        assert(command[0] == t.entrypoint@[0]@);
    }
    if let Some(p) = t.probe {
        lemma_in_the_store(p@);
    }
    assert forall|i: int| 0 <= i < t.runtime_paths@.len() implies (stored(
        (#[trigger] t.runtime_paths@[i])@,
    ) <==> in_the_store(t.runtime_paths@[i]@)) by {
        lemma_in_the_store(t.runtime_paths@[i]@);
    }
    if all_stored(paths) {
        assert forall|i: int| 0 <= i < t.runtime_paths@.len() implies in_the_store(
            (#[trigger] t.runtime_paths@[i])@,
        ) by {
            assert(stored(paths[i]));
        }
    }
    if none_has_nul(command) {
        assert forall|i: int| 0 <= i < t.entrypoint@.len() implies !(
        #[trigger] t.entrypoint@[i])@.contains('\0') by {
            assert(!command[i].contains('\0'));
        }
    }
    if forall|i: int|
        0 <= i < t.entrypoint@.len() ==> !(#[trigger] t.entrypoint@[i])@.contains('\0') {
        assert forall|i: int| 0 <= i < command.len() implies !(#[trigger] command[i]).contains(
            '\0',
        ) by {
            assert(!t.entrypoint@[i]@.contains('\0'));
        }
    }
    if forall|i: int|
        0 <= i < t.runtime_paths@.len() ==> in_the_store((#[trigger] t.runtime_paths@[i])@) {
        assert forall|i: int| 0 <= i < paths.len() implies stored(#[trigger] paths[i]) by {
            assert(in_the_store(t.runtime_paths@[i]@));
        }
    }
}

pub proof fn lemma_plain_name(name: Seq<char>)
    ensures
        safe(name) <==> is_plain_name(name),
{
    if safe(name) {
        assert forall|i: int| 0 <= i < name.len() implies ({
            let c = #[trigger] name[i];
            'a' <= c <= 'z' || 'A' <= c <= 'Z' || '0' <= c <= '9' || c == '_' || c == '-'
        }) by {
            assert(name_char(name[i]));
        }
    }
}

/// A path is accepted exactly where it leads down.
pub proof fn law_accepted_paths_lead_down(path: Seq<char>)
    ensures
        relative(path) is Ok <==> leads_down(path),
{
    if names_only(path) {
        assert forall|i: int| 0 <= i < parts(path).len() implies (
        #[trigger] parts(path)[i]) is Normal by {
            assert(normal(parts(path)[i]));
        }
    }
}

/// Whether an input may be declared so.
pub open spec fn is_sound_input(e: (Seq<char>, InputArtifact)) -> bool {
    &&& is_plain_name(e.0)
    &&& leads_down(e.1.path@)
    &&& e.1.sha256@.len() == 64
    &&& forall|i: int|
        0 <= i < 64 ==> {
            let c = #[trigger] e.1.sha256@[i];
            '0' <= c <= '9' || 'a' <= c <= 'f' || 'A' <= c <= 'F'
        }
}

/// A job is accepted exactly where it is of the version that is understood, has targets that are
/// accepted under their own names, inputs that are named by their digests and lie apart from each
/// other, and outputs that lie below.
#[verifier::rlimit(50)]
#[verifier::spinoff_prover]
pub proof fn law_accepted_jobs_are_sound(job: ComputeJob)
    ensures
        job_check(job) is Ok <==> {
            &&& job.schema_version == 2
            &&& is_plain_name(job.name@)
            &&& job.targets@.len() > 0
            &&& job.reproducibility.contract@ == "environment-inputs"@
            &&& forall|i: int|
                0 <= i < job.artifacts.inputs@.len() ==> is_sound_input(
                    #[trigger] job.artifacts.inputs@[i],
                )
            &&& forall|i: int, j: int|
                0 <= i < j < job.artifacts.inputs@.len() ==> {
                    let a = parts((#[trigger] job.artifacts.inputs@[i]).1.path@);
                    let b = parts((#[trigger] job.artifacts.inputs@[j]).1.path@);
                    !(a.len() <= b.len() && b.take(a.len() as int) == a) && !(b.len() <= a.len()
                        && a.take(b.len() as int) == b)
                }
            &&& forall|i: int|
                0 <= i < job.artifacts.outputs@.len() ==> is_plain_name(
                    (#[trigger] job.artifacts.outputs@[i]).0,
                ) && leads_down(job.artifacts.outputs@[i].1.path@)
            &&& forall|i: int|
                0 <= i < job.targets@.len() ==> (#[trigger] job.targets@[i]).0
                    == job.targets@[i].1.name@ && summary_check(job.targets@[i].1) is Ok
        },
{
    let inputs = job.artifacts.inputs@;
    let outputs = job.artifacts.outputs@;
    let targets = job.targets@;
    let check_in = |e: (Seq<char>, InputArtifact)| input_check(e);
    let check_out = |e: (Seq<char>, OutputArtifact)| output_check(e);
    let check_target = |e: (Seq<char>, TargetSummary)| named_target_check(e);
    lemma_no_fault(inputs, check_in);
    lemma_no_fault(outputs, check_out);
    lemma_no_fault(targets, check_target);
    lemma_plain_name(job.name@);
    assert forall|i: int| 0 <= i < inputs.len() implies (check_in(#[trigger] inputs[i]) is Ok
        <==> is_sound_input(inputs[i])) by {
        let e = inputs[i];
        lemma_plain_name(e.0);
        law_accepted_paths_lead_down(e.1.path@);
        if digest(e.1.sha256@) {
            assert forall|k: int| 0 <= k < 64 implies ({
                let c = #[trigger] e.1.sha256@[k];
                '0' <= c <= '9' || 'a' <= c <= 'f' || 'A' <= c <= 'F'
            }) by {
                assert(is_hex(e.1.sha256@[k]));
            }
        }
    }
    assert forall|i: int| 0 <= i < outputs.len() implies (check_out(#[trigger] outputs[i]) is Ok
        <==> is_plain_name(outputs[i].0) && leads_down(outputs[i].1.path@)) by {
        lemma_plain_name(outputs[i].0);
        law_accepted_paths_lead_down(outputs[i].1.path@);
    }
    assert forall|i: int, j: int| 0 <= i < j < inputs.len() implies (overlap(
        (#[trigger] inputs[i]).1.path@,
        (#[trigger] inputs[j]).1.path@,
    ) <==> {
        let a = parts(inputs[i].1.path@);
        let b = parts(inputs[j].1.path@);
        a.len() <= b.len() && b.take(a.len() as int) == a || b.len() <= a.len() && a.take(
            b.len() as int,
        ) == b
    }) by {
        let a = parts(inputs[i].1.path@);
        let b = parts(inputs[j].1.path@);
        if a.len() <= b.len() {
            assert(b.subrange(0, a.len() as int) =~= b.take(a.len() as int));
        }
        if b.len() <= a.len() {
            assert(a.subrange(0, b.len() as int) =~= a.take(b.len() as int));
        }
    }
    let first = first_fault(inputs, check_in) is Ok;
    let second = first_fault(outputs, check_out) is Ok;
    let third = first_fault(targets, check_target) is Ok;
    assert(first <==> forall|i: int| 0 <= i < inputs.len() ==> is_sound_input(#[trigger] inputs[i])) by {
        if first {
            assert forall|i: int| 0 <= i < inputs.len() implies is_sound_input(
                #[trigger] inputs[i],
            ) by {
                assert(check_in(inputs[i]) is Ok);
            }
        }
    }
    assert(second <==> forall|i: int|
        0 <= i < outputs.len() ==> is_plain_name((#[trigger] outputs[i]).0) && leads_down(
            outputs[i].1.path@,
        )) by {
        if second {
            assert forall|i: int| 0 <= i < outputs.len() implies is_plain_name(
                (#[trigger] outputs[i]).0,
            ) && leads_down(outputs[i].1.path@) by {
                assert(check_out(outputs[i]) is Ok);
            }
        }
    }
    assert(third <==> forall|i: int|
        0 <= i < targets.len() ==> (#[trigger] targets[i]).0 == targets[i].1.name@
            && summary_check(targets[i].1) is Ok) by {
        if third {
            assert forall|i: int| 0 <= i < targets.len() implies (#[trigger] targets[i]).0
                == targets[i].1.name@ && summary_check(targets[i].1) is Ok by {
                assert(check_target(targets[i]) is Ok);
            }
        }
    }
}

/// What identifies a job tells its version, its name, what it reads and writes, its parameters and
/// what it promises, each under its own name.
#[verifier::rlimit(50)]
#[verifier::spinoff_prover]
pub proof fn law_jobs_are_identified_by_what_they_do(job: ComputeJob)
    ensures
        member_of(identity_json(job), "schema_version"@) == JsonView::Number(decimal(job.schema_version as nat)),
        member_of(identity_json(job), "name"@) == JsonView::Text(job.name@),
        member_of(identity_json(job), "artifacts"@) == artifacts_json(job.artifacts),
        member_of(identity_json(job), "parameters"@) == JsonView::Object(job.parameters@),
        member_of(identity_json(job), "reproducibility"@) == reproducibility_json(job.reproducibility),
        identity_json(job)->Object_0.len() == 5,
{
    broadcast use lemma_lookup_push;

    reveal_strlit("schema_version");
    reveal_strlit("name");
    reveal_strlit("artifacts");
    reveal_strlit("parameters");
    reveal_strlit("reproducibility");
    assert("schema_version"@.len() == 14);
    assert("name"@.len() == 4);
    assert("artifacts"@.len() == 9);
    assert("parameters"@.len() == 10);
    assert("reproducibility"@.len() == 15);
    let all = Seq::<(Seq<char>, JsonView)>::empty()
        .push(("schema_version"@, whole(job.schema_version as nat)))
        .push(("name"@, JsonView::Text(job.name@)))
        .push(("artifacts"@, artifacts_json(job.artifacts)))
        .push(("parameters"@, JsonView::Object(job.parameters@)))
        .push(("reproducibility"@, reproducibility_json(job.reproducibility)));
    assert(identity_json(job)->Object_0 =~= all);
    assert(identity_json(job) == JsonView::Object(all));
}

/// What a job promises tells its contract and its seed.
pub proof fn law_promises_are_told(r: Reproducibility)
    ensures
        member_of(reproducibility_json(r), "contract"@) == JsonView::Text(r.contract@),
        member_of(reproducibility_json(r), "seed"@) == (match r.seed {
            Some(n) => JsonView::Number(decimal(n as nat)),
            None => JsonView::Null,
        }),
        reproducibility_json(r)->Object_0.len() == 2,
{
    broadcast use lemma_lookup_push;

    reveal_strlit("contract");
    reveal_strlit("seed");
    assert("contract"@.len() == 8);
    assert("seed"@.len() == 4);
    let all = Seq::<(Seq<char>, JsonView)>::empty()
        .push(("contract"@, JsonView::Text(r.contract@)))
        .push(("seed"@, whole_or_null(match r.seed { Some(n) => Some(n as nat), None => None })));
    assert(reproducibility_json(r)->Object_0 =~= all);
    assert(reproducibility_json(r) == JsonView::Object(all));
}

/// An input tells where it comes from, its digest and its place.
pub proof fn law_inputs_are_told(a: InputArtifact)
    ensures
        member_of(input_json(a), "uri"@) == JsonView::Text(a.uri@),
        member_of(input_json(a), "sha256"@) == JsonView::Text(a.sha256@),
        member_of(input_json(a), "path"@) == JsonView::Text(a.path@),
        input_json(a)->Object_0.len() == 3,
{
    broadcast use lemma_lookup_push;

    reveal_strlit("uri");
    reveal_strlit("sha256");
    reveal_strlit("path");
    assert("uri"@.len() == 3);
    assert("sha256"@.len() == 6);
    assert("path"@.len() == 4);
    let all = Seq::<(Seq<char>, JsonView)>::empty()
        .push(("uri"@, JsonView::Text(a.uri@)))
        .push(("sha256"@, JsonView::Text(a.sha256@)))
        .push(("path"@, JsonView::Text(a.path@)));
    assert(input_json(a)->Object_0 =~= all);
    assert(input_json(a) == JsonView::Object(all));
}

/// An output tells its place, where it goes and whether it must be there.
pub proof fn law_outputs_are_told(a: OutputArtifact)
    ensures
        member_of(output_json(a), "path"@) == JsonView::Text(a.path@),
        member_of(output_json(a), "destination"@) == (match a.destination {
            Some(s) => JsonView::Text(s@),
            None => JsonView::Null,
        }),
        member_of(output_json(a), "required"@) == JsonView::Bool(a.required),
        output_json(a)->Object_0.len() == 3,
{
    broadcast use lemma_lookup_push;

    reveal_strlit("path");
    reveal_strlit("destination");
    reveal_strlit("required");
    assert("path"@.len() == 4);
    assert("destination"@.len() == 11);
    assert("required"@.len() == 8);
    let all = Seq::<(Seq<char>, JsonView)>::empty()
        .push(("path"@, JsonView::Text(a.path@)))
        .push(("destination"@, text_or_null(text_of(a.destination))))
        .push(("required"@, JsonView::Bool(a.required)));
    assert(output_json(a)->Object_0 =~= all);
    assert(output_json(a) == JsonView::Object(all));
}

/// Every input and every output of a job is told under its own name.
pub proof fn law_every_artifact_is_told(a: Artifacts, i: int, j: int)
    requires
        0 <= i < a.inputs@.len(),
        0 <= j < a.outputs@.len(),
    ensures
        ({
            let inputs = member_of(artifacts_json(a), "inputs"@);
            let outputs = member_of(artifacts_json(a), "outputs"@);
            &&& inputs->Object_0.len() == a.inputs@.len()
            &&& inputs->Object_0[i] == (a.inputs@[i].0, input_json(a.inputs@[i].1))
            &&& outputs->Object_0.len() == a.outputs@.len()
            &&& outputs->Object_0[j] == (a.outputs@[j].0, output_json(a.outputs@[j].1))
        }),
{
    broadcast use lemma_lookup_push;

    reveal_strlit("inputs");
    reveal_strlit("outputs");
    assert("inputs"@.len() == 6 && "outputs"@.len() == 7);
    let all = artifacts_json(a)->Object_0;
    assert(all =~= Seq::<(Seq<char>, JsonView)>::empty().push(all[0]).push(all[1]));
}

/// A requirement tells everything that it asks for, each under its own name.
#[verifier::rlimit(50)]
#[verifier::spinoff_prover]
pub proof fn law_requirements_are_told(a: Accelerator)
    ensures
        member_of(accelerator_json(a), "id"@) == JsonView::Text(a.id@),
        member_of(accelerator_json(a), "count"@) == JsonView::Number(decimal(a.count as nat)),
        member_of(accelerator_json(a), "min_memory_mib"@) == JsonView::Number(decimal(a.min_memory_mib as nat)),
        member_of(accelerator_json(a), "architectures"@) == text_list(texts(a.architectures@)),
        member_of(accelerator_json(a), "driver_range"@) == (match a.driver_range {
            Some(s) => JsonView::Text(s@),
            None => JsonView::Null,
        }),
        member_of(accelerator_json(a), "runtime_version"@) == (match a.runtime_version {
            Some(s) => JsonView::Text(s@),
            None => JsonView::Null,
        }),
        member_of(accelerator_json(a), "topology"@) == text_object(a.topology@),
        accelerator_json(a)->Object_0.len() == 7,
{
    broadcast use lemma_lookup_push;

    reveal_strlit("id");
    reveal_strlit("count");
    reveal_strlit("min_memory_mib");
    reveal_strlit("architectures");
    reveal_strlit("driver_range");
    reveal_strlit("runtime_version");
    reveal_strlit("topology");
    assert("id"@.len() == 2);
    assert("count"@.len() == 5);
    assert("min_memory_mib"@.len() == 14);
    assert("architectures"@.len() == 13);
    assert("driver_range"@.len() == 12);
    assert("runtime_version"@.len() == 15);
    assert("topology"@.len() == 8);
    let all = Seq::<(Seq<char>, JsonView)>::empty()
        .push(("id"@, JsonView::Text(a.id@)))
        .push(("count"@, whole(a.count as nat)))
        .push(("min_memory_mib"@, whole(a.min_memory_mib as nat)))
        .push(("architectures"@, text_list(texts(a.architectures@))))
        .push(("driver_range"@, text_or_null(text_of(a.driver_range))))
        .push(("runtime_version"@, text_or_null(text_of(a.runtime_version))))
        .push(("topology"@, text_object(a.topology@)));
    assert(accelerator_json(a)->Object_0 =~= all);
    assert(accelerator_json(a) == JsonView::Object(all));
}

/// The resources that are asked for are told.
pub proof fn law_resources_are_told(r: Resources)
    ensures
        member_of(resources_json(r), "cpu_cores"@) == (match r.cpu_cores {
            Some(n) => JsonView::Number(decimal(n as nat)),
            None => JsonView::Null,
        }),
        member_of(resources_json(r), "memory_mib"@) == (match r.memory_mib {
            Some(n) => JsonView::Number(decimal(n as nat)),
            None => JsonView::Null,
        }),
        member_of(resources_json(r), "enforce"@) == JsonView::Bool(r.enforce),
        resources_json(r)->Object_0.len() == 3,
{
    broadcast use lemma_lookup_push;

    reveal_strlit("cpu_cores");
    reveal_strlit("memory_mib");
    reveal_strlit("enforce");
    assert("cpu_cores"@.len() == 9);
    assert("memory_mib"@.len() == 10);
    assert("enforce"@.len() == 7);
    let all = Seq::<(Seq<char>, JsonView)>::empty()
        .push(("cpu_cores"@, whole_or_null(match r.cpu_cores { Some(n) => Some(n as nat), None => None })))
        .push(("memory_mib"@, whole_or_null(match r.memory_mib { Some(n) => Some(n as nat), None => None })))
        .push(("enforce"@, JsonView::Bool(r.enforce)));
    assert(resources_json(r)->Object_0 =~= all);
    assert(resources_json(r) == JsonView::Object(all));
}

/// How a workload is executed is told.
pub proof fn law_execution_is_told(e: Execution)
    ensures
        member_of(execution_json(e), "network"@) == JsonView::Text(e.network@),
        member_of(execution_json(e), "isolation"@) == JsonView::Text(e.isolation@),
        member_of(execution_json(e), "timeout_seconds"@) == (match e.timeout_seconds {
            Some(n) => JsonView::Number(decimal(n as nat)),
            None => JsonView::Null,
        }),
        member_of(execution_json(e), "env"@) == text_object(e.env@),
        execution_json(e)->Object_0.len() == 4,
{
    broadcast use lemma_lookup_push;

    reveal_strlit("network");
    reveal_strlit("isolation");
    reveal_strlit("timeout_seconds");
    reveal_strlit("env");
    assert("network"@.len() == 7);
    assert("isolation"@.len() == 9);
    assert("timeout_seconds"@.len() == 15);
    assert("env"@.len() == 3);
    let all = Seq::<(Seq<char>, JsonView)>::empty()
        .push(("network"@, JsonView::Text(e.network@)))
        .push(("isolation"@, JsonView::Text(e.isolation@)))
        .push(("timeout_seconds"@, whole_or_null(match e.timeout_seconds { Some(n) => Some(n as nat), None => None })))
        .push(("env"@, text_object(e.env@)));
    assert(execution_json(e)->Object_0 =~= all);
    assert(execution_json(e) == JsonView::Object(all));
}

/// A built target tells everything that it is made of, each under its own name.
#[verifier::rlimit(50)]
#[verifier::spinoff_prover]
pub proof fn law_targets_are_told(t: Target)
    ensures
        member_of(target_json(t), "name"@) == JsonView::Text(t.summary.name@),
        member_of(target_json(t), "system"@) == JsonView::Text(t.summary.system@),
        member_of(target_json(t), "executor"@) == JsonView::Text(t.summary.executor@),
        member_of(target_json(t), "accelerator"@) == accelerator_json(t.summary.accelerator),
        member_of(target_json(t), "resources"@) == resources_json(t.summary.resources),
        member_of(target_json(t), "execution"@) == execution_json(t.summary.execution),
        member_of(target_json(t), "program_output"@) == JsonView::Text(t.program_output@),
        member_of(target_json(t), "program"@) == JsonView::Text(t.program@),
        member_of(target_json(t), "entrypoint"@) == text_list(texts(t.entrypoint@)),
        member_of(target_json(t), "probe_output"@) == (match t.probe_output {
            Some(s) => JsonView::Text(s@),
            None => JsonView::Null,
        }),
        member_of(target_json(t), "probe"@) == (match t.probe {
            Some(s) => JsonView::Text(s@),
            None => JsonView::Null,
        }),
        member_of(target_json(t), "image_output"@) == (match t.image_output {
            Some(s) => JsonView::Text(s@),
            None => JsonView::Null,
        }),
        member_of(target_json(t), "image_name"@) == JsonView::Text(t.image_name@),
        member_of(target_json(t), "runtime_paths"@) == text_list(texts(t.runtime_paths@)),
        member_of(target_json(t), "runtime_output"@) == (match t.runtime_output {
            Some(s) => JsonView::Text(s@),
            None => JsonView::Null,
        }),
        target_json(t)->Object_0.len() == 15,
{
    broadcast use lemma_lookup_push;

    reveal_strlit("name");
    reveal_strlit("system");
    reveal_strlit("executor");
    reveal_strlit("accelerator");
    reveal_strlit("resources");
    reveal_strlit("execution");
    reveal_strlit("program_output");
    reveal_strlit("program");
    reveal_strlit("entrypoint");
    reveal_strlit("probe_output");
    reveal_strlit("probe");
    reveal_strlit("image_output");
    reveal_strlit("image_name");
    reveal_strlit("runtime_paths");
    reveal_strlit("runtime_output");
    assert("name"@.len() == 4);
    assert("system"@.len() == 6);
    assert("executor"@.len() == 8);
    assert("accelerator"@.len() == 11);
    assert("resources"@.len() == 9 && "resources"@[0] == 'r');
    assert("execution"@.len() == 9 && "execution"@[0] == 'e');
    assert("program_output"@.len() == 14 && "program_output"@[0] == 'p');
    assert("program"@.len() == 7);
    assert("entrypoint"@.len() == 10 && "entrypoint"@[0] == 'e');
    assert("probe_output"@.len() == 12 && "probe_output"@[0] == 'p');
    assert("probe"@.len() == 5);
    assert("image_output"@.len() == 12 && "image_output"@[0] == 'i');
    assert("image_name"@.len() == 10 && "image_name"@[0] == 'i');
    assert("runtime_paths"@.len() == 13);
    assert("runtime_output"@.len() == 14 && "runtime_output"@[0] == 'r');
    let all = Seq::<(Seq<char>, JsonView)>::empty()
        .push(("name"@, JsonView::Text(t.summary.name@)))
        .push(("system"@, JsonView::Text(t.summary.system@)))
        .push(("executor"@, JsonView::Text(t.summary.executor@)))
        .push(("accelerator"@, accelerator_json(t.summary.accelerator)))
        .push(("resources"@, resources_json(t.summary.resources)))
        .push(("execution"@, execution_json(t.summary.execution)))
        .push(("program_output"@, JsonView::Text(t.program_output@)))
        .push(("program"@, JsonView::Text(t.program@)))
        .push(("entrypoint"@, text_list(texts(t.entrypoint@))))
        .push(("probe_output"@, text_or_null(text_of(t.probe_output))))
        .push(("probe"@, text_or_null(text_of(t.probe))))
        .push(("image_output"@, text_or_null(text_of(t.image_output))))
        .push(("image_name"@, JsonView::Text(t.image_name@)))
        .push(("runtime_paths"@, text_list(texts(t.runtime_paths@))))
        .push(("runtime_output"@, text_or_null(text_of(t.runtime_output))));
    assert(target_json(t)->Object_0 =~= all);
    assert(target_json(t) == JsonView::Object(all));
}

/// What is declared is accepted exactly where it is sound.
pub proof fn law_declarations_are_validated(
    summary: &TargetSummary,
    target: &Target,
    job: &ComputeJob,
    a: Result<(), Error>,
    b: Result<(), Error>,
    c: Result<(), Error>,
)
    requires
        call_ensures(TargetSummary::validate, (summary,), a),
        call_ensures(Target::validate, (target,), b),
        call_ensures(ComputeJob::validate, (job,), c),
    ensures
        a is Ok ==> is_plain_name(summary.name@) && summary.accelerator.count > 0 && runs_on(
            *summary,
        ) && (summary.accelerator.id@ == "cpu"@ || is_pinned(summary.accelerator)),
        a is Ok <==> summary_check(*summary) is Ok,
        b is Ok ==> in_the_store(target.program@) && target.entrypoint@.len() > 0 && in_the_store(
            target.entrypoint@[0]@,
        ) && (target.summary.executor@ == "oci"@ <==> target.image_output is Some),
        b is Ok <==> target_check(*target) is Ok,
        c is Ok ==> job.schema_version == 2 && is_plain_name(job.name@) && job.targets@.len() > 0,
        c is Ok <==> job_check(*job) is Ok,
{
    law_accepted_targets_can_be_honoured(*summary);
    law_accepted_builds_lie_in_the_store(*target);
    law_accepted_jobs_are_sound(*job);
}

} // verus!
