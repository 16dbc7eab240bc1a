//! How a workload is started: its directories, its environment, its container.

use vstd::prelude::*;
use crate::accelerator::{
    adapter, adapter_of, all_nodes, configuration, devices_view, ids, lemma_all_nodes_owner,
    lemma_nodes_hold, matching, matching_of, Adapter, Device, Inventory, InventoryView, Launch,
    LaunchView,
};
use crate::canonical::{canonical, canonical_text, fingerprint, sha256_bytes};
use crate::error::{outcome, Error};
use crate::json::{member_of, text_in, Json, JsonView};
use crate::map::{
    dropped, lemma_dropped_lookup, lemma_put_all_lookup, lemma_put_lookup, lookup, put, put_all,
    StringMap,
};
use crate::model::{
    digest, digest_valid, json_map, relative, relative_path, ComputeJob, Resources, Target,
};
use crate::path::{below, components, is_within, join_path, parts, same_path, within};
use crate::reading::{document, read};
use crate::sort::{law_sorting_forgets_the_order, sort_texts, sorted_texts};
use crate::text::{
    copy_strings, decimal, glue, glue3, has_char, is_digit, is_hex, lower, lowered, number, same,
    starts, strip_prefix, texts, to_lower, trim, trimmed, without,
};

verus! {

// ---------------------------------------------------------- directories

/// The directories of a run.
#[derive(Debug)]
pub struct Workspace {
    pub root: String,
    pub inputs: String,
    pub outputs: String,
    pub work: String,
    pub tmp: String,
}

pub struct WorkspaceView {
    pub root: Seq<char>,
    pub inputs: Seq<char>,
    pub outputs: Seq<char>,
    pub work: Seq<char>,
    pub tmp: Seq<char>,
}

impl View for Workspace {
    type V = WorkspaceView;

    open spec fn view(&self) -> WorkspaceView {
        WorkspaceView {
            root: self.root@,
            inputs: self.inputs@,
            outputs: self.outputs@,
            work: self.work@,
            tmp: self.tmp@,
        }
    }
}

/// The directories of a run under a root. The root goes into mount options, where a
/// comma or a colon would end it.
pub open spec fn workspace_of(root: Seq<char>) -> Result<WorkspaceView, Seq<Seq<char>>> {
    if root.contains(',') || root.contains(':') {
        Err(seq!["workspace path cannot contain comma or colon"@])
    } else {
        Ok(
            WorkspaceView {
                root,
                inputs: below(root, "inputs"@),
                outputs: below(root, "outputs"@),
                work: below(root, "work"@),
                tmp: below(root, "tmp"@),
            },
        )
    }
}

impl Workspace {
    /// The directories of a run under a root.
    pub fn create(root: &str) -> (r: Result<Workspace, Error>)
        ensures
            outcome(r) == workspace_of(root@),
    {
        if has_char(root, ',') || has_char(root, ':') {
            return Err(Error::new("workspace path cannot contain comma or colon"));
        }
        Ok(
            Workspace {
                root: root.to_owned(),
                inputs: join_path(root, "inputs"),
                outputs: join_path(root, "outputs"),
                work: join_path(root, "work"),
                tmp: join_path(root, "tmp"),
            },
        )
    }
}

// ---------------------------------------------------------- environment

/// A directory as the workload sees it: by a fixed name in a container, else by its own.
pub open spec fn seen_as(oci: bool, inside: Seq<char>, outside: Seq<char>) -> Seq<char> {
    if oci {
        inside
    } else {
        outside
    }
}

/// The environment of a workload, over what its target sets: what goes with its
/// devices comes over that, and what is reserved comes over all.
pub open spec fn environment_of(
    parameters: Seq<(Seq<char>, JsonView)>,
    seed: Option<u64>,
    declared: Seq<(Seq<char>, Seq<char>)>,
    devices: Seq<(Seq<char>, Seq<char>)>,
    ws: WorkspaceView,
    oci: bool,
) -> Seq<(Seq<char>, Seq<char>)> {
    let a = put_all(declared, devices);
    let b = put(a, "NIX_COMPUTE_INPUTS"@, seen_as(oci, "/inputs"@, ws.inputs));
    let c = put(b, "NIX_COMPUTE_OUTPUTS"@, seen_as(oci, "/outputs"@, ws.outputs));
    let d = put(c, "NIX_COMPUTE_PARAMETERS"@, canonical(JsonView::Object(parameters)));
    let e = match seed {
        Some(n) => put(d, "NIX_COMPUTE_SEED"@, decimal(n as nat)),
        None => d,
    };
    let f = put(e, "HOME"@, seen_as(oci, "/tmp"@, ws.tmp));
    put(f, "TMPDIR"@, seen_as(oci, "/tmp"@, ws.tmp))
}

fn choose_text<'a>(oci: bool, inside: &'a str, outside: &'a str) -> (r: &'a str)
    ensures
        r@ == seen_as(oci, inside@, outside@),
{
    if oci {
        inside
    } else {
        outside
    }
}

fn environment(
    job: &ComputeJob,
    declared: &StringMap<String>,
    devices: &StringMap<String>,
    workspace: &Workspace,
    oci: bool,
) -> (r: StringMap<String>)
    ensures
        r@ == environment_of(
            job.parameters@,
            job.reproducibility.seed,
            declared@,
            devices@,
            workspace@,
            oci,
        ),
{
    let mut env = declared.copy_texts();
    env.extend_texts(devices);
    env.set("NIX_COMPUTE_INPUTS", choose_text(oci, "/inputs", workspace.inputs.as_str()));
    env.set("NIX_COMPUTE_OUTPUTS", choose_text(oci, "/outputs", workspace.outputs.as_str()));
    env.set("NIX_COMPUTE_PARAMETERS", job.parameters_text().as_str());
    if let Some(seed) = job.reproducibility.seed {
        env.set("NIX_COMPUTE_SEED", number(seed).as_str());
    }
    env.set("HOME", choose_text(oci, "/tmp", workspace.tmp.as_str()));
    env.set("TMPDIR", choose_text(oci, "/tmp", workspace.tmp.as_str()));
    env
}

impl ComputeJob {
    /// The parameters as JSON.
    pub fn parameters_text(&self) -> (r: String)
        ensures
            r@ == canonical(JsonView::Object(self.parameters@)),
    {
        canonical_text(&json_map(&self.parameters))
    }
}

/// A program to start directly.
#[derive(Debug)]
pub struct NativeCommand {
    pub program: String,
    pub args: Vec<String>,
    pub directory: String,
    pub env: StringMap<String>,
    pub timeout_seconds: Option<u64>,
}

/// The search path is empty unless the target sets one.
pub open spec fn native_environment(env: Seq<(Seq<char>, Seq<char>)>) -> Seq<
    (Seq<char>, Seq<char>),
> {
    put_all(put(Seq::empty(), "PATH"@, ""@), env)
}

/// How the workload is started without a container: its entrypoint in its own directory,
/// with its environment and nothing else.
pub fn run_native(
    job: &ComputeJob,
    target: &Target,
    launch: &Launch,
    workspace: &Workspace,
) -> (r: NativeCommand)
    requires
        target.entrypoint@.len() > 0,
    ensures
        r.program@ == target.entrypoint@[0]@,
        texts(r.args@) == texts(target.entrypoint@).skip(1),
        r.directory@ == workspace@.work,
        r.env@ == native_environment(
            environment_of(
                job.parameters@,
                job.reproducibility.seed,
                target.summary.execution.env@,
                launch@.env,
                workspace@,
                false,
            ),
        ),
        r.timeout_seconds == target.summary.execution.timeout_seconds,
{
    let mut env: StringMap<String> = StringMap::new();
    env.set("PATH", "");
    env.extend_texts(
        &environment(job, &target.summary.execution.env, &launch.env, workspace, false),
    );
    NativeCommand {
        program: target.entrypoint[0].clone(),
        args: rest_of(&target.entrypoint),
        directory: workspace.work.clone(),
        env,
        timeout_seconds: target.summary.execution.timeout_seconds,
    }
}

/// The strings behind the first.
fn rest_of(v: &Vec<String>) -> (r: Vec<String>)
    requires
        v@.len() > 0,
    ensures
        texts(r@) == texts(v@).skip(1),
{
    let mut r = copy_strings(v);
    let _first = r.remove(0);
    assert(texts(r@) =~= texts(v@).skip(1));
    r
}

// ----------------------------------------------------------- containers

/// Arguments of a command, one behind the other.
struct Arguments {
    items: Vec<String>,
}

impl View for Arguments {
    type V = Seq<Seq<char>>;

    closed spec fn view(&self) -> Seq<Seq<char>> {
        texts(self.items@)
    }
}

impl Arguments {
    fn new() -> (r: Arguments)
        ensures
            r@ == Seq::<Seq<char>>::empty(),
    {
        let r = Arguments { items: Vec::new() };
        assert(r@ =~= Seq::empty());
        r
    }

    fn arg(&mut self, s: &str)
        ensures
            final(self)@ == old(self)@.push(s@),
    {
        let ghost done = self@;
        self.items.push(s.to_owned());
        assert(self@ =~= done.push(s@));
    }

    fn args(&mut self, all: &Vec<String>)
        ensures
            final(self)@ == old(self)@ + texts(all@),
    {
        let ghost start = self@;
        let mut i: usize = 0;
        assert(start + texts(all@).take(0) =~= start);
        while i < all.len()
            invariant
                i <= all@.len(),
                self@ == start + texts(all@).take(i as int),
            decreases all.len() - i,
        {
            self.arg(all[i].as_str());
            assert(texts(all@).take(i + 1) =~= texts(all@).take(i as int).push(all@[i as int]@));
            assert(start + texts(all@).take(i as int).push(all@[i as int]@) =~= (start + texts(
                all@,
            ).take(i as int)).push(all@[i as int]@));
            i += 1;
        }
        assert(texts(all@).take(all@.len() as int) =~= texts(all@));
    }
}

/// Who starts a container: the user and the group that run this program.
#[derive(Debug, Clone, Copy)]
pub struct Owner {
    pub uid: u32,
    pub gid: u32,
}

/// The user inside the container is never the superuser.
pub open spec fn container_user(owner: Owner) -> Seq<char> {
    if owner.uid == 0 {
        "65532:65532"@
    } else {
        decimal(owner.uid as nat) + ":"@ + decimal(owner.gid as nat)
    }
}

/// What every container is created with.
pub open spec fn sandbox_args(name: Seq<char>, owner: Owner) -> Seq<Seq<char>> {
    seq![
        "create"@,
        "--name="@ + name,
        "--read-only"@,
        "--cap-drop=ALL"@,
        "--security-opt=no-new-privileges"@,
        "--user="@ + container_user(owner),
        "--workdir=/workspace"@,
        "--pids-limit=4096"@,
    ]
}

/// Limits, where they are to be enforced.
pub open spec fn limit_args(r: Resources) -> Seq<Seq<char>> {
    let cpu = match r.cpu_cores {
        Some(n) => seq!["--cpus="@ + decimal(n as nat)],
        None => Seq::empty(),
    };
    let memory = match r.memory_mib {
        Some(n) => seq![
            "--memory="@ + decimal(n as nat) + "m"@,
            "--memory-swap="@ + decimal(n as nat) + "m"@,
        ],
        None => Seq::empty(),
    };
    if r.enforce {
        cpu + memory
    } else {
        Seq::empty()
    }
}

pub open spec fn mounted(
    source: Seq<char>,
    destination: Seq<char>,
    end: Seq<char>,
) -> Seq<char> {
    "--mount=type=bind,src="@ + source + ",dst="@ + destination + end
}

/// The directories of the run: inputs cannot be written.
pub open spec fn workspace_args(ws: WorkspaceView) -> Seq<Seq<char>> {
    seq![
        mounted(ws.inputs, "/inputs"@, ",readonly"@),
        mounted(ws.outputs, "/outputs"@, ""@),
        mounted(ws.work, "/workspace"@, ""@),
        mounted(ws.tmp, "/tmp"@, ""@),
    ]
}

/// Two arguments for each variable.
pub open spec fn env_args(env: Seq<(Seq<char>, Seq<char>)>) -> Seq<Seq<char>>
    decreases env.len(),
{
    if env.len() == 0 {
        Seq::empty()
    } else {
        env_args(env.drop_last()) + seq!["--env"@, env.last().0 + "="@ + env.last().1]
    }
}

/// What the file system tells of a device node.
#[derive(Debug)]
pub enum NodeStatus {
    /// The node cannot be looked at, and why.
    Missing(String),
    /// A character device, and the group that it belongs to.
    Device(u32),
    /// Something else.
    Other,
}

/// What the file system tells of a device node, as a model.
pub enum NodeView {
    Missing(Seq<char>),
    Device(u32),
    Other,
}

impl View for NodeStatus {
    type V = NodeView;

    open spec fn view(&self) -> NodeView {
        match self {
            NodeStatus::Missing(why) => NodeView::Missing(why@),
            NodeStatus::Device(gid) => NodeView::Device(*gid),
            NodeStatus::Other => NodeView::Other,
        }
    }
}

pub open spec fn statuses(v: Seq<NodeStatus>) -> Seq<NodeView> {
    v.map_values(|s: NodeStatus| s@)
}

/// The numbers with one more, each once, in their order.
pub open spec fn with_number(s: Seq<u32>, n: u32) -> Seq<u32>
    decreases s.len(),
{
    if s.len() == 0 || s.last() < n {
        s.push(n)
    } else if s.last() == n {
        s
    } else {
        with_number(s.drop_last(), n).push(s.last())
    }
}

/// The groups that the device nodes belong to.
pub open spec fn groups_of(nodes: Seq<Seq<char>>, found: Seq<NodeView>) -> Result<
    Seq<u32>,
    Seq<Seq<char>>,
>
    decreases nodes.len(),
{
    if nodes.len() == 0 {
        Ok(Seq::empty())
    } else {
        match groups_of(nodes.drop_last(), found) {
            Err(e) => Err(e),
            Ok(groups) => match found[nodes.len() - 1] {
                NodeView::Missing(why) => Err(seq!["missing device node "@ + nodes.last(), why]),
                NodeView::Other => Err(seq!["not a character device: "@ + nodes.last()]),
                NodeView::Device(gid) => Ok(with_number(groups, gid)),
            },
        }
    }
}

/// How the workload gets into the groups of its devices.
pub open spec fn group_args(groups: Seq<u32>, keep: bool) -> Seq<Seq<char>> {
    if groups.len() == 0 {
        Seq::empty()
    } else if keep {
        seq!["--group-add=keep-groups"@]
    } else {
        groups.map_values(|g: u32| "--group-add="@ + decimal(g as nat))
    }
}

/// What a container is made for.
pub struct ContainerView {
    pub network: Seq<char>,
    pub resources: Resources,
    pub env: Seq<(Seq<char>, Seq<char>)>,
    pub device_args: Seq<Seq<char>>,
    pub nodes: Seq<Seq<char>>,
    pub entrypoint: Seq<Seq<char>>,
}

/// The command that creates a container. The entrypoint of the image is replaced, and
/// its arguments come once, behind the image.
pub open spec fn container_command(
    c: ContainerView,
    ws: WorkspaceView,
    runtime: Seq<char>,
    name: Seq<char>,
    image: Seq<char>,
    owner: Owner,
    found: Seq<NodeView>,
) -> Result<Seq<Seq<char>>, Seq<Seq<char>>> {
    let rootless = runtime == "podman"@ && owner.uid != 0;
    match groups_of(c.nodes, found) {
        Err(e) => Err(e),
        Ok(groups) => Ok(
            sandbox_args(name, owner) + (if rootless {
                seq!["--userns=keep-id"@]
            } else {
                Seq::empty()
            }) + seq!["--network="@ + c.network] + limit_args(c.resources) + workspace_args(ws)
                + env_args(c.env) + c.device_args + group_args(groups, rootless) + seq![
                "--entrypoint="@ + c.entrypoint[0],
                image,
            ] + c.entrypoint.skip(1),
        ),
    }
}

/// The container that runs a target.
pub open spec fn workload_container(
    job: ComputeJob,
    target: Target,
    launch: LaunchView,
    ws: WorkspaceView,
) -> ContainerView {
    ContainerView {
        network: target.summary.execution.network@,
        resources: target.summary.resources,
        env: environment_of(
            job.parameters@,
            job.reproducibility.seed,
            target.summary.execution.env@,
            launch.env,
            ws,
            true,
        ),
        device_args: launch.args,
        nodes: all_nodes(launch.devices),
        entrypoint: texts(target.entrypoint@),
    }
}

fn add_number(v: &mut Vec<u32>, n: u32)
    ensures
        final(v)@ == with_number(old(v)@, n),
{
    let ghost s = v@;
    let mut i: usize = v.len();
    while i > 0 && v[i - 1] > n
        invariant
            s == v@,
            i <= v@.len(),
            forall|k: int| i <= k < s.len() ==> #[trigger] s[k] > n,
        decreases i,
    {
        i -= 1;
    }
    proof {
        lemma_with_number(s, n, i as int);
    }
    if i > 0 && v[i - 1] == n {
        return;
    }
    v.insert(i, n);
}

proof fn lemma_with_number(s: Seq<u32>, n: u32, i: int)
    requires
        0 <= i <= s.len(),
        forall|k: int| i <= k < s.len() ==> #[trigger] s[k] > n,
        i > 0 ==> s[i - 1] <= n,
    ensures
        with_number(s, n) == if i > 0 && s[i - 1] == n {
            s
        } else {
            s.insert(i, n)
        },
    decreases s.len(),
{
    if i < s.len() {
        assert(s[s.len() - 1] > n);
        lemma_with_number(s.drop_last(), n, i);
        if i > 0 && s[i - 1] == n {
            assert(s.drop_last().push(s.last()) =~= s);
        } else {
            assert(s.drop_last().insert(i, n).push(s.last()) =~= s.insert(i, n));
        }
    } else {
        assert(s.push(n) =~= s.insert(i, n));
    }
}

fn find_groups(nodes: &Vec<String>, found: &Vec<NodeStatus>) -> (r: Result<Vec<u32>, Error>)
    requires
        found@.len() == nodes@.len(),
    ensures
        outcome(r) == groups_of(texts(nodes@), statuses(found@)),
{
    let ghost all = texts(nodes@);
    let ghost told = statuses(found@);
    let mut groups: Vec<u32> = Vec::new();
    let mut i: usize = 0;
    assert(all.take(0).len() == 0);
    while i < nodes.len()
        invariant
            found@.len() == nodes@.len(),
            all == texts(nodes@),
            told == statuses(found@),
            i <= nodes@.len(),
            groups_of(all.take(i as int), told) == Ok::<Seq<u32>, Seq<Seq<char>>>(groups@),
        decreases nodes.len() - i,
    {
        assert(all.take(i + 1).drop_last() =~= all.take(i as int));
        assert(all.take(i + 1).last() == nodes@[i as int]@);
        assert(told[i as int] == found@[i as int]@);
        match &found[i] {
            NodeStatus::Missing(why) => {
                let message = glue("missing device node ", nodes[i].as_str());
                let e = Error::of(why.clone()).context(message.as_str());
                assert(e@ =~= seq![message@, why@]);
                proof {
                    lemma_first_bad_node(all, told, i + 1);
                }
                return Err(e);
            },
            NodeStatus::Other => {
                proof {
                    lemma_first_bad_node(all, told, i + 1);
                }
                return Err(Error::of(glue("not a character device: ", nodes[i].as_str())));
            },
            NodeStatus::Device(gid) => {
                add_number(&mut groups, *gid);
            },
        }
        i += 1;
    }
    assert(all.take(all.len() as int) =~= all);
    Ok(groups)
}

/// The first node that cannot be used decides.
proof fn lemma_first_bad_node(nodes: Seq<Seq<char>>, found: Seq<NodeView>, n: int)
    requires
        0 <= n <= nodes.len(),
        groups_of(nodes.take(n), found) is Err,
    ensures
        groups_of(nodes, found) == groups_of(nodes.take(n), found),
    decreases nodes.len(),
{
    if n == nodes.len() {
        assert(nodes.take(n) =~= nodes);
    } else {
        assert(nodes.drop_last().take(n) =~= nodes.take(n));
        lemma_first_bad_node(nodes.drop_last(), found, n);
    }
}

fn add_mount(out: &mut Arguments, source: &str, destination: &str, end: &str)
    ensures
        final(out)@ == old(out)@.push(mounted(source@, destination@, end@)),
{
    let head = glue3("--mount=type=bind,src=", source, ",dst=");
    out.arg(glue3(head.as_str(), destination, end).as_str());
}

fn add_limits(out: &mut Arguments, r: &Resources)
    ensures
        final(out)@ == old(out)@ + limit_args(*r),
{
    let ghost start = out@;
    if r.enforce {
        if let Some(cpu) = r.cpu_cores {
            out.arg(glue("--cpus=", number(cpu as u64).as_str()).as_str());
        }
        if let Some(memory) = r.memory_mib {
            let amount = number(memory);
            out.arg(glue3("--memory=", amount.as_str(), "m").as_str());
            out.arg(glue3("--memory-swap=", amount.as_str(), "m").as_str());
        }
    }
    assert(out@ =~= start + limit_args(*r));
}

fn add_env(out: &mut Arguments, env: &StringMap<String>)
    ensures
        final(out)@ == old(out)@ + env_args(env@),
{
    let ghost start = out@;
    let mut i: usize = 0;
    assert(start + env_args(env@.take(0)) =~= start);
    while i < env.len()
        invariant
            i <= env@.len(),
            out@ == start + env_args(env@.take(i as int)),
        decreases env@.len() - i,
    {
        let ghost done = out@;
        assert(env@.take(i + 1).drop_last() =~= env@.take(i as int));
        out.arg("--env");
        out.arg(glue3(env.key(i).as_str(), "=", env.value(i).as_str()).as_str());
        assert(out@ =~= start + env_args(env@.take(i + 1)));
        i += 1;
    }
    assert(env@.take(env@.len() as int) =~= env@);
}

fn add_groups(out: &mut Arguments, groups: &Vec<u32>, keep: bool)
    ensures
        final(out)@ == old(out)@ + group_args(groups@, keep),
{
    let ghost start = out@;
    if groups.len() > 0 && keep {
        out.arg("--group-add=keep-groups");
        assert(out@ =~= start + group_args(groups@, keep));
    } else {
        let ghost each = groups@.map_values(|g: u32| "--group-add="@ + decimal(g as nat));
        let mut i: usize = 0;
        assert(start + each.take(0) =~= start);
        while i < groups.len()
            invariant
                each == groups@.map_values(|g: u32| "--group-add="@ + decimal(g as nat)),
                i <= groups@.len(),
                out@ == start + each.take(i as int),
            decreases groups.len() - i,
        {
            let ghost done = out@;
            out.arg(glue("--group-add=", number(groups[i] as u64).as_str()).as_str());
            assert(each.take(i + 1) =~= each.take(i as int).push(each[i as int]));
            assert(out@ =~= start + each.take(i + 1));
            i += 1;
        }
        assert(each.take(each.len() as int) =~= each);
        assert(out@ =~= start + group_args(groups@, keep));
    }
}

/// What a container is made for.
struct Container<'a> {
    network: &'a str,
    resources: &'a Resources,
    env: StringMap<String>,
    device_args: &'a Vec<String>,
    nodes: Vec<String>,
    entrypoint: Vec<String>,
}

impl<'a> View for Container<'a> {
    type V = ContainerView;

    closed spec fn view(&self) -> ContainerView {
        ContainerView {
            network: self.network@,
            resources: *self.resources,
            env: self.env@,
            device_args: texts(self.device_args@),
            nodes: texts(self.nodes@),
            entrypoint: texts(self.entrypoint@),
        }
    }
}

fn create_container(
    c: &Container<'_>,
    workspace: &Workspace,
    runtime: &str,
    name: &str,
    image: &str,
    owner: Owner,
    found: &Vec<NodeStatus>,
) -> (r: Result<Vec<String>, Error>)
    requires
        c@.entrypoint.len() > 0,
        found@.len() == c@.nodes.len(),
    ensures
        match r {
            Ok(args) => container_command(
                c@,
                workspace@,
                runtime@,
                name@,
                image@,
                owner,
                statuses(found@),
            ) == Ok::<Seq<Seq<char>>, Seq<Seq<char>>>(texts(args@)),
            Err(e) => container_command(
                c@,
                workspace@,
                runtime@,
                name@,
                image@,
                owner,
                statuses(found@),
            ) == Err::<Seq<Seq<char>>, Seq<Seq<char>>>(e@),
        },
{
    let groups = match find_groups(&c.nodes, found) {
        Ok(g) => g,
        Err(e) => {
            return Err(e);
        },
    };
    let rootless = same(runtime, "podman") && owner.uid != 0;
    let user = if owner.uid == 0 {
        "65532:65532".to_owned()
    } else {
        glue3(number(owner.uid as u64).as_str(), ":", number(owner.gid as u64).as_str())
    };
    let mut out = Arguments::new();
    out.arg("create");
    out.arg(glue("--name=", name).as_str());
    out.arg("--read-only");
    out.arg("--cap-drop=ALL");
    out.arg("--security-opt=no-new-privileges");
    out.arg(glue("--user=", user.as_str()).as_str());
    out.arg("--workdir=/workspace");
    out.arg("--pids-limit=4096");
    assert(out@ =~= sandbox_args(name@, owner));
    let ghost a = out@;
    if rootless {
        out.arg("--userns=keep-id");
    }
    out.arg(glue("--network=", c.network).as_str());
    let ghost b = a + (if rootless {
        seq!["--userns=keep-id"@]
    } else {
        Seq::empty()
    }) + seq!["--network="@ + c@.network];
    assert(out@ =~= b);
    add_limits(&mut out, c.resources);
    let ghost d = out@;
    add_mount(&mut out, workspace.inputs.as_str(), "/inputs", ",readonly");
    add_mount(&mut out, workspace.outputs.as_str(), "/outputs", "");
    add_mount(&mut out, workspace.work.as_str(), "/workspace", "");
    add_mount(&mut out, workspace.tmp.as_str(), "/tmp", "");
    assert(out@ =~= d + workspace_args(workspace@));
    add_env(&mut out, &c.env);
    out.args(c.device_args);
    add_groups(&mut out, &groups, rootless);
    let ghost e = out@;
    out.arg(glue("--entrypoint=", c.entrypoint[0].as_str()).as_str());
    out.arg(image);
    assert(out@ =~= e + seq!["--entrypoint="@ + c@.entrypoint[0], image@]);
    out.args(&rest_of(&c.entrypoint));
    Ok(out.items)
}

/// The nodes of the devices, one device behind the other.
pub fn device_nodes(launch: &Launch) -> (r: Vec<String>)
    ensures
        texts(r@) == all_nodes(launch@.devices),
{
    let ghost all = launch@.devices;
    let mut out = Arguments::new();
    let mut i: usize = 0;
    assert(all.take(0).len() == 0);
    while i < launch.devices.len()
        invariant
            all == devices_view(launch.devices@),
            i <= launch.devices@.len(),
            out@ == all_nodes(all.take(i as int)),
        decreases launch.devices.len() - i,
    {
        assert(all.take(i + 1).drop_last() =~= all.take(i as int));
        assert(all.take(i + 1).last() == launch.devices@[i as int]@);
        out.args(&launch.devices[i].device_nodes);
        i += 1;
    }
    assert(all.take(all.len() as int) =~= all);
    out.items
}

/// The command that creates the container of a workload. What the file system tells of
/// the nodes in `device_nodes` stands in `found`, in the same order.
pub fn container_args(
    job: &ComputeJob,
    target: &Target,
    launch: &Launch,
    workspace: &Workspace,
    runtime: &str,
    name: &str,
    image: &str,
    owner: Owner,
    found: &Vec<NodeStatus>,
) -> (r: Result<Vec<String>, Error>)
    requires
        target.entrypoint@.len() > 0,
        found@.len() == all_nodes(launch@.devices).len(),
    ensures
        match r {
            Ok(args) => container_command(
                workload_container(*job, *target, launch@, workspace@),
                workspace@,
                runtime@,
                name@,
                image@,
                owner,
                statuses(found@),
            ) == Ok::<Seq<Seq<char>>, Seq<Seq<char>>>(texts(args@)),
            Err(e) => container_command(
                workload_container(*job, *target, launch@, workspace@),
                workspace@,
                runtime@,
                name@,
                image@,
                owner,
                statuses(found@),
            ) == Err::<Seq<Seq<char>>, Seq<Seq<char>>>(e@),
        },
{
    let c = Container {
        network: target.summary.execution.network.as_str(),
        resources: &target.summary.resources,
        env: environment(job, &target.summary.execution.env, &launch.env, workspace, true),
        device_args: &launch.args,
        nodes: device_nodes(launch),
        entrypoint: copy_strings(&target.entrypoint),
    };
    create_container(&c, workspace, runtime, name, image, owner, found)
}

// ---------------------------------------------------------------- names

/// A random identity as it is written: small hexadecimal digits in five groups.
pub open spec fn identity_text(s: Seq<char>) -> bool {
    s.len() == 36 && forall|i: int|
        0 <= i < 36 ==> if i == 8 || i == 13 || i == 18 || i == 23 {
            #[trigger] s[i] == '-'
        } else {
            is_digit(s[i]) || 'a' <= s[i] <= 'f'
        }
}

/// `uuid::Uuid::new_v4` and its `Display`: a new identity in the hyphenated form with
/// small digits. Which one it is depends on chance, so only the form is claimed.
#[verifier::external_body]
fn random_identity() -> (r: String)
    ensures
        identity_text(r@),
{
    uuid::Uuid::new_v4().to_string()
}

/// A new name for a run.
pub fn new_run_id() -> (r: String)
    ensures
        identity_text(r@),
{
    random_identity()
}

/// A new name for the container of a workload.
pub fn workload_name() -> (r: String)
    ensures
        exists|id: Seq<char>| #[trigger] identity_text(id) && r@ == "nix-compute-"@ + id,
{
    let id = random_identity();
    assert(identity_text(id@));
    glue("nix-compute-", id.as_str())
}

/// A new name for the container of a probe.
pub fn probe_name() -> (r: String)
    ensures
        exists|id: Seq<char>| #[trigger] identity_text(id) && r@ == "nix-compute-probe-"@ + id,
{
    let id = random_identity();
    assert(identity_text(id@));
    glue("nix-compute-probe-", id.as_str())
}

/// The directories that the workload of a container has to own: where the superuser
/// starts it, it runs as another user.
pub fn handed_over(workspace: &Workspace, owner: Owner) -> (r: Vec<String>)
    ensures
        texts(r@) == if owner.uid == 0 {
            seq![workspace@.outputs, workspace@.work, workspace@.tmp]
        } else {
            Seq::empty()
        },
{
    let mut out = Arguments::new();
    if owner.uid == 0 {
        out.arg(workspace.outputs.as_str());
        out.arg(workspace.work.as_str());
        out.arg(workspace.tmp.as_str());
    }
    assert(out@ =~= if owner.uid == 0 {
        seq![workspace@.outputs, workspace@.work, workspace@.tmp]
    } else {
        Seq::empty()
    });
    out.items
}

// ----------------------------------------------------- the inner probe

/// The variables that narrow down the devices a process sees.
pub open spec fn without_selection(env: Seq<(Seq<char>, Seq<char>)>) -> Seq<
    (Seq<char>, Seq<char>),
> {
    let a = dropped(env, "CUDA_VISIBLE_DEVICES"@);
    let b = dropped(a, "HIP_VISIBLE_DEVICES"@);
    let c = dropped(b, "ROCR_VISIBLE_DEVICES"@);
    let d = dropped(c, "ASCEND_RT_VISIBLE_DEVICES"@);
    let e = dropped(d, "ONEAPI_DEVICE_SELECTOR"@);
    dropped(e, "ZE_AFFINITY_MASK"@)
}

/// The container that asks which devices the workload will see: the probe of the
/// target, with nothing in its environment that narrows the devices down.
pub open spec fn probe_container(
    job: ComputeJob,
    target: Target,
    launch: LaunchView,
    ws: WorkspaceView,
    probe: Seq<char>,
) -> ContainerView {
    ContainerView {
        network: target.summary.execution.network@,
        resources: target.summary.resources,
        env: environment_of(
            job.parameters@,
            job.reproducibility.seed,
            without_selection(target.summary.execution.env@),
            Seq::empty(),
            ws,
            true,
        ),
        device_args: launch.args,
        nodes: all_nodes(launch.devices),
        entrypoint: seq![probe],
    }
}

/// What has to be done before a container can be started.
pub enum Preparation {
    /// Nothing: the devices are handed out as they are.
    Keep(Launch),
    /// The probe has to be run in a container that this command creates.
    Ask(Vec<String>),
}

/// What has to be done before a container can be started.
pub open spec fn preparation_is(
    job: ComputeJob,
    target: Target,
    launch: LaunchView,
    ws: WorkspaceView,
    runtime: Seq<char>,
    name: Seq<char>,
    image: Seq<char>,
    owner: Owner,
    found: Seq<NodeView>,
    r: Result<Preparation, Error>,
) -> bool {
    if target.summary.accelerator.id@ == "cpu"@ {
        r matches Ok(Preparation::Keep(kept)) && kept@ == launch
    } else {
        match target.probe {
            None => r matches Err(e) && e@ == seq!["missing OCI probe"@],
            Some(probe) => match container_command(
                probe_container(job, target, launch, ws, probe@),
                ws,
                runtime,
                name,
                image,
                owner,
                found,
            ) {
                Ok(args) => r matches Ok(Preparation::Ask(command)) && texts(command@) == args,
                Err(why) => r matches Err(e) && e@ == why,
            },
        }
    }
}

/// What has to be done before a container can be started.
pub fn prepare_oci_launch(
    job: &ComputeJob,
    target: &Target,
    launch: &Launch,
    workspace: &Workspace,
    runtime: &str,
    name: &str,
    image: &str,
    owner: Owner,
    found: &Vec<NodeStatus>,
) -> (r: Result<Preparation, Error>)
    requires
        found@.len() == all_nodes(launch@.devices).len(),
    ensures
        preparation_is(
            *job,
            *target,
            launch@,
            workspace@,
            runtime@,
            name@,
            image@,
            owner,
            statuses(found@),
            r,
        ),
{
    if same(target.summary.accelerator.id.as_str(), "cpu") {
        return Ok(Preparation::Keep(launch.copy()));
    }
    let probe = match &target.probe {
        Some(p) => p.clone(),
        None => {
            return Err(Error::new("missing OCI probe"));
        },
    };
    let mut declared = target.summary.execution.env.copy_texts();
    declared.remove("CUDA_VISIBLE_DEVICES");
    declared.remove("HIP_VISIBLE_DEVICES");
    declared.remove("ROCR_VISIBLE_DEVICES");
    declared.remove("ASCEND_RT_VISIBLE_DEVICES");
    declared.remove("ONEAPI_DEVICE_SELECTOR");
    declared.remove("ZE_AFFINITY_MASK");
    let none: StringMap<String> = StringMap::new();
    let mut entrypoint: Vec<String> = Vec::new();
    entrypoint.push(probe);
    let c = Container {
        network: target.summary.execution.network.as_str(),
        resources: &target.summary.resources,
        env: environment(job, &declared, &none, workspace, true),
        device_args: &launch.args,
        nodes: device_nodes(launch),
        entrypoint,
    };
    assert(c@.entrypoint =~= seq![probe@]);
    match create_container(&c, workspace, runtime, name, image, owner, found) {
        Ok(args) => Ok(Preparation::Ask(args)),
        Err(e) => Err(e),
    }
}

/// The devices as they are numbered inside the container: it must show exactly the
/// devices that were handed out, by their identities.
pub open spec fn remapped(target: Target, launch: LaunchView, inside: InventoryView) -> Result<
    LaunchView,
    Seq<Seq<char>>,
> {
    if sorted_texts(ids(launch.devices)) != sorted_texts(ids(inside.devices)) {
        Err(seq!["container-visible devices differ from the allocation"@])
    } else {
        match matching_of(target.summary.accelerator, inside) {
            Err(e) => Err(e),
            Ok(devices) => match adapter_of(inside.backend) {
                None => Err(seq!["unknown accelerator "@ + inside.backend]),
                Some(a) => match configuration(a, devices, inside) {
                    Err(e) => Err(e),
                    Ok(l) => Ok(
                        LaunchView { args: launch.args, env: l.env, devices: launch.devices },
                    ),
                },
            },
        }
    }
}

fn id_texts(devices: &Vec<Device>) -> (r: Vec<String>)
    ensures
        texts(r@) == ids(devices_view(devices@)),
{
    let mut out: Vec<String> = Vec::new();
    let mut i: usize = 0;
    while i < devices.len()
        invariant
            i <= devices@.len(),
            out@.len() == i,
            forall|k: int| 0 <= k < i ==> (#[trigger] out@[k])@ == devices@[k]@.id,
        decreases devices.len() - i,
    {
        out.push(devices[i].id.clone());
        i += 1;
    }
    assert(texts(out@) =~= ids(devices_view(devices@)));
    out
}

fn same_texts(a: &Vec<String>, b: &Vec<String>) -> (r: bool)
    ensures
        r == (texts(a@) == texts(b@)),
{
    if a.len() != b.len() {
        assert(texts(a@).len() != texts(b@).len());
        return false;
    }
    let mut i: usize = 0;
    while i < a.len()
        invariant
            a@.len() == b@.len(),
            i <= a@.len(),
            forall|k: int| 0 <= k < i ==> (#[trigger] a@[k])@ == b@[k]@,
        decreases a.len() - i,
    {
        if !same(a[i].as_str(), b[i].as_str()) {
            assert(texts(a@)[i as int] != texts(b@)[i as int]);
            return false;
        }
        i += 1;
    }
    assert(texts(a@) =~= texts(b@));
    true
}

/// The launch with the numbers that the devices have inside the container.
pub fn remap_launch(target: &Target, launch: &Launch, inventory: &Inventory) -> (r: Result<
    Launch,
    Error,
>)
    ensures
        outcome(r) == remapped(*target, launch@, inventory@),
{
    let host = sort_texts(&id_texts(&launch.devices));
    let local = sort_texts(&id_texts(&inventory.devices));
    if !same_texts(&host, &local) {
        return Err(Error::new("container-visible devices differ from the allocation"));
    }
    let devices = match matching(&target.summary.accelerator, inventory) {
        Ok(d) => d,
        Err(e) => {
            return Err(e);
        },
    };
    let backend = match adapter(inventory.backend.as_str()) {
        Ok(a) => a,
        Err(e) => {
            return Err(e);
        },
    };
    match backend.configure(devices.as_slice(), inventory) {
        Ok(l) => {
            let mut result = launch.copy();
            result.env = l.env;
            Ok(result)
        },
        Err(e) => Err(e),
    }
}

// --------------------------------------------------------------- images

/// The largest manifest or configuration that is read from an image.
pub const IMAGE_ENTRY_LIMIT: u64 = 4194304;

/// Whether bytes start a compressed archive.
pub fn is_gzip(head: &[u8]) -> (r: bool)
    ensures
        r == (head@.len() >= 2 && head@[0] == 0x1f && head@[1] == 0x8b),
{
    head.len() >= 2 && head[0] == 0x1f && head[1] == 0x8b
}

/// Whether an entry of an archive is the one that is looked for, and may be read.
pub open spec fn entry_choice(entry: Seq<char>, size: nat, name: Seq<char>) -> Result<
    bool,
    Seq<Seq<char>>,
> {
    if parts(entry) != parts(name) {
        Ok(false)
    } else if size > IMAGE_ENTRY_LIMIT {
        Err(seq!["oversized image manifest/config"@])
    } else {
        Ok(true)
    }
}

/// Whether an entry of an archive is the one that is looked for, and may be read.
pub fn choose_entry(entry: &str, size: u64, name: &str) -> (r: Result<bool, Error>)
    ensures
        match r {
            Ok(b) => entry_choice(entry@, size as nat, name@) == Ok::<bool, Seq<Seq<char>>>(b),
            Err(e) => entry_choice(entry@, size as nat, name@) == Err::<bool, Seq<Seq<char>>>(e@),
        },
{
    if !same_path(entry, name) {
        return Ok(false);
    }
    if size > IMAGE_ENTRY_LIMIT {
        return Err(Error::new("oversized image manifest/config"));
    }
    Ok(true)
}

/// What is said of an archive without an entry.
pub fn missing_entry(name: &str) -> (r: Error)
    ensures
        r@ == seq!["image archive lacks "@ + name@],
{
    Error::of(glue("image archive lacks ", name))
}

/// Where the configuration of the one image in an archive stands.
pub open spec fn config_entry(manifest: JsonView) -> Result<Seq<char>, Seq<Seq<char>>> {
    match manifest {
        JsonView::Array(images) => if images.len() != 1 {
            Err(seq!["expected exactly one image in archive"@])
        } else {
            match text_in(member_of(images[0], "Config"@)) {
                Some(path) => Ok(path),
                None => Err(seq!["image config missing"@]),
            }
        },
        _ => Err(seq!["invalid Docker archive manifest"@]),
    }
}

/// Where the configuration of the one image in an archive stands, by its manifest.
pub fn image_config(manifest: &Json) -> (r: Result<String, Error>)
    ensures
        outcome(r) == config_entry(manifest@),
{
    match manifest {
        Json::Array(images) => {
            if images.len() != 1 {
                return Err(Error::new("expected exactly one image in archive"));
            }
            assert(manifest@->Array_0[0] == images@[0]@);
            match images[0].get_text("Config") {
                Some(path) => Ok(path),
                None => Err(Error::new("image config missing")),
            }
        },
        _ => Err(Error::new("invalid Docker archive manifest")),
    }
}

/// Where the configuration of the one image in an archive stands, by its manifest as the
/// archive holds it.
pub fn read_image_config(manifest: &[u8]) -> (r: Result<String, Error>)
    ensures
        outcome(r) == match document(manifest@) {
            Ok(found) => config_entry(found),
            Err(why) => Err(why),
        },
{
    match read(manifest) {
        Ok(found) => image_config(&found),
        Err(e) => Err(e),
    }
}

/// An image is named by the digest of its configuration.
pub open spec fn image_name_of(config: Seq<u8>) -> Seq<char> {
    "sha256:"@ + fingerprint(config)
}

/// The name of an image, by its configuration.
pub fn image_id(config: &[u8]) -> (r: String)
    ensures
        r@ == image_name_of(config@),
{
    glue("sha256:", sha256_bytes(config).as_str())
}

/// An image's name as every runtime would write it.
pub open spec fn normalized_image(value: Seq<char>) -> Result<Seq<char>, Seq<Seq<char>>> {
    let bare = if starts(value, "sha256:"@) {
        without(value, "sha256:"@)
    } else {
        value
    };
    if digest(bare) {
        Ok("sha256:"@ + lowered(bare))
    } else {
        Err(seq!["runtime returned an invalid image ID"@])
    }
}

/// An image's name as every runtime would write it.
pub fn normalize_image_id(value: &str) -> (r: Result<String, Error>)
    ensures
        outcome(r) == normalized_image(value@),
{
    let bare = match strip_prefix(value, "sha256:") {
        Some(rest) => rest,
        None => value.to_owned(),
    };
    if !digest_valid(bare.as_str()) {
        return Err(Error::new("runtime returned an invalid image ID"));
    }
    Ok(glue("sha256:", to_lower(bare.as_str()).as_str()))
}

/// Whether the runtime holds the image under the name that it should have.
pub open spec fn loaded_check(inspected: Seq<char>, expected: Seq<char>) -> Result<
    Seq<char>,
    Seq<Seq<char>>,
> {
    match normalized_image(trimmed(inspected)) {
        Err(e) => Err(e),
        Ok(name) => if name == expected {
            Ok(name)
        } else {
            Err(seq!["loaded image does not match archive config digest"@])
        },
    }
}

/// The name of the image that a runtime has loaded: what the runtime tells must be the
/// digest of the configuration.
pub fn load_image(inspected: &str, expected: &str) -> (r: Result<String, Error>)
    ensures
        outcome(r) == loaded_check(inspected@, expected@),
{
    match normalize_image_id(trim(inspected).as_str()) {
        Err(e) => Err(e),
        Ok(name) => if same(name.as_str(), expected) {
            Ok(name)
        } else {
            Err(Error::new("loaded image does not match archive config digest"))
        },
    }
}

// -------------------------------------------------------------- the end

/// A container that could not be removed.
#[derive(Debug)]
pub struct CleanupFailure {
    pub runtime: String,
    pub name: String,
    pub cause: String,
}

/// A container that could not be removed, in words.
pub open spec fn left_behind(runtime: Seq<char>, name: Seq<char>, cause: Seq<char>) -> Seq<char> {
    "unable to remove "@ + runtime + " container "@ + name + ": "@ + cause
}

impl CleanupFailure {
    /// The failure in words.
    pub fn message(&self) -> (r: String)
        ensures
            r@ == left_behind(self.runtime@, self.name@, self.cause@),
    {
        let mut out = glue3("unable to remove ", self.runtime.as_str(), " container ");
        out.append(self.name.as_str());
        out.append(": ");
        out.append(self.cause.as_str());
        out
    }
}

/// Why a run has failed, and whether the node is out of service from then on.
#[derive(Debug)]
pub struct Failure {
    pub error: Error,
    pub quarantines: bool,
}

pub struct FailureView {
    pub error: Seq<Seq<char>>,
    pub quarantines: bool,
}

impl View for Failure {
    type V = FailureView;

    open spec fn view(&self) -> FailureView {
        FailureView { error: self.error@, quarantines: self.quarantines }
    }
}

impl Failure {
    /// A failure that leaves nothing behind.
    pub fn plain(error: Error) -> (r: Failure)
        ensures
            r@ == (FailureView { error: error@, quarantines: false }),
    {
        Failure { error, quarantines: false }
    }
}

/// A result, its failure by its view.
pub open spec fn ending<T: View>(r: Result<T, Failure>) -> Result<T::V, FailureView> {
    match r {
        Ok(t) => Ok(t@),
        Err(f) => Err(f@),
    }
}

/// The words for a container that could not be removed, where there is one.
pub open spec fn removal_view(left: Option<CleanupFailure>) -> Option<Seq<char>> {
    match left {
        Some(c) => Some(left_behind(c.runtime@, c.name@, c.cause@)),
        None => None,
    }
}

/// What comes of a workload in a container: a container that stays behind goes before
/// everything that the workload did.
pub open spec fn workload_end(
    ran: Result<i32, Seq<Seq<char>>>,
    left: Option<Seq<char>>,
) -> Result<i32, FailureView> {
    match left {
        Some(why) => Err(
            FailureView {
                error: seq![
                    "failed to remove workload container; inspect the runtime before releasing this node"@,
                    why,
                ],
                quarantines: true,
            },
        ),
        None => match ran {
            Ok(code) => Ok(code),
            Err(error) => Err(FailureView { error, quarantines: false }),
        },
    }
}

/// What comes of a workload that ran in a container, by what it came to and whether its
/// container could be removed.
pub fn run_container(ran: Result<i32, Error>, left: Option<CleanupFailure>) -> (r: Result<
    i32,
    Failure,
>)
    ensures
        ending(r) == workload_end(outcome(ran), removal_view(left)),
{
    match left {
        Some(c) => {
            let message = c.message();
            let error = Error::of(message).context(
                "failed to remove workload container; inspect the runtime before releasing this node",
            );
            assert(error@ =~= seq![
                "failed to remove workload container; inspect the runtime before releasing this node"@,
                message@,
            ]);
            Err(Failure { error, quarantines: true })
        },
        None => match ran {
            Ok(code) => Ok(code),
            Err(e) => Err(Failure::plain(e)),
        },
    }
}

/// What comes of a probe in a container: a container that stays behind goes before
/// everything that the probe told.
pub open spec fn probe_end(
    told: Result<Seq<u8>, Seq<Seq<char>>>,
    left: Option<Seq<char>>,
) -> Result<Seq<u8>, FailureView> {
    match left {
        Some(why) => Err(FailureView { error: seq![why], quarantines: true }),
        None => match told {
            Ok(bytes) => Ok(bytes),
            Err(error) => Err(FailureView { error, quarantines: false }),
        },
    }
}

/// What comes of a probe that ran in a container, by what it told and whether its container
/// could be removed.
pub fn end_probe(told: Result<Vec<u8>, Error>, left: Option<CleanupFailure>) -> (r: Result<
    Vec<u8>,
    Failure,
>)
    ensures
        ending(r) == probe_end(outcome(told), removal_view(left)),
{
    match left {
        Some(c) => Err(Failure { error: Error::of(c.message()), quarantines: true }),
        None => match told {
            Ok(bytes) => Ok(bytes),
            Err(e) => Err(Failure::plain(e)),
        },
    }
}

/// The command that starts a container and shows what it writes.
pub fn start_command(name: &str) -> (r: Vec<String>)
    ensures
        texts(r@) == seq!["start"@, "--attach"@, name@],
{
    let mut out = Arguments::new();
    out.arg("start");
    out.arg("--attach");
    out.arg(name);
    assert(out@ =~= seq!["start"@, "--attach"@, name@]);
    out.items
}

/// The command that removes a container, whether it runs or not.
pub fn remove_command(name: &str) -> (r: Vec<String>)
    ensures
        texts(r@) == seq!["rm"@, "--force"@, name@],
{
    let mut out = Arguments::new();
    out.arg("rm");
    out.arg("--force");
    out.arg(name);
    assert(out@ =~= seq!["rm"@, "--force"@, name@]);
    out.items
}

/// The command that takes in the images of an archive.
pub fn load_command(archive: &str) -> (r: Vec<String>)
    ensures
        texts(r@) == seq!["load"@, "-i"@, archive@],
{
    let mut out = Arguments::new();
    out.arg("load");
    out.arg("-i");
    out.arg(archive);
    assert(out@ =~= seq!["load"@, "-i"@, archive@]);
    out.items
}

/// The command that tells the name of an image.
pub fn inspect_command(image: &str) -> (r: Vec<String>)
    ensures
        texts(r@) == seq!["image"@, "inspect"@, "--format"@, "{{.Id}}"@, image@],
{
    let mut out = Arguments::new();
    out.arg("image");
    out.arg("inspect");
    out.arg("--format");
    out.arg("{{.Id}}");
    out.arg(image);
    assert(out@ =~= seq!["image"@, "inspect"@, "--format"@, "{{.Id}}"@, image@]);
    out.items
}

/// Whether an output is collected: one that need not be there only where it is.
pub fn is_taken(required: bool, there: bool) -> (r: bool)
    ensures
        r == (required || there),
{
    required || there
}

/// Whether an output may be collected: what it names must be a regular file under the
/// directory of the outputs once every link is followed.
pub open spec fn output_place(
    relative_name: Seq<char>,
    resolved: Seq<char>,
    root: Seq<char>,
    regular: bool,
) -> Result<Seq<char>, Seq<Seq<char>>> {
    match relative(relative_name) {
        Err(e) => Err(e),
        Ok(_) => if within(parts(resolved), parts(root)) && regular {
            Ok(resolved)
        } else {
            Err(seq!["output must be a regular file inside the output directory"@])
        },
    }
}

/// Where an output stands. `resolved` and `root` are the output and the directory of
/// the outputs with every link followed.
pub fn output_path(relative_name: &str, resolved: &str, root: &str, regular: bool) -> (r: Result<
    String,
    Error,
>)
    ensures
        outcome(r) == output_place(relative_name@, resolved@, root@, regular),
{
    match relative_path(relative_name) {
        Ok(_) => {},
        Err(e) => {
            return Err(e);
        },
    }
    if is_within(&components(resolved), &components(root)) && regular {
        Ok(resolved.to_owned())
    } else {
        Err(Error::new("output must be a regular file inside the output directory"))
    }
}

// ----------------------------------------------------------------- laws

/// The names that a run sets itself.
pub open spec fn reserved_names() -> Set<Seq<char>> {
    set![
        "NIX_COMPUTE_INPUTS"@,
        "NIX_COMPUTE_OUTPUTS"@,
        "NIX_COMPUTE_PARAMETERS"@,
        "NIX_COMPUTE_SEED"@,
        "HOME"@,
        "TMPDIR"@,
    ]
}

/// No two of them are of one length.
#[verifier::rlimit(50)]
#[verifier::spinoff_prover]
proof fn lemma_reserved_names_differ()
    ensures
        "NIX_COMPUTE_INPUTS"@.len() == 18,
        "NIX_COMPUTE_OUTPUTS"@.len() == 19,
        "NIX_COMPUTE_PARAMETERS"@.len() == 22,
        "NIX_COMPUTE_SEED"@.len() == 16,
        "HOME"@.len() == 4,
        "TMPDIR"@.len() == 6,
{
    reveal_strlit("NIX_COMPUTE_INPUTS");
    reveal_strlit("NIX_COMPUTE_OUTPUTS");
    reveal_strlit("NIX_COMPUTE_PARAMETERS");
    reveal_strlit("NIX_COMPUTE_SEED");
    reveal_strlit("HOME");
    reveal_strlit("TMPDIR");
}

/// The environment of a workload holds what the run sets, whatever the target and the
/// devices set; under every other name what goes with the devices comes before what
/// the target sets.
#[verifier::rlimit(50)]
#[verifier::spinoff_prover]
pub proof fn law_environment_precedence(
    parameters: Seq<(Seq<char>, JsonView)>,
    seed: Option<u64>,
    declared: Seq<(Seq<char>, Seq<char>)>,
    devices: Seq<(Seq<char>, Seq<char>)>,
    ws: WorkspaceView,
    oci: bool,
    name: Seq<char>,
)
    ensures
        ({
            let env = environment_of(parameters, seed, declared, devices, ws, oci);
            let free = if lookup(devices, name) is Some {
                lookup(devices, name)
            } else {
                lookup(declared, name)
            };
            &&& lookup(env, "NIX_COMPUTE_INPUTS"@) == Some(seen_as(oci, "/inputs"@, ws.inputs))
            &&& lookup(env, "NIX_COMPUTE_OUTPUTS"@) == Some(seen_as(oci, "/outputs"@, ws.outputs))
            &&& lookup(env, "NIX_COMPUTE_PARAMETERS"@) == Some(
                canonical(JsonView::Object(parameters)),
            )
            &&& seed matches Some(n) ==> lookup(env, "NIX_COMPUTE_SEED"@) == Some(
                decimal(n as nat),
            )
            &&& lookup(env, "HOME"@) == Some(seen_as(oci, "/tmp"@, ws.tmp))
            &&& lookup(env, "TMPDIR"@) == Some(seen_as(oci, "/tmp"@, ws.tmp))
            &&& !reserved_names().contains(name) ==> lookup(env, name) == free
        }),
{
    lemma_reserved_names_differ();
    let a = put_all(declared, devices);
    let b = put(a, "NIX_COMPUTE_INPUTS"@, seen_as(oci, "/inputs"@, ws.inputs));
    let c = put(b, "NIX_COMPUTE_OUTPUTS"@, seen_as(oci, "/outputs"@, ws.outputs));
    let d = put(c, "NIX_COMPUTE_PARAMETERS"@, canonical(JsonView::Object(parameters)));
    let e = match seed {
        Some(n) => put(d, "NIX_COMPUTE_SEED"@, decimal(n as nat)),
        None => d,
    };
    let f = put(e, "HOME"@, seen_as(oci, "/tmp"@, ws.tmp));
    lemma_put_all_lookup(declared, devices, name);
    assert forall|k: Seq<char>| true implies #[trigger] lookup(
        environment_of(parameters, seed, declared, devices, ws, oci),
        k,
    ) == if k == "TMPDIR"@ || k == "HOME"@ {
        Some(seen_as(oci, "/tmp"@, ws.tmp))
    } else if k == "NIX_COMPUTE_SEED"@ && seed is Some {
        Some(decimal(seed->0 as nat))
    } else if k == "NIX_COMPUTE_PARAMETERS"@ {
        Some(canonical(JsonView::Object(parameters)))
    } else if k == "NIX_COMPUTE_OUTPUTS"@ {
        Some(seen_as(oci, "/outputs"@, ws.outputs))
    } else if k == "NIX_COMPUTE_INPUTS"@ {
        Some(seen_as(oci, "/inputs"@, ws.inputs))
    } else {
        lookup(a, k)
    } by {
        lemma_put_lookup(a, "NIX_COMPUTE_INPUTS"@, seen_as(oci, "/inputs"@, ws.inputs), k);
        lemma_put_lookup(b, "NIX_COMPUTE_OUTPUTS"@, seen_as(oci, "/outputs"@, ws.outputs), k);
        lemma_put_lookup(
            c,
            "NIX_COMPUTE_PARAMETERS"@,
            canonical(JsonView::Object(parameters)),
            k,
        );
        if let Some(n) = seed {
            lemma_put_lookup(d, "NIX_COMPUTE_SEED"@, decimal(n as nat), k);
        }
        lemma_put_lookup(e, "HOME"@, seen_as(oci, "/tmp"@, ws.tmp), k);
        lemma_put_lookup(f, "TMPDIR"@, seen_as(oci, "/tmp"@, ws.tmp), k);
    }
}

/// Every container has a root that cannot be written, no capabilities and no new ones,
/// and a user that is not the superuser; it ends with its entrypoint, the image and the
/// arguments.
pub proof fn law_containers_are_confined(
    c: ContainerView,
    ws: WorkspaceView,
    runtime: Seq<char>,
    name: Seq<char>,
    image: Seq<char>,
    owner: Owner,
    found: Seq<NodeView>,
)
    requires
        container_command(c, ws, runtime, name, image, owner, found) is Ok,
        c.entrypoint.len() > 0,
    ensures
        ({
            let args = container_command(c, ws, runtime, name, image, owner, found)->Ok_0;
            let end = seq!["--entrypoint="@ + c.entrypoint[0], image] + c.entrypoint.skip(1);
            &&& args.contains("--read-only"@)
            &&& args.contains("--cap-drop=ALL"@)
            &&& args.contains("--security-opt=no-new-privileges"@)
            &&& args.contains("--network="@ + c.network)
            &&& args.contains(
                "--user="@ + if owner.uid == 0 {
                    "65532:65532"@
                } else {
                    decimal(owner.uid as nat) + ":"@ + decimal(owner.gid as nat)
                },
            )
            &&& args.len() >= end.len()
            &&& args.skip(args.len() - end.len()) == end
        }),
{
    let args = container_command(c, ws, runtime, name, image, owner, found)->Ok_0;
    let end = seq!["--entrypoint="@ + c.entrypoint[0], image] + c.entrypoint.skip(1);
    assert(args[2] == "--read-only"@);
    assert(args[3] == "--cap-drop=ALL"@);
    assert(args[4] == "--security-opt=no-new-privileges"@);
    assert(args[5] == "--user="@ + container_user(owner));
    if runtime == "podman"@ && owner.uid != 0 {
        assert(args[9] == "--network="@ + c.network);
    } else {
        assert(args[8] == "--network="@ + c.network);
    }
    assert(args.skip(args.len() - end.len()) =~= end);
}

/// A digest names the same image with and without the name of its algorithm.
pub proof fn law_image_names_agree(value: Seq<char>)
    requires
        digest(value),
    ensures
        normalized_image(value) == Ok::<Seq<char>, Seq<Seq<char>>>("sha256:"@ + lowered(value)),
        normalized_image("sha256:"@ + value) == normalized_image(value),
{
    reveal_strlit("sha256:");
    assert(starts("sha256:"@ + value, "sha256:"@)) by {
        assert(("sha256:"@ + value).subrange(0, 7) =~= "sha256:"@);
    }
    assert(without("sha256:"@ + value, "sha256:"@) =~= value);
    if starts(value, "sha256:"@) {
        assert(value[0] == "sha256:"@[0]);
        assert(is_hex(value[0]));
    }
}

/// Inside a container the allocation stays what it was: the same devices and the same
/// arguments, and the container shows these devices and no others.
pub proof fn law_remapping_keeps_the_allocation(
    target: Target,
    launch: LaunchView,
    inside: InventoryView,
)
    requires
        remapped(target, launch, inside) is Ok,
    ensures
        remapped(target, launch, inside)->Ok_0.devices == launch.devices,
        remapped(target, launch, inside)->Ok_0.args == launch.args,
        ids(launch.devices).to_multiset() == ids(inside.devices).to_multiset(),
{
    law_sorting_forgets_the_order(ids(launch.devices), ids(inside.devices));
}

/// A container that cannot be removed fails the run and takes the node out of service,
/// whatever the workload or the probe did; nothing else takes it out of service.
pub proof fn law_cleanup_failures_quarantine(
    ran: Result<i32, Seq<Seq<char>>>,
    told: Result<Seq<u8>, Seq<Seq<char>>>,
    left: Option<Seq<char>>,
)
    ensures
        left is Some ==> workload_end(ran, left) is Err && probe_end(told, left) is Err,
        workload_end(ran, left) matches Err(f) ==> (f.quarantines <==> left is Some),
        probe_end(told, left) matches Err(f) ==> (f.quarantines <==> left is Some),
{
}

/// A run has its directories side by side under one root, which must be fit to be written in an
/// argument.
#[verifier::rlimit(50)]
#[verifier::spinoff_prover]
pub proof fn law_workspaces_lie_under_one_root(root: Seq<char>)
    requires
        root.len() > 0,
        root.last() != '/',
    ensures
        workspace_of(root) is Ok <==> !root.contains(',') && !root.contains(':'),
        workspace_of(root) matches Ok(ws) ==> ws.root == root && ws.inputs == root + "/inputs"@
            && ws.outputs == root + "/outputs"@ && ws.work == root + "/work"@ && ws.tmp == root
            + "/tmp"@,
{
    reveal_strlit("inputs");
    reveal_strlit("outputs");
    reveal_strlit("work");
    reveal_strlit("tmp");
    reveal_strlit("/inputs");
    reveal_strlit("/outputs");
    reveal_strlit("/work");
    reveal_strlit("/tmp");
    assert(below(root, "inputs"@) =~= root + "/inputs"@);
    assert(below(root, "outputs"@) =~= root + "/outputs"@);
    assert(below(root, "work"@) =~= root + "/work"@);
    assert(below(root, "tmp"@) =~= root + "/tmp"@);
}

/// On the host a workload is told the directories of the run, in a container the names under
/// which they are mounted there.
#[verifier::rlimit(50)]
#[verifier::spinoff_prover]
pub proof fn law_workloads_are_told_their_directories(
    parameters: Seq<(Seq<char>, JsonView)>,
    seed: Option<u64>,
    declared: Seq<(Seq<char>, Seq<char>)>,
    devices: Seq<(Seq<char>, Seq<char>)>,
    ws: WorkspaceView,
)
    ensures
        ({
            let host = environment_of(parameters, seed, declared, devices, ws, false);
            let inside = environment_of(parameters, seed, declared, devices, ws, true);
            &&& lookup(host, "NIX_COMPUTE_INPUTS"@) == Some(ws.inputs)
            &&& lookup(host, "NIX_COMPUTE_OUTPUTS"@) == Some(ws.outputs)
            &&& lookup(host, "HOME"@) == Some(ws.tmp)
            &&& lookup(host, "TMPDIR"@) == Some(ws.tmp)
            &&& lookup(inside, "NIX_COMPUTE_INPUTS"@) == Some("/inputs"@)
            &&& lookup(inside, "NIX_COMPUTE_OUTPUTS"@) == Some("/outputs"@)
            &&& lookup(inside, "HOME"@) == Some("/tmp"@)
            &&& lookup(inside, "TMPDIR"@) == Some("/tmp"@)
            &&& seed is None ==> lookup(host, "NIX_COMPUTE_SEED"@) == (if lookup(
                devices,
                "NIX_COMPUTE_SEED"@,
            ) is Some {
                lookup(devices, "NIX_COMPUTE_SEED"@)
            } else {
                lookup(declared, "NIX_COMPUTE_SEED"@)
            })
            &&& seed matches Some(n) ==> lookup(host, "NIX_COMPUTE_SEED"@) == Some(
                decimal(n as nat),
            ) && lookup(inside, "NIX_COMPUTE_SEED"@) == Some(decimal(n as nat))
        }),
{
    let name = "NIX_COMPUTE_SEED"@;
    law_environment_precedence(parameters, seed, declared, devices, ws, false, name);
    law_environment_precedence(parameters, seed, declared, devices, ws, true, name);
    if seed is None {
        lemma_reserved_names_differ();
        let a = put_all(declared, devices);
        let b = put(a, "NIX_COMPUTE_INPUTS"@, ws.inputs);
        let c = put(b, "NIX_COMPUTE_OUTPUTS"@, ws.outputs);
        let d = put(c, "NIX_COMPUTE_PARAMETERS"@, canonical(JsonView::Object(parameters)));
        let f = put(d, "HOME"@, ws.tmp);
        lemma_put_all_lookup(declared, devices, name);
        lemma_put_lookup(a, "NIX_COMPUTE_INPUTS"@, ws.inputs, name);
        lemma_put_lookup(b, "NIX_COMPUTE_OUTPUTS"@, ws.outputs, name);
        lemma_put_lookup(
            c,
            "NIX_COMPUTE_PARAMETERS"@,
            canonical(JsonView::Object(parameters)),
            name,
        );
        lemma_put_lookup(d, "HOME"@, ws.tmp, name);
        lemma_put_lookup(f, "TMPDIR"@, ws.tmp, name);
    }
}

/// A workload on the host is started with its own program and arguments in the directory for its
/// work, with no search path but one that is set for it, and with its own limit of time.
pub proof fn law_native_workloads_are_started_as_declared(
    job: &ComputeJob,
    target: &Target,
    launch: &Launch,
    workspace: &Workspace,
    r: NativeCommand,
    name: Seq<char>,
)
    requires
        target.entrypoint@.len() > 0,
        call_ensures(run_native, (job, target, launch, workspace), r),
    ensures
        ({
            let env = environment_of(
                job.parameters@,
                job.reproducibility.seed,
                target.summary.execution.env@,
                launch.env@,
                workspace@,
                false,
            );
            &&& r.args@.len() == target.entrypoint@.len() - 1
            &&& r.program@ == target.entrypoint@[0]@
            &&& forall|i: int|
                0 <= i < r.args@.len() ==> (#[trigger] r.args@[i])@ == target.entrypoint@[i + 1]@
            &&& r.directory@ == workspace.work@
            &&& r.timeout_seconds == target.summary.execution.timeout_seconds
            &&& lookup(r.env@, name) == if lookup(env, name) is None && name == "PATH"@ {
                Some(""@)
            } else {
                lookup(env, name)
            }
        }),
{
    let env = environment_of(
        job.parameters@,
        job.reproducibility.seed,
        target.summary.execution.env@,
        launch.env@,
        workspace@,
        false,
    );
    let path = put(Seq::<(Seq<char>, Seq<char>)>::empty(), "PATH"@, ""@);
    lemma_put_all_lookup(path, env, name);
    lemma_put_lookup(Seq::<(Seq<char>, Seq<char>)>::empty(), "PATH"@, ""@, name);
    assert(texts(r.args@).len() == texts(target.entrypoint@).skip(1).len());
    assert forall|i: int| 0 <= i < r.args@.len() implies (#[trigger] r.args@[i])@
        == target.entrypoint@[i + 1]@ by {
        assert(texts(r.args@)[i] == texts(target.entrypoint@).skip(1)[i]);
    }
}

/// How many limits a container gets.
pub open spec fn limit_count(r: Resources) -> nat {
    if !r.enforce {
        0
    } else {
        (if r.cpu_cores is Some {
            1nat
        } else {
            0
        }) + (if r.memory_mib is Some {
            2nat
        } else {
            0
        })
    }
}

proof fn lemma_env_args(env: Seq<(Seq<char>, Seq<char>)>, i: int)
    requires
        0 <= i < env.len(),
    ensures
        env_args(env).len() == 2 * env.len(),
        env_args(env)[2 * i] == "--env"@,
        env_args(env)[2 * i + 1] == env[i].0 + "="@ + env[i].1,
    decreases env.len(),
{
    let t = env.drop_last();
    if t.len() > 0 {
        lemma_env_args(t, 0);
    } else {
        assert(env_args(t) =~= Seq::empty());
    }
    assert(env_args(t).len() == 2 * t.len());
    if i < t.len() {
        lemma_env_args(t, i);
        assert(env_args(env)[2 * i] == env_args(t)[2 * i]);
        assert(env_args(env)[2 * i + 1] == env_args(t)[2 * i + 1]);
    } else {
        let last = seq!["--env"@, env.last().0 + "="@ + env.last().1];
        assert(env_args(env) == env_args(t) + last);
        assert(env_args(env)[2 * i] == last[0]);
        assert(env_args(env)[2 * i + 1] == last[1]);
    }
}

proof fn lemma_env_args_len(env: Seq<(Seq<char>, Seq<char>)>)
    ensures
        env_args(env).len() == 2 * env.len(),
{
    if env.len() > 0 {
        lemma_env_args(env, 0);
    }
}

/// Where the mounts stand among the arguments that create a container: behind what confines it,
/// its network and its limits.
pub open spec fn mounts_at(c: ContainerView, runtime: Seq<char>, owner: Owner) -> nat {
    (if runtime == "podman"@ && owner.uid != 0 {
        10nat
    } else {
        9nat
    }) + limit_count(c.resources)
}

/// What stands before the mounts, the mounts, and what follows them.
#[verifier::rlimit(50)]
#[verifier::spinoff_prover]
proof fn lemma_container_layout(
    c: ContainerView,
    ws: WorkspaceView,
    runtime: Seq<char>,
    name: Seq<char>,
    image: Seq<char>,
    owner: Owner,
    found: Seq<NodeView>,
) -> (r: (Seq<Seq<char>>, Seq<Seq<char>>))
    requires
        container_command(c, ws, runtime, name, image, owner, found) is Ok,
        c.entrypoint.len() > 0,
    ensures
        r.0 == sandbox_args(name, owner) + (if runtime == "podman"@ && owner.uid != 0 {
            seq!["--userns=keep-id"@]
        } else {
            Seq::empty()
        }) + seq!["--network="@ + c.network] + limit_args(c.resources),
        r.0.len() == mounts_at(c, runtime, owner),
        r.1 == group_args(
            groups_of(c.nodes, found)->Ok_0,
            runtime == "podman"@ && owner.uid != 0,
        ) + seq!["--entrypoint="@ + c.entrypoint[0], image] + c.entrypoint.skip(1),
        container_command(c, ws, runtime, name, image, owner, found)->Ok_0 == r.0 + workspace_args(
            ws,
        ) + env_args(c.env) + c.device_args + r.1,
{
    let rootless = runtime == "podman"@ && owner.uid != 0;
    let before = sandbox_args(name, owner) + (if rootless {
        seq!["--userns=keep-id"@]
    } else {
        Seq::empty()
    }) + seq!["--network="@ + c.network] + limit_args(c.resources);
    let after = group_args(groups_of(c.nodes, found)->Ok_0, rootless) + seq![
        "--entrypoint="@ + c.entrypoint[0],
        image,
    ] + c.entrypoint.skip(1);
    assert(container_command(c, ws, runtime, name, image, owner, found)->Ok_0 =~= before
        + workspace_args(ws) + env_args(c.env) + c.device_args + after);
    (before, after)
}

/// A container is created under its name, confined, with the limits that are to be enforced and
/// no others.
#[verifier::rlimit(50)]
#[verifier::spinoff_prover]
pub proof fn law_containers_get_their_limits(
    c: ContainerView,
    ws: WorkspaceView,
    runtime: Seq<char>,
    name: Seq<char>,
    image: Seq<char>,
    owner: Owner,
    found: Seq<NodeView>,
)
    requires
        container_command(c, ws, runtime, name, image, owner, found) is Ok,
        c.entrypoint.len() > 0,
    ensures
        ({
            let args = container_command(c, ws, runtime, name, image, owner, found)->Ok_0;
            let rootless = runtime == "podman"@ && owner.uid != 0;
            let mounts = mounts_at(c, runtime, owner) as int;
            let limits: int = if rootless {
                10
            } else {
                9
            };
            &&& args[0] == "create"@
            &&& args[1] == "--name="@ + name
            &&& args[2] == "--read-only"@
            &&& args[3] == "--cap-drop=ALL"@
            &&& args[4] == "--security-opt=no-new-privileges"@
            &&& args[6] == "--workdir=/workspace"@
            &&& args[7] == "--pids-limit=4096"@
            &&& rootless ==> args[8] == "--userns=keep-id"@
            &&& args[limits - 1] == "--network="@ + c.network
            &&& !c.resources.enforce ==> mounts == limits
            &&& c.resources.enforce && c.resources.cpu_cores is Some ==> args[limits] == "--cpus="@
                + decimal(c.resources.cpu_cores->0 as nat)
            &&& c.resources.enforce && c.resources.memory_mib is Some ==> args[mounts - 2]
                == "--memory="@ + decimal(c.resources.memory_mib->0 as nat) + "m"@ && args[mounts
                - 1] == "--memory-swap="@ + decimal(c.resources.memory_mib->0 as nat) + "m"@
        }),
{
    let args = container_command(c, ws, runtime, name, image, owner, found)->Ok_0;
    let (before, after) = lemma_container_layout(c, ws, runtime, name, image, owner, found);
    let rest = workspace_args(ws) + env_args(c.env) + c.device_args + after;
    assert(args =~= before + rest);
    let limits: int = if runtime == "podman"@ && owner.uid != 0 {
        10
    } else {
        9
    };
    let bounded = limit_args(c.resources);
    assert forall|i: int| 0 <= i < before.len() implies args[i] == #[trigger] before[i] by {}
    assert(before[limits - 1] == "--network="@ + c.network);
    assert forall|i: int| limits <= i < before.len() implies #[trigger] before[i] == bounded[i
        - limits] by {}
    let sandbox = sandbox_args(name, owner);
    assert forall|i: int| 0 <= i < 8 implies #[trigger] before[i] == sandbox[i] by {}
}

/// A container reads its inputs and writes its outputs, its working directory and its temporary
/// directory, under names that are always the same.
#[verifier::rlimit(50)]
#[verifier::spinoff_prover]
pub proof fn law_containers_write_their_outputs(
    c: ContainerView,
    ws: WorkspaceView,
    runtime: Seq<char>,
    name: Seq<char>,
    image: Seq<char>,
    owner: Owner,
    found: Seq<NodeView>,
)
    requires
        container_command(c, ws, runtime, name, image, owner, found) is Ok,
        c.entrypoint.len() > 0,
    ensures
        ({
            let args = container_command(c, ws, runtime, name, image, owner, found)->Ok_0;
            let mounts = mounts_at(c, runtime, owner) as int;
            let head = "--mount=type=bind,src="@;
            &&& args.len() >= mounts + 4
            &&& args[mounts] == head + ws.inputs + ",dst=/inputs,readonly"@
            &&& args[mounts + 1] == head + ws.outputs + ",dst=/outputs"@
            &&& args[mounts + 2] == head + ws.work + ",dst=/workspace"@
            &&& args[mounts + 3] == head + ws.tmp + ",dst=/tmp"@
        }),
{
    let args = container_command(c, ws, runtime, name, image, owner, found)->Ok_0;
    let mounts = mounts_at(c, runtime, owner) as int;
    let (before, after) = lemma_container_layout(c, ws, runtime, name, image, owner, found);
    let w = workspace_args(ws);
    let rest = env_args(c.env) + c.device_args + after;
    assert(args =~= before + (w + rest));
    assert forall|i: int| 0 <= i < 4 implies args[mounts + i] == #[trigger] w[i] by {}
    assert(args[mounts] == w[0] && args[mounts + 1] == w[1] && args[mounts + 2] == w[2]
        && args[mounts + 3] == w[3]);
    reveal_strlit("/inputs");
    reveal_strlit("/outputs");
    reveal_strlit("/workspace");
    reveal_strlit("/tmp");
    reveal_strlit("");
    reveal_strlit(",dst=");
    reveal_strlit(",readonly");
    reveal_strlit(",dst=/inputs,readonly");
    reveal_strlit(",dst=/outputs");
    reveal_strlit(",dst=/workspace");
    reveal_strlit(",dst=/tmp");
    let head = "--mount=type=bind,src="@;
    assert(w[0] =~= head + ws.inputs + ",dst=/inputs,readonly"@);
    assert(w[1] =~= head + ws.outputs + ",dst=/outputs"@);
    assert(w[2] =~= head + ws.work + ",dst=/workspace"@);
    assert(w[3] =~= head + ws.tmp + ",dst=/tmp"@);
}

/// Whether the arguments at a place set a variable.
pub open spec fn sets(args: Seq<Seq<char>>, at: int, e: (Seq<char>, Seq<char>)) -> bool {
    args[at] == "--env"@ && args[at + 1] == e.0 + "="@ + e.1
}

/// A container gets every variable of its environment, every argument that shows it a device, its
/// entrypoint, its image and its arguments, in this order.
#[verifier::rlimit(50)]
#[verifier::spinoff_prover]
pub proof fn law_containers_get_their_environment(
    c: ContainerView,
    ws: WorkspaceView,
    runtime: Seq<char>,
    name: Seq<char>,
    image: Seq<char>,
    owner: Owner,
    found: Seq<NodeView>,
)
    requires
        container_command(c, ws, runtime, name, image, owner, found) is Ok,
        c.entrypoint.len() > 0,
    ensures
        ({
            let args = container_command(c, ws, runtime, name, image, owner, found)->Ok_0;
            let env = mounts_at(c, runtime, owner) + 4;
            let devices = env + 2 * c.env.len();
            let end = args.len() - c.entrypoint.len() - 1;
            &&& forall|i: int|
                0 <= i < c.env.len() ==> sets(args, env + 2 * i, #[trigger] c.env[i])
            &&& args.subrange(devices as int, (devices + c.device_args.len()) as int) == c.device_args
            &&& devices + c.device_args.len() <= end
            &&& args[end] == "--entrypoint="@ + c.entrypoint[0]
            &&& args[end + 1] == image
            &&& args.skip(end + 2) == c.entrypoint.skip(1)
        }),
{
    let args = container_command(c, ws, runtime, name, image, owner, found)->Ok_0;
    let (before, after) = lemma_container_layout(c, ws, runtime, name, image, owner, found);
    let env = mounts_at(c, runtime, owner) + 4;
    let devices = env + 2 * c.env.len();
    let end = args.len() - c.entrypoint.len() - 1;
    let all = env_args(c.env);
    lemma_env_args_len(c.env);
    let first = before + workspace_args(ws);
    let tail = c.device_args + after;
    assert(args =~= first + (all + tail));
    assert(first.len() == env);
    assert forall|i: int| 0 <= i < c.env.len() implies sets(
        args,
        env + 2 * i,
        #[trigger] c.env[i],
    ) by {
        lemma_env_args(c.env, i);
        assert((first + (all + tail))[env + 2 * i] == all[2 * i]);
        assert((first + (all + tail))[env + 2 * i + 1] == all[2 * i + 1]);
    }
    let front = first + all;
    assert(args =~= front + tail);
    assert(front.len() == devices);
    assert(args.subrange(devices as int, (devices + c.device_args.len()) as int) =~= c.device_args);
    let last = seq!["--entrypoint="@ + c.entrypoint[0], image] + c.entrypoint.skip(1);
    let groups = group_args(
        groups_of(c.nodes, found)->Ok_0,
        runtime == "podman"@ && owner.uid != 0,
    );
    assert(after =~= groups + last);
    let whole = front + c.device_args + groups;
    assert(args =~= whole + last);
    assert(end == whole.len());
    assert(devices + c.device_args.len() <= end);
    assert((whole + last)[end] == last[0] && (whole + last)[end + 1] == last[1]);
    assert(last[0] == "--entrypoint="@ + c.entrypoint[0] && last[1] == image);
    assert(args[end] == "--entrypoint="@ + c.entrypoint[0]);
    assert(args[end + 1] == image);
    assert(args.skip(end + 2) =~= c.entrypoint.skip(1));
}

/// The container of a workload is the one that its target and its allocation ask for; the one of
/// the probe is told nothing of the devices that were chosen, so that it sees all that it is
/// shown.
pub proof fn law_workloads_and_probes_see_the_same_devices(
    job: ComputeJob,
    target: Target,
    launch: LaunchView,
    ws: WorkspaceView,
    probe: Seq<char>,
    name: Seq<char>,
)
    ensures
        ({
            let w = workload_container(job, target, launch, ws);
            let p = probe_container(job, target, launch, ws, probe);
            let chosen = name == "CUDA_VISIBLE_DEVICES"@ || name == "HIP_VISIBLE_DEVICES"@ || name
                == "ROCR_VISIBLE_DEVICES"@ || name == "ASCEND_RT_VISIBLE_DEVICES"@ || name
                == "ONEAPI_DEVICE_SELECTOR"@ || name == "ZE_AFFINITY_MASK"@;
            &&& w.device_args == launch.args && p.device_args == launch.args
            &&& w.network == target.summary.execution.network@ && p.network == w.network
            &&& w.resources == target.summary.resources && p.resources == w.resources
            &&& w.nodes == p.nodes
            &&& forall|n: Seq<char>| #[trigger]
                w.nodes.contains(n) <==> exists|k: int|
                    0 <= k < launch.devices.len() && (
                    #[trigger] launch.devices[k]).device_nodes.contains(n)
            &&& w.entrypoint == texts(target.entrypoint@) && p.entrypoint == seq![probe]
            &&& w.env == environment_of(
                job.parameters@,
                job.reproducibility.seed,
                target.summary.execution.env@,
                launch.env,
                ws,
                true,
            )
            &&& !reserved_names().contains(name) ==> lookup(p.env, name) == if chosen {
                None
            } else {
                lookup(target.summary.execution.env@, name)
            }
        }),
{
    let declared = target.summary.execution.env@;
    let a = dropped(declared, "CUDA_VISIBLE_DEVICES"@);
    let b = dropped(a, "HIP_VISIBLE_DEVICES"@);
    let c = dropped(b, "ROCR_VISIBLE_DEVICES"@);
    let d = dropped(c, "ASCEND_RT_VISIBLE_DEVICES"@);
    let e = dropped(d, "ONEAPI_DEVICE_SELECTOR"@);
    lemma_dropped_lookup(declared, "CUDA_VISIBLE_DEVICES"@, name);
    lemma_dropped_lookup(a, "HIP_VISIBLE_DEVICES"@, name);
    lemma_dropped_lookup(b, "ROCR_VISIBLE_DEVICES"@, name);
    lemma_dropped_lookup(c, "ASCEND_RT_VISIBLE_DEVICES"@, name);
    lemma_dropped_lookup(d, "ONEAPI_DEVICE_SELECTOR"@, name);
    lemma_dropped_lookup(e, "ZE_AFFINITY_MASK"@, name);
    law_environment_precedence(
        job.parameters@,
        job.reproducibility.seed,
        without_selection(declared),
        Seq::empty(),
        ws,
        true,
        name,
    );
    assert forall|n: Seq<char>| #[trigger]
        all_nodes(launch.devices).contains(n) <==> exists|k: int|
            0 <= k < launch.devices.len() && (#[trigger] launch.devices[k]).device_nodes.contains(
                n,
            ) by {
        if all_nodes(launch.devices).contains(n) {
            lemma_all_nodes_owner(launch.devices, n);
        }
        if exists|k: int|
            0 <= k < launch.devices.len() && (#[trigger] launch.devices[k]).device_nodes.contains(
                n,
            ) {
            let k = choose|k: int|
                0 <= k < launch.devices.len() && (
                #[trigger] launch.devices[k]).device_nodes.contains(n);
            lemma_nodes_hold(launch.devices, k, n);
        }
    }
}

spec fn ascends(s: Seq<u32>) -> bool {
    forall|i: int, j: int| 0 <= i < j < s.len() ==> s[i] < s[j]
}

proof fn lemma_number_is_in(s: Seq<u32>, n: u32)
    requires
        ascends(s),
    ensures
        ascends(with_number(s, n)),
        forall|x: u32| #[trigger] with_number(s, n).contains(x) <==> x == n || s.contains(x),
    decreases s.len(),
{
    let r = with_number(s, n);
    if s.len() == 0 || s.last() < n {
        assert(r[s.len() as int] == n);
        assert forall|x: u32| #[trigger] r.contains(x) <==> x == n || s.contains(x) by {
            if s.contains(x) {
                let i = choose|i: int| 0 <= i < s.len() && s[i] == x;
                assert(r[i] == x);
            }
            if r.contains(x) && x != n {
                let i = choose|i: int| 0 <= i < r.len() && r[i] == x;
                assert(s[i] == x);
            }
        }
    } else if s.last() == n {
        assert(s[s.len() - 1] == n);
    } else {
        let t = s.drop_last();
        lemma_number_is_in(t, n);
        let u = with_number(t, n);
        assert forall|i: int, j: int| 0 <= i < j < r.len() implies r[i] < r[j] by {
            assert(u.contains(u[i]));
            if j == u.len() && u[i] != n {
                let k = choose|k: int| 0 <= k < t.len() && t[k] == u[i];
                assert(s[k] < s[s.len() - 1]);
            }
        }
        assert forall|x: u32| #[trigger] r.contains(x) <==> x == n || s.contains(x) by {
            if x == n || t.contains(x) {
                assert(u.contains(x));
                let i = choose|i: int| 0 <= i < u.len() && u[i] == x;
                assert(r[i] == x);
            }
            if s.contains(x) {
                let i = choose|i: int| 0 <= i < s.len() && s[i] == x;
                if i < t.len() {
                    assert(t[i] == x);
                } else {
                    assert(r[u.len() as int] == x);
                }
            }
            if r.contains(x) {
                let i = choose|i: int| 0 <= i < r.len() && r[i] == x;
                if i < u.len() {
                    assert(u.contains(x));
                    if x != n {
                        let k = choose|k: int| 0 <= k < t.len() && t[k] == x;
                        assert(s[k] == x);
                    }
                } else {
                    assert(s[s.len() - 1] == x);
                }
            }
        }
    }
}

/// A container joins the group of every device node that it is shown, each of them once and in
/// order, and no other; without the rights of the superuser it keeps the groups it has. A node
/// that is not there or is no device is refused.
pub proof fn law_containers_join_the_groups_of_their_nodes(
    nodes: Seq<Seq<char>>,
    found: Seq<NodeView>,
)
    requires
        nodes.len() <= found.len(),
    ensures
        groups_of(nodes, found) is Ok <==> forall|i: int|
            0 <= i < nodes.len() ==> (#[trigger] found[i]) is Device,
        groups_of(nodes, found) matches Ok(groups) ==> {
            &&& forall|i: int, j: int| 0 <= i < j < groups.len() ==> groups[i] < groups[j]
            &&& forall|g: u32| #[trigger]
                groups.contains(g) <==> exists|i: int|
                    0 <= i < nodes.len() && #[trigger] found[i] == NodeView::Device(g)
            &&& group_args(groups, false).len() == groups.len()
            &&& forall|i: int|
                0 <= i < groups.len() ==> #[trigger] group_args(groups, false)[i]
                    == "--group-add="@ + decimal(groups[i] as nat)
            &&& groups.len() > 0 ==> group_args(groups, true) == seq!["--group-add=keep-groups"@]
            &&& groups.len() == 0 ==> group_args(groups, true).len() == 0
        },
    decreases nodes.len(),
{
    if nodes.len() > 0 {
        let t = nodes.drop_last();
        let n = nodes.len() - 1;
        law_containers_join_the_groups_of_their_nodes(t, found);
        if groups_of(t, found) is Ok && found[n] is Device {
            let before = groups_of(t, found)->Ok_0;
            let gid = found[n]->Device_0;
            lemma_number_is_in(before, gid);
            let groups = with_number(before, gid);
            assert forall|g: u32| #[trigger] groups.contains(g) <==> exists|i: int|
                0 <= i < nodes.len() && #[trigger] found[i] == NodeView::Device(g) by {
                if before.contains(g) {
                    let i = choose|i: int|
                        0 <= i < t.len() && #[trigger] found[i] == NodeView::Device(g);
                    assert(found[i] == NodeView::Device(g));
                }
                if g == gid {
                    assert(found[n] == NodeView::Device(g));
                }
                if exists|i: int|
                    0 <= i < nodes.len() && #[trigger] found[i] == NodeView::Device(g) {
                    let i = choose|i: int|
                        0 <= i < nodes.len() && #[trigger] found[i] == NodeView::Device(g);
                    if i < n {
                        assert(before.contains(g));
                    }
                }
            }
        }
    }
}

/// The user of a container is never the superuser; another user stays who they are.
pub proof fn law_containers_run_as_their_owner(name: Seq<char>, owner: Owner)
    ensures
        sandbox_args(name, owner)[5] == "--user="@ + (if owner.uid == 0 {
            "65532:65532"@
        } else {
            decimal(owner.uid as nat) + ":"@ + decimal(owner.gid as nat)
        }),
{
}

/// Where the container shows exactly the devices of the allocation, the workload gets the names
/// under which they appear there, of the devices that fit; with other devices it is refused.
pub proof fn law_devices_are_named_as_the_container_sees_them(
    target: Target,
    launch: LaunchView,
    inside: InventoryView,
    a: Adapter,
)
    requires
        adapter_of(inside.backend) == Some(a),
    ensures
        ids(launch.devices).to_multiset() != ids(inside.devices).to_multiset() ==> remapped(
            target,
            launch,
            inside,
        ) is Err,
        ids(launch.devices).to_multiset() == ids(inside.devices).to_multiset() ==> match matching_of(
            target.summary.accelerator,
            inside,
        ) {
            Err(e) => remapped(target, launch, inside) == Err::<LaunchView, Seq<Seq<char>>>(e),
            Ok(devices) => match configuration(a, devices, inside) {
                Err(e) => remapped(target, launch, inside) == Err::<LaunchView, Seq<Seq<char>>>(e),
                Ok(l) => remapped(target, launch, inside) matches Ok(m) && m.env == l.env && m.args
                    == launch.args && m.devices == launch.devices,
            },
        },
{
    law_sorting_forgets_the_order(ids(launch.devices), ids(inside.devices));
}

/// An entry of an image is read exactly where its path is the one that is looked for, and it is
/// small enough.
pub proof fn law_image_entries_are_found_by_path(
    entry: Seq<char>,
    size: nat,
    name: Seq<char>,
    images: Seq<JsonView>,
)
    ensures
        entry_choice(entry, size, name) == Ok::<bool, Seq<Seq<char>>>(true) <==> parts(entry)
            == parts(name) && size <= 4 * 1024 * 1024,
        entry_choice(entry, size, name) == Ok::<bool, Seq<Seq<char>>>(false) <==> parts(entry)
            != parts(name),
        config_entry(JsonView::Array(images)) is Ok <==> images.len() == 1 && member_of(
            images[0],
            "Config"@,
        ) is Text,
        config_entry(JsonView::Array(images)) matches Ok(path) ==> member_of(images[0], "Config"@)
            == JsonView::Text(path),
{
}

/// An image is accepted exactly where the runtime names it by the digest of the configuration in
/// its archive, with or without the name of the algorithm, in whatever case.
pub proof fn law_loaded_images_are_the_archived(
    inspected: Seq<char>,
    config: Seq<u8>,
    bare: Seq<char>,
)
    ensures
        image_name_of(config) == "sha256:"@ + fingerprint(config),
        loaded_check(inspected, image_name_of(config)) is Ok <==> normalized_image(
            trimmed(inspected),
        ) == Ok::<Seq<char>, Seq<Seq<char>>>("sha256:"@ + fingerprint(config)),
        loaded_check(inspected, image_name_of(config)) matches Ok(name) ==> name == "sha256:"@
            + fingerprint(config),
        normalized_image(bare) matches Ok(name) ==> name.len() == 71 && name.take(7) == "sha256:"@
            && forall|i: int|
            7 <= i < 71 ==> (is_digit(#[trigger] name[i]) || 'a' <= name[i] <= 'f'),
        bare.len() == 64 && (forall|i: int|
            0 <= i < 64 ==> (is_digit(#[trigger] bare[i]) || 'a' <= bare[i] <= 'f'))
            ==> normalized_image(bare) == Ok::<Seq<char>, Seq<Seq<char>>>("sha256:"@ + bare)
            && normalized_image("sha256:"@ + bare) == Ok::<Seq<char>, Seq<Seq<char>>>(
            "sha256:"@ + bare,
        ),
        normalized_image(bare) is Err <==> !(digest(bare) || bare.len() == 71 && bare.take(7)
            == "sha256:"@ && digest(bare.skip(7))),
{
    reveal_strlit("sha256:");
    if bare.len() >= 7 {
        assert(bare.subrange(0, 7) =~= bare.take(7));
        assert(without(bare, "sha256:"@) =~= bare.skip(7));
    }
    if starts(bare, "sha256:"@) {
        assert(bare[0] == "sha256:"@[0]);
        if digest(bare) {
            assert(is_hex(bare[0]));
        }
    }
    if let Ok(name) = normalized_image(bare) {
        let rest = if starts(bare, "sha256:"@) {
            without(bare, "sha256:"@)
        } else {
            bare
        };
        assert(name == "sha256:"@ + lowered(rest));
        assert(name.take(7) =~= "sha256:"@);
        assert forall|i: int| 7 <= i < 71 implies (is_digit(#[trigger] name[i]) || 'a' <= name[i]
            <= 'f') by {
            assert(name[i] == lowered(rest)[i - 7]);
            assert(lowered(rest)[i - 7] == lower(rest[i - 7]));
            assert(is_hex(rest[i - 7]));
        }
    }
    if bare.len() == 64 && (forall|i: int|
        0 <= i < 64 ==> (is_digit(#[trigger] bare[i]) || 'a' <= bare[i] <= 'f')) {
        assert forall|i: int| 0 <= i < bare.len() implies is_hex(#[trigger] bare[i]) by {}
        assert(lowered(bare) =~= bare) by {
            assert forall|i: int| 0 <= i < bare.len() implies lowered(bare)[i] == bare[i] by {
                assert(lowered(bare)[i] == lower(bare[i]));
                assert(is_digit(bare[i]) || 'a' <= bare[i] <= 'f');
            }
        }
        law_image_names_agree(bare);
    }
}

/// What a workload or a probe gave is what comes of it, unless its container stays behind.
pub proof fn law_results_are_passed_on(
    ran: Result<i32, Seq<Seq<char>>>,
    told: Result<Seq<u8>, Seq<Seq<char>>>,
    why: Seq<char>,
)
    ensures
        ran matches Ok(code) ==> workload_end(ran, None) == Ok::<i32, FailureView>(code),
        ran matches Err(e) ==> (workload_end(ran, None) matches Err(f) && f.error == e
            && !f.quarantines),
        told matches Ok(bytes) ==> probe_end(told, None) == Ok::<Seq<u8>, FailureView>(bytes),
        told matches Err(e) ==> (probe_end(told, None) matches Err(f) && f.error == e
            && !f.quarantines),
        workload_end(ran, Some(why)) matches Err(f) && f.quarantines && f.error.last() == why,
        probe_end(told, Some(why)) matches Err(f) && f.quarantines && f.error.last() == why,
{
}

/// An output is collected exactly where its name leads down, it is a regular file, and it lies in
/// the directory of the outputs once every link is followed.
pub proof fn law_collected_outputs_are_regular_files(
    name: Seq<char>,
    resolved: Seq<char>,
    root: Seq<char>,
    regular: bool,
)
    ensures
        output_place(name, resolved, root, regular) is Ok <==> relative(name) is Ok && regular
            && parts(root).len() <= parts(resolved).len() && parts(resolved).take(
            parts(root).len() as int,
        ) == parts(root),
        output_place(name, resolved, root, regular) matches Ok(place) ==> place == resolved,
{
    if parts(root).len() <= parts(resolved).len() {
        assert(parts(resolved).subrange(0, parts(root).len() as int) =~= parts(resolved).take(
            parts(root).len() as int,
        ));
    }
}

/// The container of a workload reads its inputs and writes its outputs, its work and its temporary
/// files, and it ends with the image and the arguments of the target.
#[verifier::rlimit(50)]
#[verifier::spinoff_prover]
pub proof fn law_workload_containers_write_their_outputs(
    job: &ComputeJob,
    target: &Target,
    launch: &Launch,
    workspace: &Workspace,
    runtime: &str,
    name: &str,
    image: &str,
    owner: Owner,
    found: &Vec<NodeStatus>,
    r: Result<Vec<String>, Error>,
)
    requires
        call_ensures(
            container_args,
            (job, target, launch, workspace, runtime, name, image, owner, found),
            r,
        ),
        target.entrypoint@.len() > 0,
    ensures
        r matches Ok(args) ==> {
            let all = texts(args@);
            let head = "--mount=type=bind,src="@;
            &&& all.contains(head + workspace.inputs@ + ",dst=/inputs,readonly"@)
            &&& all.contains(head + workspace.outputs@ + ",dst=/outputs"@)
            &&& all.contains(head + workspace.work@ + ",dst=/workspace"@)
            &&& all.contains(head + workspace.tmp@ + ",dst=/tmp"@)
            &&& all.contains("--network="@ + target.summary.execution.network@)
            &&& all.contains("--entrypoint="@ + target.entrypoint@[0]@)
            &&& all.contains(image@)
            &&& forall|i: int|
                0 <= i < launch.args@.len() ==> all.contains((#[trigger] launch.args@[i])@)
            &&& forall|i: int|
                0 <= i < launch.devices@.len() ==> (forall|k: int|
                    0 <= k < (#[trigger] launch.devices@[i]).device_nodes@.len()
                        ==> #[trigger] all_nodes(launch@.devices).contains(
                        launch.devices@[i].device_nodes@[k]@,
                    ))
        },
{
    if let Ok(args) = r {
        let c = workload_container(*job, *target, launch@, workspace@);
        let all = texts(args@);
        let nodes = statuses(found@);
        law_containers_write_their_outputs(
            c,
            workspace@,
            runtime@,
            name@,
            image@,
            owner,
            nodes,
        );
        law_containers_get_their_environment(
            c,
            workspace@,
            runtime@,
            name@,
            image@,
            owner,
            nodes,
        );
        law_containers_are_confined(c, workspace@, runtime@, name@, image@, owner, nodes);
        let mounts = mounts_at(c, runtime@, owner) as int;
        let head = "--mount=type=bind,src="@;
        assert(all[mounts] == head + workspace.inputs@ + ",dst=/inputs,readonly"@);
        assert(all[mounts + 1] == head + workspace.outputs@ + ",dst=/outputs"@);
        assert(all[mounts + 2] == head + workspace.work@ + ",dst=/workspace"@);
        assert(all[mounts + 3] == head + workspace.tmp@ + ",dst=/tmp"@);
        let end = all.len() - c.entrypoint.len() - 1;
        assert(c.entrypoint[0] == target.entrypoint@[0]@);
        assert(all[end] == "--entrypoint="@ + target.entrypoint@[0]@);
        assert(all[end + 1] == image@);
        let devices = mounts_at(c, runtime@, owner) + 4 + 2 * c.env.len();
        let shown = all.subrange(devices as int, (devices + c.device_args.len()) as int);
        assert forall|i: int| 0 <= i < launch.args@.len() implies all.contains(
            (#[trigger] launch.args@[i])@,
        ) by {
            assert(c.device_args[i] == launch.args@[i]@);
            assert(shown[i] == all[devices + i]);
        }
        assert forall|i: int| 0 <= i < launch.devices@.len() implies (forall|k: int|
            0 <= k < (#[trigger] launch.devices@[i]).device_nodes@.len()
                ==> #[trigger] all_nodes(launch@.devices).contains(
                launch.devices@[i].device_nodes@[k]@,
            )) by {
            let d = launch@.devices[i];
            assert(d == launch.devices@[i]@);
            assert forall|k: int| 0 <= k < launch.devices@[i].device_nodes@.len() implies (
            #[trigger] all_nodes(launch@.devices).contains(
                launch.devices@[i].device_nodes@[k]@,
            )) by {
                let n = launch.devices@[i].device_nodes@[k]@;
                assert(d.device_nodes[k] == n);
                assert(d.device_nodes.contains(n));
                lemma_nodes_hold(launch@.devices, i, n);
            }
        }
    }
}

/// The commands that drive a container runtime say what they are for, of the container or the
/// image that they are given.
pub proof fn law_runtimes_are_told_what_to_do(
    name: &str,
    started: Vec<String>,
    removed: Vec<String>,
    loaded: Vec<String>,
    inspected: Vec<String>,
    workspace: &Workspace,
    owner: Owner,
    handed: Vec<String>,
    head: &[u8],
    gzip: bool,
)
    requires
        call_ensures(start_command, (name,), started),
        call_ensures(remove_command, (name,), removed),
        call_ensures(load_command, (name,), loaded),
        call_ensures(inspect_command, (name,), inspected),
        call_ensures(handed_over, (workspace, owner), handed),
        call_ensures(is_gzip, (head,), gzip),
    ensures
        texts(started@)[0] == "start"@ && texts(started@).last() == name@ && texts(
            started@,
        ).contains("--attach"@),
        texts(removed@)[0] == "rm"@ && texts(removed@).last() == name@ && texts(removed@).contains(
            "--force"@,
        ),
        texts(loaded@)[0] == "load"@ && texts(loaded@).last() == name@,
        texts(inspected@)[0] == "image"@ && texts(inspected@)[1] == "inspect"@ && texts(
            inspected@,
        ).last() == name@,
        owner.uid != 0 ==> handed@.len() == 0,
        owner.uid == 0 ==> texts(handed@).contains(workspace.outputs@) && texts(handed@).contains(
            workspace.work@,
        ) && texts(handed@).contains(workspace.tmp@) && handed@.len() == 3,
        gzip <==> head@.len() >= 2 && head@[0] == 31 && head@[1] == 139,
{
    assert(texts(started@)[1] == "--attach"@);
    assert(texts(removed@)[1] == "--force"@);
    assert(texts(handed@).len() == handed@.len());
    if owner.uid == 0 {
        assert(texts(handed@)[0] == workspace.outputs@);
        assert(texts(handed@)[1] == workspace.work@);
        assert(texts(handed@)[2] == workspace.tmp@);
    }
}

/// Without an accelerator the launch stays as it is. With one the probe of the target is asked in
/// a container that is shown the same devices, and it must have one.
#[verifier::rlimit(50)]
#[verifier::spinoff_prover]
pub proof fn law_containers_are_asked_what_they_see(
    job: &ComputeJob,
    target: &Target,
    launch: &Launch,
    workspace: &Workspace,
    runtime: &str,
    name: &str,
    image: &str,
    owner: Owner,
    found: &Vec<NodeStatus>,
    r: Result<Preparation, Error>,
)
    requires
        call_ensures(
            prepare_oci_launch,
            (job, target, launch, workspace, runtime, name, image, owner, found),
            r,
        ),
    ensures
        target.summary.accelerator.id@ == "cpu"@ ==> (r matches Ok(Preparation::Keep(kept)) && kept@
            == launch@),
        target.summary.accelerator.id@ != "cpu"@ && target.probe is None ==> r is Err,
        target.summary.accelerator.id@ != "cpu"@ ==> !(r matches Ok(Preparation::Keep(_))),
        target.summary.accelerator.id@ != "cpu"@ ==> (r matches Ok(Preparation::Ask(command)) ==> {
            let all = texts(command@);
            &&& target.probe is Some
            &&& all.contains("--entrypoint="@ + target.probe->0@)
            &&& all.last() == image@
            &&& forall|i: int|
                0 <= i < launch.args@.len() ==> all.contains((#[trigger] launch.args@[i])@)
        }),
{
    if target.summary.accelerator.id@ != "cpu"@ {
        if let Ok(Preparation::Ask(command)) = r {
            let probe = target.probe->0@;
            let c = probe_container(*job, *target, launch@, workspace@, probe);
            let all = texts(command@);
            let nodes = statuses(found@);
            law_containers_get_their_environment(
                c,
                workspace@,
                runtime@,
                name@,
                image@,
                owner,
                nodes,
            );
            let end = all.len() - c.entrypoint.len() - 1;
            assert(c.entrypoint[0] == probe);
            assert(all[end] == "--entrypoint="@ + probe);
            assert(all[end + 1] == image@);
            assert(end + 1 == all.len() - 1);
            let devices = mounts_at(c, runtime@, owner) + 4 + 2 * c.env.len();
            let shown = all.subrange(devices as int, (devices + c.device_args.len()) as int);
            assert forall|i: int| 0 <= i < launch.args@.len() implies all.contains(
                (#[trigger] launch.args@[i])@,
            ) by {
                assert(c.device_args[i] == launch.args@[i]@);
                assert(shown[i] == all[devices + i]);
            }
        }
    }
}

/// What the other operations of a run give is what is said of them: its directories, its image and
/// its end.
pub proof fn law_runs_go_by_what_is_said_of_them(
    root: &str,
    workspace: Result<Workspace, Error>,
    target: &Target,
    launch: &Launch,
    inside: &Inventory,
    named: Result<Launch, Error>,
    inspected: &str,
    expected: &str,
    loaded: Result<String, Error>,
    ran: Result<i32, Error>,
    left: Option<CleanupFailure>,
    ended: Result<i32, Failure>,
)
    requires
        call_ensures(Workspace::create, (root,), workspace),
        call_ensures(remap_launch, (target, launch, inside), named),
        call_ensures(load_image, (inspected, expected), loaded),
        call_ensures(run_container, (ran, left), ended),
    ensures
        workspace matches Ok(w) ==> w.root@ == root@ && w.outputs@ == below(root@, "outputs"@)
            && w.inputs@ == below(root@, "inputs"@) && w.work@ == below(root@, "work"@) && w.tmp@
            == below(root@, "tmp"@),
        workspace is Ok <==> !root@.contains(',') && !root@.contains(':'),
        named matches Ok(l) ==> l.args@.len() == launch.args@.len() && l.devices@.len()
            == launch.devices@.len() && ids(launch@.devices).to_multiset() == ids(
            inside@.devices,
        ).to_multiset() && l@.args == launch@.args,
        loaded matches Ok(id) ==> id@ == expected@,
        left is Some ==> (ended matches Err(f) && f.quarantines),
        left is None ==> (ended is Ok <==> ran is Ok) && (ran matches Ok(code) ==> (
        ended matches Ok(c) && c == code)),
{
    if let Ok(l) = named {
        law_remapping_keeps_the_allocation(*target, launch@, inside@);
        assert(l@.args.len() == l.args@.len() && launch@.args.len() == launch.args@.len());
        assert(l@.devices.len() == l.devices@.len());
        assert(launch@.devices.len() == launch.devices@.len());
    }
}

/// The image of a run is looked for in its archive by path, named by its configuration, and what
/// came of it is passed on; an output is taken where it must be or where it is.
pub proof fn law_images_and_outputs_are_found(
    entry: &str,
    size: u64,
    name: &str,
    chosen: Result<bool, Error>,
    manifest: &Json,
    config: Result<String, Error>,
    bytes: &[u8],
    id: String,
    told: Result<Vec<u8>, Error>,
    left: Option<CleanupFailure>,
    ended: Result<Vec<u8>, Failure>,
    root: &str,
    regular: bool,
    place: Result<String, Error>,
    required: bool,
    there: bool,
    taken: bool,
    launch: &Launch,
    nodes: Vec<String>,
)
    requires
        call_ensures(choose_entry, (entry, size, name), chosen),
        call_ensures(image_config, (manifest,), config),
        call_ensures(image_id, (bytes,), id),
        call_ensures(end_probe, (told, left), ended),
        call_ensures(output_path, (name, entry, root, regular), place),
        call_ensures(is_taken, (required, there), taken),
        call_ensures(device_nodes, (launch,), nodes),
    ensures
        (chosen matches Ok(b) && b) <==> parts(entry@) == parts(name@) && size <= 4 * 1024 * 1024,
        (chosen matches Ok(b) && !b) <==> parts(entry@) != parts(name@),
        config is Ok <==> manifest@ is Array && manifest@->Array_0.len() == 1 && member_of(
            manifest@->Array_0[0],
            "Config"@,
        ) is Text,
        config matches Ok(path) ==> member_of(manifest@->Array_0[0], "Config"@) == JsonView::Text(
            path@,
        ),
        id@ == "sha256:"@ + fingerprint(bytes@),
        left is Some ==> (ended matches Err(f) && f.quarantines),
        left is None ==> (ended is Ok <==> told is Ok) && (told matches Ok(b) ==> (ended matches Ok(
            c,
        ) && c@ == b@)),
        place is Ok <==> relative(name@) is Ok && regular && within(parts(entry@), parts(root@)),
        place matches Ok(p) ==> p@ == entry@,
        taken <==> required || there,
        texts(nodes@) == all_nodes(launch@.devices),
{
}

} // verus!
