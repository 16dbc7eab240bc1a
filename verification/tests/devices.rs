use nix_compute::accelerator::{
    adapter, allocate, lock_root, matching, parse_inventory, quarantine, quarantine_path, Device,
    Inventory, Launch, Probe,
};
use nix_compute::canonical::{canonical_text, sha256_bytes};
use nix_compute::error::Error;
use nix_compute::host::{check_host, Capabilities};
use nix_compute::json::Json;
use nix_compute::map::StringMap;
use nix_compute::model::{
    Accelerator, Artifacts, ComputeJob, Execution, OutputArtifact, Reproducibility, Resources,
    Target, TargetSummary,
};
use nix_compute::runtime::{
    choose_entry, container_args, device_nodes, end_probe, handed_over, image_config, image_id,
    inspect_command, is_gzip, is_taken, load_command, load_image, missing_entry, new_run_id,
    normalize_image_id, output_path, prepare_oci_launch, probe_name, read_image_config,
    remap_launch, remove_command, run_container, run_native, start_command, workload_name,
    CleanupFailure, NodeStatus, Owner, Preparation, Workspace, IMAGE_ENTRY_LIMIT,
};
use nix_compute::version::driver_version;

fn device(backend: &str) -> Device {
    let mut d = Device {
        id: format!("{backend}-0"),
        index: 0,
        architecture: format!("{backend}-arch"),
        memory_mib: 81920,
        driver_version: "550.54.15".to_string(),
        runtime_version: "12.4".to_string(),
        topology: StringMap::new(),
        device_nodes: vec![],
        driver_mounts: StringMap::new(),
    };
    if backend == "cuda" {
        d.id = "GPU-00000000-0000-0000-0000-000000000000".to_string();
    }
    if backend == "rocm" {
        d.device_nodes = vec!["/dev/kfd".to_string(), "/dev/dri/renderD128".to_string()];
    }
    if backend == "oneapi" {
        d.device_nodes = vec!["/dev/dri/renderD128".to_string()];
    }
    if backend == "cann" {
        d.id = "ascend-0".to_string();
        d.device_nodes = vec![
            "/dev/davinci0".to_string(),
            "/dev/davinci_manager".to_string(),
            "/dev/devmm_svm".to_string(),
            "/dev/hisi_hdc".to_string(),
        ];
        let driver = "/usr/local/Ascend/driver".to_string();
        d.driver_mounts.insert(driver.clone(), driver);
    }
    d
}

fn inventory(backend: &str) -> Inventory {
    Inventory { version: 1, backend: backend.to_string(), devices: vec![device(backend)] }
}

fn requirement(backend: &str, d: &Device) -> Accelerator {
    Accelerator {
        id: backend.to_string(),
        count: 1,
        min_memory_mib: 1024,
        architectures: vec![d.architecture.clone()],
        driver_range: Some(">=0.0.0".to_string()),
        runtime_version: Some(d.runtime_version.clone()),
        topology: StringMap::new(),
    }
}

fn fixture() -> (ComputeJob, Target) {
    let summary = || TargetSummary {
        name: "local".to_string(),
        system: "x86_64-linux".to_string(),
        executor: "native".to_string(),
        accelerator: Accelerator {
            id: "cpu".to_string(),
            count: 1,
            min_memory_mib: 0,
            architectures: vec![],
            driver_range: None,
            runtime_version: None,
            topology: StringMap::new(),
        },
        resources: Resources { cpu_cores: None, memory_mib: None, enforce: false },
        execution: Execution {
            network: "host".to_string(),
            isolation: "none".to_string(),
            timeout_seconds: Some(60),
            env: StringMap::new(),
        },
    };
    let mut parameters = StringMap::new();
    parameters.insert("steps".to_string(), Json::unsigned(2));
    let mut outputs = StringMap::new();
    outputs.insert(
        "checkpoint".to_string(),
        OutputArtifact { path: "checkpoint".to_string(), destination: None, required: true },
    );
    let mut targets = StringMap::new();
    targets.insert("local".to_string(), summary());
    let job = ComputeJob {
        schema_version: 2,
        name: "train".to_string(),
        artifacts: Artifacts { inputs: StringMap::new(), outputs },
        parameters,
        reproducibility: Reproducibility { contract: "environment-inputs".to_string(), seed: None },
        targets,
    };
    let program = "/nix/store/00000000000000000000000000000000-trainer".to_string();
    let target = Target {
        summary: summary(),
        program_output: "computePrograms.train.local".to_string(),
        program: program.clone(),
        entrypoint: vec![
            format!("{program}/bin/trainer"),
            "--steps".to_string(),
            "2".to_string(),
        ],
        probe_output: None,
        probe: None,
        image_output: None,
        image_name: "train-local".to_string(),
        runtime_paths: vec![],
        runtime_output: None,
    };
    (job, target)
}

fn owner() -> Owner {
    Owner { uid: 1000, gid: 100 }
}

#[test]
fn vendor_driver_versions_are_normalized_before_semver_matching() {
    let v = driver_version("535.104.05").unwrap();
    assert_eq!((v.major, v.minor, v.patch), (535, 104, 5));
    let v = driver_version("15.1").unwrap();
    assert_eq!((v.major, v.minor, v.patch), (15, 1, 0));
    assert!(driver_version("unknown").is_err());
}

#[test]
fn six_backends_match_and_configure_fixture_devices() {
    for backend in ["cuda", "rocm", "tpu", "metal", "cann", "oneapi"] {
        let inventory = parse_inventory(inventory(backend), backend).unwrap();
        let d = device(backend);
        let mut req = requirement(backend, &d);
        let devices = matching(&req, &inventory).unwrap();
        let config = adapter(backend).unwrap().configure(&devices, &inventory).unwrap();
        assert_eq!(config.devices[0].id, d.id);
        if ["cuda", "rocm", "cann", "oneapi"].contains(&backend) {
            assert!(config.args.iter().any(|a| a.starts_with("--device=")));
        }
        req.min_memory_mib = u64::MAX;
        assert!(matching(&req, &inventory).is_err());
        req.min_memory_mib = 1;
        req.runtime_version = Some("unknown".to_string());
        assert!(matching(&req, &inventory).is_err());
        req.runtime_version = Some(d.runtime_version.clone());
        req.architectures = vec!["unsupported".to_string()];
        assert!(matching(&req, &inventory).is_err());
        req.architectures = vec![d.architecture.clone()];
        req.driver_range = Some("<0.0.0".to_string());
        assert!(matching(&req, &inventory).is_err());
        req.driver_range = Some(">=0.0.0".to_string());
        req.topology.insert("fabric".to_string(), "missing".to_string());
        assert!(matching(&req, &inventory).is_err());
    }
}

#[test]
fn probe_rejects_unknown_capabilities_and_duplicate_identity() {
    let mut unknown = inventory("cuda");
    unknown.devices[0].driver_version = "unknown".to_string();
    assert!(parse_inventory(unknown, "cuda").is_err());
    let mut twice = inventory("cuda");
    twice.devices.push(device("cuda"));
    assert!(parse_inventory(twice, "cuda").is_err());
}

#[test]
fn allocation_takes_the_first_devices_that_are_free() {
    let mut found = inventory("cuda");
    let mut second = device("cuda");
    second.id = "GPU-1".to_string();
    second.index = 1;
    found.devices.insert(0, second);
    let (_, mut target) = fixture();
    target.summary.accelerator = requirement("cuda", &device("cuda"));
    let mut plan = allocate(&target, &found, "/locks", false).unwrap();
    let lock = plan.next_lock().unwrap();
    assert_eq!(
        lock,
        sha256_bytes(b"cuda:GPU-00000000-0000-0000-0000-000000000000")
    );
    plan.record(false);
    assert!(plan.next_lock().is_some());
    plan.record(true);
    assert!(plan.next_lock().is_none());
    let launch = plan.finish(&found).unwrap();
    assert_eq!(launch.devices.len(), 1);
    assert_eq!(launch.devices[0].id, "GPU-1");
    target.summary.accelerator.count = 2;
    let mut plan = allocate(&target, &found, "/locks", false).unwrap();
    plan.record(true);
    plan.record(false);
    assert_eq!(
        plan.finish(&found).unwrap_err().message(),
        "compatible devices are already allocated"
    );
}

#[test]
fn allocation_is_exclusive_and_released_on_drop() {
    let (_, mut target) = fixture();
    let found = inventory("cuda");
    target.summary.accelerator = requirement("cuda", &device("cuda"));
    let mut held: Vec<String> = vec![];
    let take = |held: &mut Vec<String>, quarantined: bool| {
        let mut plan = allocate(&target, &found, "/locks", quarantined).map_err(|e| e.message())?;
        while let Some(lock) = plan.next_lock() {
            let got = !held.contains(&lock);
            if got {
                held.push(lock);
            }
            plan.record(got);
        }
        plan.finish(&found).map_err(|e| e.message())
    };
    assert_eq!(take(&mut held, false).unwrap().devices.len(), 1);
    assert_eq!(held.len(), 1);
    assert_eq!(
        take(&mut held, false).unwrap_err(),
        "compatible devices are already allocated"
    );
    held.clear();
    assert!(take(&mut held, false).is_ok());
    assert_eq!(
        take(&mut held, true).unwrap_err(),
        "node is quarantined after a container cleanup failure; inspect /locks/quarantine.json"
    );
    assert_eq!(quarantine_path("/locks/"), "/locks/quarantine.json");
}

#[test]
fn matching_ignores_the_order_and_more_finds_fewer() {
    let mut found = inventory("cuda");
    let mut turned = inventory("cuda");
    for (name, memory) in [("GPU-2", 81920), ("GPU-1", 40960), ("GPU-3", 81920)] {
        let mut more = device("cuda");
        more.id = name.to_string();
        more.index = memory as u32 + name.len() as u32;
        more.memory_mib = memory;
        if name == "GPU-3" {
            more.topology.insert("link".to_string(), "fast".to_string());
        }
        let mut copy = device("cuda");
        copy.id = more.id.clone();
        copy.index = more.index;
        copy.memory_mib = more.memory_mib;
        copy.topology = more.topology.clone();
        found.devices.push(more);
        turned.devices.insert(0, copy);
    }
    let ids = |r: &Accelerator, i: &Inventory| -> Vec<String> {
        matching(r, i).unwrap().iter().map(|d| d.id.clone()).collect()
    };
    let mut asked = requirement("cuda", &device("cuda"));
    asked.min_memory_mib = 0;
    let all = ids(&asked, &found);
    assert_eq!(all[1..], ["GPU-1", "GPU-2", "GPU-3"]);
    assert_eq!(ids(&asked, &turned), all);
    asked.min_memory_mib = 81920;
    assert_eq!(ids(&asked, &found)[1..], ["GPU-2", "GPU-3"]);
    asked.topology.insert("link".to_string(), "fast".to_string());
    assert_eq!(ids(&asked, &found), ["GPU-3"]);
    asked.count = 2;
    assert!(matching(&asked, &found).is_err() && matching(&asked, &turned).is_err());
}

#[test]
fn two_allocations_share_no_device() {
    let mut found = inventory("cuda");
    for (name, index) in [("GPU-3", 3), ("GPU-1", 1), ("GPU-2", 2)] {
        let mut more = device("cuda");
        more.id = name.to_string();
        more.index = index;
        found.devices.push(more);
    }
    let (_, mut target) = fixture();
    target.summary.accelerator = requirement("cuda", &device("cuda"));
    target.summary.accelerator.count = 2;
    let mut held: Vec<String> = vec![];
    let mut take = |count: u32| {
        target.summary.accelerator.count = count;
        let mut plan = allocate(&target, &found, "/locks", false).map_err(|e| e.message())?;
        while let Some(lock) = plan.next_lock() {
            let got = !held.contains(&lock);
            if got {
                held.push(lock);
            }
            plan.record(got);
        }
        let launch = plan.finish(&found).map_err(|e| e.message())?;
        Ok::<Vec<String>, String>(launch.devices.iter().map(|d| d.id.clone()).collect())
    };
    assert_eq!(
        take(2).unwrap(),
        ["GPU-00000000-0000-0000-0000-000000000000", "GPU-1"]
    );
    assert_eq!(take(2).unwrap(), ["GPU-2", "GPU-3"]);
    assert_eq!(take(1).unwrap_err(), "compatible devices are already allocated");
}

#[test]
fn outputs_that_need_not_be_there_are_taken_where_they_are() {
    assert!(is_taken(true, false) && is_taken(true, true) && is_taken(false, true));
    assert!(!is_taken(false, false));
}

#[test]
fn oci_cleanup_runs_after_timeout_and_failure() {
    for code in [124, 9] {
        assert_eq!(run_container(Ok(code), None).unwrap(), code);
    }
    let left = || CleanupFailure {
        runtime: "docker".to_string(),
        name: "c".to_string(),
        cause: "busy".to_string(),
    };
    for ran in [Ok(0), Err(Error::new("starting workload"))] {
        let failure = run_container(ran, Some(left())).unwrap_err();
        assert!(failure.quarantines);
        assert_eq!(
            failure.error.detail(),
            "failed to remove workload container; inspect the runtime before releasing this node: unable to remove docker container c: busy"
        );
    }
    let failure = run_container(Err(Error::new("starting workload")), None).unwrap_err();
    assert!(!failure.quarantines);
    assert_eq!(failure.error.detail(), "starting workload");
    assert_eq!(end_probe(Ok(vec![1, 2]), None).unwrap(), [1, 2]);
    let failure = end_probe(Err(Error::new("no answer")), Some(left())).unwrap_err();
    assert!(failure.quarantines);
    assert_eq!(failure.error.detail(), "unable to remove docker container c: busy");
    assert!(!end_probe(Err(Error::new("no answer")), None).unwrap_err().quarantines);
}

#[test]
fn containers_are_driven_by_commands() {
    assert_eq!(start_command("c"), ["start", "--attach", "c"]);
    assert_eq!(remove_command("c"), ["rm", "--force", "c"]);
    assert_eq!(load_command("/i.tar"), ["load", "-i", "/i.tar"]);
    assert_eq!(inspect_command("i"), ["image", "inspect", "--format", "{{.Id}}", "i"]);
}

#[test]
fn backends_show_the_allocated_devices_alone() {
    for backend in ["cuda", "rocm", "cann", "oneapi"] {
        let found = inventory(backend);
        let launch = adapter(backend).unwrap().configure(&found.devices, &found).unwrap();
        assert_eq!(launch.devices.len(), found.devices.len());
        for arg in &launch.args {
            assert!(found.devices.iter().any(|d| *arg
                == format!("--device=nvidia.com/gpu={}", d.id)
                || d.device_nodes.iter().any(|n| *arg == format!("--device={n}"))
                || arg.starts_with("--mount=type=bind,src=/usr/local/Ascend/driver,dst=")));
        }
    }
    for backend in ["tpu", "metal"] {
        let found = inventory(backend);
        assert!(adapter(backend).unwrap().configure(&found.devices, &found).unwrap().args.is_empty());
        assert!(adapter(backend).unwrap().configure(&[], &found).is_err());
    }
}

#[test]
fn unknown_backends_are_refused() {
    assert_eq!(adapter("abacus").unwrap_err().message(), "unknown accelerator abacus");
    assert_eq!(adapter("rocm").unwrap().id(), "rocm");
}

#[test]
fn only_accelerators_are_probed() {
    let (_, mut target) = fixture();
    match adapter("cpu").unwrap().probe(&target).unwrap() {
        Probe::Known(i) => assert!(i.devices.is_empty() && i.backend == "cpu"),
        Probe::Run(_) => panic!("nothing to ask"),
    }
    assert_eq!(
        adapter("cuda").unwrap().probe(&target).err().unwrap().message(),
        "missing locked accelerator probe"
    );
    target.probe = Some("/nix/store/probe".to_string());
    match adapter("cuda").unwrap().probe(&target).unwrap() {
        Probe::Known(_) => panic!("the probe was not asked"),
        Probe::Run(p) => assert_eq!(p, "/nix/store/probe"),
    }
}

#[test]
fn locks_and_quarantine() {
    assert_eq!(lock_root(None, "/tmp", 7), "/tmp/nix-compute-devices-7");
    assert_eq!(lock_root(Some("/var/lock".to_string()), "/tmp", 7), "/var/lock");
    assert_eq!(canonical_text(&quarantine("stuck")), "{\"reason\":\"stuck\"}");
}

#[test]
fn docker_and_podman_image_ids_use_the_same_digest() {
    let digest = "a".repeat(64);
    assert_eq!(
        normalize_image_id(&digest).unwrap(),
        normalize_image_id(&format!("sha256:{digest}")).unwrap()
    );
    assert!(normalize_image_id("nix-compute:job").is_err());
}

#[test]
fn images_are_named_by_their_configuration() {
    let manifest = |config: Json| {
        Json::list(vec![nix_compute::json::Members::new().with("Config", config).object()])
    };
    assert_eq!(image_config(&manifest(Json::text("c.json"))).unwrap(), "c.json");
    assert_eq!(
        image_config(&manifest(Json::Null)).unwrap_err().message(),
        "image config missing"
    );
    assert_eq!(
        image_config(&Json::list(vec![])).unwrap_err().message(),
        "expected exactly one image in archive"
    );
    assert_eq!(
        image_config(&Json::Null).unwrap_err().message(),
        "invalid Docker archive manifest"
    );
    assert_eq!(read_image_config(b"[{\"Config\": \"a/b\", \"RepoTags\": null}]").unwrap(), "a/b");
    assert_eq!(
        read_image_config(b"[").unwrap_err().message(),
        serde_json::from_slice::<serde_json::Value>(b"[").unwrap_err().to_string()
    );
    let id = image_id(b"{}");
    assert_eq!(id, format!("sha256:{}", sha256_bytes(b"{}")));
    assert_eq!(load_image(&format!(" {} \n", &id[7..].to_uppercase()), &id).unwrap(), id);
    assert_eq!(
        load_image(&"b".repeat(64), &id).unwrap_err().message(),
        "loaded image does not match archive config digest"
    );
    assert_eq!(
        load_image("latest", &id).unwrap_err().message(),
        "runtime returned an invalid image ID"
    );
}

#[test]
fn archives_are_searched_by_path_and_size() {
    assert!(is_gzip(&[0x1f, 0x8b, 8]));
    assert!(!is_gzip(&[0x1f]));
    assert!(choose_entry("./repositories.json", 10, "repositories.json").is_ok_and(|found| !found));
    assert!(choose_entry("repositories.json", IMAGE_ENTRY_LIMIT, "repositories.json").unwrap());
    assert!(!choose_entry("other", u64::MAX, "repositories.json").unwrap());
    assert_eq!(
        choose_entry("repositories.json", IMAGE_ENTRY_LIMIT + 1, "repositories.json")
            .unwrap_err()
            .message(),
        "oversized image manifest/config"
    );
    assert_eq!(missing_entry("x").message(), "image archive lacks x");
}

#[test]
fn native_workspace_and_resource_contract() {
    let (mut job, mut target) = fixture();
    let caps = Capabilities {
        system: "x86_64-linux".to_string(),
        cpu_cores: 4,
        memory_mib: 8192,
        container_runtime: None,
        container_runtime_version: None,
        oci_cpu_limits: false,
        oci_memory_limits: false,
    };
    check_host(&target.summary, &caps).unwrap();
    target.summary.resources.cpu_cores = Some(2);
    target.summary.resources.enforce = true;
    assert!(check_host(&target.summary, &caps).is_err());
    target.summary.resources.enforce = false;
    target.summary.execution.network = "none".to_string();
    assert!(check_host(&target.summary, &caps).is_err());
    target.summary.execution.network = "host".to_string();
    target.summary.execution.isolation = "container".to_string();
    assert!(check_host(&target.summary, &caps).is_err());
    target.summary.execution.isolation = "none".to_string();
    let workspace = Workspace::create("/runs/1").unwrap();
    target.summary.execution.env.insert("A".to_string(), "job".to_string());
    let mut launch = Launch::empty();
    launch.env.insert("A".to_string(), "device".to_string());
    job.reproducibility.seed = Some(42);
    let command = run_native(&job, &target, &launch, &workspace);
    assert!(command.program.ends_with("/bin/trainer"));
    assert_eq!(command.args, vec!["--steps".to_string(), "2".to_string()]);
    assert_eq!(command.directory, "/runs/1/work");
    assert_eq!(command.timeout_seconds, Some(60));
    let get = |k: &str| command.env.get(k).cloned();
    assert_eq!(get("A"), Some("device".to_string()));
    assert_eq!(get("PATH"), Some(String::new()));
    assert_eq!(get("NIX_COMPUTE_PARAMETERS"), Some("{\"steps\":2}".to_string()));
    assert_eq!(get("NIX_COMPUTE_OUTPUTS"), Some("/runs/1/outputs".to_string()));
    assert_eq!(get("NIX_COMPUTE_INPUTS"), Some("/runs/1/inputs".to_string()));
    assert_eq!(get("NIX_COMPUTE_SEED"), Some("42".to_string()));
    assert_eq!(get("HOME"), Some("/runs/1/tmp".to_string()));
    for root in ["/runs/a,b", "/runs/a:b"] {
        assert_eq!(
            Workspace::create(root).unwrap_err().message(),
            "workspace path cannot contain comma or colon"
        );
    }
}

#[test]
fn oci_arguments_do_not_duplicate_entrypoint() {
    let (job, mut target) = fixture();
    target.summary.execution.network = "none".to_string();
    target.summary.resources.cpu_cores = Some(2);
    target.summary.resources.memory_mib = Some(512);
    target.summary.resources.enforce = true;
    let workspace = Workspace::create("/runs/run").unwrap();
    let args = container_args(
        &job,
        &target,
        &Launch::empty(),
        &workspace,
        "docker",
        "container",
        "sha256:test",
        owner(),
        &vec![],
    )
    .unwrap();
    assert_eq!(args.iter().filter(|a| a.contains("/bin/trainer")).count(), 1);
    assert!(args.ends_with(&[
        "sha256:test".to_string(),
        "--steps".to_string(),
        "2".to_string()
    ]));
    for expected in [
        "--network=none",
        "--cpus=2",
        "--memory=512m",
        "--memory-swap=512m",
        "--read-only",
        "--cap-drop=ALL",
    ] {
        assert!(args.iter().any(|a| a == expected));
    }
    assert!(args.iter().any(|a| a == "NIX_COMPUTE_OUTPUTS=/outputs"));
}

#[test]
fn containers_run_as_somebody_else_than_the_superuser() {
    let (job, target) = fixture();
    let workspace = Workspace::create("/w").unwrap();
    let create = |runtime: &str, uid: u32| {
        container_args(
            &job,
            &target,
            &Launch::empty(),
            &workspace,
            runtime,
            "c",
            "i",
            Owner { uid, gid: 5 },
            &vec![],
        )
        .unwrap()
    };
    assert!(create("podman", 0).contains(&"--user=65532:65532".to_string()));
    assert!(!create("podman", 0).contains(&"--userns=keep-id".to_string()));
    assert!(create("podman", 1000).contains(&"--userns=keep-id".to_string()));
    assert!(create("docker", 1000).contains(&"--user=1000:5".to_string()));
    assert!(create("docker", 1000)
        .contains(&"--mount=type=bind,src=/w/inputs,dst=/inputs,readonly".to_string()));
    assert_eq!(
        handed_over(&workspace, Owner { uid: 0, gid: 0 }),
        vec!["/w/outputs".to_string(), "/w/work".to_string(), "/w/tmp".to_string()]
    );
    assert!(handed_over(&workspace, owner()).is_empty());
}

#[test]
fn device_groups_are_added_once_and_in_order() {
    let (job, target) = fixture();
    let workspace = Workspace::create("/w").unwrap();
    let mut launch = Launch::empty();
    launch.devices.push(device("cann"));
    assert_eq!(device_nodes(&launch).len(), 4);
    let create = |runtime: &str, found: Vec<NodeStatus>| {
        container_args(&job, &target, &launch, &workspace, runtime, "c", "i", owner(), &found)
    };
    let groups = vec![
        NodeStatus::Device(44),
        NodeStatus::Device(7),
        NodeStatus::Device(44),
        NodeStatus::Device(9),
    ];
    let args = create("docker", groups).unwrap();
    let added: Vec<&String> = args.iter().filter(|a| a.starts_with("--group-add")).collect();
    assert_eq!(added, ["--group-add=7", "--group-add=9", "--group-add=44"]);
    let all = || {
        vec![
            NodeStatus::Device(1),
            NodeStatus::Device(1),
            NodeStatus::Device(1),
            NodeStatus::Device(1),
        ]
    };
    assert!(create("podman", all()).unwrap().contains(&"--group-add=keep-groups".to_string()));
    let mut bad = all();
    bad[1] = NodeStatus::Other;
    bad[2] = NodeStatus::Missing("gone".to_string());
    assert_eq!(
        create("docker", bad).unwrap_err().message(),
        "not a character device: /dev/davinci_manager"
    );
    let mut gone = all();
    gone[0] = NodeStatus::Missing("gone".to_string());
    assert_eq!(
        create("docker", gone).unwrap_err().detail(),
        "missing device node /dev/davinci0: gone"
    );
}

#[test]
fn the_inner_probe_sees_every_device_that_was_handed_out() {
    let (job, mut target) = fixture();
    let workspace = Workspace::create("/w").unwrap();
    let mut launch = Launch::empty();
    launch.env.insert("CUDA_VISIBLE_DEVICES".to_string(), "1".to_string());
    let ask = |target: &Target, launch: &Launch| {
        prepare_oci_launch(
            &job, target, launch, &workspace, "docker", "p", "i", owner(), &vec![],
        )
    };
    match ask(&target, &launch).unwrap() {
        Preparation::Keep(l) => assert_eq!(l.env.len(), 1),
        Preparation::Ask(_) => panic!("nothing to ask"),
    }
    target.summary.accelerator.id = "cuda".to_string();
    assert_eq!(ask(&target, &launch).err().unwrap().message(), "missing OCI probe");
    target.probe = Some("/nix/store/probe".to_string());
    target
        .summary
        .execution
        .env
        .insert("ZE_AFFINITY_MASK".to_string(), "0".to_string());
    match ask(&target, &launch).unwrap() {
        Preparation::Keep(_) => panic!("the probe was not asked"),
        Preparation::Ask(args) => {
            assert!(args.ends_with(&["--entrypoint=/nix/store/probe".to_string(), "i".to_string()]));
            assert!(!args.iter().any(|a| a.starts_with("CUDA_VISIBLE_DEVICES")));
            assert!(!args.iter().any(|a| a.starts_with("ZE_AFFINITY_MASK")));
        }
    }
}

#[test]
fn container_device_ordinals_are_remapped_by_identity() {
    let (_, mut target) = fixture();
    let mut host = parse_inventory(inventory("rocm"), "rocm").unwrap();
    host.devices[0].index = 3;
    let d = device("rocm");
    target.summary.accelerator = requirement("rocm", &d);
    target.summary.accelerator.min_memory_mib = 1;
    let launch = adapter("rocm").unwrap().configure(&host.devices, &host).unwrap();
    let mut inside = inventory("rocm");
    inside.devices[0].index = 0;
    let mapped = remap_launch(&target, &launch, &inside).unwrap();
    assert_eq!(mapped.env.get("ROCR_VISIBLE_DEVICES").unwrap(), "0");
    assert_eq!(mapped.devices[0].index, 3);
    inside.devices[0].id = "unexpected".to_string();
    assert!(remap_launch(&target, &launch, &inside).is_err());
}

#[test]
fn artifact_symlinks_cannot_escape_workspace() {
    assert!(output_path("escape", "/etc/passwd", "/runs/1/outputs", true).is_err());
    assert!(output_path("../x", "/runs/1/outputs/x", "/runs/1/outputs", true).is_err());
    assert!(output_path("dir", "/runs/1/outputs/dir", "/runs/1/outputs", false).is_err());
    assert_eq!(
        output_path("model", "/runs/1/outputs/model", "/runs/1/outputs", true).unwrap(),
        "/runs/1/outputs/model"
    );
    assert!(output_path("model", "/runs/1/outputs2/model", "/runs/1/outputs", true).is_err());
}

#[test]
fn new_names_differ() {
    assert_ne!(new_run_id(), new_run_id());
    assert_eq!(new_run_id().len(), 36);
    assert!(workload_name().starts_with("nix-compute-"));
    assert_ne!(probe_name(), probe_name());
    assert_eq!(probe_name().len(), "nix-compute-probe-".len() + 36);
}

#[test]
fn cleanup_failures_name_the_container() {
    let failure = CleanupFailure {
        runtime: "podman".to_string(),
        name: "c1".to_string(),
        cause: "busy".to_string(),
    };
    assert_eq!(failure.message(), "unable to remove podman container c1: busy");
}
