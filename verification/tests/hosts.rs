use nix_compute::accelerator::{Device, Inventory};
use nix_compute::canonical::canonical_text;
use nix_compute::host::{
    check_docker_context, check_docker_endpoint, check_host, detect_capabilities,
    docker_context_command, docker_host, docker_limits, limits_command, memory_of_darwin,
    memory_of_linux, podman_limits, runtime_limits, select, Candidate, Capabilities,
    FoundRuntime, RuntimeSearch,
};
use nix_compute::json::{Json, Members};
use nix_compute::map::StringMap;
use nix_compute::model::{
    Accelerator, Artifacts, ComputeJob, Execution, Reproducibility, Resources, Target,
    TargetSummary,
};
use nix_compute::process::{capture, check_launch, wait, Ended};
use nix_compute::rendezvous::{claim_path, Claim, PortSearch, Reservation, PORT_ATTEMPTS};
use nix_compute::selection::{
    candidate_names, check_devices, check_entrypoint, check_program, closure_roots, named_target,
    outputs_to_build,
};

fn summary() -> TargetSummary {
    TargetSummary {
        name: "local".to_string(),
        system: "x86_64-linux".to_string(),
        executor: "native".to_string(),
        accelerator: Accelerator {
            id: "cpu".to_string(),
            count: 1,
            min_memory_mib: 0,
            architectures: vec![],
            driver_range: None,
            runtime_version: None,
            topology: StringMap::new(),
        },
        resources: Resources { cpu_cores: None, memory_mib: None, enforce: false },
        execution: Execution {
            network: "host".to_string(),
            isolation: "none".to_string(),
            timeout_seconds: None,
            env: StringMap::new(),
        },
    }
}

fn target() -> Target {
    Target {
        summary: summary(),
        program_output: "p".to_string(),
        program: "/nix/store/trainer".to_string(),
        entrypoint: vec!["/nix/store/trainer/bin/trainer".to_string()],
        probe_output: None,
        probe: None,
        image_output: None,
        image_name: "n".to_string(),
        runtime_paths: vec!["/nix/store/runtime".to_string()],
        runtime_output: None,
    }
}

fn job(names: &[&str]) -> ComputeJob {
    let mut targets = StringMap::new();
    for name in names {
        targets.insert(name.to_string(), summary());
    }
    ComputeJob {
        schema_version: 2,
        name: "train".to_string(),
        artifacts: Artifacts { inputs: StringMap::new(), outputs: StringMap::new() },
        parameters: StringMap::new(),
        reproducibility: Reproducibility { contract: "environment-inputs".to_string(), seed: None },
        targets,
    }
}

fn caps() -> Capabilities {
    Capabilities {
        system: "x86_64-linux".to_string(),
        cpu_cores: 4,
        memory_mib: 8192,
        container_runtime: None,
        container_runtime_version: None,
        oci_cpu_limits: false,
        oci_memory_limits: false,
    }
}

#[test]
fn ambiguity_and_no_match_are_errors() {
    let mut candidates = StringMap::new();
    candidates.insert("cpu".to_string(), Candidate::Fits);
    candidates.insert("cuda".to_string(), Candidate::Fits);
    assert!(select(&candidates).unwrap_err().message().contains("2 compatible"));
    candidates.insert("cuda".to_string(), Candidate::Refused("no GPU".to_string()));
    assert_eq!(select(&candidates).unwrap(), "cpu");
    candidates.insert("cpu".to_string(), Candidate::Refused("no runtime".to_string()));
    assert!(select(&candidates).unwrap_err().message().contains("no GPU"));
}

#[test]
fn a_choice_that_fails_tells_of_every_target() {
    let mut candidates = StringMap::new();
    candidates.insert("b".to_string(), Candidate::Refused("no GPU".to_string()));
    candidates.insert("a".to_string(), Candidate::Refused("no CPU".to_string()));
    assert_eq!(
        select(&candidates).unwrap_err().message(),
        "0 compatible targets; select --target explicitly. a: no CPU; b: no GPU"
    );
    candidates.insert("c".to_string(), Candidate::Fits);
    candidates.insert("d".to_string(), Candidate::Fits);
    assert_eq!(
        select(&candidates).unwrap_err().message(),
        "2 compatible targets; select --target explicitly. a: no CPU; b: no GPU; c: compatible; d: compatible"
    );
}

#[test]
fn every_reason_against_a_host() {
    let reason = |change: &dyn Fn(&mut TargetSummary, &mut Capabilities)| {
        let mut s = summary();
        let mut c = caps();
        change(&mut s, &mut c);
        match check_host(&s, &c) {
            Ok(()) => "fits".to_string(),
            Err(e) => e.message(),
        }
    };
    assert_eq!(reason(&|_, _| {}), "fits");
    assert_eq!(
        reason(&|_, c| c.system = "aarch64-linux".to_string()),
        "target system x86_64-linux differs from host aarch64-linux"
    );
    assert_eq!(reason(&|s, _| s.resources.cpu_cores = Some(4)), "fits");
    assert_eq!(reason(&|s, _| s.resources.cpu_cores = Some(5)), "insufficient CPU cores");
    assert_eq!(reason(&|s, _| s.resources.memory_mib = Some(8193)), "insufficient host memory");
    assert_eq!(
        reason(&|s, _| {
            s.resources.cpu_cores = Some(2);
            s.resources.enforce = true;
        }),
        "native executor cannot enforce CPU/memory limits"
    );
    assert_eq!(
        reason(&|s, _| s.execution.network = "none".to_string()),
        "native executor cannot enforce network isolation; explicitly select execution.network = host"
    );
    assert_eq!(
        reason(&|s, _| s.execution.isolation = "container".to_string()),
        "native executor cannot enforce container isolation"
    );
    assert_eq!(reason(&|s, _| s.executor = "vm".to_string()), "unknown executor");
    let oci = |s: &mut TargetSummary, c: &mut Capabilities| {
        s.executor = "oci".to_string();
        s.resources.enforce = true;
        s.resources.cpu_cores = Some(1);
        s.resources.memory_mib = Some(1);
        c.container_runtime = Some("podman".to_string());
    };
    assert_eq!(
        reason(&|s, c| {
            oci(s, c);
            c.container_runtime = None;
        }),
        "no working local Podman/Docker service"
    );
    assert_eq!(reason(&|s, c| oci(s, c)), "OCI runtime cannot confirm CPU quota enforcement");
    assert_eq!(
        reason(&|s, c| {
            oci(s, c);
            c.oci_cpu_limits = true;
        }),
        "OCI runtime cannot confirm memory/swap limit enforcement"
    );
    assert_eq!(
        reason(&|s, c| {
            oci(s, c);
            c.oci_cpu_limits = true;
            c.oci_memory_limits = true;
        }),
        "fits"
    );
}

#[test]
fn memory_is_read_from_what_the_system_tells() {
    let report = "MemFree: 12 kB\nMemTotal:       65798124 kB\r\nMemTotal: 1 kB\n";
    assert_eq!(memory_of_linux(report).unwrap(), 65798124 / 1024);
    assert_eq!(memory_of_linux("MemTotal:\nMemTotal: x\nMemTotal: 4096").unwrap(), 4);
    assert_eq!(
        memory_of_linux("MemFree: 1").unwrap_err().message(),
        "cannot determine host memory"
    );
    assert_eq!(memory_of_darwin("17179869184\n").unwrap(), 16384);
    assert_eq!(
        memory_of_darwin("much").unwrap_err().message(),
        "much".parse::<u64>().unwrap_err().to_string()
    );
}

fn podman(remote: Json, version: &str, controllers: Vec<Json>) -> Json {
    let host = Members::new()
        .with("serviceIsRemote", remote)
        .with("cgroupVersion", Json::text(version))
        .with("cgroupControllers", Json::list(controllers))
        .object();
    Members::new().with("host", host).object()
}

#[test]
fn runtimes_tell_which_limits_they_enforce() {
    let info = podman(Json::Bool(false), "v2", vec![Json::text("memory"), Json::text("pids")]);
    assert_eq!(podman_limits(&info).unwrap(), (false, true));
    let info = podman(Json::Bool(false), "v1", vec![Json::text("cpu")]);
    assert_eq!(podman_limits(&info).unwrap(), (false, false));
    for remote in [Json::Bool(true), Json::Null] {
        assert_eq!(
            podman_limits(&podman(remote, "v2", vec![])).unwrap_err().message(),
            "remote Podman execution is unsupported"
        );
    }
    let docker = |cpu: bool, memory: bool, swap: bool| {
        docker_limits(
            &Members::new()
                .with("CpuCfsQuota", Json::Bool(cpu))
                .with("MemoryLimit", Json::Bool(memory))
                .with("SwapLimit", Json::Bool(swap))
                .object(),
        )
    };
    assert_eq!(docker(true, true, false), (true, false));
    assert_eq!(docker(false, true, true), (false, true));
    assert_eq!(docker_limits(&Json::Null), (false, false));
}

#[test]
fn runtimes_are_asked_and_heard() {
    assert_eq!(limits_command("podman"), ["info", "--format", "json"]);
    assert_eq!(limits_command("docker"), ["info", "--format", "{{json .}}"]);
    assert_eq!(
        docker_context_command(),
        ["context", "inspect", "--format", "{{json .Endpoints.docker.Host}}"]
    );
    let report = b"{\"host\": {\"cgroupVersion\": \"v2\", \"serviceIsRemote\": false, \"cgroupControllers\": [\"cpu\"]}}";
    assert_eq!(runtime_limits("podman", report).unwrap(), (true, false));
    let report = b"{\"CpuCfsQuota\":false,\"MemoryLimit\":true,\"SwapLimit\":true}";
    assert_eq!(runtime_limits("docker", report).unwrap(), (false, true));
    assert_eq!(
        runtime_limits("podman", report).unwrap_err().message(),
        "remote Podman execution is unsupported"
    );
    assert_eq!(
        runtime_limits("docker", b"{").unwrap_err().message(),
        serde_json::from_slice::<serde_json::Value>(b"{").unwrap_err().to_string()
    );
    assert!(check_docker_context(b"\"unix:///var/run/docker.sock\"\n").is_ok());
    assert_eq!(
        check_docker_context(b"\"tcp://far:2375\"").unwrap_err().message(),
        "remote Docker execution is unsupported"
    );
    assert_eq!(
        check_docker_context(b"7").unwrap_err().message(),
        serde_json::from_slice::<String>(b"7").unwrap_err().to_string()
    );
}

#[test]
fn docker_must_be_local() {
    let text = |s: &str| Some(s.to_string());
    assert_eq!(docker_host(None, text("tcp://x")), text("tcp://x"));
    assert_eq!(docker_host(text(""), text("tcp://x")), text("tcp://x"));
    assert_eq!(docker_host(text("ctx"), text("tcp://x")), None);
    assert!(check_docker_endpoint("unix:///run/docker.sock").is_ok());
    assert_eq!(
        check_docker_endpoint("tcp://x").unwrap_err().message(),
        "remote Docker execution is unsupported"
    );
}

#[test]
fn the_first_runtime_that_works_is_taken() {
    let mut search = RuntimeSearch::new();
    assert_eq!(search.next(), Some("podman".to_string()));
    search.record(None);
    assert_eq!(search.next(), Some("docker".to_string()));
    search.record(Some((true, false)));
    assert_eq!(search.next(), None);
    let found = search.finish().unwrap();
    assert_eq!((found.name.as_str(), found.cpu, found.memory), ("docker", true, false));
    let mut search = RuntimeSearch::new();
    search.record(Some((false, false)));
    assert_eq!(search.next(), None);
    assert_eq!(search.finish().unwrap().name, "podman");
    let mut search = RuntimeSearch::new();
    search.record(None);
    search.record(None);
    assert_eq!(search.next(), None);
    assert!(search.finish().is_none());
}

#[test]
fn capabilities_are_put_together() {
    let found = FoundRuntime { name: "podman".to_string(), cpu: true, memory: false };
    let c = detect_capabilities(
        "x86_64-linux".to_string(),
        8,
        "MemTotal: 2048 kB",
        Some(found),
        " podman version 5\n",
    )
    .unwrap();
    assert_eq!(
        canonical_text(&c.to_json()),
        "{\"container_runtime\":\"podman\",\"container_runtime_version\":\"podman version 5\",\"cpu_cores\":8,\"memory_mib\":2,\"oci_cpu_limits\":true,\"oci_memory_limits\":false,\"system\":\"x86_64-linux\"}"
    );
    let c = detect_capabilities("aarch64-darwin".to_string(), 8, "1048576", None, "").unwrap();
    assert_eq!(c.memory_mib, 1);
    assert!(c.container_runtime.is_none() && c.container_runtime_version.is_none());
    assert!(detect_capabilities("x86_64-linux".to_string(), 8, "1048576", None, "").is_err());
}

#[test]
fn targets_are_named_or_the_only_one() {
    assert_eq!(named_target(&job(&["a"]), &None).unwrap(), "a");
    assert_eq!(named_target(&job(&["a", "b"]), &Some("b".to_string())).unwrap(), "b");
    assert_eq!(
        named_target(&job(&["b", "a"]), &None).unwrap_err().message(),
        "--target is required; declared targets: a, b"
    );
    assert_eq!(
        named_target(&job(&["a"]), &Some("z".to_string())).unwrap_err().message(),
        "unknown target z"
    );
    assert_eq!(candidate_names(&job(&["b", "a"]), &None).unwrap(), ["a", "b"]);
    assert_eq!(candidate_names(&job(&["b", "a"]), &Some("b".to_string())).unwrap(), ["b"]);
    assert!(candidate_names(&job(&["a"]), &Some("b".to_string())).is_err());
}

#[test]
fn only_as_many_devices_are_tried_as_are_asked_for() {
    let tpu = |n: u32| Device {
        id: format!("tpu-{n}"),
        index: n,
        architecture: "v5".to_string(),
        memory_mib: 16384,
        driver_version: "1.0.0".to_string(),
        runtime_version: "0.4".to_string(),
        topology: StringMap::new(),
        device_nodes: vec![],
        driver_mounts: StringMap::new(),
    };
    let inventory = |n: u32| Inventory {
        version: 1,
        backend: "tpu".to_string(),
        devices: (0..n).map(tpu).collect(),
    };
    let mut t = target();
    assert!(check_devices(
        &t,
        &Inventory { version: 1, backend: "cpu".to_string(), devices: vec![] }
    )
    .is_ok());
    t.summary.accelerator = Accelerator {
        id: "tpu".to_string(),
        count: 1,
        min_memory_mib: 1,
        architectures: vec!["v5".to_string()],
        driver_range: Some(">=1.0.0".to_string()),
        runtime_version: Some("0.4".to_string()),
        topology: StringMap::new(),
    };
    assert!(check_devices(&t, &inventory(1)).is_ok());
    assert_eq!(
        check_devices(&t, &inventory(2)).unwrap_err().message(),
        "native TPU adapter requires allocation of the complete local topology"
    );
    assert!(check_devices(&t, &inventory(0)).is_err());
}

#[test]
fn what_a_target_runs_is_built_last() {
    let mut t = target();
    t.summary.executor = "native".to_string();
    t.program_output = "program".to_string();
    t.probe_output = Some("probe".to_string());
    t.runtime_output = Some("runtime".to_string());
    t.image_output = None;
    assert_eq!(outputs_to_build(&t), ["probe", "runtime", "program"]);
    t.probe_output = None;
    assert_eq!(outputs_to_build(&t), ["runtime", "program"]);
    t.summary.executor = "oci".to_string();
    t.image_output = Some("image".to_string());
    assert_eq!(outputs_to_build(&t), ["image"]);
}

#[test]
fn ports_are_claimed_by_files_of_their_own() {
    assert_eq!(claim_path("/locks/ports", 29500), "/locks/ports/29500");
    assert_ne!(claim_path("/locks/ports", 1), claim_path("/locks/ports", 11));
}

#[test]
fn programs_and_entrypoints_are_what_was_declared() {
    let t = target();
    assert!(check_program("/nix/store/trainer", &t).is_ok());
    assert_eq!(
        check_program("/nix/store/other", &t).unwrap_err().message(),
        "program metadata differs from built output"
    );
    let roots = closure_roots(
        "/nix/store/trainer",
        &Some("/nix/store/sdk".to_string()),
        &None,
        &Some("/nix/store/image".to_string()),
        &t,
    );
    assert_eq!(
        roots,
        ["/nix/store/trainer", "/nix/store/sdk", "/nix/store/image", "/nix/store/runtime"]
    );
    assert!(check_entrypoint("/nix/store/trainer/bin/t", &roots).is_ok());
    assert_eq!(
        check_entrypoint("/nix/store/trainer2/bin/t", &roots).unwrap_err().message(),
        "entrypoint is outside the declared program/runtime closure"
    );
}

#[test]
fn processes_end_by_cancelling_by_themselves_or_by_time() {
    let code = |c: i32| Some(Ended { code: Some(c) });
    assert_eq!(wait(true, code(3), 9, Some(1)), Some(130));
    assert_eq!(wait(false, code(3), 9, Some(1)), Some(3));
    assert_eq!(wait(false, Some(Ended { code: None }), 0, None), Some(1));
    assert_eq!(wait(false, None, 1, Some(1)), Some(124));
    assert_eq!(wait(false, None, 0, Some(1)), None);
    assert_eq!(wait(false, None, u64::MAX, None), None);
    assert!(check_launch(false).is_ok());
    assert_eq!(check_launch(true).unwrap_err().message(), "cancelled before launch");
    assert!(capture(0, "noise").is_ok());
    assert_eq!(
        capture(2, "no such file").unwrap_err().message(),
        "command failed or timed out: no such file"
    );
}

#[test]
fn port_is_reserved_until_handoff_and_claim_is_released_on_drop() {
    let mut claims = vec![4000];
    let mut bound = vec![4000];
    let mut reserve = |claims: &mut Vec<u16>, bound: &mut Vec<u16>| {
        let mut search = PortSearch::new();
        for port in 4000.. {
            search.goes_on().unwrap();
            let claim = if claims.contains(&port) { Claim::Taken } else { Claim::Granted };
            if let Some(found) = Reservation::allocate(&mut search, port, claim).unwrap() {
                claims.push(port);
                bound.push(port);
                return found;
            }
        }
        unreachable!()
    };
    let mut reservation = reserve(&mut claims, &mut bound);
    let port = reservation.port();
    assert_eq!(port, 4001);
    assert!(reservation.is_listening());
    let second = reserve(&mut claims, &mut bound);
    assert_ne!(port, second.port());
    reservation.handoff();
    assert!(!reservation.is_listening());
    assert_eq!(reservation.port(), port);
    assert!(claims.contains(&port));
    claims.retain(|p| *p != port);
    assert_eq!(reserve(&mut claims, &mut bound).port(), port);
}

#[test]
fn the_search_for_a_port_ends() {
    let mut search = PortSearch::new();
    assert_eq!(
        Reservation::allocate(&mut search, 4002, Claim::Broken("io".to_string()))
            .unwrap_err()
            .detail(),
        "reserving rendezvous port: io"
    );
    let mut search = PortSearch::new();
    for _ in 0..PORT_ATTEMPTS {
        search.goes_on().unwrap();
        assert!(Reservation::allocate(&mut search, 1, Claim::Taken).unwrap().is_none());
    }
    assert_eq!(
        search.goes_on().unwrap_err().message(),
        "unable to reserve an available rendezvous port"
    );
}
