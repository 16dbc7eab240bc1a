use nix_compute::json::{Json, Members};
use nix_compute::map::StringMap;
use nix_compute::model::{
    digest_valid, relative_path, safe_name, Accelerator, Artifacts, ComputeJob, Execution,
    InputArtifact, OutputArtifact, Reproducibility, Resources, Target, TargetSummary,
};
use nix_compute::canonical::canonical_text;
use nix_compute::nix::{
    archive_expression, check_fragment, output_function, path_reference_base, source_expression,
    Selector,
};

fn cpu_summary() -> TargetSummary {
    TargetSummary {
        name: "local".to_string(),
        system: "x86_64-linux".to_string(),
        executor: "native".to_string(),
        accelerator: Accelerator {
            id: "cpu".to_string(),
            count: 1,
            min_memory_mib: 0,
            architectures: vec![],
            driver_range: None,
            runtime_version: None,
            topology: StringMap::new(),
        },
        resources: Resources { cpu_cores: None, memory_mib: None, enforce: false },
        execution: Execution {
            network: "host".to_string(),
            isolation: "none".to_string(),
            timeout_seconds: None,
            env: StringMap::new(),
        },
    }
}

fn fixture() -> (ComputeJob, Target) {
    let mut parameters = StringMap::new();
    parameters.insert("steps".to_string(), Json::unsigned(2));
    let mut outputs = StringMap::new();
    outputs.insert(
        "checkpoint".to_string(),
        OutputArtifact { path: "checkpoint".to_string(), destination: None, required: true },
    );
    let mut targets = StringMap::new();
    targets.insert("local".to_string(), cpu_summary());
    let job = ComputeJob {
        schema_version: 2,
        name: "train".to_string(),
        artifacts: Artifacts { inputs: StringMap::new(), outputs },
        parameters,
        reproducibility: Reproducibility { contract: "environment-inputs".to_string(), seed: None },
        targets,
    };
    let program = "/nix/store/00000000000000000000000000000000-trainer".to_string();
    let target = Target {
        summary: cpu_summary(),
        program_output: "computePrograms.train.local".to_string(),
        program: program.clone(),
        entrypoint: vec![
            format!("{program}/bin/trainer"),
            "--steps".to_string(),
            "2".to_string(),
        ],
        probe_output: None,
        probe: None,
        image_output: None,
        image_name: "train-local".to_string(),
        runtime_paths: vec![],
        runtime_output: None,
    };
    (job, target)
}

fn gpu_target() -> Target {
    let (_, mut target) = fixture();
    target.summary.executor = "oci".to_string();
    target.summary.execution.network = "none".to_string();
    target.summary.execution.isolation = "container".to_string();
    target.summary.accelerator = Accelerator {
        id: "cuda".to_string(),
        count: 2,
        min_memory_mib: 1,
        architectures: vec!["sm_90".to_string()],
        driver_range: Some(">=550.54.15, <600.0.0".to_string()),
        runtime_version: Some("12.4".to_string()),
        topology: StringMap::new(),
    };
    target.image_output = Some("computeImages.train.cuda".to_string());
    target.probe = Some("/nix/store/probe/bin/probe".to_string());
    target.probe_output = Some("computeProbes.train.cuda".to_string());
    target.runtime_paths = vec!["/nix/store/cuda-runtime".to_string()];
    target
}

fn input(path: &str) -> InputArtifact {
    InputArtifact {
        uri: "file:///data".to_string(),
        sha256: "0".repeat(64),
        path: path.to_string(),
    }
}

#[test]
fn artifact_paths_are_relative_components() {
    for path in ["../x", "a/../../b", "/tmp/x", "", "a\\b", "./x"] {
        assert!(relative_path(path).is_err(), "{path}");
    }
    for path in ["checkpoint", "epoch.1/model.bin", "file..bin"] {
        assert!(relative_path(path).is_ok());
    }
}

#[test]
fn v2_contract_rejects_ignored_or_incompatible_requirements() {
    let (mut job, mut target) = fixture();
    job.validate().unwrap();
    target.validate().unwrap();
    job.schema_version = 1;
    assert!(job.validate().unwrap_err().message().contains("migrate"));
    target.summary.accelerator.id = "metal".to_string();
    assert!(target.validate().is_err());
    target.summary.accelerator.id = "cpu".to_string();
    target
        .summary
        .execution
        .env
        .insert("NIX_COMPUTE_OUTPUTS".to_string(), "/escape".to_string());
    assert!(target.validate().is_err());
}

#[test]
fn path_failures_show_the_path() {
    assert_eq!(
        relative_path("a\\b").unwrap_err().message(),
        "invalid relative artifact path \"a\\\\b\""
    );
    assert_eq!(
        relative_path("../x").unwrap_err().message(),
        "artifact path must contain only relative normal components: ../x"
    );
}

#[test]
fn names_and_digests() {
    assert!(safe_name("train-1_b"));
    for name in ["", "a.b", "a b", "é"] {
        assert!(!safe_name(name));
    }
    assert!(digest_valid(&"aF0".repeat(22)[..64]));
    assert!(!digest_valid(&"a".repeat(63)));
    assert!(!digest_valid(&"g".repeat(64)));
}

#[test]
fn every_reason_against_a_summary() {
    let reason = |change: &dyn Fn(&mut TargetSummary)| {
        let mut s = cpu_summary();
        change(&mut s);
        match s.validate() {
            Ok(()) => "sound".to_string(),
            Err(e) => e.message(),
        }
    };
    assert_eq!(reason(&|_| {}), "sound");
    assert_eq!(reason(&|s| s.name = "a b".to_string()), "invalid target name");
    assert_eq!(reason(&|s| s.system = "riscv".to_string()), "unsupported target system");
    assert_eq!(reason(&|s| s.executor = "vm".to_string()), "unsupported executor");
    assert_eq!(
        reason(&|s| {
            s.executor = "oci".to_string();
            s.system = "aarch64-darwin".to_string();
        }),
        "OCI requires Linux"
    );
    assert_eq!(
        reason(&|s| s.execution.network = "bridge".to_string()),
        "unsupported network policy"
    );
    assert_eq!(
        reason(&|s| s.execution.isolation = "jail".to_string()),
        "unsupported isolation policy"
    );
    assert_eq!(
        reason(&|s| s.execution.timeout_seconds = Some(0)),
        "timeout must be positive"
    );
    assert_eq!(
        reason(&|s| s.resources.cpu_cores = Some(0)),
        "resources must be positive"
    );
    assert_eq!(
        reason(&|s| s.resources.memory_mib = Some(0)),
        "resources must be positive"
    );
    assert_eq!(
        reason(&|s| s.execution.env.insert("1A".to_string(), "x".to_string())),
        "invalid environment key"
    );
    assert_eq!(
        reason(&|s| s.execution.env.insert("A".to_string(), "x\0".to_string())),
        "reserved or invalid environment variable A"
    );
    assert_eq!(
        reason(&|s| s.accelerator.count = 0),
        "accelerator count must be positive"
    );
    assert_eq!(
        reason(&|s| s.accelerator.count = 2),
        "use resources for CPU requirements"
    );
    assert_eq!(
        reason(&|s| s.accelerator.id = "metal".to_string()),
        "Metal requires native Apple Silicon"
    );
    assert_eq!(
        reason(&|s| {
            s.accelerator.id = "tpu".to_string();
            s.executor = "oci".to_string();
        }),
        "TPU requires native Linux"
    );
    assert_eq!(
        reason(&|s| s.accelerator.id = "cuda".to_string()),
        "backend requires Linux OCI"
    );
    assert_eq!(
        reason(&|s| s.accelerator.id = "rocm".to_string()),
        "backend requires x86_64 Linux OCI"
    );
    assert_eq!(
        reason(&|s| s.accelerator.id = "abacus".to_string()),
        "unsupported accelerator abacus"
    );
}

#[test]
fn accelerators_pin_down_what_they_need() {
    let reason = |change: &dyn Fn(&mut Target)| {
        let mut t = gpu_target();
        change(&mut t);
        match t.validate() {
            Ok(()) => "sound".to_string(),
            Err(e) => e.message(),
        }
    };
    assert_eq!(reason(&|_| {}), "sound");
    assert_eq!(
        reason(&|t| t.summary.accelerator.driver_range = None),
        "accelerators require an explicit driver_range"
    );
    assert_eq!(
        reason(&|t| t.summary.accelerator.driver_range = Some("new".to_string())),
        "invalid driver_range (use semver syntax)"
    );
    assert_eq!(
        reason(&|t| t.summary.accelerator.runtime_version = Some(String::new())),
        "accelerators require an exact runtime_version"
    );
    assert_eq!(
        reason(&|t| t.summary.accelerator.architectures = vec![]),
        "accelerators require explicit architectures"
    );
    assert_eq!(
        reason(&|t| t.probe = None),
        "accelerator requires a locked probe derivation"
    );
    assert_eq!(
        reason(&|t| t.runtime_paths = vec!["/usr/lib".to_string()]),
        "accelerator requires locked runtimePackages"
    );
    assert_eq!(reason(&|t| t.image_output = None), "image/executor mismatch");
    assert_eq!(
        reason(&|t| t.program = "/bin/sh".to_string()),
        "program must be a Nix store derivation output"
    );
    assert_eq!(
        reason(&|t| t.entrypoint = vec![]),
        "entrypoint must use a Nix store executable"
    );
    assert_eq!(
        reason(&|t| t.entrypoint.push("a\0b".to_string())),
        "entrypoint must use a Nix store executable"
    );
}

#[test]
fn a_failed_range_tells_why() {
    let mut t = gpu_target();
    t.summary.accelerator.driver_range = Some("new".to_string());
    let e = t.validate().unwrap_err();
    assert_eq!(e.chain.len(), 2);
    assert_eq!(e.chain[1], semver::VersionReq::parse("new").unwrap_err().to_string());
    assert_eq!(e.detail(), format!("{}: {}", e.chain[0], e.chain[1]));
}

#[test]
fn every_reason_against_a_job() {
    let reason = |change: &dyn Fn(&mut ComputeJob)| {
        let (mut job, _) = fixture();
        change(&mut job);
        match job.validate() {
            Ok(()) => "sound".to_string(),
            Err(e) => e.message(),
        }
    };
    assert_eq!(reason(&|_| {}), "sound");
    assert_eq!(
        reason(&|j| j.schema_version = 3),
        "unsupported schema; migrate to compute.jobs.<job>.targets.<target> and perTarget"
    );
    assert_eq!(reason(&|j| j.name = "a/b".to_string()), "invalid job name");
    assert_eq!(
        reason(&|j| j.targets = StringMap::new()),
        "job must explicitly declare targets"
    );
    assert_eq!(
        reason(&|j| j.reproducibility.contract = "bitwise".to_string()),
        "unsupported reproducibility contract"
    );
    assert_eq!(
        reason(&|j| j.artifacts.inputs.insert("a b".to_string(), input("x"))),
        "invalid input name a b"
    );
    assert_eq!(
        reason(&|j| {
            let mut i = input("x");
            i.sha256 = "12".to_string();
            j.artifacts.inputs.insert("data".to_string(), i);
        }),
        "invalid input digest data"
    );
    assert_eq!(
        reason(&|j| {
            j.artifacts.inputs.insert("a".to_string(), input("data"));
            j.artifacts.inputs.insert("b".to_string(), input("data/part"));
        }),
        "input paths overlap"
    );
    assert_eq!(
        reason(&|j| {
            j.artifacts.inputs.insert("a".to_string(), input("data"));
            j.artifacts.inputs.insert("b".to_string(), input("data2"));
        }),
        "sound"
    );
    assert_eq!(
        reason(&|j| j.artifacts.outputs.insert(
            "o!".to_string(),
            OutputArtifact { path: "x".to_string(), destination: None, required: false }
        )),
        "invalid output name o!"
    );
    assert_eq!(
        reason(&|j| j.targets.insert("other".to_string(), cpu_summary())),
        "target name mismatch"
    );
}

#[test]
fn the_identity_of_a_job_leaves_its_targets_out() {
    let (job, _) = fixture();
    assert_eq!(
        canonical_text(&job.common_identity()),
        "{\"artifacts\":{\"inputs\":{},\"outputs\":{\"checkpoint\":{\"destination\":null,\"path\":\"checkpoint\",\"required\":true}}},\"name\":\"train\",\"parameters\":{\"steps\":2},\"reproducibility\":{\"contract\":\"environment-inputs\",\"seed\":null},\"schema_version\":2}"
    );
}

#[test]
fn selectors_cannot_inject_nix_attributes() {
    assert!(Selector::parse(".#train").is_ok());
    for selector in ["#train", "flake", ".#x.y", ".#\"evil\"", "--expr#train"] {
        assert!(Selector::parse(selector).is_err());
    }
}

#[test]
fn selectors_are_split_at_the_last_mark() {
    let s = Selector::parse("path:/a#b#train").unwrap();
    assert_eq!(s.flake, "path:/a#b");
    assert_eq!(s.job, "train");
    assert_eq!(
        Selector::parse("flake").unwrap_err().message(),
        "selector must be <flake>#<job>"
    );
    assert_eq!(
        Selector::parse(".#").unwrap_err().message(),
        "invalid flake or job selector"
    );
}

#[test]
fn local_flakes_are_seen_from_a_directory() {
    assert_eq!(path_reference_base("path:/src?dir=x", "/home"), Some("/src".to_string()));
    assert_eq!(path_reference_base("path:./src", "/home"), Some("/home/./src".to_string()));
    assert_eq!(path_reference_base("github:a/b", "/home"), None);
}

fn lock(dir: Option<&str>, rev: &str) -> Json {
    let mut locked = Members::new().with("rev", Json::text(rev)).with("lastModified", Json::unsigned(7));
    if let Some(d) = dir {
        locked = locked.with("dir", Json::text(d));
    }
    let node = Members::new().with("locked", locked.object()).object();
    let nodes = Members::new().with("root", Json::text("top")).with("top", node).object();
    Members::new().with("nodes", nodes).object()
}

#[test]
fn snapshots_are_taken_of_what_the_lock_names() {
    let s = Selector::parse("github:a/b#train").unwrap();
    let closure = Members::new().object();
    let (frozen, source) = s.pinned("/nix/store/src", &lock(Some("sub"), "abc123"), &closure).unwrap();
    assert_eq!(frozen.flake, "path:/nix/store/src?dir=sub");
    assert_eq!(frozen.job, "train");
    assert_eq!(
        canonical_text(&source),
        "{\"archive\":{\"path\":\"/nix/store/src\"},\"lock\":{\"nodes\":{\"root\":\"top\",\"top\":{\"locked\":{\"dir\":\"sub\",\"lastModified\":7,\"rev\":\"abc123\"}}}},\"metadata\":{\"lastModified\":7,\"locked\":{\"dir\":\"sub\",\"lastModified\":7,\"rev\":\"abc123\"},\"path\":\"/nix/store/src\",\"revision\":\"abc123\",\"url\":\"github:a/b\"},\"source\":{}}"
    );
    let (plain, _) = s.pinned("/nix/store/src", &Members::new().object(), &closure).unwrap();
    assert_eq!(plain.flake, "path:/nix/store/src");
    assert!(s.pinned("/nix/store/src", &lock(Some("../up"), "abc"), &closure).is_err());
    assert_eq!(
        s.pinned("/nix/store/src", &lock(None, "main"), &closure).unwrap_err().message(),
        "invalid source revision"
    );
}

#[test]
fn lock_files_are_read() {
    let s = Selector::parse("github:a/b#train").unwrap();
    let lock = b"{ \"nodes\": {\"root\": {\"locked\": {\"rev\": \"0af\", \"dir\": \"sub\"}}} }";
    let (frozen, source) = s.snapshot("/nix/store/src", lock, &Json::Null).unwrap();
    assert_eq!(frozen.flake, "path:/nix/store/src?dir=sub");
    assert_eq!(
        canonical_text(source.get("lock").unwrap()),
        "{\"nodes\":{\"root\":{\"locked\":{\"dir\":\"sub\",\"rev\":\"0af\"}}}}"
    );
    assert_eq!(
        s.snapshot("/nix/store/src", b"nodes", &Json::Null).unwrap_err().message(),
        serde_json::from_slice::<serde_json::Value>(b"nodes").unwrap_err().to_string()
    );
}

#[test]
fn expressions_quote_what_they_are_given() {
    assert_eq!(
        archive_expression("/a\"b"),
        "builtins.fetchTree { type = \"path\"; path = \"/a\\\"b\"; }"
    );
    assert_eq!(
        source_expression("github:a/b"),
        "(builtins.getFlake \"github:a/b\").sourceInfo"
    );
    let s = Selector::parse(".#train").unwrap();
    let job = s.job();
    assert!(job.starts_with("(jobs: if jobs ? \"train\" then (j: "));
    assert!(job.ends_with("throw \"unknown compute job train\")"));
    assert_eq!(s.target("gpu").unwrap(), "o: o.computeJobs.\"train\".targets.\"gpu\"");
    assert_eq!(s.target("a\"b").unwrap_err().message(), "invalid target name");
    assert_eq!(output_function("computePrograms.train.gpu"), "o: o.computePrograms.train.gpu");
    assert!(check_fragment("").is_ok());
    assert!(check_fragment("x").is_err());
}

#[test]
fn only_store_paths_are_built() {
    assert_eq!(Selector::build("/nix/store/x".to_string()).unwrap(), "/nix/store/x");
    assert_eq!(
        Selector::build("/tmp/x".to_string()).unwrap_err().message(),
        "expected one Nix output path"
    );
}
