use nix_compute::canonical::{canonical_text, sha256_bytes, sha256_value};
use nix_compute::cas::{
    check_input_digest, materialize_input, s3_url, upload_output, Origin,
};
use nix_compute::inputs::{Kind, Move, Sight, Tree, Walk};
use nix_compute::json::{Json, Members};
use nix_compute::map::StringMap;
use nix_compute::model::{
    Accelerator, Execution, InputArtifact, Resources, Target, TargetSummary,
};
use nix_compute::outputs::{
    check_kind, checked_output, way_to_output, Archive, Found, TaskOutput, Upload,
};
use nix_compute::store::{
    closure_paths, nar_hash, normalize_closure, path_info, query_path_info, PathRow,
};
use nix_compute::task::{
    check_artifact, check_dependency, check_nodes, check_schema, check_single_node,
    check_task_place, job_identity, task_identity, Located, Task, TaskInput,
};

use std::collections::BTreeMap;

/// Files, directories and links by their paths.
enum Node {
    File,
    Directory,
    Link(&'static str),
}

type Files = BTreeMap<&'static str, Node>;

fn resolve(files: &Files, source: &str, closure: &Vec<String>) -> Result<String, String> {
    let mut walk = Walk::new(source).map_err(|e| e.detail())?;
    loop {
        match walk.step(closure).map_err(|e| e.detail())? {
            Move::Arrived(place) => return Ok(place),
            Move::Look(place) => {
                let sight = match files.get(place.as_str()) {
                    None => Sight::Missing("no such file".to_string()),
                    Some(Node::File) => Sight::Other,
                    Some(Node::Directory) => Sight::Directory,
                    Some(Node::Link(target)) => Sight::Link(target.to_string()),
                };
                walk.see(closure, sight).map_err(|e| e.detail())?;
            }
        }
    }
}

fn validate_tree(files: &Files, source: &str, closure: &Vec<String>) -> Result<usize, String> {
    let mut tree = Tree::new(source);
    let mut listings = 0;
    while let Some(path) = tree.next() {
        let place = resolve(files, &path, closure)?;
        let kind = match files.get(place.as_str()) {
            Some(Node::Directory) => Kind::Directory,
            _ => Kind::File,
        };
        if tree.visit(&path, &place, kind).map_err(|e| e.detail())? {
            listings += 1;
            let prefix = format!("{place}/");
            let entries = files
                .keys()
                .filter(|p| p.starts_with(&prefix) && !p[prefix.len()..].contains('/'))
                .map(|p| p.to_string())
                .collect();
            tree.list(entries);
        }
    }
    Ok(listings)
}

fn base() -> Files {
    let mut files = Files::new();
    files.insert("/s", Node::Directory);
    files.insert("/s/input", Node::Directory);
    files.insert("/s/dependency", Node::Directory);
    files.insert("/s/dependency/data", Node::File);
    files
}

fn closure() -> Vec<String> {
    vec!["/s/input".to_string(), "/s/dependency".to_string()]
}

#[test]
fn input_links_must_stay_in_the_immutable_closure() {
    let mut files = base();
    files.insert("/s/input/nested", Node::Directory);
    files.insert("/s/input/nested/data", Node::Link("/s/dependency/data"));
    files.insert("/s/input/nested/parent", Node::Link(".."));
    assert_eq!(validate_tree(&files, "/s/input", &closure()).unwrap(), 2);
    files.insert("/s/external", Node::File);
    files.insert("/s/input/nested/escape", Node::Link("/s/external"));
    assert!(validate_tree(&files, "/s/input", &closure())
        .unwrap_err()
        .contains("outside task closure"));
    files.remove("/s/input/nested/escape");
    files.insert("/s/input/dangling", Node::Link("missing"));
    assert!(validate_tree(&files, "/s/input", &closure()).is_err());
}

#[test]
fn input_rejects_external_file_and_directory_aliases_into_the_closure() {
    for directory in [false, true] {
        let mut files = base();
        let target = if directory { "/s/dependency" } else { "/s/dependency/data" };
        files.insert("/s/mutable-alias", Node::Link(target));
        let alias = if directory { "/s/mutable-alias/data" } else { "/s/mutable-alias" };
        files.insert("/s/input/data", Node::Link(alias));
        assert!(validate_tree(&files, "/s/input", &closure())
            .unwrap_err()
            .contains("outside task closure"));
    }
}

#[test]
fn input_resolves_internal_links_before_parent_components() {
    let mut files = base();
    files.insert("/s/dependency/inner", Node::Directory);
    files.insert("/s/input/indirect", Node::Link("/s/dependency/inner"));
    files.insert("/s/input/sample", Node::Link("indirect/../data"));
    assert_eq!(
        resolve(&files, "/s/input/sample", &closure()).unwrap(),
        "/s/dependency/data"
    );
    validate_tree(&files, "/s/input", &closure()).unwrap();
    files.insert("/s/input/loop", Node::Link("loop"));
    assert!(validate_tree(&files, "/s/input", &closure()).is_err());
}

#[test]
fn every_reason_against_an_input() {
    let mut files = base();
    files.insert("/s/input/file", Node::File);
    files.insert("/s/input/loop", Node::Link("loop"));
    files.insert("/s/link", Node::Link("input"));
    assert_eq!(
        resolve(&files, "input", &closure()).unwrap_err(),
        "input source must be absolute"
    );
    assert_eq!(
        resolve(&files, "/etc/passwd", &closure()).unwrap_err(),
        "input path is outside task closure: /etc"
    );
    assert_eq!(
        resolve(&files, "/s", &closure()).unwrap_err(),
        "input path is outside task closure: /s"
    );
    assert_eq!(
        resolve(&files, "/s/input/none", &closure()).unwrap_err(),
        "resolving input /s/input/none: no such file"
    );
    assert_eq!(
        resolve(&files, "/s/input/file/x", &closure()).unwrap_err(),
        "input traverses a non-directory: /s/input/file"
    );
    assert_eq!(
        resolve(&files, "/s/input/loop", &closure()).unwrap_err(),
        "too many input symlink hops"
    );
    let deep = vec!["/s/link/data".to_string()];
    assert_eq!(
        resolve(&files, "/s/link/data", &deep).unwrap_err(),
        "input link is outside task closure: /s/link"
    );
    let mut walk = Walk::new("/s/input").unwrap();
    walk.step(&closure()).unwrap();
    walk.see(&closure(), Sight::Directory).unwrap();
    walk.step(&closure()).unwrap();
    assert_eq!(
        walk.see(&closure(), Sight::DeadLink("io".to_string())).unwrap_err().message(),
        "io"
    );
    let mut tree = Tree::new("/s/input");
    let path = tree.next().unwrap();
    assert_eq!(
        tree.visit(&path, "/s/input", Kind::Special).unwrap_err().message(),
        "input contains a special file: /s/input"
    );
}

#[test]
fn forty_links_may_be_followed() {
    let mut walk = Walk::new("/s/input/a").unwrap();
    let mut followed = 0;
    loop {
        match walk.step(&closure()).unwrap() {
            Move::Arrived(_) => unreachable!(),
            Move::Look(place) if place == "/s/input/a" => {
                match walk.see(&closure(), Sight::Link("a".to_string())) {
                    Ok(()) => followed += 1,
                    Err(e) => {
                        assert_eq!(e.message(), "too many input symlink hops");
                        break;
                    }
                }
            }
            Move::Look(_) => walk.see(&closure(), Sight::Directory).unwrap(),
        }
    }
    assert_eq!(followed, 40);
}

#[test]
fn a_link_to_its_own_directory_leaves_nothing_to_go() {
    for (target, rest) in [(".", ""), ("./", ""), ("./.", ""), ("./b", "b"), ("../input/.", "")] {
        let mut walk = Walk::new("/s/input/here").unwrap();
        walk.step(&closure()).unwrap();
        walk.see(&closure(), Sight::Directory).unwrap();
        walk.step(&closure()).unwrap();
        walk.see(&closure(), Sight::Directory).unwrap();
        assert!(matches!(walk.step(&closure()).unwrap(), Move::Look(p) if p == "/s/input/here"));
        walk.see(&closure(), Sight::Link(target.to_string())).unwrap();
        let mut last = String::new();
        let arrived = loop {
            match walk.step(&closure()).unwrap() {
                Move::Arrived(place) => break Ok(place),
                Move::Look(place) => {
                    let sight = if place == "/s/input" { Sight::Other } else { Sight::Directory };
                    last = place;
                    if let Err(e) = walk.see(&closure(), sight) {
                        break Err(e.message());
                    }
                }
            }
        };
        assert_eq!(last, "/s/input");
        if rest.is_empty() && !target.starts_with("..") {
            assert_eq!(arrived.unwrap(), "/s/input");
        } else {
            assert_eq!(arrived.unwrap_err(), "input traverses a non-directory: /s/input");
        }
    }
}

fn output() -> TaskOutput {
    TaskOutput {
        path: "model".to_string(),
        kind: "directory".to_string(),
        scope: "per-node".to_string(),
        required: true,
        destination: None,
    }
}

/// The bytes of an archive, from files that are listed in some order.
fn archive_bytes(listing: &[&str], weights: &'static [u8]) -> Vec<u8> {
    let mut archive = Archive::new();
    let mut builder = tar::Builder::new(Vec::new());
    while let Some(entry) = archive.next() {
        let (found, names): (Found, Vec<String>) = match entry.as_str() {
            "." => (Found::Directory, listing.iter().map(|n| n.to_string()).collect()),
            "./empty" => (Found::Directory, vec![]),
            _ => (Found::File(weights.len() as u64), vec![]),
        };
        let head = archive.add(&entry, &entry, found, &names).unwrap();
        let mut header = tar::Header::new_gnu();
        header.set_uid(head.uid);
        header.set_gid(head.gid);
        header.set_mtime(head.mtime);
        header.set_mode(head.mode);
        header.set_size(head.size);
        let contents: &[u8] = if head.directory {
            header.set_entry_type(tar::EntryType::Directory);
            &[]
        } else {
            header.set_entry_type(tar::EntryType::Regular);
            weights
        };
        header.set_cksum();
        builder.append_data(&mut header, &entry, contents).unwrap();
    }
    builder.into_inner().unwrap()
}

#[test]
fn directory_hash_is_stable_and_namespaces_each_node() {
    let mut spec = output();
    spec.destination = Some("file:///published".to_string());
    let collect = |bytes: &[u8], rank: u32| {
        let digest = sha256_bytes(bytes);
        let uri = spec.upload("checkpoint", rank, &digest, None).unwrap().unwrap().uri();
        spec.collect_output("checkpoint", rank, &digest, &Some(uri))
    };
    let bytes = archive_bytes(&["weights.bin", "empty"], b"weights");
    let first = collect(&bytes, 0);
    let second = collect(&archive_bytes(&["empty", "weights.bin"], b"weights"), 1);
    assert_eq!(first.get_text("sha256"), second.get_text("sha256"));
    assert_ne!(first.get_text("uri"), second.get_text("uri"));
    assert!(first.get_text("uri").unwrap().starts_with("file://"));
    let names: Vec<String> = tar::Archive::new(&bytes[..])
        .entries()
        .unwrap()
        .map(|e| e.unwrap().path().unwrap().to_str().unwrap().to_string())
        .collect();
    assert!(names.iter().any(|p| p.ends_with("weights.bin")));
    assert!(names.iter().any(|p| p.ends_with("empty")));
    let changed = collect(&archive_bytes(&["weights.bin", "empty"], b"changed"), 0);
    assert_ne!(first.get_text("sha256"), changed.get_text("sha256"));
}

#[test]
fn outputs_are_published_apart_for_each_node() {
    let mut spec = output();
    spec.destination = Some("file:///published/".to_string());
    let digest = "d".repeat(64);
    let place = |rank: u32, spec: &TaskOutput| {
        spec.upload("checkpoint", rank, &digest, None).unwrap().unwrap().uri()
    };
    assert_eq!(
        place(0, &spec),
        format!("file:///published/nodes/0/checkpoint/sha256/{digest}")
    );
    assert_ne!(place(0, &spec), place(1, &spec));
    spec.scope = "leader".to_string();
    match spec.upload("checkpoint", 0, &digest, None).unwrap().unwrap() {
        Upload::Copy { target, .. } => {
            assert_eq!(target, format!("/published/leader/checkpoint/sha256/{digest}"))
        }
        Upload::Send { .. } => panic!("a file is copied"),
    }
    spec.destination = Some("s3://bucket/x".to_string());
    assert_eq!(
        spec.upload("m", 0, "d", Some("http://gw//".to_string())).unwrap().unwrap().uri(),
        "http://gw/bucket/x/leader/m/sha256/d"
    );
    assert_eq!(
        spec.upload("m", 0, "d", None).unwrap_err().message(),
        "s3:// outputs require NIX_COMPUTE_S3_ENDPOINT (provider-managed HTTP gateway)"
    );
    spec.destination = Some("ftp://x".to_string());
    assert_eq!(
        spec.upload("m", 0, "d", None).unwrap_err().message(),
        "unsupported output destination; use file:// or s3://"
    );
    spec.destination = None;
    assert!(spec.upload("m", 0, "d", None).unwrap().is_none());
    assert_eq!(
        canonical_text(&spec.collect_output("m", 3, "d", &Some("u".to_string()))),
        "{\"encoding\":\"tar\",\"kind\":\"directory\",\"name\":\"m\",\"node_rank\":3,\"path\":\"model\",\"scope\":\"leader\",\"sha256\":\"d\",\"uri\":\"u\"}"
    );
    spec.kind = "file".to_string();
    assert!(canonical_text(&spec.collect_output("m", 3, "d", &None)).contains("\"identity\""));
}

#[test]
fn output_rejects_symlinks_and_wrong_types() {
    assert_eq!(
        way_to_output("/out", "a/b.bin").unwrap(),
        ["/out/a".to_string(), "/out/a/b.bin".to_string()]
    );
    assert!(way_to_output("/out", "../x").is_err());
    assert!(checked_output(&vec![false, false], "/out/a", "/out").is_ok());
    assert_eq!(
        checked_output(&vec![false, true], "/out/a", "/out").unwrap_err().message(),
        "output symlinks are unsupported"
    );
    assert_eq!(
        checked_output(&vec![], "/outside", "/out").unwrap_err().message(),
        "output escapes workspace"
    );
    assert!(check_kind("directory", Found::Directory).is_ok());
    assert!(check_kind("file", Found::File(3)).is_ok());
    assert_eq!(
        check_kind("file", Found::Directory).unwrap_err().message(),
        "output type differs from declared file"
    );
    let mut archive = Archive::new();
    assert_eq!(archive.next().unwrap(), ".");
    archive.add(".", "/out/model", Found::Directory, &vec!["escape".to_string()]).unwrap();
    let entry = archive.next().unwrap();
    assert_eq!(
        archive.add(&entry, "/out/model/escape", Found::Other, &vec![]).unwrap_err().message(),
        "output contains a symlink or special file: /out/model/escape"
    );
}

#[test]
fn archives_do_not_depend_on_the_listing() {
    let walk = |names: [&str; 3]| {
        let mut archive = Archive::new();
        let mut order = vec![];
        while let Some(entry) = archive.next() {
            let listed: Vec<String> = match entry.as_str() {
                "." => names.iter().map(|n| n.to_string()).collect(),
                _ => vec![],
            };
            let found = if entry == "." || entry == "./empty" {
                Found::Directory
            } else {
                Found::File(7)
            };
            let head = archive.add(&entry, &entry, found, &listed).unwrap();
            assert_eq!((head.uid, head.gid, head.mtime), (0, 0, 0));
            order.push((entry, head.directory, head.mode, head.size));
        }
        order
    };
    let first = walk(["weights.bin", "empty", "a"]);
    assert_eq!(first, walk(["a", "weights.bin", "empty"]));
    assert_eq!(
        first,
        [
            (".".to_string(), true, 0o755, 0),
            ("./a".to_string(), false, 0o644, 7),
            ("./empty".to_string(), true, 0o755, 0),
            ("./weights.bin".to_string(), false, 0o644, 7),
        ]
    );
}

/// The entries of an archive of files and directories, by their paths.
fn archived(files: &BTreeMap<&str, Found>) -> Vec<(String, u64)> {
    let mut archive = Archive::new();
    let mut entries = vec![];
    while let Some(entry) = archive.next() {
        let mut names = vec![];
        for path in files.keys() {
            if let Some((parent, name)) = path.rsplit_once('/') {
                if parent == entry {
                    names.push(name.to_string());
                }
            }
        }
        let head = archive.add(&entry, &entry, files[entry.as_str()], &names).unwrap();
        entries.push((entry, head.size));
    }
    entries
}

#[test]
fn archives_hold_every_name_and_tell_directories_apart() {
    let mut files = BTreeMap::new();
    files.insert(".", Found::Directory);
    files.insert("./d", Found::Directory);
    files.insert("./d/weights", Found::File(3));
    files.insert("./a", Found::File(1));
    let first = archived(&files);
    assert_eq!(
        first,
        [
            (".".to_string(), 0),
            ("./a".to_string(), 1),
            ("./d".to_string(), 0),
            ("./d/weights".to_string(), 3),
        ]
    );
    files.insert("./d/empty", Found::Directory);
    let second = archived(&files);
    assert_eq!(second.len(), 5);
    assert_eq!(second[3], ("./d/empty".to_string(), 0));
    assert_ne!(first, second);
    files.insert("./a", Found::File(2));
    assert_ne!(archived(&files), second);
}

#[test]
fn outputs_of_the_leader_are_collected_once() {
    let mut spec = output();
    assert!(spec.is_collected(1, false));
    spec.scope = "leader".to_string();
    assert!(spec.is_collected(0, false));
    assert!(!spec.is_collected(1, true));
    spec.required = false;
    assert!(!spec.is_collected(0, false));
    assert!(spec.is_collected(0, true));
}

fn input(uri: &str, sha256: &str) -> InputArtifact {
    InputArtifact { uri: uri.to_string(), sha256: sha256.to_string(), path: "data.bin".to_string() }
}

#[test]
fn staging_preserves_other_inputs_and_rejects_bad_hashes() {
    let contents: &[u8] = b"training data";
    let digest = sha256_bytes(contents);
    assert_eq!(digest, "56eabe5e6f9e24db830b8652b9adcd9aa56e3cd12a3bc415a5adb932b7e14dc2");
    let mut staged = input("file:///tmp/source", &digest);
    match materialize_input(&staged, None, None).unwrap() {
        Origin::File(place) => assert_eq!(place, "/tmp/source"),
        Origin::Address(address) => panic!("{address}"),
    }
    assert!(check_input_digest(&staged, &sha256_bytes(contents)).is_ok());
    staged.sha256 = "0".repeat(64);
    assert_eq!(
        check_input_digest(&staged, &digest).unwrap_err().message(),
        format!("input digest mismatch: expected {}, got {digest}", "0".repeat(64))
    );
    staged.uri = "cas://sha256/../../etc/passwd".to_string();
    assert!(materialize_input(&staged, Some("/cas".to_string()), None).is_err());
}

#[test]
fn inputs_are_found_by_their_schemes() {
    let digest = "ab".repeat(32);
    let origin = |uri: &str| {
        materialize_input(&input(uri, &digest), Some("/cas".to_string()), Some("http://gw/".to_string()))
    };
    let file = |uri: &str| match origin(uri).unwrap() {
        Origin::File(p) => p,
        Origin::Address(u) => panic!("{u}"),
    };
    let address = |uri: &str| match origin(uri).unwrap() {
        Origin::File(p) => panic!("{p}"),
        Origin::Address(u) => u,
    };
    assert_eq!(file("file:///data/source"), "/data/source");
    let upper = digest.to_uppercase();
    assert_eq!(file(&format!("cas://sha256/{upper}")), format!("/cas/{upper}"));
    assert_eq!(address("https://x/y"), "https://x/y");
    assert_eq!(address("s3://bucket/key"), "http://gw/bucket/key");
    assert!(check_input_digest(&input("", &digest), &upper).is_ok());
    assert_eq!(
        check_input_digest(&input("", "00"), "11").unwrap_err().message(),
        "input digest mismatch: expected 00, got 11"
    );
    assert_eq!(
        origin("cas://sha256/../../etc/passwd").unwrap_err().message(),
        "CAS URI must contain the declared SHA256 digest"
    );
    assert_eq!(
        origin("ftp://x").unwrap_err().message(),
        "unsupported input URI ftp://x; use file://, cas://, http(s)://, or s3://"
    );
    assert_eq!(
        materialize_input(&input(&format!("cas://sha256/{digest}"), &digest), None, None)
            .unwrap_err()
            .message(),
        "NIX_COMPUTE_CAS_ROOT is required for cas:// inputs"
    );
    assert_eq!(
        materialize_input(&input("s3://b/k", &digest), None, None).unwrap_err().message(),
        "s3:// inputs require NIX_COMPUTE_S3_ENDPOINT (anonymous HTTP gateway)"
    );
}

#[test]
fn descriptions_of_tasks_are_checked() {
    assert!(check_schema(3).is_ok());
    assert_eq!(
        check_schema(2).unwrap_err().message(),
        "unsupported task schema; rebuild the task"
    );
    assert!(check_nodes(1).is_ok());
    assert_eq!(check_nodes(0).unwrap_err().message(), "resources must be positive");
    assert!(check_artifact("input", "data", "a/b").is_ok());
    assert_eq!(
        check_artifact("output", "a b", "x").unwrap_err().message(),
        "invalid output name a b"
    );
    assert_eq!(
        check_artifact("input", "data", "../x").unwrap_err().message(),
        "artifact path must contain only relative normal components: ../x"
    );
    let job = Members::new()
        .with("name", Json::text("train"))
        .with("parameters", Json::unsigned(1))
        .with("targets", Json::Null)
        .object();
    assert_eq!(
        canonical_text(&job_identity(&job)),
        "{\"artifacts\":null,\"name\":\"train\",\"parameters\":1,\"reproducibility\":null,\"schema_version\":null}"
    );
}

#[test]
fn objects_are_put_under_their_digest() {
    match upload_output("file:///pub", "d", None).unwrap() {
        Upload::Copy { target, uri } => {
            assert_eq!(target, "/pub/sha256/d");
            assert_eq!(uri, "file:///pub/sha256/d");
        }
        Upload::Send { .. } => panic!("a file is copied"),
    }
    assert_eq!(
        upload_output("s3://b", "d", Some("http://gw".to_string())).unwrap().uri(),
        "http://gw/b/sha256/d"
    );
    assert_eq!(
        upload_output("s3://b", "d", None).unwrap_err().message(),
        "s3:// outputs require NIX_COMPUTE_S3_ENDPOINT"
    );
    assert_eq!(
        upload_output("/pub", "d", None).unwrap_err().message(),
        "unsupported output destination /pub; use file:// or s3://"
    );
    assert_eq!(s3_url("http://gw///", "s3://b/k").unwrap(), "http://gw/b/k");
    assert_eq!(s3_url("http://gw", "b/k").unwrap_err().message(), "invalid s3 URI");
}

fn info(references: &[&str], more: &[(&str, Json)]) -> Members {
    let mut m = Members::new()
        .with("narHash", Json::text("sha256-test"))
        .with("narSize", Json::unsigned(4))
        .with("references", Json::list(references.iter().map(|r| Json::text(r)).collect()));
    for (key, value) in more {
        m = m.with(key, value.copy());
    }
    m
}

#[test]
fn closure_identity_excludes_store_local_state() {
    let left = Members::new()
        .with(
            "/nix/store/example",
            info(
                &["b", "a"],
                &[("registrationTime", Json::unsigned(10)), ("ultimate", Json::Bool(true))],
            )
            .object(),
        )
        .object();
    let right = Json::list(vec![info(
        &["a", "b"],
        &[
            ("path", Json::text("/nix/store/example")),
            ("registrationTime", Json::unsigned(50)),
            ("ultimate", Json::Bool(false)),
        ],
    )
    .object()]);
    let left = normalize_closure(&left).unwrap();
    let right = normalize_closure(&right).unwrap();
    assert_eq!(canonical_text(&left), canonical_text(&right));
    assert_eq!(sha256_value(&left).unwrap(), sha256_value(&right).unwrap());
    assert_eq!(
        canonical_text(&left),
        "{\"/nix/store/example\":{\"narHash\":\"sha256-test\",\"narSize\":4,\"references\":[\"a\",\"b\"]}}"
    );
    assert_eq!(closure_paths(&left).unwrap(), ["/nix/store/example"]);
}

#[test]
fn every_reason_against_a_closure() {
    let fails = |v: Json| normalize_closure(&v).unwrap_err().message();
    assert_eq!(fails(Json::Null), "unexpected nix path-info format");
    assert_eq!(
        fails(Json::list(vec![info(&[], &[]).object()])),
        "closure entry missing path"
    );
    let with = |entry: Json| Members::new().with("/p", entry).object();
    assert_eq!(fails(with(Members::new().object())), "closure entry missing NAR hash");
    assert_eq!(
        fails(with(Members::new().with("narHash", Json::text("h")).object())),
        "closure entry missing references"
    );
    assert_eq!(
        closure_paths(&Json::Null).unwrap_err().message(),
        "expected normalized Nix closure"
    );
    let mixed = Members::new()
        .with("narHash", Json::text("h"))
        .with("references", Json::list(vec![Json::text("a"), Json::Null]))
        .object();
    assert_eq!(
        canonical_text(&normalize_closure(&with(mixed)).unwrap()),
        "{\"/p\":{\"narHash\":\"h\",\"narSize\":null,\"references\":[null,\"a\"]}}"
    );
}

fn row(path: &str) -> PathRow {
    PathRow {
        path: path.to_string(),
        hash: "sha256:00ff10".to_string(),
        nar_size: Some(12),
        references: vec!["/b".to_string(), "/a".to_string()],
    }
}

#[test]
fn rows_of_the_store_become_entries() {
    assert_eq!(nar_hash("sha256:00FF10ab").unwrap(), "sha256-AP8Qqw==");
    assert_eq!(
        nar_hash("md5:00").unwrap_err().message(),
        "Nix store returned a non-sha256 NAR hash"
    );
    for digits in ["0", "zz", "0é"] {
        assert_eq!(
            nar_hash(&format!("sha256:{digits}")).unwrap_err().message(),
            hex::decode(digits).unwrap_err().to_string()
        );
    }
    let entry = query_path_info(&row("/p")).unwrap();
    assert_eq!(
        canonical_text(&entry),
        "{\"narHash\":\"sha256-AP8Q\",\"narSize\":12,\"references\":[\"/a\",\"/b\"]}"
    );
    let closure = path_info(&vec![row("/q"), row("/p")]).unwrap();
    assert_eq!(closure_paths(&closure).unwrap(), ["/p", "/q"]);
    let mut sizeless = row("/r");
    sizeless.nar_size = None;
    assert_eq!(
        path_info(&vec![row("/p"), sizeless]).unwrap_err().message(),
        "Nix store path has no NAR size"
    );
}

fn task() -> Task {
    let summary = TargetSummary {
        name: "local".to_string(),
        system: "x86_64-linux".to_string(),
        executor: "native".to_string(),
        accelerator: Accelerator {
            id: "cpu".to_string(),
            count: 1,
            min_memory_mib: 0,
            architectures: vec![],
            driver_range: None,
            runtime_version: None,
            topology: StringMap::new(),
        },
        resources: Resources { cpu_cores: None, memory_mib: None, enforce: false },
        execution: Execution {
            network: "host".to_string(),
            isolation: "none".to_string(),
            timeout_seconds: None,
            env: StringMap::new(),
        },
    };
    let mut inputs = StringMap::new();
    inputs.insert(
        "data".to_string(),
        TaskInput { source: "/nix/store/data".to_string(), path: "data".to_string() },
    );
    Task {
        source: "/nix/store/source".to_string(),
        target: Target {
            summary,
            program_output: "p".to_string(),
            program: "/nix/store/program".to_string(),
            entrypoint: vec!["/nix/store/program/bin/p".to_string()],
            probe_output: None,
            probe: Some("/nix/store/probe".to_string()),
            image_output: None,
            image_name: "n".to_string(),
            runtime_paths: vec!["/nix/store/sdk".to_string()],
            runtime_output: None,
        },
        nodes: 1,
        image: Some("/nix/store/image".to_string()),
        inputs,
        outputs: StringMap::new(),
    }
}

#[test]
fn tasks_depend_on_their_closure_alone() {
    let mut t = task();
    assert_eq!(
        t.dependencies(),
        [
            "/nix/store/program/bin/p",
            "/nix/store/program",
            "/nix/store/probe",
            "/nix/store/sdk",
            "/nix/store/data",
            "/nix/store/image",
            "/nix/store/source",
        ]
    );
    let closure = vec!["/nix/store/data".to_string()];
    let at = |p: &str| Located::At(p.to_string());
    assert!(check_dependency("/nix/store/data", at("/nix/store/data/x"), &closure).is_ok());
    assert_eq!(
        check_dependency("/link", at("/home/x"), &closure).unwrap_err().message(),
        "task dependency is outside bundle closure: /link"
    );
    assert_eq!(
        check_dependency("/link", Located::Missing("gone".to_string()), &closure)
            .unwrap_err()
            .detail(),
        "missing task dependency /link: gone"
    );
    assert!(check_single_node(&t).is_ok());
    t.nodes = 2;
    assert_eq!(
        check_single_node(&t).unwrap_err().message(),
        "multi-node execution requires --context and --coordination-dir"
    );
}

#[test]
fn tasks_are_identified_by_place_and_contents() {
    assert!(check_task_place("/nix/store/abc-task").is_ok());
    for place in ["/nix/store", "/nix/store/a/b", "/tmp/a", "nix/store/a", "/"] {
        assert_eq!(
            check_task_place(place).unwrap_err().message(),
            "task must be a top-level Nix store output"
        );
    }
    let closure = path_info(&vec![row("/nix/store/task")]).unwrap();
    let identity = task_identity("/nix/store/task", &closure).unwrap();
    assert_eq!(
        canonical_text(&identity),
        "{\"nar_hash\":\"sha256-AP8Q\",\"path\":\"/nix/store/task\"}"
    );
    assert_eq!(
        task_identity("/nix/store/other", &closure).unwrap_err().message(),
        "bundle NAR hash missing"
    );
}
