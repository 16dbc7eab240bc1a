use nix_compute::accelerator::{Device, Launch};
use nix_compute::canonical::{canonical_text, sha256_value};
use nix_compute::course::{Course, Event, Step};
use nix_compute::error::Error;
use nix_compute::json::{Json, Members};
use nix_compute::map::StringMap;
use nix_compute::node::NodeContext;
use nix_compute::path::{components, is_within, join_path};
use nix_compute::report::{
    amend_finished, amend_prepared, archive_entry, check_exit, collected_output, fetched_input,
    input_failure, linked_input, node_status, output_failure, provisional_status, run_status,
    DriverFile, DriverFiles, Facts,
};
use nix_compute::runtime::Failure;
use nix_compute::sort::sort_texts;
use nix_compute::text::{
    join, less, number, parse_number, parse_unsigned, split, strip_prefix, to_lower, trim,
    trim_end_char,
};
use nix_compute::version::{driver_version, matches_range};

fn facts() -> Facts {
    Facts {
        run_id: "run-1".to_string(),
        source: Json::text("/nix/store/source"),
        job: Json::text("job"),
        target: Json::text("target"),
        closure: Json::text("closure"),
        host: Json::Null,
        allocation: Json::Null,
        driver_files: Json::Null,
        image_archive: Json::Null,
        image_id: None,
        inputs: Json::list(vec![]),
        outputs: Json::list(vec![]),
        status: "failed".to_string(),
        exit_code: Some(-9),
        error: Some("killed".to_string()),
        started_at: 5,
        finished_at: 6,
    }
}

#[test]
fn how_a_run_has_ended() {
    assert_eq!(run_status(Some(124), true, true), "timed_out");
    assert_eq!(run_status(Some(130), false, false), "cancelled");
    assert_eq!(run_status(Some(1), false, true), "cancelled");
    assert_eq!(run_status(None, false, true), "cancelled");
    assert_eq!(run_status(Some(0), true, true), "succeeded");
    assert_eq!(run_status(Some(1), false, false), "failed");
    assert_eq!(node_status(Some(124), false, true), "timed_out");
    assert_eq!(node_status(Some(130), false, false), "cancelled");
    assert_eq!(node_status(Some(1), false, true), "failed");
    assert_eq!(node_status(None, false, true), "cancelled");
    assert_eq!(node_status(Some(0), true, true), "succeeded");
    assert_eq!(node_status(None, false, false), "failed");
    assert!(check_exit(0).is_ok());
    assert_eq!(check_exit(9).unwrap_err().message(), "workload exited with code 9");
    assert_eq!(
        check_exit(i32::MIN).unwrap_err().message(),
        "workload exited with code -2147483648"
    );
}

#[test]
fn reports_bind_what_identifies_a_run() {
    let f = facts();
    let job = Members::new()
        .with("source", Json::text("/nix/store/source"))
        .with("job", Json::text("job"))
        .object();
    let job_id = sha256_value(&job).unwrap();
    assert_eq!(canonical_text(&f.job_identity()), canonical_text(&job));
    let target = Members::new()
        .with("job_id", Json::text(&job_id))
        .with("target", Json::text("target"))
        .with("closure", Json::text("closure"))
        .object();
    let target_id = sha256_value(&target).unwrap();
    let closure_id = sha256_value(&Json::text("closure")).unwrap();
    assert_eq!(
        canonical_text(&f.run_payload(".#train")),
        format!("{{\"allocation\":null,\"canonicalization\":\"nix-compute-sorted-json-v1\",\"closure_sha256\":\"{closure_id}\",\"error\":\"killed\",\"exit_code\":-9,\"finished_at\":6,\"host\":null,\"host_driver_files\":null,\"image_archive\":null,\"image_id\":null,\"inputs\":[],\"job_id\":\"{job_id}\",\"job_identity\":{{\"job\":\"job\",\"source\":\"/nix/store/source\"}},\"outputs\":[],\"run_id\":\"run-1\",\"schema_version\":2,\"source_ref\":\".#train\",\"started_at\":5,\"status\":\"failed\",\"target_id\":\"{target_id}\",\"target_identity\":{}}}", canonical_text(&target))
    );
    let node = NodeContext::alone("run-1".to_string(), 29500);
    let identity = Members::new().with("path", Json::text("/nix/store/task")).object();
    let payload = f.node_payload(&node, &identity);
    assert_eq!(payload.get_text("task_id").unwrap(), sha256_value(&identity).unwrap());
    assert_eq!(payload.get_text("target_id").unwrap(), target_id);
    assert_eq!(canonical_text(payload.get("node").unwrap()), canonical_text(&node.to_json()));
    assert_eq!(canonical_text(payload.get("schema_version").unwrap()), "3");
}

#[test]
fn success_is_not_signed_before_all_nodes_are_prepared() {
    assert_eq!(provisional_status("succeeded", 2), "prepared");
    assert_eq!(provisional_status("succeeded", 1), "succeeded");
    assert_eq!(provisional_status("failed", 2), "failed");
    let good = amend_prepared("succeeded", &Ok(())).unwrap();
    assert_eq!((good.status.as_str(), good.error, good.candidate), ("succeeded", None, true));
    let bad = amend_prepared("succeeded", &Err(Error::new("inner").context("outer"))).unwrap();
    assert_eq!(
        (bad.status.as_str(), bad.error.as_deref(), bad.candidate),
        ("failed", Some("outer: inner"), false)
    );
    assert!(amend_prepared("cancelled", &Ok(())).is_none());
    assert!(amend_finished("succeeded", &Ok(())).is_none());
    assert!(amend_finished("failed", &Err(Error::new("x"))).is_none());
    let late = amend_finished("succeeded", &Err(Error::new("x"))).unwrap();
    assert_eq!((late.status.as_str(), late.candidate), ("failed", false));
}

#[test]
fn entries_of_a_report() {
    assert_eq!(
        canonical_text(&fetched_input("n", "p", "s")),
        "{\"name\":\"n\",\"path\":\"p\",\"sha256\":\"s\"}"
    );
    assert_eq!(
        canonical_text(&linked_input("n", "p", "s")),
        "{\"name\":\"n\",\"path\":\"p\",\"source\":\"s\"}"
    );
    assert_eq!(
        canonical_text(&collected_output("n", "p", "s", &None)),
        "{\"name\":\"n\",\"path\":\"p\",\"sha256\":\"s\",\"uri\":null}"
    );
    assert_eq!(canonical_text(&archive_entry("p", "s")), "{\"path\":\"p\",\"sha256\":\"s\"}");
    assert_eq!(input_failure("x", Error::new("e")).detail(), "materializing input x: e");
    assert_eq!(
        output_failure("x", Error::new("e")).detail(),
        "required output x missing or invalid: e"
    );
}

#[test]
fn driver_files_are_attested_one_by_one() {
    let mut mounts = StringMap::new();
    mounts.insert("/usr/driver".to_string(), "/usr/driver".to_string());
    let mut launch = Launch::empty();
    launch.devices.push(Device {
        id: "d".to_string(),
        index: 0,
        architecture: "a".to_string(),
        memory_mib: 1,
        driver_version: "1".to_string(),
        runtime_version: "1".to_string(),
        topology: StringMap::new(),
        device_nodes: vec![],
        driver_mounts: mounts,
    });
    let mut files = DriverFiles::new(&launch);
    assert_eq!(files.next().unwrap(), "/usr/driver");
    files
        .see(
            "/usr/driver",
            DriverFile::Directory(vec!["/usr/driver/a".to_string(), "/usr/driver/b".to_string()]),
        )
        .unwrap();
    let a = files.next().unwrap();
    assert_eq!(a, "/usr/driver/a");
    let link = DriverFile::Link { target: "/usr/driver/b".to_string(), sha256: "f".to_string() };
    files.see(&a, link).unwrap();
    let b = files.next().unwrap();
    files.see(&b, DriverFile::File("f".to_string())).unwrap();
    assert!(files.next().is_none());
    assert_eq!(
        canonical_text(&files.driver_identity()),
        "{\"/usr/driver/a\":{\"sha256\":\"f\",\"target\":\"/usr/driver/b\"},\"/usr/driver/b\":{\"sha256\":\"f\"}}"
    );
    assert_eq!(
        files.see("/x", DriverFile::StrayLink).unwrap_err().message(),
        "host driver directory symlink cannot be attested: /x"
    );
    assert_eq!(
        files.see("/x", DriverFile::Other).unwrap_err().message(),
        "unsupported host driver file /x"
    );
}

#[test]
fn driver_roots_come_in_their_order() {
    let mut mounts = StringMap::new();
    for root in ["/usr/b", "/usr/a"] {
        mounts.insert(root.to_string(), root.to_string());
    }
    let mut launch = Launch::empty();
    launch.devices.push(Device {
        id: "d".to_string(),
        index: 0,
        architecture: "a".to_string(),
        memory_mib: 1,
        driver_version: "1".to_string(),
        runtime_version: "1".to_string(),
        topology: StringMap::new(),
        device_nodes: vec![],
        driver_mounts: mounts,
    });
    let mut files = DriverFiles::new(&launch);
    let first = files.next().unwrap();
    assert_eq!(
        files.see(&first, DriverFile::Other).unwrap_err().message(),
        "unsupported host driver file /usr/a"
    );
    let inside = DriverFile::Directory(vec!["/usr/a/x".to_string(), "/usr/a/y".to_string()]);
    files.see(&first, inside).unwrap();
    assert_eq!(files.next().unwrap(), "/usr/a/x");
    assert_eq!(files.next().unwrap(), "/usr/a/y");
    assert_eq!(files.next().unwrap(), "/usr/b");
    assert!(files.next().is_none());
}

#[test]
fn copies_of_a_map_hold_the_same() {
    let mut map = StringMap::new();
    map.insert("b".to_string(), "2".to_string());
    map.insert("a".to_string(), "1".to_string());
    let copy = map.clone();
    map.insert("a".to_string(), "3".to_string());
    assert_eq!(copy.len(), 2);
    assert_eq!((copy.key(0).as_str(), copy.value(0).as_str()), ("a", "1"));
    assert_eq!((copy.key(1).as_str(), copy.value(1).as_str()), ("b", "2"));
    assert_eq!(map.get("a").unwrap(), "3");
}

#[test]
fn texts_behave_like_those_of_the_language() {
    assert_eq!(trim(" \t a b\u{a0}\n"), " \t a b\u{a0}\n".trim());
    assert_eq!(trim_end_char("a//", '/'), "a");
    assert_eq!(to_lower("AbÄ"), "AbÄ".to_ascii_lowercase());
    assert_eq!(split("a//b/", '/'), "a//b/".split('/').collect::<Vec<_>>());
    assert_eq!(join(&vec!["a".to_string(), "b".to_string()], ", "), "a, b");
    assert_eq!(strip_prefix("file:///x", "file://"), Some("/x".to_string()));
    assert_eq!(strip_prefix("x", "file://"), None);
    for (a, b) in [("a", "b"), ("b", "a"), ("a", "a"), ("", "a"), ("ab", "a"), ("é", "z")] {
        assert_eq!(less(a, b), a < b);
    }
    assert_eq!(number(u64::MAX), u64::MAX.to_string());
    for text in ["0", "+7", "18446744073709551615", "18446744073709551616", "", "-1", "1x", "+"] {
        let known = text.parse::<u64>();
        assert_eq!(parse_unsigned(text, u64::MAX), known.clone().ok());
        assert_eq!(parse_number(text, u64::MAX), known.map_err(|e| e.to_string()));
    }
    assert_eq!(
        sort_texts(&vec!["b".to_string(), "a".to_string(), "b".to_string(), String::new()]),
        ["", "a", "b", "b"]
    );
}

#[test]
fn paths_behave_like_those_of_the_language() {
    for (base, name) in [("/a", "b"), ("/a/", "b"), ("/a", "/b"), ("", "b"), ("a", "")] {
        let known = std::path::Path::new(base).join(name);
        assert_eq!(join_path(base, name), known.to_str().unwrap());
    }
    for path in ["/a/./b/", "a/../b", "./a", "a/.", "", "/", "//a", ".", ".."] {
        assert_eq!(components(path).len(), std::path::Path::new(path).components().count());
    }
    for (path, root) in [("/a/b", "/a"), ("/ab", "/a"), ("/a", "/a/"), ("/", "/a"), ("a/b", "/a")] {
        assert_eq!(
            is_within(&components(path), &components(root)),
            std::path::Path::new(path).starts_with(root)
        );
    }
}

#[test]
fn drivers_are_matched_by_range() {
    let fits = |range: &str, raw: &str| matches_range(range, &driver_version(raw).unwrap());
    assert!(fits(">=550.54.15, <600.0.0", "550.54.15"));
    assert!(!fits(">=550.54.15, <600.0.0", "600.0"));
    assert!(fits("^535", "535.104.05"));
}

fn walk(mut course: Course, fails_at: Option<Step>, code: i32) -> (Vec<Step>, Course) {
    let mut taken = vec![];
    loop {
        let step = course.next(false);
        if step == Step::Done {
            return (taken, course);
        }
        taken.push(step);
        course.proceed(if Some(step) == fails_at {
            Event::Failed(Failure { error: Error::new("broken"), quarantines: true })
        } else if step == Step::Launch {
            Event::Exited(code)
        } else {
            Event::Done
        });
    }
}

#[test]
fn runs_take_their_steps_in_order() {
    let (taken, course) = walk(Course::of_node(true), None, 0);
    assert_eq!(
        taken,
        [
            Step::CheckHost,
            Step::Allocate,
            Step::LoadImage,
            Step::Stage,
            Step::Prepare,
            Step::Gather,
            Step::Launch,
            Step::Collect,
        ]
    );
    assert_eq!(course.exit_code(), Some(0));
    assert!(course.complaint().is_none());
    assert!(course.finish().is_ok());
    let (taken, _) = walk(Course::of_run(true), None, 0);
    assert_eq!(taken, [Step::Prepare, Step::Stage, Step::Launch, Step::Collect]);
    let (taken, _) = walk(Course::of_run(false), None, 0);
    assert_eq!(taken, [Step::Stage, Step::Launch, Step::Collect]);
    assert_eq!(walk(Course::of_node(false), None, 0).0.len(), 6);
}

#[test]
fn failures_end_a_run() {
    let (taken, course) = walk(Course::of_node(true), Some(Step::Gather), 0);
    assert!(!taken.contains(&Step::Launch));
    assert_eq!(course.exit_code(), None);
    let failure = course.finish().unwrap_err();
    assert!(failure.quarantines);
    assert_eq!(failure.error.detail(), "broken");
    let (taken, course) = walk(Course::of_run(false), None, 9);
    assert_eq!(taken.last(), Some(&Step::Collect));
    assert_eq!(course.complaint().unwrap(), "workload exited with code 9");
    let failure = course.finish().unwrap_err();
    assert!(!failure.quarantines);
    assert_eq!(failure.error.detail(), "workload exited with code 9");
    let (_, course) = walk(Course::of_run(false), Some(Step::Collect), 0);
    assert_eq!(course.exit_code(), Some(0));
    assert!(course.finish().is_err());
}

#[test]
fn cancelled_runs_start_nothing() {
    let mut course = Course::of_run(false);
    assert_eq!(course.next(true), Step::Stage);
    course.proceed(Event::Done);
    assert_eq!(course.next(true), Step::Done);
    assert_eq!(course.finish().unwrap_err().error.message(), "cancelled before launch");
}
