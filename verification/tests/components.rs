use zenith::cache::Cache;
use zenith::executor::{classify_command_result, CommandOutcome, CommandVerdict};
use zenith::report::{cache_misses, ProjectStats};
use zenith::workspace::{get_dependencies, Dep, Project};
use zenith::zipper::Zipper;

fn leaf(name: &str) -> Project {
    Project {
        path: format!("/tmp/{}", name),
        name: name.to_string(),
        dependencies: Vec::<Dep>::new(),
    }
}

#[test]
fn cache_round_trip_returns_stored_result() {
    let mut cache = Cache::new(&"local".to_string());
    let p = leaf("proj");
    assert_eq!(cache.get(&p, "build", "FP", "/root".to_string()), None);
    cache.put(&p, "build", "FP", "payload");
    assert_eq!(
        cache.get(&p, "build", "FP", "/root".to_string()),
        Some("payload".to_string())
    );
    // the key is the triple, not the root path
    assert_eq!(
        cache.get(&p, "build", "FP", "/elsewhere".to_string()),
        Some("payload".to_string())
    );
    // a never-stored triple misses
    assert_eq!(cache.get(&p, "build", "OTHER", "/root".to_string()), None);
    assert_eq!(cache.get(&p, "test", "FP", "/root".to_string()), None);
    assert_eq!(
        cache.get(&leaf("other"), "build", "FP", "/root".to_string()),
        None
    );
}

#[test]
fn cache_put_overwrites_same_triple() {
    let mut cache = Cache::new(&"remote".to_string());
    let p = leaf("proj");
    cache.put(&p, "build", "FP", "one");
    cache.put(&p, "build", "FP", "two");
    assert_eq!(
        cache.get(&p, "build", "FP", "/root".to_string()),
        Some("two".to_string())
    );
}

#[test]
fn cache_key_normalizes_command_spaces() {
    // "a b" and "a-b" normalize identically: an accepted simplification
    let mut cache = Cache::new(&"local".to_string());
    let p = leaf("proj");
    cache.put(&p, "a b", "FP", "r1");
    assert_eq!(
        cache.get(&p, "a-b", "FP", "/root".to_string()),
        Some("r1".to_string())
    );
    assert_eq!(cache.get(&p, "a_b", "FP", "/root".to_string()), None);
}

#[test]
fn classify_zero_exit_succeeds_with_output() {
    let o = CommandOutcome { code: Some(0), stdout: "out".to_string() };
    match classify_command_result(&o) {
        CommandVerdict::Success { output } => assert_eq!(output, "out"),
        _ => panic!("exit code 0 must succeed"),
    }
}

#[test]
fn classify_skip_exit_code() {
    let o = CommandOutcome { code: Some(254), stdout: "whatever".to_string() };
    assert!(matches!(
        classify_command_result(&o),
        CommandVerdict::Skipped
    ));
}

#[test]
fn classify_missing_command_marker() {
    let o = CommandOutcome {
        code: Some(1),
        stdout: "...Command failed with ENOENT...".to_string(),
    };
    assert!(matches!(
        classify_command_result(&o),
        CommandVerdict::MissingCommand
    ));
}

#[test]
fn classify_other_failures_are_fatal() {
    let o = CommandOutcome { code: Some(2), stdout: "broken".to_string() };
    match classify_command_result(&o) {
        CommandVerdict::Fatal { code, stdout } => {
            assert_eq!(code, Some(2));
            assert_eq!(stdout, "broken");
        }
        _ => panic!("an unexpected exit code must be fatal"),
    }
    let killed = CommandOutcome { code: None, stdout: String::new() };
    assert!(matches!(
        classify_command_result(&killed),
        CommandVerdict::Fatal { .. }
    ));
}

#[test]
fn get_dependencies_keeps_workspace_entries_once() {
    let deps = vec![
        ("a".to_string(), "workspace:*".to_string()),
        ("b".to_string(), "1.2.3".to_string()),
        ("self".to_string(), "workspace:*".to_string()),
    ];
    let dev_deps = vec![
        ("a".to_string(), "workspace:*".to_string()),
        ("c".to_string(), "workspace:*".to_string()),
    ];
    let r = get_dependencies(&deps, &dev_deps, "self");
    let mut names: Vec<&str> = r.iter().map(|d| d.name.as_str()).collect();
    names.sort();
    assert_eq!(names, vec!["a", "c"]);
    assert!(r.iter().all(|d| !d.satisfied));
}

fn stat(project: &str, fetch: u64) -> ProjectStats {
    ProjectStats {
        project: project.to_string(),
        command: "build".to_string(),
        result: String::new(),
        fetch_duration: fetch,
        run_duration: 0,
        cache_duration: 0,
    }
}

#[test]
fn report_partitions_cache_misses() {
    let stats = vec![stat("a", 0), stat("b", 5), stat("c", 0)];
    let misses = cache_misses(&stats);
    let names: Vec<&str> = misses.iter().map(|s| s.project.as_str()).collect();
    assert_eq!(names, vec!["a", "c"]);
}

#[test]
fn zipper_pipeline_yields_placeholder_payload() {
    let z = Zipper::new("/tmp/dir");
    let payload = z.zip().compress().memory();
    assert_eq!(payload, Ok(vec![1u8, 2, 3]));
}
