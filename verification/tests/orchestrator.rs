use zenith::args::RunArgs;
use zenith::cache::Cache;
use zenith::executor::CommandOutcome;
use zenith::scheduler::{run, RunError};
use zenith::workspace::{Dep, Project};

fn project(name: &str, deps: &[&str]) -> Project {
    Project {
        path: format!("/tmp/{}", name),
        name: name.to_string(),
        dependencies: deps
            .iter()
            .map(|d| Dep { name: d.to_string(), satisfied: false })
            .collect(),
    }
}

fn ok_outcome(name: &str, stdout: &str) -> (String, CommandOutcome) {
    (
        name.to_string(),
        CommandOutcome { code: Some(0), stdout: stdout.to_string() },
    )
}

fn build_args() -> RunArgs {
    RunArgs { command: "build".to_string(), cache_type: "local".to_string() }
}

#[test]
fn two_projects_run_in_dependency_order() {
    let workspace = vec![project("A", &[]), project("B", &["A"])];
    let outcomes = vec![ok_outcome("A", "okA"), ok_outcome("B", "okB")];
    let files = vec![
        ("A".to_string(), vec![1u8, 2, 3]),
        ("B".to_string(), vec![4u8, 5]),
    ];
    let mut cache = Cache::new(&"local".to_string());
    let r = run(
        &build_args(),
        workspace,
        "/tmp/ws".to_string(),
        &mut cache,
        &outcomes,
        &files,
    );
    let stats = r.expect("acyclic workspace must complete");
    assert_eq!(stats.len(), 2);
    assert_eq!(stats[0].project, "A");
    assert_eq!(stats[1].project, "B");
    assert_eq!(stats[0].result, "okA");
    assert_eq!(stats[1].result, "okB");
    assert_eq!(stats[0].command, "build");
    assert_eq!(stats[1].command, "build");
}

#[test]
fn second_run_hits_cache_and_never_executes() {
    let mk = || vec![project("A", &[]), project("B", &["A"])];
    let outcomes = vec![ok_outcome("A", "okA"), ok_outcome("B", "okB")];
    let files = vec![
        ("A".to_string(), vec![1u8, 2, 3]),
        ("B".to_string(), vec![4u8, 5]),
    ];
    let mut cache = Cache::new(&"local".to_string());
    run(
        &build_args(),
        mk(),
        "/tmp/ws".to_string(),
        &mut cache,
        &outcomes,
        &files,
    )
    .expect("first run");
    // the same workspace again: every unit must be served from the cache,
    // so outcomes that would abort the run are never consulted
    let fatal = vec![
        (
            "A".to_string(),
            CommandOutcome { code: Some(1), stdout: "boom".to_string() },
        ),
        (
            "B".to_string(),
            CommandOutcome { code: Some(1), stdout: "boom".to_string() },
        ),
    ];
    let stats = run(
        &build_args(),
        mk(),
        "/tmp/ws".to_string(),
        &mut cache,
        &fatal,
        &files,
    )
    .expect("second run must be all cache hits");
    assert_eq!(stats.len(), 2);
    assert_eq!(stats[0].result, "okA");
    assert_eq!(stats[1].result, "okB");
    assert_eq!(stats[0].run_duration, 0);
    assert_eq!(stats[1].run_duration, 0);
}

#[test]
fn skip_exit_code_is_empty_success() {
    let workspace = vec![project("A", &[])];
    let outcomes = vec![(
        "A".to_string(),
        CommandOutcome { code: Some(254), stdout: "ignored".to_string() },
    )];
    let files = vec![];
    let mut cache = Cache::new(&"local".to_string());
    let stats = run(
        &build_args(),
        workspace,
        "/tmp/ws".to_string(),
        &mut cache,
        &outcomes,
        &files,
    )
    .expect("skip exit code must not abort the run");
    assert_eq!(stats.len(), 1);
    assert_eq!(stats[0].result, "");
}

#[test]
fn nonzero_exit_aborts_naming_project_and_command() {
    let workspace = vec![project("A", &[])];
    let outcomes = vec![(
        "A".to_string(),
        CommandOutcome { code: Some(1), stdout: "some stderr-ish noise".to_string() },
    )];
    let files = vec![];
    let mut cache = Cache::new(&"local".to_string());
    let r = run(
        &build_args(),
        workspace,
        "/tmp/ws".to_string(),
        &mut cache,
        &outcomes,
        &files,
    );
    match r {
        Err(RunError::CommandFailed { project, command, code, stdout }) => {
            assert_eq!(project, "A");
            assert_eq!(command, "build");
            assert_eq!(code, Some(1));
            assert_eq!(stdout, "some stderr-ish noise");
        }
        _ => panic!("expected a fatal command failure"),
    }
}

#[test]
fn missing_command_marker_is_empty_success() {
    let workspace = vec![project("A", &[])];
    let outcomes = vec![(
        "A".to_string(),
        CommandOutcome {
            code: Some(127),
            stdout: "zsh: Command failed with ENOENT somewhere".to_string(),
        },
    )];
    let files = vec![];
    let mut cache = Cache::new(&"local".to_string());
    let stats = run(
        &build_args(),
        workspace,
        "/tmp/ws".to_string(),
        &mut cache,
        &outcomes,
        &files,
    )
    .expect("a missing tool must not abort the run");
    assert_eq!(stats[0].result, "");
}

#[test]
fn missing_outcome_reports_spawn_failure() {
    let workspace = vec![project("A", &[])];
    let outcomes = vec![];
    let files = vec![];
    let mut cache = Cache::new(&"local".to_string());
    match run(
        &build_args(),
        workspace,
        "/tmp/ws".to_string(),
        &mut cache,
        &outcomes,
        &files,
    ) {
        Err(RunError::SpawnFailed { project, command }) => {
            assert_eq!(project, "A");
            assert_eq!(command, "build");
        }
        _ => panic!("expected a spawn failure"),
    }
}

#[test]
fn cyclic_workspace_deadlocks() {
    let workspace = vec![project("A", &["B"]), project("B", &["A"])];
    let outcomes = vec![ok_outcome("A", "x"), ok_outcome("B", "y")];
    let files = vec![];
    let mut cache = Cache::new(&"local".to_string());
    match run(
        &build_args(),
        workspace,
        "/tmp/ws".to_string(),
        &mut cache,
        &outcomes,
        &files,
    ) {
        Err(RunError::Deadlock) => {}
        _ => panic!("a cycle must be reported as a deadlock"),
    }
}

#[test]
fn dangling_dependency_deadlocks() {
    let workspace = vec![project("A", &[]), project("B", &["C"])];
    let outcomes = vec![ok_outcome("A", "x"), ok_outcome("B", "y")];
    let files = vec![];
    let mut cache = Cache::new(&"local".to_string());
    match run(
        &build_args(),
        workspace,
        "/tmp/ws".to_string(),
        &mut cache,
        &outcomes,
        &files,
    ) {
        Err(RunError::Deadlock) => {}
        _ => panic!("an unresolved dependency name must be reported as a deadlock"),
    }
}

#[test]
fn wide_workspace_schedules_three_rounds() {
    let workspace = vec![
        project("a", &[]),
        project("b", &[]),
        project("c", &["a", "b"]),
        project("d", &["c"]),
    ];
    let outcomes = vec![
        ok_outcome("a", "1"),
        ok_outcome("b", "2"),
        ok_outcome("c", "3"),
        ok_outcome("d", "4"),
    ];
    let files = vec![];
    let mut cache = Cache::new(&"local".to_string());
    let stats = run(
        &build_args(),
        workspace,
        "/tmp/ws".to_string(),
        &mut cache,
        &outcomes,
        &files,
    )
    .expect("acyclic workspace must complete");
    let order: Vec<&str> = stats.iter().map(|s| s.project.as_str()).collect();
    assert_eq!(order, vec!["a", "b", "c", "d"]);
}
