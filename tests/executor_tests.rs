use bake::config::{BuildConfig, Recipe, Tool};
use bake::dag::{build_dag, topological_sort};
use bake::error::ErrorKind;
use bake::executor::{invocation_contexts, Action, Event, Executor, RunOutcome};

const NOWHERE: &str = "/nonexistent-bake-test-root";

fn strings(v: &[&str]) -> Vec<String> {
    v.iter().map(|s| s.to_string()).collect()
}

fn recipe(name: &str, sources: &[&str], tools: Vec<(String, Tool)>, deps: &[&str]) -> Recipe {
    Recipe {
        name: name.to_string(),
        sources: strings(sources),
        includes: None,
        tools,
        dependencies: if deps.is_empty() { None } else { Some(strings(deps)) },
    }
}

fn echo(concurrent: bool) -> Tool {
    Tool { cmd: "echo".to_string(), args: strings(&["{sources}"]), concurrent }
}

fn expect_dir(action: &Action, path: &str) {
    match action {
        Action::CreateDir { path: p } => assert_eq!(p, path),
        other => panic!("expected a directory, got {:?}", other),
    }
}

#[test]
fn lib_then_app_with_unmatched_glob() {
    let config = BuildConfig {
        recipes: vec![
            recipe("lib", &["*.txt"], vec![("t".to_string(), echo(false))], &[]),
            recipe("app", &["*.txt"], vec![("t".to_string(), echo(false))], &["lib"]),
        ],
    };
    let dag = build_dag(&config).expect("graph builds");
    let order = topological_sort(&dag).expect("acyclic");
    assert_eq!(order, strings(&["lib", "app"]));
    let literal = format!("{}/*.txt", NOWHERE);
    let mut exec = Executor::new(NOWHERE, &order, &dag);
    let mut action;
    (exec, action) = exec.step(Event::Begin);
    expect_dir(&action, &format!("{}/build/lib", NOWHERE));
    for (name, next_dir) in [("lib", Some("app")), ("app", None)] {
        (exec, action) = exec.step(Event::DirReady);
        match &action {
            Action::Run { recipe, tool, cmd, invocations } => {
                assert_eq!(recipe, name);
                assert_eq!(tool, "t");
                assert_eq!(cmd, "echo");
                assert_eq!(invocations, &vec![vec![literal.clone()]]);
            }
            other => panic!("expected a run, got {:?}", other),
        }
        (exec, action) = exec.step(Event::Ran { outcomes: vec![RunOutcome::Succeeded] });
        match next_dir {
            Some(n) => expect_dir(&action, &format!("{}/build/{}", NOWHERE, n)),
            None => assert!(matches!(action, Action::Finished { error: None })),
        }
    }
    (_, action) = exec.step(Event::Begin);
    assert!(matches!(action, Action::Halted));
}

#[test]
fn concurrent_tool_fans_out_per_source() {
    let tools = vec![("a_fan".to_string(), echo(true)), ("b_after".to_string(), echo(false))];
    let config = BuildConfig {
        recipes: vec![recipe("r", &["1.c", "2.c", "3.c", "4.c", "5.c"], tools, &[])],
    };
    let dag = build_dag(&config).expect("graph builds");
    let order = topological_sort(&dag).expect("acyclic");
    let mut exec = Executor::new(NOWHERE, &order, &dag);
    let mut action;
    (exec, action) = exec.step(Event::Begin);
    expect_dir(&action, &format!("{}/build/r", NOWHERE));
    (exec, action) = exec.step(Event::DirReady);
    match &action {
        Action::Run { tool, invocations, .. } => {
            assert_eq!(tool, "a_fan");
            assert_eq!(invocations.len(), 5);
            for (k, inv) in invocations.iter().enumerate() {
                assert_eq!(inv, &vec![format!("{}/{}.c", NOWHERE, k + 1)]);
            }
        }
        other => panic!("expected a run, got {:?}", other),
    }
    // fewer outcomes than invocations do not let the build go on
    let (short, stopped) = Executor::new(NOWHERE, &order, &dag).step(Event::Begin);
    let (short, _) = short.step(Event::DirReady);
    let (_, stopped2) = short.step(Event::Ran { outcomes: vec![RunOutcome::Succeeded] });
    assert!(matches!(stopped, Action::CreateDir { .. }));
    assert!(matches!(stopped2, Action::Finished { error: Some(_) }));
    // all five in: the next tool gets the whole batch
    (exec, action) = exec.step(Event::Ran { outcomes: (0..5).map(|_| RunOutcome::Succeeded).collect() });
    match &action {
        Action::Run { tool, invocations, .. } => {
            assert_eq!(tool, "b_after");
            assert_eq!(invocations.len(), 1);
            let all: Vec<String> = (1..=5).map(|k| format!("{}/{}.c", NOWHERE, k)).collect();
            assert_eq!(invocations[0], vec![all.join(" ")]);
        }
        other => panic!("expected a run, got {:?}", other),
    }
    (_, action) = exec.step(Event::Ran { outcomes: vec![RunOutcome::Succeeded] });
    assert!(matches!(action, Action::Finished { error: None }));
}

#[test]
fn failure_halts_the_build() {
    let tools = vec![("a".to_string(), echo(true)), ("b".to_string(), echo(false))];
    let config = BuildConfig {
        recipes: vec![
            recipe("first", &["x.c", "y.c"], tools, &[]),
            recipe("second", &["z.c"], vec![("t".to_string(), echo(false))], &["first"]),
        ],
    };
    let dag = build_dag(&config).expect("graph builds");
    let order = topological_sort(&dag).expect("acyclic");
    let mut exec = Executor::new(NOWHERE, &order, &dag);
    let mut action;
    (exec, _) = exec.step(Event::Begin);
    (exec, _) = exec.step(Event::DirReady);
    (exec, action) = exec.step(Event::Ran {
        outcomes: vec![RunOutcome::Succeeded, RunOutcome::Failed],
    });
    match &action {
        Action::Finished { error: Some(e) } => match &e.kind {
            ErrorKind::ToolExecutionFailed { recipe, tool, cmd, args } => {
                assert_eq!(recipe, "first");
                assert_eq!(tool, "a");
                assert_eq!(cmd, "echo");
                assert_eq!(args, &vec![format!("{}/y.c", NOWHERE)]);
            }
            other => panic!("unexpected error {:?}", other),
        },
        other => panic!("expected the failure, got {:?}", other),
    }
    (exec, action) = exec.step(Event::DirReady);
    assert!(matches!(action, Action::Halted));
    (_, action) = exec.step(Event::Ran { outcomes: vec![] });
    assert!(matches!(action, Action::Halted));
}

#[test]
fn tool_that_cannot_start_fails_the_build() {
    let config = BuildConfig {
        recipes: vec![recipe("r", &["a.c"], vec![("t".to_string(), echo(false))], &[])],
    };
    let dag = build_dag(&config).expect("graph builds");
    let order = topological_sort(&dag).expect("acyclic");
    let exec = Executor::new(NOWHERE, &order, &dag);
    let (exec, _) = exec.step(Event::Begin);
    let (exec, _) = exec.step(Event::DirReady);
    let (_, action) = exec.step(Event::Ran {
        outcomes: vec![RunOutcome::NotStarted { message: "no such file".to_string() }],
    });
    match action {
        Action::Finished { error: Some(e) } => {
            assert!(matches!(e.kind, ErrorKind::Io { message } if message == "no such file"))
        }
        other => panic!("expected the failure, got {:?}", other),
    }
}

#[test]
fn directory_failure_ends_the_build() {
    let config = BuildConfig {
        recipes: vec![recipe("r", &["a.c"], vec![("t".to_string(), echo(false))], &[])],
    };
    let dag = build_dag(&config).expect("graph builds");
    let order = topological_sort(&dag).expect("acyclic");
    let exec = Executor::new(NOWHERE, &order, &dag);
    let (exec, _) = exec.step(Event::Begin);
    let (_, action) = exec.step(Event::DirFailed { message: "denied".to_string() });
    assert!(matches!(action, Action::Finished { error: Some(_) }));
}

#[test]
fn tools_run_in_name_order() {
    let tools = vec![("link".to_string(), echo(false)), ("compile".to_string(), echo(false))];
    let config = BuildConfig { recipes: vec![recipe("r", &["a.c"], tools, &[])] };
    let dag = build_dag(&config).expect("graph builds");
    let order = topological_sort(&dag).expect("acyclic");
    let exec = Executor::new(NOWHERE, &order, &dag);
    let (exec, _) = exec.step(Event::Begin);
    let (exec, action) = exec.step(Event::DirReady);
    assert!(matches!(&action, Action::Run { tool, .. } if tool == "compile"));
    let (_, action) = exec.step(Event::Ran { outcomes: vec![RunOutcome::Succeeded] });
    assert!(matches!(&action, Action::Run { tool, .. } if tool == "link"));
}

#[test]
fn argument_failure_of_a_batch_tool_ends_the_build() {
    let tool = Tool { cmd: "cc".to_string(), args: strings(&["a**b"]), concurrent: false };
    let config = BuildConfig { recipes: vec![recipe("r", &["a.c"], vec![("t".to_string(), tool)], &[])] };
    let dag = build_dag(&config).expect("graph builds");
    let order = topological_sort(&dag).expect("acyclic");
    let exec = Executor::new(NOWHERE, &order, &dag);
    let (exec, _) = exec.step(Event::Begin);
    let (_, action) = exec.step(Event::DirReady);
    match action {
        Action::Finished { error: Some(e) } => assert!(matches!(e.kind, ErrorKind::SourceExpansion { .. })),
        other => panic!("expected the failure, got {:?}", other),
    }
}

#[test]
fn contexts_for_batch_and_fan_out() {
    let sources = strings(&["a", "b", "c"]);
    let out = "/o".to_string();
    let flags = strings(&["-Ix"]);
    let fan = invocation_contexts(&echo(true), &sources, &out, &flags);
    assert_eq!(fan.len(), 3);
    for (k, c) in fan.iter().enumerate() {
        assert_eq!(c.sources, vec![sources[k].clone()]);
        assert_eq!(c.output_dir, "/o");
        assert_eq!(c.include_flags, flags);
    }
    let batch = invocation_contexts(&echo(false), &sources, &out, &flags);
    assert_eq!(batch.len(), 1);
    assert_eq!(batch[0].sources, sources);
}

#[test]
fn miscounted_outcomes_end_the_build() {
    let config = BuildConfig {
        recipes: vec![recipe("r", &["a.c"], vec![("t".to_string(), echo(false))], &[])],
    };
    let dag = build_dag(&config).expect("graph builds");
    let order = topological_sort(&dag).expect("acyclic");
    let exec = Executor::new(NOWHERE, &order, &dag);
    let (exec, _) = exec.step(Event::Begin);
    let (exec, _) = exec.step(Event::DirReady);
    let (exec, action) = exec.step(Event::Ran {
        outcomes: vec![RunOutcome::Succeeded, RunOutcome::Succeeded],
    });
    assert!(matches!(action, Action::Finished { error: Some(_) }));
    let (_, action) = exec.step(Event::Ran { outcomes: vec![] });
    assert!(matches!(action, Action::Halted));
}

#[test]
fn malformed_source_pattern_ends_the_recipe() {
    let config = BuildConfig {
        recipes: vec![recipe("r", &["a**b"], vec![("t".to_string(), echo(false))], &[])],
    };
    let dag = build_dag(&config).expect("graph builds");
    let order = topological_sort(&dag).expect("acyclic");
    let exec = Executor::new(NOWHERE, &order, &dag);
    let (exec, _) = exec.step(Event::Begin);
    let (_, action) = exec.step(Event::DirReady);
    match action {
        Action::Finished { error: Some(e) } => match e.kind {
            ErrorKind::SourceExpansion { pattern } => assert_eq!(pattern, format!("{}/a**b", NOWHERE)),
            other => panic!("unexpected error {:?}", other),
        },
        other => panic!("expected the failure, got {:?}", other),
    }
}

#[test]
fn recipe_without_tools_moves_on() {
    let config = BuildConfig {
        recipes: vec![recipe("empty", &["a.c"], vec![], &[]), recipe("next", &["b.c"], vec![], &["empty"])],
    };
    let dag = build_dag(&config).expect("graph builds");
    let order = topological_sort(&dag).expect("acyclic");
    let exec = Executor::new(NOWHERE, &order, &dag);
    let (exec, _) = exec.step(Event::Begin);
    let (exec, action) = exec.step(Event::DirReady);
    expect_dir(&action, &format!("{}/build/next", NOWHERE));
    let (_, action) = exec.step(Event::DirReady);
    assert!(matches!(action, Action::Finished { error: None }));
}

#[test]
fn tool_names_are_checked_for_repeats() {
    let once = recipe("r", &["a.c"], vec![("a".to_string(), echo(false)), ("b".to_string(), echo(true))], &[]);
    assert!(once.has_unique_tool_names());
    let twice = recipe("r", &["a.c"], vec![("a".to_string(), echo(false)), ("a".to_string(), echo(true))], &[]);
    assert!(!twice.has_unique_tool_names());
}
