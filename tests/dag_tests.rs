use bake::config::{BuildConfig, Recipe, Tool};
use bake::dag::{build_dag, fits_graph_limits, get_recipe, topological_sort};
use bake::error::ErrorKind;

fn echo_tool() -> Tool {
    Tool { cmd: "echo".to_string(), args: vec!["{sources}".to_string()], concurrent: false }
}

fn recipe(name: &str, deps: &[&str]) -> Recipe {
    Recipe {
        name: name.to_string(),
        sources: vec!["*.txt".to_string()],
        includes: None,
        tools: vec![("build".to_string(), echo_tool())],
        dependencies: if deps.is_empty() {
            None
        } else {
            Some(deps.iter().map(|d| d.to_string()).collect())
        },
    }
}

fn order_of(config: &BuildConfig) -> Vec<String> {
    let dag = build_dag(config).expect("graph builds");
    topological_sort(&dag).expect("graph is acyclic")
}

#[test]
fn lib_before_app() {
    let config = BuildConfig { recipes: vec![recipe("lib", &[]), recipe("app", &["lib"])] };
    assert_eq!(order_of(&config), vec!["lib".to_string(), "app".to_string()]);
}

#[test]
fn resort_can_move_a_later_declared_dependency_last() {
    // app depends on lib, declared after it: the edge weight is negative, and the
    // resort keeps lib (incoming weight 0) after app (incoming weight -1).
    let config = BuildConfig { recipes: vec![recipe("app", &["lib"]), recipe("lib", &[])] };
    let order = order_of(&config);
    assert_eq!(order, vec!["app".to_string(), "lib".to_string()]);
}

#[test]
fn chain_of_three_is_ordered() {
    let config = BuildConfig {
        recipes: vec![recipe("a", &[]), recipe("b", &["a"]), recipe("c", &["b"])],
    };
    assert_eq!(order_of(&config), vec!["a".to_string(), "b".to_string(), "c".to_string()]);
}

#[test]
fn resort_by_incoming_weight_sum() {
    // c depends on a (weight 2); b on nothing. Weight sums: a 0, b 0, c 2.
    let config = BuildConfig {
        recipes: vec![recipe("a", &[]), recipe("b", &[]), recipe("c", &["a"])],
    };
    let order = order_of(&config);
    assert_eq!(order.len(), 3);
    assert_eq!(order[2], "c".to_string());
    assert!(order[..2].contains(&"a".to_string()));
    assert!(order[..2].contains(&"b".to_string()));
}

#[test]
fn every_recipe_named_once() {
    let config = BuildConfig {
        recipes: vec![
            recipe("d", &["b", "c"]),
            recipe("b", &["a"]),
            recipe("c", &["a"]),
            recipe("a", &[]),
        ],
    };
    let mut order = order_of(&config);
    order.sort();
    assert_eq!(order, vec!["a", "b", "c", "d"].into_iter().map(String::from).collect::<Vec<_>>());
}

#[test]
fn empty_config_has_empty_order() {
    let config = BuildConfig { recipes: vec![] };
    assert!(order_of(&config).is_empty());
}

#[test]
fn missing_dependency_is_named() {
    let config = BuildConfig { recipes: vec![recipe("lib", &[]), recipe("app", &["lib", "util"])] };
    let err = build_dag(&config).err().expect("fails");
    match err.kind {
        ErrorKind::DependencyNotFound { recipe, dependency } => {
            assert_eq!(recipe, "app");
            assert_eq!(dependency, "util");
        }
        other => panic!("unexpected error {:?}", other),
    }
}

#[test]
fn first_missing_dependency_wins() {
    let config = BuildConfig { recipes: vec![recipe("a", &["x"]), recipe("b", &["y"])] };
    let err = build_dag(&config).err().expect("fails");
    match err.kind {
        ErrorKind::DependencyNotFound { recipe, dependency } => {
            assert_eq!(recipe, "a");
            assert_eq!(dependency, "x");
        }
        other => panic!("unexpected error {:?}", other),
    }
}

#[test]
fn two_recipe_cycle_is_detected() {
    let config = BuildConfig { recipes: vec![recipe("a", &["b"]), recipe("b", &["a"])] };
    let err = build_dag(&config).err().expect("fails");
    assert!(matches!(err.kind, ErrorKind::CycleDetected));
}

#[test]
fn self_reference_is_a_cycle() {
    let config = BuildConfig { recipes: vec![recipe("a", &[]), recipe("b", &["b"])] };
    let err = build_dag(&config).err().expect("fails");
    assert!(matches!(err.kind, ErrorKind::CycleDetected));
}

#[test]
fn missing_dependency_reported_before_cycle() {
    let config = BuildConfig { recipes: vec![recipe("a", &["a"]), recipe("b", &["zzz"])] };
    let err = build_dag(&config).err().expect("fails");
    assert!(matches!(err.kind, ErrorKind::DependencyNotFound { .. }));
}

#[test]
fn get_recipe_finds_by_name() {
    let config = BuildConfig { recipes: vec![recipe("lib", &[]), recipe("app", &["lib"])] };
    let dag = build_dag(&config).expect("graph builds");
    let found = get_recipe(&dag, "app").expect("present");
    assert_eq!(found.name, "app");
    assert_eq!(found.dependencies, Some(vec!["lib".to_string()]));
    assert!(get_recipe(&dag, "nope").is_none());
}

#[test]
fn small_configs_fit_the_graph() {
    let config = BuildConfig { recipes: vec![recipe("lib", &[]), recipe("app", &["lib", "lib"])] };
    assert!(fits_graph_limits(&config));
    assert!(fits_graph_limits(&BuildConfig { recipes: vec![] }));
}

#[test]
fn repeated_dependency_gives_parallel_edges() {
    let config = BuildConfig { recipes: vec![recipe("lib", &[]), recipe("app", &["lib", "lib"])] };
    assert_eq!(order_of(&config), vec!["lib".to_string(), "app".to_string()]);
}
