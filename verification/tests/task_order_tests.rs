use cargo_task::cargo_task_util::{CTEnv, CTTaskMeta, TaskTable};
use cargo_task::exec::{
    bootstrap_task_list, exec_cargo_task, fill_task_deps, run_task_list, ExecPhase, ExecStep,
};

fn task(name: &str, deps: &[&str]) -> CTTaskMeta {
    CTTaskMeta {
        name: name.to_string(),
        path: format!("/tasks/{}", name),
        is_script: false,
        min_version: None,
        default: false,
        bootstrap: false,
        help: String::new(),
        cargo_deps: None,
        task_deps: deps.iter().map(|s| s.to_string()).collect(),
    }
}

fn env(tasks: Vec<CTTaskMeta>, requested: &[&str]) -> CTEnv {
    let mut table = TaskTable::new();
    for t in tasks {
        table.insert(t);
    }
    CTEnv {
        cargo_path: "cargo".to_string(),
        cargo_task_path: "/w/.cargo-task".to_string(),
        cargo_task_target: "/w/.cargo-task/target".to_string(),
        work_dir: "/w".to_string(),
        task_list: requested.iter().map(|s| s.to_string()).collect(),
        arg_list: Vec::new(),
        tasks: table,
    }
}

#[test]
fn table_keeps_names_in_order_and_replaces() {
    let mut table = TaskTable::new();
    table.insert(task("b", &[]));
    table.insert(task("a", &[]));
    table.insert(task("c", &[]));
    table.insert(task("b", &["a"]));
    assert_eq!(table.len(), 3);
    let names: Vec<&str> = (0..3).map(|i| table.entry(i).name.as_str()).collect();
    assert_eq!(names, vec!["a", "b", "c"]);
    assert_eq!(table.get("b").unwrap().task_deps, vec!["a"]);
    assert!(table.contains_key("c"));
    assert!(!table.contains_key("d"));
    assert!(table.get("d").is_none());
}

#[test]
fn deps_come_first() {
    let e = env(vec![task("a", &["b", "c"]), task("b", &["c"]), task("c", &[])], &[]);
    let mut list = Vec::new();
    assert!(fill_task_deps(&e, &mut list, "a".to_string(), Vec::new()).is_ok());
    assert_eq!(list, vec!["c", "b", "a"]);
}

#[test]
fn tasks_already_listed_are_not_repeated() {
    let e = env(vec![task("a", &["c"]), task("b", &["c"]), task("c", &[])], &["a", "b"]);
    assert_eq!(run_task_list(&e).ok().unwrap(), vec!["c", "a", "b"]);
}

#[test]
fn unknown_tasks_are_listed_without_deps() {
    let e = env(vec![task("a", &["ct-meta"])], &["a", "ct-clean"]);
    assert_eq!(run_task_list(&e).ok().unwrap(), vec!["ct-meta", "a", "ct-clean"]);
}

#[test]
fn circular_dependency_is_refused() {
    let e = env(vec![task("a", &["b"]), task("b", &["a"])], &["a"]);
    let err = run_task_list(&e).err().unwrap();
    assert!(err.contains(&"a".to_string()) && err.contains(&"b".to_string()));
    let e = env(vec![task("a", &["a"])], &["a"]);
    assert!(run_task_list(&e).is_err());
}

#[test]
fn defaults_run_when_nothing_is_requested() {
    let mut x = task("x", &["y"]);
    x.default = true;
    let mut z = task("z", &[]);
    z.default = true;
    let e = env(vec![x, task("y", &[]), z], &[]);
    assert_eq!(run_task_list(&e).ok().unwrap(), vec!["y", "x", "z"]);
    let mut x = task("x", &[]);
    x.default = true;
    let e = env(vec![x, task("w", &[])], &["w"]);
    assert_eq!(run_task_list(&e).ok().unwrap(), vec!["w"]);
}

#[test]
fn bootstrap_tasks_run_first_then_reload() {
    let mut boot = task("boot", &["prep"]);
    boot.bootstrap = true;
    let e = env(vec![boot, task("prep", &[]), task("main", &[])], &["main"]);
    assert_eq!(bootstrap_task_list(&e).ok().unwrap(), vec!["prep", "boot"]);
    match exec_cargo_task(ExecPhase::Start, &e) {
        ExecStep::RunThenReload(v) => assert_eq!(v, vec!["prep", "boot"]),
        _ => panic!("bootstrap tasks first"),
    }
    match exec_cargo_task(ExecPhase::Bootstrapped, &e) {
        ExecStep::RunThenFinish(v) => assert_eq!(v, vec!["main"]),
        _ => panic!("then the requested tasks"),
    }
}

#[test]
fn no_bootstrap_goes_straight_to_requested() {
    let e = env(vec![task("main", &[])], &["main"]);
    match exec_cargo_task(ExecPhase::Start, &e) {
        ExecStep::RunThenFinish(v) => assert_eq!(v, vec!["main"]),
        _ => panic!("requested tasks"),
    }
    let e = env(vec![task("a", &["a"])], &["a"]);
    assert!(matches!(exec_cargo_task(ExecPhase::Start, &e), ExecStep::Circular(_)));
}

#[test]
fn acyclic_dependencies_always_give_a_run_order() {
    let e = env(
        vec![
            task("a", &["b", "c", "d"]),
            task("b", &["d"]),
            task("c", &["d", "b"]),
            task("d", &["external"]),
        ],
        &["a", "c", "d"],
    );
    assert_eq!(run_task_list(&e).ok().unwrap(), vec!["external", "d", "b", "c", "a"]);
}

#[test]
fn cycle_out_of_reach_does_not_stop_filling() {
    let e = env(
        vec![task("a", &["b"]), task("b", &[]), task("x", &["y"]), task("y", &["x"])],
        &["a"],
    );
    assert_eq!(run_task_list(&e).ok().unwrap(), vec!["b", "a"]);
}

#[test]
fn filling_onto_an_unordered_list_keeps_it_and_orders_the_new_part() {
    let e = env(vec![task("a", &["b"]), task("b", &[]), task("c", &["a"])], &[]);
    let mut list = vec!["c".to_string(), "c2".to_string()];
    assert!(fill_task_deps(&e, &mut list, "a".to_string(), Vec::new()).is_ok());
    assert_eq!(list, vec!["c", "c2", "b", "a"]);
}

#[test]
fn task_already_on_the_path_is_filled_in_as_usual() {
    let e = env(vec![task("a", &["b"]), task("b", &[])], &[]);
    let mut list = Vec::new();
    assert!(fill_task_deps(&e, &mut list, "a".to_string(), vec!["a".to_string()]).is_ok());
    assert_eq!(list, vec!["b", "a"]);
}
