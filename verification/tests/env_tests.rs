use cargo_task::cargo_task_util::{
    ct_env, ct_fatal, ct_info, ct_warn, enumerate_task_metadata, log_with_color, CTEnvError,
    CTTaskMeta, TaskTable,
};
use cargo_task::env_loader::{is_ct_var, join_space, split_cli_args, task_env_vars};

fn pairs(v: &[(&str, &str)]) -> Vec<(String, String)> {
    v.iter().map(|(a, b)| (a.to_string(), b.to_string())).collect()
}

fn base_vars() -> Vec<(String, String)> {
    pairs(&[
        ("CARGO", "/bin/cargo"),
        ("CT_WORK_DIR", "/w"),
        ("CT_PATH", "/w/.cargo-task"),
        ("CT_TARGET", "/w/.cargo-task/target"),
        ("CT_TASKS", "one two"),
        ("CT_ARGS", "--fast"),
        ("HOME", "/home/u"),
    ])
}

#[test]
fn env_reads_paths_lists_and_tasks() {
    let mut vars = base_vars();
    vars.extend(pairs(&[
        ("CT_TASK_one_PATH", "/w/.cargo-task/one"),
        ("CT_TASK_one_DEFAULT", "1"),
        ("CT_TASK_one_HELP", "first task"),
        ("CT_TASK_one_TASK_DEPS", "two  three"),
        ("CT_TASK_two_PATH", "/w/.cargo-task/two.ct.rs"),
        ("CT_TASK_two_IS_SCRIPT", "1"),
        ("CT_TASK_two_MIN_VER", "0.0.7"),
        ("CT_TASK_two_CARGO_DEPS", "num_cpus = \"1\""),
        ("CT_TASK_two_BOOTSTRAP", "1"),
    ]));
    let env = ct_env(&vars).ok().unwrap();
    assert_eq!(env.cargo_path, "/bin/cargo");
    assert_eq!(env.work_dir, "/w");
    assert_eq!(env.cargo_task_path, "/w/.cargo-task");
    assert_eq!(env.cargo_task_target, "/w/.cargo-task/target");
    assert_eq!(env.task_list, vec!["one", "two"]);
    assert_eq!(env.arg_list, vec!["--fast"]);
    assert_eq!(env.tasks.len(), 2);
    let one = env.tasks.get("one").unwrap();
    assert!(one.default && !one.bootstrap && !one.is_script);
    assert_eq!(one.help, "first task");
    assert_eq!(one.task_deps, vec!["two", "three"]);
    assert_eq!(one.path, "/w/.cargo-task/one");
    let two = env.tasks.get("two").unwrap();
    assert!(two.is_script && two.bootstrap && !two.default);
    assert_eq!(two.min_version.as_deref(), Some("0.0.7"));
    assert_eq!(two.cargo_deps.as_deref(), Some("num_cpus = \"1\""));
    assert_eq!(two.help, "");
}

#[test]
fn env_errors_name_the_first_missing_variable() {
    let all = base_vars();
    let without = |k: &str| -> Vec<(String, String)> {
        all.iter().filter(|(n, _)| n != k).cloned().collect()
    };
    assert!(matches!(ct_env(&without("CARGO")), Err(CTEnvError::NoCargo)));
    assert!(matches!(ct_env(&without("CT_WORK_DIR")), Err(CTEnvError::NoWorkDir)));
    assert!(matches!(ct_env(&without("CT_PATH")), Err(CTEnvError::NoTaskPath)));
    assert!(matches!(ct_env(&without("CT_TARGET")), Err(CTEnvError::NoTarget)));
    assert_eq!(CTEnvError::NoCargo.message(), "CARGO binary path not set in environment");
    let env = ct_env(&without("CT_TASKS")).ok().unwrap();
    assert!(env.task_list.is_empty());
}

#[test]
fn last_value_of_a_variable_wins() {
    let vars = pairs(&[("CT_TASK_a_PATH", "/x"), ("CT_TASK_a_PATH", "/y")]);
    let t = enumerate_task_metadata(&vars);
    assert_eq!(t.len(), 1);
    assert_eq!(t.get("a").unwrap().path, "/y");
}

fn meta(name: &str) -> CTTaskMeta {
    CTTaskMeta {
        name: name.to_string(),
        path: format!("/p/{}", name),
        is_script: false,
        min_version: None,
        default: false,
        bootstrap: false,
        help: String::new(),
        cargo_deps: None,
        task_deps: Vec::new(),
    }
}

#[test]
fn exported_variables_read_back_as_the_same_tasks() {
    let mut table = TaskTable::new();
    let mut a = meta("a");
    a.default = true;
    a.help = "help for a".to_string();
    a.task_deps = vec!["b".to_string(), "c".to_string()];
    let mut b = meta("b_PATH");
    b.is_script = true;
    b.bootstrap = true;
    b.min_version = Some("1.2.3".to_string());
    b.cargo_deps = Some("x = \"1\"".to_string());
    table.insert(a);
    table.insert(b);
    table.insert(meta(""));
    let mut vars = task_env_vars(&table);
    assert!(vars.contains(&("CT_TASK_a_TASK_DEPS".to_string(), "b c".to_string())));
    assert!(vars.contains(&("CT_TASK_b_PATH_IS_SCRIPT".to_string(), "1".to_string())));
    vars.extend(base_vars());
    let env = ct_env(&vars).ok().unwrap();
    assert_eq!(env.tasks.len(), table.len());
    for i in 0..table.len() {
        let x = table.entry(i);
        let y = env.tasks.entry(i);
        assert_eq!(x.name, y.name);
        assert_eq!(x.path, y.path);
        assert_eq!(x.is_script, y.is_script);
        assert_eq!(x.min_version, y.min_version);
        assert_eq!(x.default, y.default);
        assert_eq!(x.bootstrap, y.bootstrap);
        assert_eq!(x.help, y.help);
        assert_eq!(x.cargo_deps, y.cargo_deps);
        assert_eq!(x.task_deps, y.task_deps);
    }
}

#[test]
fn cli_splits_at_first_separator() {
    let args: Vec<String> = ["cargo-task", "task", "a", "b", "--", "x", "--", "y"]
        .iter()
        .map(|s| s.to_string())
        .collect();
    let (tasks, rest) = split_cli_args(&args);
    assert_eq!(tasks, vec!["a", "b"]);
    assert_eq!(rest, vec!["x", "--", "y"]);
    assert_eq!(join_space(&tasks), "a b");
    let (tasks, rest) = split_cli_args(&vec!["cargo-task".to_string()]);
    assert!(tasks.is_empty() && rest.is_empty());
}

#[test]
fn ct_variables_are_recognized() {
    assert!(is_ct_var("CT_PATH"));
    assert!(is_ct_var("CT_"));
    assert!(!is_ct_var("CT"));
    assert!(!is_ct_var("CARGO"));
}

#[test]
fn log_lines_have_the_level_prefix() {
    let out = ct_info("hello\nworld", false, "");
    assert!(!out.to_stderr && !out.exit);
    assert_eq!(out.lines, vec!["[ct:INFO] hello", "[ct:INFO] world"]);
    let out = ct_warn("careful", false, "build");
    assert!(out.to_stderr && !out.exit);
    assert_eq!(out.lines, vec!["[ct:WARN:build] careful"]);
    let out = ct_fatal("bad", true, "");
    assert!(out.to_stderr && out.exit);
    assert_eq!(out.lines, vec!["\x1b[97m[ct:\x1b[91mFATAL\x1b[97m]\x1b[0m bad"]);
}

#[test]
fn color_choice() {
    assert!(!log_with_color(true, true, true));
    assert!(log_with_color(false, true, false));
    assert!(log_with_color(false, false, true));
    assert!(!log_with_color(false, false, false));
}

#[test]
fn missing_variable_reported_before_the_task_variables_are_read() {
    let mut vars: Vec<(String, String)> =
        base_vars().into_iter().filter(|(n, _)| n != "CARGO").collect();
    vars.push(("CT_TASK_PATH".to_string(), "/x".to_string()));
    assert!(matches!(ct_env(&vars), Err(CTEnvError::NoCargo)));
}
