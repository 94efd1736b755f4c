use cargo_task::env_loader::{build_task_meta, classify_task_entry, parse_metadata, TaskEntry};
use cargo_task::exec::{
    parse_task_directives, script_cargo_toml, task_build_step, workspace_cargo_toml, BuildStep,
    DirectiveError,
};
use cargo_task::semver::{min_version_met, parse_semver, parse_usize, semver_numbers_valid};
use cargo_task::task::{
    check_pre_env_task, check_system_task, ct_init, help_line, InitContent, InitProbe, InitStep,
    PreEnvTask, SystemTask,
};
use cargo_task::cargo_task_util::CTTaskMeta;

const MAIN_RS: &str = r#"/*
@ct-default@ true @@
@ct-bootstrap@ false @@
@ct-min-version@ 0.0.7 @@
@ct-help@ Does the thing. @@
@ct-task-deps@
my-first-dependency
my-second-dependency
@@
@ct-task-deps@ third @@
@ct-unknown@ ignored @@
@ct-cargo-deps@
num_cpus = "1"
@@
*/
fn main() {}
"#;

#[test]
fn metadata_directives_are_read() {
    let m = parse_metadata(MAIN_RS.as_bytes());
    assert!(m.default);
    assert!(!m.bootstrap);
    assert_eq!(m.min_version.as_deref(), Some("0.0.7"));
    assert_eq!(m.help, "Does the thing.");
    assert_eq!(
        m.task_deps,
        vec!["my-first-dependency", "my-second-dependency", "third"]
    );
    assert_eq!(m.cargo_deps.as_deref(), Some("num_cpus = \"1\""));
    let empty = parse_metadata(b"");
    assert!(!empty.default && empty.task_deps.is_empty() && empty.help.is_empty());
}

#[test]
fn entries_are_classified() {
    assert!(matches!(classify_task_entry("cargo_task_util", false, true), TaskEntry::Skip));
    assert!(matches!(classify_task_entry("target", false, true), TaskEntry::Skip));
    assert!(matches!(classify_task_entry(".gitignore", true, false), TaskEntry::Skip));
    match classify_task_entry("my-task.ct.rs", true, false) {
        TaskEntry::Script(n) => assert_eq!(n, "my-task"),
        _ => panic!("script"),
    }
    match classify_task_entry("build", false, true) {
        TaskEntry::Crate(n) => assert_eq!(n, "build"),
        _ => panic!("crate"),
    }
    assert!(matches!(classify_task_entry("notes.txt", true, false), TaskEntry::Skip));
    assert!(matches!(classify_task_entry(".ct.rs", true, false), TaskEntry::Skip));
}

#[test]
fn crate_tasks_may_not_have_cargo_deps() {
    let m = parse_metadata(MAIN_RS.as_bytes());
    assert!(build_task_meta("t".to_string(), "/t".to_string(), false, m).is_err());
    let m = parse_metadata(MAIN_RS.as_bytes());
    let t: CTTaskMeta = build_task_meta("t".to_string(), "/t.ct.rs".to_string(), true, m).ok().unwrap();
    assert!(t.is_script && t.default);
    assert_eq!(t.cargo_deps.as_deref(), Some("num_cpus = \"1\""));
    let m = parse_metadata(b"@ct-help@ x @@");
    let t = build_task_meta("c".to_string(), "/c".to_string(), false, m).ok().unwrap();
    assert!(!t.is_script && t.cargo_deps.is_none());
}

#[test]
fn numbers_parse_as_std_does() {
    for s in ["0", "7", "+5", "", "+", "-1", "12a", "007", "18446744073709551615", "18446744073709551616", "99999999999999999999"] {
        assert_eq!(parse_usize(s), s.parse::<usize>().ok(), "{:?}", s);
    }
}

#[test]
fn versions_compare_by_parts() {
    assert_eq!(parse_semver("1.2.3").ok(), Some((1, 2, 3)));
    assert!(parse_semver("1.2").is_err());
    assert!(parse_semver("1.2.3.4").is_err());
    assert_eq!(min_version_met("0.0.7", "0.0.7").ok(), Some(true));
    assert_eq!(min_version_met("0.1.0", "0.0.9").ok(), Some(true));
    assert_eq!(min_version_met("0.0.7", "0.1.0").ok(), Some(false));
    assert_eq!(min_version_met("1.0.0", "0.99.99").ok(), Some(true));
    assert!(min_version_met("0.0.7", "1").is_err());
    assert!(semver_numbers_valid("1.x.3") == false);
    assert!(semver_numbers_valid("1.2"));
}

#[test]
fn directives_set_variables() {
    let d = parse_task_directives(b"@ct-set-env@ A=b=c @@\n@ct-set-env@ X= @@");
    assert!(d.error.is_none());
    assert_eq!(
        d.set_vars,
        vec![("A".to_string(), "b=c".to_string()), ("X".to_string(), "".to_string())]
    );
    let d = parse_task_directives(b"@ct-set-env@ A @@");
    assert!(matches!(d.error, Some(DirectiveError::NoEquals)));
    assert!(d.set_vars.is_empty());
    let d = parse_task_directives(b"");
    assert!(d.error.is_none());
    assert!(d.set_vars.is_empty());
}

#[test]
fn directives_before_a_fault_are_kept() {
    let d = parse_task_directives(b"@ct-set-env@ A=1 @@\n@bogus@ x @@\n@ct-set-env@ B=2 @@");
    match d.error {
        Some(DirectiveError::Unknown(k)) => assert_eq!(k, "bogus"),
        _ => panic!("unknown directive"),
    }
    assert_eq!(d.set_vars, vec![("A".to_string(), "1".to_string())]);
    let d = parse_task_directives(b"@ct-set-env@ A=1 @@\n@ct-set-env@ B @@");
    assert!(matches!(d.error, Some(DirectiveError::NoEquals)));
    assert_eq!(d.set_vars, vec![("A".to_string(), "1".to_string())]);
}

#[test]
fn system_and_pre_env_tasks() {
    assert!(matches!(check_system_task("ct-meta"), Some(SystemTask::Meta)));
    assert!(matches!(check_system_task("ct-clean"), Some(SystemTask::Clean)));
    assert!(check_system_task("ct-init").is_none());
    let args = |v: &[&str]| v.iter().map(|s| s.to_string()).collect::<Vec<_>>();
    assert!(matches!(check_pre_env_task(&args(&["c", "task", "ct-init", "--help"])), Some(PreEnvTask::Help)));
    assert!(matches!(check_pre_env_task(&args(&["c", "task", "--version"])), Some(PreEnvTask::Version)));
    assert!(matches!(check_pre_env_task(&args(&["c", "task", "ct-init"])), Some(PreEnvTask::Init)));
    assert!(check_pre_env_task(&args(&["c", "task", "x", "--", "--help"])).is_none());
    assert!(check_pre_env_task(&args(&["--help", "--help"])).is_none());
}

#[test]
fn help_lines_are_aligned() {
    let mut t = CTTaskMeta {
        name: "build".to_string(),
        path: String::new(),
        is_script: false,
        min_version: None,
        default: true,
        bootstrap: false,
        help: "builds it".to_string(),
        cargo_deps: None,
        task_deps: Vec::new(),
    };
    assert_eq!(help_line(&t), format!("{:>22}{} - {}", "build", "*", "builds it"));
    t.bootstrap = true;
    assert_eq!(help_line(&t), format!("{:>22}^ - builds it", "build"));
    t.name = "a-very-long-task-name-indeed".to_string();
    t.bootstrap = false;
    t.default = false;
    assert_eq!(help_line(&t), "a-very-long-task-name-indeed  - builds it");
}

#[test]
fn init_creates_what_is_missing() {
    let nothing = InitProbe { ct_dir: false, gitignore: false, util_cargo_toml: false, util_lib_rs: false, util_source: false };
    let steps = ct_init(&nothing);
    assert_eq!(steps.len(), 9);
    assert!(matches!(steps[0], InitStep::Announce));
    match &steps[1] {
        InitStep::CreateDir(p) => assert_eq!(p, &vec![".cargo-task"]),
        _ => panic!("create the directory"),
    }
    match &steps[8] {
        InitStep::Write(p, InitContent::UtilSource) => {
            assert_eq!(p, &vec![".cargo-task", "cargo_task_util", "src", "_cargo_task_util.rs"])
        }
        _ => panic!("write the util source"),
    }
    let all = InitProbe { ct_dir: true, gitignore: true, util_cargo_toml: true, util_lib_rs: true, util_source: true };
    let steps = ct_init(&all);
    assert_eq!(steps.len(), 3);
    assert!(steps.iter().all(|s| matches!(s, InitStep::EnsureDir(_))));
}

#[test]
fn cargo_toml_texts() {
    assert_eq!(
        script_cargo_toml("my-task", &Some("num_cpus = \"1\"".to_string())),
        "[package]\nname = \"my-task\"\nversion = \"0.0.1\"\nedition = \"2018\"\n\n[dependencies]\nnum_cpus = \"1\"\n"
    );
    assert_eq!(
        script_cargo_toml("t", &None),
        "[package]\nname = \"t\"\nversion = \"0.0.1\"\nedition = \"2018\"\n\n[dependencies]\n\n"
    );
    let members = vec!["a".to_string(), "b-c".to_string()];
    let refs: Vec<&String> = members.iter().collect();
    assert_eq!(workspace_cargo_toml(&members), format!("[workspace]\nmembers = {:?}\n", refs));
    assert_eq!(workspace_cargo_toml(&members), "[workspace]\nmembers = [\"a\", \"b-c\"]\n");
    assert_eq!(workspace_cargo_toml(&Vec::new()), "[workspace]\nmembers = []\n");
}

#[test]
fn formatted_version_parses_back() {
    for (a, b, c) in [(0usize, 0usize, 0usize), (1, 22, 333), (usize::MAX, 10, 9)] {
        let v = parse_semver(&format!("{}.{}.{}", a, b, c)).ok().unwrap();
        assert_eq!(v, (a, b, c));
    }
}

#[test]
fn task_build_step_builds_workspace_once() {
    let mut did = false;
    assert!(matches!(task_build_step(true, &mut did), BuildStep::UseArtifact));
    assert!(!did);
    assert!(matches!(
        task_build_step(false, &mut did),
        BuildStep::Build { generate_workspace: true }
    ));
    assert!(did);
    assert!(matches!(
        task_build_step(false, &mut did),
        BuildStep::Build { generate_workspace: false }
    ));
    assert!(did);
}

#[test]
fn set_env_lines_read_back() {
    let mut file = String::new();
    for (n, v) in [("MY_VARIABLE", "MY_VALUE"), ("EMPTY", ""), ("PATH_LIKE", "a b=c")] {
        file.push_str(&format!("\n@ct-set-env@ {}={} @@\n", n, v));
    }
    let d = parse_task_directives(file.as_bytes());
    assert!(d.error.is_none());
    assert_eq!(
        d.set_vars,
        vec![
            ("MY_VARIABLE".to_string(), "MY_VALUE".to_string()),
            ("EMPTY".to_string(), "".to_string()),
            ("PATH_LIKE".to_string(), "a b=c".to_string()),
        ]
    );
}
