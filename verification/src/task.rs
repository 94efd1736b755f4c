//! The tasks that cargo-task runs itself: the ones handled before the environment
//! is loaded, the system tasks, the help listing and `ct-init`.

use vstd::prelude::*;
use crate::cargo_task_util::{contains_str, str_eq, strs_view, CTTaskMeta, TaskMetaView};
use crate::env_loader::{cli_split, cli_words, split_cli_args};

verus! {

/// A task handled before the environment is loaded, after which cargo-task exits.
pub enum PreEnvTask {
    /// `--help`: print the usage
    Help,
    /// `--version`: print the version
    Version,
    /// `ct-init`: initialize the current directory
    Init,
}

/// The pre-env task that the words before `--` ask for, if any: `--help` first,
/// then `--version`, then `ct-init`.
pub open spec fn pre_env_task(args: Seq<Seq<char>>) -> Option<PreEnvTask> {
    let a = cli_split(cli_words(args)).0;
    if a.contains("--help"@) {
        Some(PreEnvTask::Help)
    } else if a.contains("--version"@) {
        Some(PreEnvTask::Version)
    } else if a.contains("ct-init"@) {
        Some(PreEnvTask::Init)
    } else {
        None
    }
}

/// check to see if we should execute a pre-env-load task, given the command line
pub fn check_pre_env_task(args: &Vec<String>) -> (r: Option<PreEnvTask>)
    ensures
        r == pre_env_task(strs_view(args@)),
{
    let (tasks, _rest) = split_cli_args(args);
    if contains_str(&tasks, "--help") {
        Some(PreEnvTask::Help)
    } else if contains_str(&tasks, "--version") {
        Some(PreEnvTask::Version)
    } else if contains_str(&tasks, "ct-init") {
        Some(PreEnvTask::Init)
    } else {
        None
    }
}

/// A task that cargo-task defines itself.
pub enum SystemTask {
    /// `ct-meta`: print the cargo-task metadata
    Meta,
    /// `ct-clean`: delete the cargo-task target directory
    Clean,
}

/// if the task name is a system-defined task, which one; if not, exec will attempt
/// to run a user-defined task.
pub fn check_system_task(task_name: &str) -> (r: Option<SystemTask>)
    ensures
        r matches Some(SystemTask::Meta) <==> task_name@ == "ct-meta"@,
        r matches Some(SystemTask::Clean) <==> task_name@ == "ct-clean"@,
{
    proof {
        reveal_strlit("ct-meta");
        reveal_strlit("ct-clean");
        assert("ct-meta"@[3] != "ct-clean"@[3]);
    }
    if str_eq(task_name, "ct-meta") {
        Some(SystemTask::Meta)
    } else if str_eq(task_name, "ct-clean") {
        Some(SystemTask::Clean)
    } else {
        None
    }
}

/// The mark of a task in the help listing: `^` bootstrap, `*` default, else blank.
pub open spec fn task_mark(m: TaskMetaView) -> char {
    if m.bootstrap { '^' } else if m.default { '*' } else { ' ' }
}

/// `n` spaces.
pub open spec fn spaces(n: int) -> Seq<char> {
    Seq::new(if n > 0 { n as nat } else { 0 }, |i: int| ' ')
}

/// `s` right-aligned in a field of `width` characters, as `{:>width}` formats it.
pub open spec fn pad_left(s: Seq<char>, width: int) -> Seq<char> {
    spaces(width - s.len()) + s
}

/// The help listing's line for a task: its name right-aligned in 22 characters,
/// its mark, ` - ` and its help text.
pub fn help_line(task: &CTTaskMeta) -> (line: String)
    ensures
        line@ == pad_left(task@.name, 22) + seq![task_mark(task@)] + " - "@ + task@.help,
{
    let len = task.name.as_str().unicode_len();
    let mut line = String::new();
    let mut k: usize = len;
    proof {
        assert(line@ =~= spaces(k - len));
    }
    while k < 22
        invariant
            len == task@.name.len(),
            len <= k <= 22 || (k == len && len > 22),
            line@ == spaces(k - len),
        decreases 22 - k,
    {
        line.append(" ");
        proof {
            reveal_strlit(" ");
            assert(line@ =~= spaces(k + 1 - len));
        }
        k = k + 1;
    }
    proof {
        assert(line@ =~= spaces(22 - len));
    }
    line.append(task.name.as_str());
    let mark = if task.bootstrap {
        "^"
    } else if task.default {
        "*"
    } else {
        " "
    };
    proof {
        reveal_strlit("^");
        reveal_strlit("*");
        reveal_strlit(" ");
        assert(mark@ =~= seq![task_mark(task@)]);
    }
    line.append(mark);
    line.append(" - ");
    line.append(task.help.as_str());
    line
}

/// What a step of `ct-init` writes.
pub enum InitContent {
    /// the `.gitignore` of the `.cargo-task` directory
    GitIgnore,
    /// the Cargo.toml of the `cargo_task_util` crate
    UtilCargoToml,
    /// the lib.rs of the `cargo_task_util` crate
    UtilLibRs,
    /// the `cargo_task_util` source
    UtilSource,
}

/// A step of `ct-init`, on a path given as its components.
pub enum InitStep {
    /// report that the directory is being initialized
    Announce,
    /// create a directory; failure is fatal
    CreateDir(Vec<String>),
    /// create a directory; failure is ignored
    EnsureDir(Vec<String>),
    /// write a file; failure is fatal
    Write(Vec<String>, InitContent),
}

/// Which of the files and directories of a set-up `.cargo-task` directory exist.
pub struct InitProbe {
    /// `.cargo-task` is a directory
    pub ct_dir: bool,
    /// `.cargo-task/.gitignore` is a file
    pub gitignore: bool,
    /// `.cargo-task/cargo_task_util/Cargo.toml` is a file
    pub util_cargo_toml: bool,
    /// `.cargo-task/cargo_task_util/src/lib.rs` is a file
    pub util_lib_rs: bool,
    /// `.cargo-task/cargo_task_util/src/_cargo_task_util.rs` is a file
    pub util_source: bool,
}

/// A step, as plain values: its kind (0 announce, 1 create, 2 ensure, 3 write),
/// its path and, for a write, what it writes (0 to 3, in the order of [`InitContent`]).
pub open spec fn step_view(s: InitStep) -> (int, Seq<Seq<char>>, int) {
    match s {
        InitStep::Announce => (0, seq![], 0),
        InitStep::CreateDir(p) => (1, strs_view(p@), 0),
        InitStep::EnsureDir(p) => (2, strs_view(p@), 0),
        InitStep::Write(p, c) => (3, strs_view(p@), match c {
            InitContent::GitIgnore => 0,
            InitContent::UtilCargoToml => 1,
            InitContent::UtilLibRs => 2,
            InitContent::UtilSource => 3,
        }),
    }
}

/// `.cargo-task`
pub open spec fn ct_dir() -> Seq<char> {
    ".cargo-task"@
}

/// The steps of `ct-init`, given what exists: each missing piece is made, and the
/// util crate's directories are ensured; what exists is left as it is.
pub open spec fn init_steps(p: InitProbe) -> Seq<(int, Seq<Seq<char>>, int)> {
    let util = seq![ct_dir(), "cargo_task_util"@];
    let src = util.push("src"@);
    (if p.ct_dir { seq![] } else { seq![(0, seq![], 0), (1, seq![ct_dir()], 0)] }) + (if p.gitignore {
        seq![]
    } else {
        seq![(3, seq![ct_dir(), ".gitignore"@], 0)]
    }) + seq![(2, util, 0)] + (if p.util_cargo_toml {
        seq![]
    } else {
        seq![(3, util.push("Cargo.toml"@), 1)]
    }) + seq![(2, src, 0)] + (if p.util_lib_rs {
        seq![]
    } else {
        seq![(3, src.push("lib.rs"@), 2)]
    }) + seq![(2, src, 0)] + (if p.util_source {
        seq![]
    } else {
        seq![(3, src.push("_cargo_task_util.rs"@), 3)]
    })
}

fn path_of(parts: Vec<&str>) -> (v: Vec<String>)
    ensures
        strs_view(v@) == parts@.map_values(|s: &str| s@),
{
    let mut v: Vec<String> = Vec::new();
    let mut i: usize = 0;
    while i < parts.len()
        invariant
            i <= parts@.len(),
            strs_view(v@) == parts@.map_values(|s: &str| s@).take(i as int),
        decreases parts@.len() - i,
    {
        let ghost before = strs_view(v@);
        v.push(parts[i].to_owned());
        proof {
            assert(strs_view(v@) =~= before.push(parts@[i as int]@));
            assert(parts@.map_values(|s: &str| s@).take(i + 1) =~= parts@.map_values(|s: &str| s@).take(
                i as int,
            ).push(parts@[i as int]@));
        }
        i = i + 1;
    }
    proof {
        assert(parts@.map_values(|s: &str| s@).take(parts@.len() as int) =~= parts@.map_values(
            |s: &str| s@,
        ));
    }
    v
}

/// This idempotent task runs before any valid task is executed or on ct_init:
/// the steps that ensure the .cargo-task directory, its .gitignore file and the
/// cargo_task_util dep crate exist, given which of them exist.
pub fn ct_init(probe: &InitProbe) -> (steps: Vec<InitStep>)
    ensures
        steps@.map_values(|s: InitStep| step_view(s)) == init_steps(*probe),
{
    let ghost util = seq![ct_dir(), "cargo_task_util"@];
    let ghost src = util.push("src"@);
    let mut steps: Vec<InitStep> = Vec::new();
    proof {
        assert(steps@.map_values(|s: InitStep| step_view(s)) =~= Seq::<(int, Seq<Seq<char>>, int)>::empty());
    }
    if !probe.ct_dir {
        push_step(&mut steps, InitStep::Announce);
        let p = path_of(vec![".cargo-task"]);
        assert(strs_view(p@) =~= seq![ct_dir()]);
        push_step(&mut steps, InitStep::CreateDir(p));
        assert(steps@.map_values(|s: InitStep| step_view(s)) =~= seq![(0, seq![], 0), (1, seq![ct_dir()], 0)]);
    }
    let ghost e1 = if probe.ct_dir { seq![] } else { seq![(0, seq![], 0), (1, seq![ct_dir()], 0)] };
    assert(steps@.map_values(|s: InitStep| step_view(s)) =~= e1);
    if !probe.gitignore {
        let p = path_of(vec![".cargo-task", ".gitignore"]);
        assert(strs_view(p@) =~= seq![ct_dir(), ".gitignore"@]);
        push_step(&mut steps, InitStep::Write(p, InitContent::GitIgnore));
    }
    let ghost e2 = e1 + if probe.gitignore { seq![] } else { seq![(3, seq![ct_dir(), ".gitignore"@], 0)] };
    assert(steps@.map_values(|s: InitStep| step_view(s)) =~= e2);
    let p = path_of(vec![".cargo-task", "cargo_task_util"]);
    assert(strs_view(p@) =~= util);
    push_step(&mut steps, InitStep::EnsureDir(p));
    let ghost e3 = e2 + seq![(2, util, 0)];
    assert(steps@.map_values(|s: InitStep| step_view(s)) =~= e3);
    if !probe.util_cargo_toml {
        let p = path_of(vec![".cargo-task", "cargo_task_util", "Cargo.toml"]);
        assert(strs_view(p@) =~= util.push("Cargo.toml"@));
        push_step(&mut steps, InitStep::Write(p, InitContent::UtilCargoToml));
    }
    let ghost e4 = e3 + if probe.util_cargo_toml { seq![] } else { seq![(3, util.push("Cargo.toml"@), 1)] };
    assert(steps@.map_values(|s: InitStep| step_view(s)) =~= e4);
    let p = path_of(vec![".cargo-task", "cargo_task_util", "src"]);
    assert(strs_view(p@) =~= src);
    push_step(&mut steps, InitStep::EnsureDir(p));
    let ghost e5 = e4 + seq![(2, src, 0)];
    assert(steps@.map_values(|s: InitStep| step_view(s)) =~= e5);
    if !probe.util_lib_rs {
        let p = path_of(vec![".cargo-task", "cargo_task_util", "src", "lib.rs"]);
        assert(strs_view(p@) =~= src.push("lib.rs"@));
        push_step(&mut steps, InitStep::Write(p, InitContent::UtilLibRs));
    }
    let ghost e6 = e5 + if probe.util_lib_rs { seq![] } else { seq![(3, src.push("lib.rs"@), 2)] };
    assert(steps@.map_values(|s: InitStep| step_view(s)) =~= e6);
    let p = path_of(vec![".cargo-task", "cargo_task_util", "src"]);
    assert(strs_view(p@) =~= src);
    push_step(&mut steps, InitStep::EnsureDir(p));
    let ghost e7 = e6 + seq![(2, src, 0)];
    assert(steps@.map_values(|s: InitStep| step_view(s)) =~= e7);
    if !probe.util_source {
        let p = path_of(vec![".cargo-task", "cargo_task_util", "src", "_cargo_task_util.rs"]);
        assert(strs_view(p@) =~= src.push("_cargo_task_util.rs"@));
        push_step(&mut steps, InitStep::Write(p, InitContent::UtilSource));
    }
    let ghost e8 = e7 + if probe.util_source { seq![] } else { seq![(3, src.push("_cargo_task_util.rs"@), 3)] };
    assert(steps@.map_values(|s: InitStep| step_view(s)) =~= e8);
    assert(e8 =~= init_steps(*probe));
    steps
}

fn push_step(steps: &mut Vec<InitStep>, s: InitStep)
    ensures
        final(steps)@.map_values(|s: InitStep| step_view(s)) == old(steps)@.map_values(
            |s: InitStep| step_view(s),
        ).push(step_view(s)),
{
    let ghost v = step_view(s);
    steps.push(s);
    proof {
        assert(steps@.map_values(|s: InitStep| step_view(s)) =~= old(steps)@.map_values(
            |s: InitStep| step_view(s),
        ).push(v));
    }
}


/// `ct-init` is idempotent: once everything exists it creates and writes nothing,
/// and each file it writes is one that was missing.
pub proof fn law_init_idempotent(p: InitProbe)
    ensures
        (p.ct_dir && p.gitignore && p.util_cargo_toml && p.util_lib_rs && p.util_source) ==> forall|i: int|
            0 <= i < init_steps(p).len() ==> (#[trigger] init_steps(p)[i]).0 == 2,
        forall|i: int|
            0 <= i < init_steps(p).len() && (#[trigger] init_steps(p)[i]).0 == 3 ==> {
                let c = init_steps(p)[i].2;
                if c == 0 {
                    !p.gitignore
                } else if c == 1 {
                    !p.util_cargo_toml
                } else if c == 2 {
                    !p.util_lib_rs
                } else {
                    !p.util_source
                }
            },
{
}

/// The Cargo.toml of the `cargo_task_util` crate that `ct-init` writes.
pub fn util_cargo_toml() -> (s: &'static str)
    ensures
        s@ == "[package]\nname = \"cargo_task_util\"\nversion = \"0.0.1\"\nedition = \"2018\"\n"@,
{
    "[package]\nname = \"cargo_task_util\"\nversion = \"0.0.1\"\nedition = \"2018\"\n"
}

/// The lib.rs of the `cargo_task_util` crate that `ct-init` writes.
pub fn util_lib_rs() -> (s: &'static str)
    ensures
        s@ == "#![allow(dead_code)]\npub mod _cargo_task_util;\npub use _cargo_task_util::*;\n"@,
{
    "#![allow(dead_code)]\npub mod _cargo_task_util;\npub use _cargo_task_util::*;\n"
}

/// The file that `ct-init` writes each content to: the `.gitignore` of the
/// `.cargo-task` directory, and the Cargo.toml, lib.rs and `_cargo_task_util.rs` of
/// its `cargo_task_util` crate.
pub open spec fn init_file(content: int) -> Seq<Seq<char>> {
    if content == 0 {
        seq![ct_dir(), ".gitignore"@]
    } else if content == 1 {
        seq![ct_dir(), "cargo_task_util"@, "Cargo.toml"@]
    } else if content == 2 {
        seq![ct_dir(), "cargo_task_util"@, "src"@, "lib.rs"@]
    } else {
        seq![ct_dir(), "cargo_task_util"@, "src"@, "_cargo_task_util.rs"@]
    }
}

/// Everything `ct-init` creates or writes lies inside `.cargo-task`: every step but
/// the announcement has a path whose first component is `.cargo-task`; each write
/// goes to the file for its content; and each missing file is written.
pub proof fn law_init_inside_ct_dir(p: InitProbe)
    ensures
        forall|i: int|
            0 <= i < init_steps(p).len() && (#[trigger] init_steps(p)[i]).0 != 0 ==> init_steps(p)[i].1.len()
                >= 1 && init_steps(p)[i].1[0] == ct_dir(),
        forall|i: int|
            0 <= i < init_steps(p).len() && (#[trigger] init_steps(p)[i]).0 == 3 ==> init_steps(p)[i].1
                == init_file(init_steps(p)[i].2),
        !p.gitignore ==> init_steps(p).contains((3, init_file(0), 0)),
        !p.util_cargo_toml ==> init_steps(p).contains((3, init_file(1), 1)),
        !p.util_lib_rs ==> init_steps(p).contains((3, init_file(2), 2)),
        !p.util_source ==> init_steps(p).contains((3, init_file(3), 3)),
{
    let s = init_steps(p);
    let util = seq![ct_dir(), "cargo_task_util"@];
    let src = util.push("src"@);
    assert(util.push("Cargo.toml"@) =~= init_file(1));
    assert(src.push("lib.rs"@) =~= init_file(2));
    assert(src.push("_cargo_task_util.rs"@) =~= init_file(3));
    let none = Seq::<(int, Seq<Seq<char>>, int)>::empty();
    let a: Seq<(int, Seq<Seq<char>>, int)> = if p.ct_dir {
        none
    } else {
        seq![(0int, Seq::<Seq<char>>::empty(), 0int), (1int, seq![ct_dir()], 0int)]
    };
    let b: Seq<(int, Seq<Seq<char>>, int)> = if p.gitignore {
        none
    } else {
        seq![(3int, seq![ct_dir(), ".gitignore"@], 0int)]
    };
    let c: Seq<(int, Seq<Seq<char>>, int)> = if p.util_cargo_toml {
        none
    } else {
        seq![(3int, util.push("Cargo.toml"@), 1int)]
    };
    let d: Seq<(int, Seq<Seq<char>>, int)> = if p.util_lib_rs {
        none
    } else {
        seq![(3int, src.push("lib.rs"@), 2int)]
    };
    let e: Seq<(int, Seq<Seq<char>>, int)> = if p.util_source {
        none
    } else {
        seq![(3int, src.push("_cargo_task_util.rs"@), 3int)]
    };
    let x1 = a + b;
    let x2 = x1 + seq![(2int, util, 0int)];
    let x3 = x2 + c;
    let x4 = x3 + seq![(2int, src, 0int)];
    let x5 = x4 + d;
    let x6 = x5 + seq![(2int, src, 0int)];
    let x7 = x6 + e;
    assert(s == x7);
    assert forall|i: int| 0 <= i < s.len() implies {
        &&& (#[trigger] s[i]).0 != 0 ==> s[i].1.len() >= 1 && s[i].1[0] == ct_dir()
        &&& s[i].0 == 3 ==> s[i].1 == init_file(s[i].2)
    } by {
        if i < a.len() {
            assert(s[i] == a[i]);
        } else if i < x1.len() {
            assert(s[i] == b[i - a.len()]);
        } else if i < x2.len() {
            assert(s[i] == (2int, util, 0int));
        } else if i < x3.len() {
            assert(s[i] == c[i - x2.len()]);
        } else if i < x4.len() {
            assert(s[i] == (2int, src, 0int));
        } else if i < x5.len() {
            assert(s[i] == d[i - x4.len()]);
        } else if i < x6.len() {
            assert(s[i] == (2int, src, 0int));
        } else {
            assert(s[i] == e[i - x6.len()]);
        }
    }
    if !p.gitignore {
        assert(s[a.len() as int] == (3int, init_file(0), 0int));
    }
    if !p.util_cargo_toml {
        assert(s[x2.len() as int] == (3int, init_file(1), 1int));
    }
    if !p.util_lib_rs {
        assert(s[x4.len() as int] == (3int, init_file(2), 2int));
    }
    if !p.util_source {
        assert(s[x6.len() as int] == (3int, init_file(3), 3int));
    }
}

} // verus!
