//! The cargo-task environment that tasks see: task metadata, the table of all
//! tasks, and the environment struct built from `CT_` environment variables.

use vstd::prelude::*;
use crate::env_vars::{
    env_lookup, lemma_task_key_injective, lookup_var, make_task_key, path_key_name, sfx_bootstrap,
    sfx_cargo_deps, sfx_default, sfx_help, sfx_is_script, sfx_min_ver, sfx_path, sfx_task_deps,
    task_key, task_prefix, vars_view,
};
use crate::text::{split_char, split_on, split_whitespace, split_ws};
use crate::order::{lemma_lt_irreflexive, lemma_lt_total, lemma_lt_transitive, seq_lt, str_lt};

verus! {

/// The plain value of an optional string.
pub open spec fn opt_view(o: Option<String>) -> Option<Seq<char>> {
    match o {
        Some(s) => Some(s@),
        None => None,
    }
}

/// The plain values of a list of strings.
pub open spec fn strs_view(v: Seq<String>) -> Seq<Seq<char>> {
    v.map_values(|s: String| s@)
}

/// Cargo-task task metadata struct.
#[derive(Debug)]
pub struct CTTaskMeta {
    /// task name
    pub name: String,
    /// task "crate" path, or the script file of a script task
    pub path: String,
    /// is this a single-file script task?
    pub is_script: bool,
    /// minimum cargo-task version the task asks for
    pub min_version: Option<String>,
    /// does this path run on default `cargo task` execution?
    pub default: bool,
    /// is this a bootstrap task, run ahead of the rest?
    pub bootstrap: bool,
    /// help text for the task
    pub help: String,
    /// cargo dependencies of a script task, as Cargo.toml lines
    pub cargo_deps: Option<String>,
    /// any cargo-task task dependencies
    pub task_deps: Vec<String>,
}

/// What a [`CTTaskMeta`] holds, as plain values.
pub struct TaskMetaView {
    /// task name
    pub name: Seq<char>,
    /// task path
    pub path: Seq<char>,
    /// script task?
    pub is_script: bool,
    /// minimum version
    pub min_version: Option<Seq<char>>,
    /// default task?
    pub default: bool,
    /// bootstrap task?
    pub bootstrap: bool,
    /// help text
    pub help: Seq<char>,
    /// cargo dependencies
    pub cargo_deps: Option<Seq<char>>,
    /// task dependencies
    pub task_deps: Seq<Seq<char>>,
}

impl View for CTTaskMeta {
    type V = TaskMetaView;

    open spec fn view(&self) -> TaskMetaView {
        TaskMetaView {
            name: self.name@,
            path: self.path@,
            is_script: self.is_script,
            min_version: opt_view(self.min_version),
            default: self.default,
            bootstrap: self.bootstrap,
            help: self.help@,
            cargo_deps: opt_view(self.cargo_deps),
            task_deps: strs_view(self.task_deps@),
        }
    }
}

/// The names of the tasks in `s` are in strictly increasing order.
pub open spec fn sorted_names(s: Seq<TaskMetaView>) -> bool {
    forall|i: int, j: int| 0 <= i < j < s.len() ==> seq_lt(#[trigger] s[i].name, #[trigger] s[j].name)
}

/// Some task in `s` is named `k`.
pub open spec fn has_name(s: Seq<TaskMetaView>, k: Seq<char>) -> bool {
    exists|i: int| 0 <= i < s.len() && #[trigger] s[i].name == k
}

/// The task in `s` named `k` (meaningful where [`has_name`] holds).
pub open spec fn table_get(s: Seq<TaskMetaView>, k: Seq<char>) -> TaskMetaView {
    s[choose|i: int| 0 <= i < s.len() && #[trigger] s[i].name == k]
}

/// The tasks of `s`, keyed by name.
pub open spec fn table_map(s: Seq<TaskMetaView>) -> Map<Seq<char>, TaskMetaView> {
    Map::new(|k: Seq<char>| has_name(s, k), |k: Seq<char>| table_get(s, k))
}

/// In a sorted table, a name is held at one index only.
pub proof fn lemma_sorted_unique(s: Seq<TaskMetaView>, i: int, j: int)
    requires
        sorted_names(s),
        0 <= i < s.len(),
        0 <= j < s.len(),
        s[i].name == s[j].name,
    ensures
        i == j,
{
    if i < j {
        assert(seq_lt(s[i].name, s[j].name));
        lemma_lt_irreflexive(s[i].name);
    } else if j < i {
        assert(seq_lt(s[j].name, s[i].name));
        lemma_lt_irreflexive(s[i].name);
    }
}

/// In a sorted table, [`table_get`] gives the entry at the index that holds the name.
pub proof fn lemma_table_get(s: Seq<TaskMetaView>, i: int)
    requires
        sorted_names(s),
        0 <= i < s.len(),
    ensures
        has_name(s, s[i].name),
        table_get(s, s[i].name) == s[i],
{
    let k = s[i].name;
    assert(has_name(s, k));
    let j = choose|j: int| 0 <= j < s.len() && #[trigger] s[j].name == k;
    lemma_sorted_unique(s, i, j);
}


proof fn lemma_map_drop_last(a: Seq<TaskMetaView>)
    requires
        sorted_names(a),
        a.len() > 0,
    ensures
        sorted_names(a.drop_last()),
        table_map(a.drop_last()) == table_map(a).remove(a.last().name),
{
    let d = a.drop_last();
    let x = a.last();
    assert(a[a.len() - 1] == x);
    assert forall|k: Seq<char>| #[trigger] table_map(d).contains_key(k) <==> table_map(a).remove(
        x.name,
    ).contains_key(k) by {
        if has_name(d, k) {
            let i = choose|i: int| 0 <= i < d.len() && #[trigger] d[i].name == k;
            assert(a[i].name == k);
            if k == x.name {
                lemma_sorted_unique(a, i, a.len() - 1);
            }
        }
        if has_name(a, k) && k != x.name {
            let i = choose|i: int| 0 <= i < a.len() && #[trigger] a[i].name == k;
            assert(i != a.len() - 1);
            assert(d[i].name == k);
        }
    }
    assert forall|k: Seq<char>| table_map(d).contains_key(k) implies #[trigger] table_map(d)[k]
        == table_map(a).remove(x.name)[k] by {
        let i = choose|i: int| 0 <= i < d.len() && #[trigger] d[i].name == k;
        assert(a[i] == d[i]);
        lemma_table_get(a, i);
        lemma_table_get(d, i);
    }
    assert(table_map(d) =~= table_map(a).remove(x.name));
}

/// A sorted table is determined by its tasks: two sorted tables that hold the same
/// task under each name are the same sequence.
pub proof fn law_sorted_table_determined(a: Seq<TaskMetaView>, b: Seq<TaskMetaView>)
    requires
        sorted_names(a),
        sorted_names(b),
        table_map(a) == table_map(b),
    ensures
        a == b,
    decreases a.len(),
{
    if a.len() == 0 {
        if b.len() > 0 {
            assert(table_map(b).contains_key(b[0].name));
        }
        assert(a =~= b);
    } else {
        let x = a.last();
        assert(a[a.len() - 1] == x);
        assert(table_map(a).contains_key(x.name));
        let j = choose|j: int| 0 <= j < b.len() && #[trigger] b[j].name == x.name;
        let y = b.last();
        assert(b[b.len() - 1] == y);
        assert(table_map(b).contains_key(y.name));
        let i = choose|i: int| 0 <= i < a.len() && #[trigger] a[i].name == y.name;
        if j < b.len() - 1 {
            assert(seq_lt(x.name, y.name));
            if i < a.len() - 1 {
                assert(seq_lt(y.name, x.name));
                lemma_lt_total(x.name, y.name);
            } else {
                lemma_lt_irreflexive(x.name);
            }
        }
        assert(j == b.len() - 1);
        lemma_table_get(a, a.len() - 1);
        lemma_table_get(b, b.len() - 1);
        assert(x.name == y.name);
        assert(table_map(a)[x.name] == x);
        assert(table_map(b)[y.name] == y);
        assert(x == y);
        lemma_map_drop_last(a);
        lemma_map_drop_last(b);
        law_sorted_table_determined(a.drop_last(), b.drop_last());
        assert(a =~= a.drop_last().push(x));
        assert(b =~= b.drop_last().push(y));
    }
}

/// The tasks, kept in the order of their names, one per name.
#[derive(Debug)]
pub struct TaskTable {
    entries: Vec<CTTaskMeta>,
}

impl View for TaskTable {
    type V = Seq<TaskMetaView>;

    closed spec fn view(&self) -> Seq<TaskMetaView> {
        self.entries@.map_values(|m: CTTaskMeta| m@)
    }
}

impl TaskTable {
    #[verifier::type_invariant]
    spec fn names_sorted(&self) -> bool {
        sorted_names(self.entries@.map_values(|m: CTTaskMeta| m@))
    }

    /// An empty table.
    pub fn new() -> (t: Self)
        ensures
            t@ == Seq::<TaskMetaView>::empty(),
    {
        let t = TaskTable { entries: Vec::new() };
        proof {
            assert(t.entries@.map_values(|m: CTTaskMeta| m@) =~= Seq::<TaskMetaView>::empty());
        }
        t
    }

    /// The number of tasks.
    pub fn len(&self) -> (n: usize)
        ensures
            n == self@.len(),
            sorted_names(self@),
    {
        proof {
            use_type_invariant(self);
        }
        self.entries.len()
    }

    /// The task at index `i`, in the order of names.
    pub fn entry(&self, i: usize) -> (m: &CTTaskMeta)
        requires
            i < self@.len(),
        ensures
            m@ == self@[i as int],
            sorted_names(self@),
    {
        proof {
            use_type_invariant(self);
        }
        &self.entries[i]
    }

    /// The index of the task named `name`, if there is one.
    pub fn find(&self, name: &str) -> (r: Option<usize>)
        ensures
            sorted_names(self@),
            r is None <==> !has_name(self@, name@),
            r matches Some(i) ==> i < self@.len() && self@[i as int].name == name@ && table_get(
                self@,
                name@,
            ) == self@[i as int],
    {
        proof {
            use_type_invariant(self);
        }
        let n = self.entries.len();
        let mut i: usize = 0;
        while i < n
            invariant
                n == self@.len(),
                i <= n,
                sorted_names(self@),
                forall|k: int| 0 <= k < i ==> #[trigger] self@[k].name != name@,
            decreases n - i,
        {
            if str_lt(self.entries[i].name.as_str(), name) == false && str_lt(
                name,
                self.entries[i].name.as_str(),
            ) == false {
                proof {
                    lemma_lt_total(self@[i as int].name, name@);
                    lemma_table_get(self@, i as int);
                }
                return Some(i);
            }
            proof {
                lemma_lt_irreflexive(name@);
            }
            i = i + 1;
        }
        None
    }

    /// Whether a task is named `name`.
    pub fn contains_key(&self, name: &str) -> (b: bool)
        ensures
            b == has_name(self@, name@),
    {
        self.find(name).is_some()
    }

    /// The task named `name`, if there is one.
    pub fn get(&self, name: &str) -> (r: Option<&CTTaskMeta>)
        ensures
            r is None <==> !has_name(self@, name@),
            r matches Some(m) ==> m@ == table_get(self@, name@),
    {
        match self.find(name) {
            Some(i) => Some(&self.entries[i]),
            None => None,
        }
    }

    /// Adds `meta` under its name, in place of any task of that name.
    pub fn insert(&mut self, meta: CTTaskMeta)
        ensures
            sorted_names(final(self)@),
            table_map(final(self)@) == table_map(old(self)@).insert(meta@.name, meta@),
            final(self)@.len() == old(self)@.len() + if has_name(old(self)@, meta@.name) {
                0int
            } else {
                1int
            },
    {
        proof {
            use_type_invariant(&*self);
        }
        let ghost old_v = self@;
        let ghost key = meta@.name;
        let n = self.entries.len();
        let mut i: usize = 0;
        while i < n && str_lt(self.entries[i].name.as_str(), meta.name.as_str())
            invariant
                n == self@.len(),
                i <= n,
                self@ == old_v,
                key == meta@.name,
                sorted_names(old_v),
                forall|k: int| 0 <= k < i ==> seq_lt(#[trigger] old_v[k].name, key),
            decreases n - i,
        {
            i = i + 1;
        }
        // every entry from `i` on comes after `key`, or is `key` itself
        proof {
            assert forall|k: int| i <= k < n implies !seq_lt(#[trigger] old_v[k].name, key) by {
                if k > i {
                    assert(seq_lt(old_v[i as int].name, old_v[k].name));
                    if seq_lt(old_v[k].name, key) {
                        lemma_lt_transitive(old_v[i as int].name, old_v[k].name, key);
                    }
                }
            }
        }
        let same = i < n && !str_lt(meta.name.as_str(), self.entries[i].name.as_str());
        let ghost mv = meta@;
        let mut entries: Vec<CTTaskMeta> = Vec::new();
        std::mem::swap(&mut entries, &mut self.entries);
        if same {
            proof {
                lemma_lt_total(old_v[i as int].name, key);
            }
            entries.set(i, meta);
            proof {
                let nv = entries@.map_values(|m: CTTaskMeta| m@);
                assert(nv =~= old_v.update(i as int, mv));
                assert(sorted_names(nv)) by {
                    assert forall|a: int, b: int| 0 <= a < b < nv.len() implies seq_lt(
                        #[trigger] nv[a].name,
                        #[trigger] nv[b].name,
                    ) by {
                        assert(seq_lt(old_v[a].name, old_v[b].name));
                    }
                }
                assert(has_name(old_v, key));
                assert(table_map(nv) =~= table_map(old_v).insert(key, mv)) by {
                    assert forall|k: Seq<char>| #[trigger]
                        table_map(nv).contains_key(k) <==> table_map(old_v).insert(
                            key,
                            mv,
                        ).contains_key(k) by {
                        if has_name(nv, k) {
                            let j = choose|j: int| 0 <= j < nv.len() && #[trigger] nv[j].name == k;
                            assert(old_v[j].name == k);
                        }
                        if has_name(old_v, k) {
                            let j = choose|j: int| 0 <= j < old_v.len() && #[trigger] old_v[j].name
                                == k;
                            assert(nv[j].name == k);
                        }
                    }
                    assert forall|k: Seq<char>| table_map(nv).contains_key(k) implies #[trigger]
                        table_map(nv)[k] == table_map(old_v).insert(key, mv)[k] by {
                        let j = choose|j: int| 0 <= j < nv.len() && #[trigger] nv[j].name == k;
                        lemma_table_get(nv, j);
                        if j != i {
                            assert(old_v[j].name == k);
                            lemma_table_get(old_v, j);
                            assert(k != key) by {
                                if k == key {
                                    lemma_sorted_unique(old_v, i as int, j);
                                }
                            }
                        }
                    }
                }
            }
        } else {
            entries.insert(i, meta);
            proof {
                let nv = entries@.map_values(|m: CTTaskMeta| m@);
                assert(nv =~= old_v.insert(i as int, mv));
                assert forall|k: int| i <= k < n implies seq_lt(key, #[trigger] old_v[k].name) by {
                    lemma_lt_total(old_v[k].name, key);
                    if k == i {
                    } else {
                        assert(seq_lt(old_v[i as int].name, old_v[k].name));
                        if old_v[k].name == key {
                        } else {
                        }
                        if !seq_lt(key, old_v[i as int].name) {
                            lemma_lt_total(old_v[i as int].name, key);
                        }
                        lemma_lt_transitive(key, old_v[i as int].name, old_v[k].name);
                    }
                }
                assert(sorted_names(nv)) by {
                    assert forall|a: int, b: int| 0 <= a < b < nv.len() implies seq_lt(
                        #[trigger] nv[a].name,
                        #[trigger] nv[b].name,
                    ) by {
                        if b < i {
                            assert(seq_lt(old_v[a].name, old_v[b].name));
                        } else if b == i {
                            assert(seq_lt(old_v[a].name, key));
                        } else if a < i {
                            assert(seq_lt(old_v[a].name, key));
                            assert(seq_lt(key, old_v[b - 1].name));
                            lemma_lt_transitive(old_v[a].name, key, old_v[b - 1].name);
                        } else if a == i {
                            assert(seq_lt(key, old_v[b - 1].name));
                        } else {
                            assert(seq_lt(old_v[a - 1].name, old_v[b - 1].name));
                        }
                    }
                }
                assert(!has_name(old_v, key)) by {
                    if has_name(old_v, key) {
                        let j = choose|j: int| 0 <= j < old_v.len() && #[trigger] old_v[j].name
                            == key;
                        if j < i {
                            lemma_lt_irreflexive(key);
                        } else {
                            lemma_lt_irreflexive(key);
                        }
                    }
                }
                assert(table_map(nv) =~= table_map(old_v).insert(key, mv)) by {
                    assert forall|k: Seq<char>| #[trigger]
                        table_map(nv).contains_key(k) <==> table_map(old_v).insert(
                            key,
                            mv,
                        ).contains_key(k) by {
                        if has_name(nv, k) {
                            let j = choose|j: int| 0 <= j < nv.len() && #[trigger] nv[j].name == k;
                            if j < i {
                                assert(old_v[j].name == k);
                            } else if j > i {
                                assert(old_v[j - 1].name == k);
                            }
                        }
                        if has_name(old_v, k) {
                            let j = choose|j: int| 0 <= j < old_v.len() && #[trigger] old_v[j].name
                                == k;
                            if j < i {
                                assert(nv[j].name == k);
                            } else {
                                assert(nv[j + 1].name == k);
                            }
                        }
                        if k == key {
                            assert(nv[i as int].name == k);
                        }
                    }
                    assert forall|k: Seq<char>| table_map(nv).contains_key(k) implies #[trigger]
                        table_map(nv)[k] == table_map(old_v).insert(key, mv)[k] by {
                        let j = choose|j: int| 0 <= j < nv.len() && #[trigger] nv[j].name == k;
                        lemma_table_get(nv, j);
                        if j < i {
                            lemma_table_get(old_v, j);
                        } else if j > i {
                            lemma_table_get(old_v, j - 1);
                        }
                    }
                }
            }
        }
        self.entries = entries;
    }
}


/// Cargo-task environment info struct.
#[derive(Debug)]
pub struct CTEnv {
    /// The path to the cargo binary.
    pub cargo_path: String,
    /// The .cargo-task directory.
    pub cargo_task_path: String,
    /// The target dir for cargo-task builds.
    pub cargo_task_target: String,
    /// The root of the cargo task execution environment.
    pub work_dir: String,
    /// The tasks named on the command line, before any `--`.
    pub task_list: Vec<String>,
    /// The arguments after `--` on the command line, handed to each task.
    pub arg_list: Vec<String>,
    /// All tasks defined in the task directory.
    pub tasks: TaskTable,
}

/// A copy of a list of strings.
pub fn copy_strs(v: &Vec<String>) -> (r: Vec<String>)
    ensures
        strs_view(r@) == strs_view(v@),
{
    let mut r: Vec<String> = Vec::new();
    let mut i: usize = 0;
    while i < v.len()
        invariant
            i <= v@.len(),
            strs_view(r@) == strs_view(v@).take(i as int),
        decreases v@.len() - i,
    {
        let c = v[i].clone();
        let ghost before = r@;
        r.push(c);
        proof {
            assert(c@ == v@[i as int]@);
            assert(r@ == before.push(c));
            assert(strs_view(r@) =~= strs_view(before).push(c@));
            assert(strs_view(v@).take(i + 1) =~= strs_view(v@).take(i as int).push(
                strs_view(v@)[i as int],
            ));
        }
        i = i + 1;
    }
    proof {
        assert(strs_view(v@).take(v@.len() as int) =~= strs_view(v@));
    }
    r
}

/// Whether `s` is in `v`.
pub fn contains_str(v: &Vec<String>, s: &str) -> (b: bool)
    ensures
        b == strs_view(v@).contains(s@),
{
    let mut i: usize = 0;
    while i < v.len()
        invariant
            i <= v@.len(),
            forall|k: int| 0 <= k < i ==> strs_view(v@)[k] != s@,
        decreases v@.len() - i,
    {
        if str_eq(v[i].as_str(), s) {
            proof {
                assert(strs_view(v@)[i as int] == s@);
            }
            return true;
        }
        i = i + 1;
    }
    false
}

/// Whether two strings hold the same characters.
pub fn str_eq(a: &str, b: &str) -> (r: bool)
    ensures
        r == (a@ == b@),
{
    let r = !str_lt(a, b) && !str_lt(b, a);
    proof {
        lemma_lt_total(a@, b@);
        lemma_lt_irreflexive(a@);
    }
    r
}


/// The task named `n`, as the variables describe it; `path` is the value of its
/// path variable.
pub open spec fn env_task_with_path(
    vars: Seq<(Seq<char>, Seq<char>)>,
    n: Seq<char>,
    path: Seq<char>,
) -> TaskMetaView {
    TaskMetaView {
        name: n,
        path: path,
        is_script: env_lookup(vars, task_key(n, sfx_is_script())) is Some,
        min_version: env_lookup(vars, task_key(n, sfx_min_ver())),
        default: env_lookup(vars, task_key(n, sfx_default())) is Some,
        bootstrap: env_lookup(vars, task_key(n, sfx_bootstrap())) is Some,
        help: match env_lookup(vars, task_key(n, sfx_help())) {
            Some(h) => h,
            None => seq![],
        },
        cargo_deps: env_lookup(vars, task_key(n, sfx_cargo_deps())),
        task_deps: match env_lookup(vars, task_key(n, sfx_task_deps())) {
            Some(d) => split_ws(d),
            None => seq![],
        },
    }
}

/// The tasks that the variables describe, by name: one for each `CT_TASK_<name>_PATH`.
pub open spec fn env_tasks(vars: Seq<(Seq<char>, Seq<char>)>) -> Map<Seq<char>, TaskMetaView> {
    Map::new(
        |n: Seq<char>| env_lookup(vars, task_key(n, sfx_path())) is Some,
        |n: Seq<char>| env_task_with_path(vars, n, env_lookup(vars, task_key(n, sfx_path()))->0),
    )
}

/// The name `CT_TASK_PATH`, which reads as a path variable with too short a name.
pub open spec fn short_path_key() -> Seq<char> {
    task_prefix() + seq!['P', 'A', 'T', 'H']
}

/// Reads the task named `name`, whose path is `path`, from the variables.
fn read_task(vars: &Vec<(String, String)>, name: String, path: String) -> (m: CTTaskMeta)
    ensures
        m@ == env_task_with_path(vars_view(vars@), name@, path@),
{
    let is_script = lookup_var(vars, make_task_key(name.as_str(), "_IS_SCRIPT").as_str()).is_some();
    let min_version = lookup_var(vars, make_task_key(name.as_str(), "_MIN_VER").as_str());
    let default = lookup_var(vars, make_task_key(name.as_str(), "_DEFAULT").as_str()).is_some();
    let bootstrap = lookup_var(vars, make_task_key(name.as_str(), "_BOOTSTRAP").as_str()).is_some();
    let help = match lookup_var(vars, make_task_key(name.as_str(), "_HELP").as_str()) {
        Some(h) => h,
        None => String::new(),
    };
    let cargo_deps = lookup_var(vars, make_task_key(name.as_str(), "_CARGO_DEPS").as_str());
    let task_deps = match lookup_var(vars, make_task_key(name.as_str(), "_TASK_DEPS").as_str()) {
        Some(d) => split_whitespace(d.as_str()),
        None => Vec::new(),
    };
    proof {
        reveal_strlit("_IS_SCRIPT");
        reveal_strlit("_MIN_VER");
        reveal_strlit("_DEFAULT");
        reveal_strlit("_BOOTSTRAP");
        reveal_strlit("_HELP");
        reveal_strlit("_CARGO_DEPS");
        reveal_strlit("_TASK_DEPS");
        assert("_IS_SCRIPT"@ =~= sfx_is_script());
        assert("_MIN_VER"@ =~= sfx_min_ver());
        assert("_DEFAULT"@ =~= sfx_default());
        assert("_BOOTSTRAP"@ =~= sfx_bootstrap());
        assert("_HELP"@ =~= sfx_help());
        assert("_CARGO_DEPS"@ =~= sfx_cargo_deps());
        assert("_TASK_DEPS"@ =~= sfx_task_deps());
    }
    let m = CTTaskMeta {
        name,
        path,
        is_script,
        min_version,
        default,
        bootstrap,
        help,
        cargo_deps,
        task_deps,
    };
    proof {
        assert(strs_view(m.task_deps@) =~= env_task_with_path(vars_view(vars@), m.name@, m.path@).task_deps);
    }
    m
}

/// Loads task metadata from the environment variables `vars`: one task for each
/// `CT_TASK_<name>_PATH` variable, with the other fields read from the variables
/// of that name.
pub fn enumerate_task_metadata(vars: &Vec<(String, String)>) -> (t: TaskTable)
    requires
        forall|i: int| 0 <= i < vars@.len() ==> #[trigger] vars@[i].0@ != short_path_key(),
    ensures
        sorted_names(t@),
        table_map(t@) == env_tasks(vars_view(vars@)),
{
    let ghost vv = vars_view(vars@);
    let mut t = TaskTable::new();
    let n = vars.len();
    let mut i: usize = 0;
    proof {
        assert(table_map(t@) =~= Map::new(
            |m: Seq<char>| env_lookup(vv.take(0), task_key(m, sfx_path())) is Some,
            |m: Seq<char>| env_task_with_path(vv, m, env_lookup(vv.take(0), task_key(m, sfx_path()))->0),
        ));
    }
    while i < n
        invariant
            vv == vars_view(vars@),
            n == vv.len(),
            i <= n,
            table_map(t@) == Map::new(
                |m: Seq<char>| env_lookup(vv.take(i as int), task_key(m, sfx_path())) is Some,
                |m: Seq<char>| env_task_with_path(vv, m, env_lookup(vv.take(i as int), task_key(m, sfx_path()))->0),
            ),
        decreases n - i,
    {
        let ghost before = table_map(t@);
        proof {
            assert(vv.take(i + 1).drop_last() =~= vv.take(i as int));
            assert(vv.take(i + 1).last() == vv[i as int]);
        }
        match path_key_name(vars[i].0.as_str()) {
            Some(name) => {
                let ghost nm = name@;
                let meta = read_task(vars, name, vars[i].1.clone());
                t.insert(meta);
                proof {
                    assert forall|m: Seq<char>| m != nm implies task_key(m, sfx_path()) != vv[i as int].0 by {
                        if task_key(m, sfx_path()) == vv[i as int].0 {
                            lemma_task_key_injective(m, sfx_path(), nm, sfx_path());
                        }
                    }
                    assert(table_map(t@) =~= Map::new(
                        |m: Seq<char>| env_lookup(vv.take(i + 1), task_key(m, sfx_path())) is Some,
                        |m: Seq<char>| env_task_with_path(vv, m, env_lookup(vv.take(i + 1), task_key(m, sfx_path()))->0),
                    ));
                }
            },
            None => {
                proof {
                    assert(table_map(t@) =~= Map::new(
                        |m: Seq<char>| env_lookup(vv.take(i + 1), task_key(m, sfx_path())) is Some,
                        |m: Seq<char>| env_task_with_path(vv, m, env_lookup(vv.take(i + 1), task_key(m, sfx_path()))->0),
                    ));
                }
            },
        }
        i = i + 1;
    }
    proof {
        assert(vv.take(n as int) =~= vv);
        assert(table_map(t@) =~= env_tasks(vv));
    }
    let _ = t.len();
    t
}


/// A `CT_` variable that a task environment cannot do without.
#[derive(Debug)]
pub enum CTEnvError {
    /// `CARGO` is not set.
    NoCargo,
    /// `CT_WORK_DIR` is not set.
    NoWorkDir,
    /// `CT_PATH` is not set.
    NoTaskPath,
    /// `CT_TARGET` is not set.
    NoTarget,
}

impl CTEnvError {
    /// The message that reports the error.
    pub fn message(&self) -> (m: &'static str)
        ensures
            m@ == match self {
                CTEnvError::NoCargo => "CARGO binary path not set in environment"@,
                CTEnvError::NoWorkDir => "CT_WORK_DIR environment variable not set"@,
                CTEnvError::NoTaskPath => "CT_PATH environment variable not set"@,
                CTEnvError::NoTarget => "CT_TARGET environment variable not set"@,
            },
    {
        match self {
            CTEnvError::NoCargo => "CARGO binary path not set in environment",
            CTEnvError::NoWorkDir => "CT_WORK_DIR environment variable not set",
            CTEnvError::NoTaskPath => "CT_PATH environment variable not set",
            CTEnvError::NoTarget => "CT_TARGET environment variable not set",
        }
    }
}

/// The words of an optional value; none where it is not set.
pub open spec fn words_of(v: Option<Seq<char>>) -> Seq<Seq<char>> {
    match v {
        Some(s) => split_ws(s),
        None => seq![],
    }
}

/// The words of variable `key`, none where it is not set.
fn var_words(vars: &Vec<(String, String)>, key: &str) -> (w: Vec<String>)
    ensures
        strs_view(w@) == words_of(env_lookup(vars_view(vars@), key@)),
{
    match lookup_var(vars, key) {
        Some(v) => split_whitespace(v.as_str()),
        None => {
            let w: Vec<String> = Vec::new();
            proof {
                assert(strs_view(w@) =~= Seq::<Seq<char>>::empty());
            }
            w
        },
    }
}

/// Whether `CARGO`, `CT_WORK_DIR`, `CT_PATH` and `CT_TARGET` are all set in `vv`.
pub open spec fn required_vars_set(vv: Seq<(Seq<char>, Seq<char>)>) -> bool {
    &&& env_lookup(vv, "CARGO"@) is Some
    &&& env_lookup(vv, "CT_WORK_DIR"@) is Some
    &&& env_lookup(vv, "CT_PATH"@) is Some
    &&& env_lookup(vv, "CT_TARGET"@) is Some
}

/// Builds the cargo-task environment from the environment variables `vars`:
/// `CARGO`, `CT_WORK_DIR`, `CT_PATH` and `CT_TARGET` are required, in that order;
/// the words of `CT_TASKS` and `CT_ARGS` are the task list and the task arguments;
/// the tasks are those that the `CT_TASK_` variables describe.
pub fn ct_env(vars: &Vec<(String, String)>) -> (r: Result<CTEnv, CTEnvError>)
    requires
        required_vars_set(vars_view(vars@)) ==> forall|i: int|
            0 <= i < vars@.len() ==> #[trigger] vars@[i].0@ != short_path_key(),
    ensures
        ({
            let vv = vars_view(vars@);
            let cargo = env_lookup(vv, "CARGO"@);
            let work = env_lookup(vv, "CT_WORK_DIR"@);
            let path = env_lookup(vv, "CT_PATH"@);
            let target = env_lookup(vv, "CT_TARGET"@);
            match r {
                Err(CTEnvError::NoCargo) => cargo is None,
                Err(CTEnvError::NoWorkDir) => cargo is Some && work is None,
                Err(CTEnvError::NoTaskPath) => cargo is Some && work is Some && path is None,
                Err(CTEnvError::NoTarget) => cargo is Some && work is Some && path is Some
                    && target is None,
                Ok(env) => {
                    &&& Some(env.cargo_path@) == cargo
                    &&& Some(env.work_dir@) == work
                    &&& Some(env.cargo_task_path@) == path
                    &&& Some(env.cargo_task_target@) == target
                    &&& strs_view(env.task_list@) == words_of(env_lookup(vv, "CT_TASKS"@))
                    &&& strs_view(env.arg_list@) == words_of(env_lookup(vv, "CT_ARGS"@))
                    &&& sorted_names(env.tasks@)
                    &&& table_map(env.tasks@) == env_tasks(vv)
                },
            }
        }),
{
    let cargo_path = match lookup_var(vars, "CARGO") {
        Some(v) => v,
        None => return Err(CTEnvError::NoCargo),
    };
    let work_dir = match lookup_var(vars, "CT_WORK_DIR") {
        Some(v) => v,
        None => return Err(CTEnvError::NoWorkDir),
    };
    let cargo_task_path = match lookup_var(vars, "CT_PATH") {
        Some(v) => v,
        None => return Err(CTEnvError::NoTaskPath),
    };
    let cargo_task_target = match lookup_var(vars, "CT_TARGET") {
        Some(v) => v,
        None => return Err(CTEnvError::NoTarget),
    };
    let task_list = var_words(vars, "CT_TASKS");
    let arg_list = var_words(vars, "CT_ARGS");
    let tasks = enumerate_task_metadata(vars);
    Ok(CTEnv { cargo_path, cargo_task_path, cargo_task_target, work_dir, task_list, arg_list, tasks })
}

/// Log Level enum for CT logging
#[derive(Clone, Copy)]
pub enum CTLogLevel {
    /// Informational message
    Info,
    /// Warning message
    Warn,
    /// Fatal message
    Fatal,
}

/// What a log call writes: its lines, on standard error or standard output, and
/// whether the process then exits with status 1.
pub struct CTLogOutput {
    /// write to standard error (else standard output)
    pub to_stderr: bool,
    /// the lines to write
    pub lines: Vec<String>,
    /// exit with status 1 afterwards
    pub exit: bool,
}

/// Whether log lines are colored: not when `CT_NO_COLOR` is set; otherwise when
/// `CT_WITH_COLOR` is set or color is the platform's default.
pub fn log_with_color(no_color_set: bool, with_color_set: bool, default_with_color: bool) -> (b: bool)
    ensures
        b == (!no_color_set && (with_color_set || default_with_color)),
{
    !no_color_set && (with_color_set || default_with_color)
}

/// The name of a log level.
pub open spec fn level_name(lvl: CTLogLevel) -> Seq<char> {
    match lvl {
        CTLogLevel::Info => "INFO"@,
        CTLogLevel::Warn => "WARN"@,
        CTLogLevel::Fatal => "FATAL"@,
    }
}

/// The color of a log level.
pub open spec fn level_color(lvl: CTLogLevel) -> Seq<char> {
    match lvl {
        CTLogLevel::Info => "\x1b[92m"@,
        CTLogLevel::Warn => "\x1b[93m"@,
        CTLogLevel::Fatal => "\x1b[91m"@,
    }
}

/// `s` where color is on, nothing otherwise.
pub open spec fn colored(color: bool, s: Seq<char>) -> Seq<char> {
    if color { s } else { seq![] }
}

/// What starts every log line: `[ct:LEVEL:task]`, with the color codes where color
/// is on, and without `:task` where no task is running.
pub open spec fn log_prefix(lvl: CTLogLevel, color: bool, task_name: Seq<char>) -> Seq<char> {
    colored(color, "\x1b[97m"@) + "[ct:"@ + colored(color, level_color(lvl)) + level_name(lvl)
        + colored(color, "\x1b[97m"@) + (if task_name.len() == 0 { seq![] } else { ":"@ })
        + task_name + "]"@ + colored(color, "\x1b[0m"@)
}

fn push_colored(s: &mut String, color: bool, code: &str)
    ensures
        final(s)@ == old(s)@ + colored(color, code@),
{
    if color {
        s.append(code);
    } else {
        proof {
            assert(old(s)@ + colored(color, code@) =~= old(s)@);
        }
    }
}

/// Generic CT log function: the lines that log `text` at level `lvl`, one for each
/// line of `text`, each behind the level prefix; info goes to standard output, the
/// others to standard error, and a fatal message ends the process.
pub fn ct_log(lvl: CTLogLevel, text: &str, color: bool, task_name: &str) -> (out: CTLogOutput)
    ensures
        out.to_stderr == !(lvl is Info),
        out.exit == (lvl is Fatal),
        out.lines@.len() == split_on(text@, '\n').len(),
        forall|i: int|
            0 <= i < out.lines@.len() ==> #[trigger] out.lines@[i]@ == log_prefix(lvl, color, task_name@)
                + " "@ + split_on(text@, '\n')[i],
{
    let (name, code) = match lvl {
        CTLogLevel::Info => ("INFO", "\x1b[92m"),
        CTLogLevel::Warn => ("WARN", "\x1b[93m"),
        CTLogLevel::Fatal => ("FATAL", "\x1b[91m"),
    };
    let mut prefix = String::new();
    push_colored(&mut prefix, color, "\x1b[97m");
    prefix.append("[ct:");
    push_colored(&mut prefix, color, code);
    prefix.append(name);
    push_colored(&mut prefix, color, "\x1b[97m");
    if task_name.unicode_len() > 0 {
        prefix.append(":");
    }
    prefix.append(task_name);
    prefix.append("]");
    push_colored(&mut prefix, color, "\x1b[0m");
    prefix.append(" ");
    proof {
        assert(name@ == level_name(lvl));
        assert(code@ == level_color(lvl));
        assert(prefix@ =~= log_prefix(lvl, color, task_name@) + " "@);
    }
    let parts = split_char(text, '\n');
    let ghost pv = parts@.map_values(|w: String| w@);
    let mut lines: Vec<String> = Vec::new();
    let mut i: usize = 0;
    while i < parts.len()
        invariant
            pv == parts@.map_values(|w: String| w@),
            pv == split_on(text@, '\n'),
            prefix@ == log_prefix(lvl, color, task_name@) + " "@,
            i <= parts@.len(),
            lines@.len() == i,
            forall|k: int| 0 <= k < i ==> #[trigger] lines@[k]@ == prefix@ + pv[k],
        decreases parts@.len() - i,
    {
        let line = prefix.clone().concat(parts[i].as_str());
        lines.push(line);
        i = i + 1;
    }
    let to_stderr = match lvl {
        CTLogLevel::Info => false,
        _ => true,
    };
    let exit = match lvl {
        CTLogLevel::Fatal => true,
        _ => false,
    };
    CTLogOutput { to_stderr, lines, exit }
}

/// Info level log function
pub fn ct_info(text: &str, color: bool, task_name: &str) -> (out: CTLogOutput)
    ensures
        !out.to_stderr,
        !out.exit,
        out.lines@.len() == split_on(text@, '\n').len(),
        forall|i: int|
            0 <= i < out.lines@.len() ==> #[trigger] out.lines@[i]@ == log_prefix(
                CTLogLevel::Info,
                color,
                task_name@,
            ) + " "@ + split_on(text@, '\n')[i],
{
    ct_log(CTLogLevel::Info, text, color, task_name)
}

/// Warn level log function
pub fn ct_warn(text: &str, color: bool, task_name: &str) -> (out: CTLogOutput)
    ensures
        out.to_stderr,
        !out.exit,
        out.lines@.len() == split_on(text@, '\n').len(),
        forall|i: int|
            0 <= i < out.lines@.len() ==> #[trigger] out.lines@[i]@ == log_prefix(
                CTLogLevel::Warn,
                color,
                task_name@,
            ) + " "@ + split_on(text@, '\n')[i],
{
    ct_log(CTLogLevel::Warn, text, color, task_name)
}

/// Fatal level log function: its lines, then the end of the process.
pub fn ct_fatal(text: &str, color: bool, task_name: &str) -> (out: CTLogOutput)
    ensures
        out.to_stderr,
        out.exit,
        out.lines@.len() == split_on(text@, '\n').len(),
        forall|i: int|
            0 <= i < out.lines@.len() ==> #[trigger] out.lines@[i]@ == log_prefix(
                CTLogLevel::Fatal,
                color,
                task_name@,
            ) + " "@ + split_on(text@, '\n')[i],
{
    ct_log(CTLogLevel::Fatal, text, color, task_name)
}

} // verus!
