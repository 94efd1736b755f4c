//! What cargo-task hands to the tasks it runs: the command line split into tasks
//! and task arguments, and the task metadata written out as `CT_` variables.

use vstd::prelude::*;
use crate::cargo_task_util::{
    env_task_with_path, env_tasks, has_name, lemma_table_get, lemma_sorted_unique, sorted_names, strs_view, table_get,
    table_map, CTTaskMeta, TaskMetaView, TaskTable,
};
use crate::env_vars::{
    make_task_key, sfx_bootstrap, sfx_cargo_deps, sfx_default, sfx_help, sfx_is_script, sfx_min_ver,
    sfx_path, sfx_task_deps, task_key, vars_view, env_lookup, task_prefix, lemma_task_key_injective,
};
use crate::at_at::{chunk_items, AtAtItemView, AtAtParseItem, AtAtParser, Scan};
use crate::cargo_task_util::{opt_view, str_eq};
use crate::text::{lemma_split_ws_words, join_strs, join_with, split_whitespace, chars_of, is_word, is_ws, trim_start, lemma_split_ws_concat, lemma_split_ws_word, split_ws};

verus! {

/// `name` begins with `CT_`: a variable that cargo-task clears before setting its own.
pub open spec fn is_ct_name(name: Seq<char>) -> bool {
    name.len() >= 3 && name[0] == 'C' && name[1] == 'T' && name[2] == '_'
}

/// Whether `name` begins with `CT_`.
pub fn is_ct_var(name: &str) -> (b: bool)
    ensures
        b == is_ct_name(name@),
{
    let cs = chars_of(name);
    cs.len() >= 3 && cs[0] == 'C' && cs[1] == 'T' && cs[2] == '_'
}

/// `--`
pub open spec fn arg_sep() -> Seq<char> {
    seq!['-', '-']
}

/// The words before the first `--`, and those after it.
pub open spec fn cli_split(a: Seq<Seq<char>>) -> (Seq<Seq<char>>, Seq<Seq<char>>)
    decreases a.len(),
{
    if a.len() == 0 {
        (seq![], seq![])
    } else if a[0] == arg_sep() {
        (seq![], a.drop_first())
    } else {
        let r = cli_split(a.drop_first());
        (seq![a[0]] + r.0, r.1)
    }
}

/// The arguments after the program and subcommand names (`cargo task ...`).
pub open spec fn cli_words(args: Seq<Seq<char>>) -> Seq<Seq<char>> {
    if args.len() >= 2 { args.skip(2) } else { seq![] }
}

/// Splits the command line `cargo task [tasks..] [-- args..]` into the tasks to run
/// and the arguments to hand to each task.
pub fn split_cli_args(args: &Vec<String>) -> (r: (Vec<String>, Vec<String>))
    ensures
        (strs_view(r.0@), strs_view(r.1@)) == cli_split(cli_words(strs_view(args@))),
{
    let ghost a = cli_words(strs_view(args@));
    let mut tasks: Vec<String> = Vec::new();
    let mut rest: Vec<String> = Vec::new();
    let mut found_sep = false;
    let n = args.len();
    if n < 2 {
        proof {
            assert(strs_view(tasks@) =~= Seq::<Seq<char>>::empty());
            assert(strs_view(rest@) =~= Seq::<Seq<char>>::empty());
        }
        return (tasks, rest);
    }
    let mut i: usize = 2;
    proof {
        assert(a.skip(0) =~= a);
        assert(strs_view(tasks@) =~= Seq::<Seq<char>>::empty());
        assert(strs_view(rest@) =~= Seq::<Seq<char>>::empty());
        assert(strs_view(tasks@) + cli_split(a).0 =~= cli_split(a).0);
    }
    while i < n
        invariant
            n == args@.len(),
            2 <= i <= n,
            a == strs_view(args@).skip(2),
            !found_sep ==> strs_view(rest@) == Seq::<Seq<char>>::empty() && cli_split(a) == (
                strs_view(tasks@) + cli_split(a.skip(i - 2)).0,
                cli_split(a.skip(i - 2)).1,
            ),
            found_sep ==> cli_split(a) == (strs_view(tasks@), strs_view(rest@) + a.skip(i - 2)),
        decreases n - i,
    {
        let ghost r = a.skip(i - 2);
        proof {
            assert(r[0] == args@[i as int]@);
            assert(r.drop_first() =~= a.skip(i - 1));
        }
        let arg = &args[i];
        let is_sep = arg.unicode_len() == 2 && arg.as_str().get_char(0) == '-' && arg.as_str().get_char(1) == '-';
        proof {
            if is_sep {
                assert(arg@ =~= arg_sep());
            } else if arg@ == arg_sep() {
                assert(arg@[0] == '-' && arg@[1] == '-');
            }
        }
        if !found_sep && is_sep {
            found_sep = true;
        } else if found_sep {
            let ghost before = strs_view(rest@);
            rest.push(arg.clone());
            proof {
                assert(strs_view(rest@) =~= before.push(arg@));
                assert(before + r =~= strs_view(rest@) + a.skip(i - 1));
            }
        } else {
            let ghost before = strs_view(tasks@);
            tasks.push(arg.clone());
            proof {
                assert(strs_view(tasks@) =~= before.push(arg@));
                assert(before + (seq![r[0]] + cli_split(r.drop_first()).0) =~= strs_view(tasks@)
                    + cli_split(r.drop_first()).0);
            }
        }
        i = i + 1;
    }
    proof {
        assert(a.skip(n - 2) =~= Seq::<Seq<char>>::empty());
        assert(strs_view(rest@) + a.skip(n - 2) =~= strs_view(rest@));
        assert(strs_view(tasks@) + Seq::<Seq<char>>::empty() =~= strs_view(tasks@));
    }
    (tasks, rest)
}

/// The words of `v` joined with a single space between each two.
pub open spec fn join_sp(v: Seq<Seq<char>>) -> Seq<char> {
    join_with(v, seq![' '])
}

/// Joins `v` with spaces, as `join(" ")` does.
pub fn join_space(v: &Vec<String>) -> (s: String)
    ensures
        s@ == join_sp(strs_view(v@)),
{
    proof {
        reveal_strlit(" ");
        assert(" "@ =~= seq![' ']);
    }
    join_strs(v, " ")
}

/// Task dependencies joined as cargo-task writes them: a space before each one
/// that follows some text.
pub open spec fn join_deps(v: Seq<Seq<char>>) -> Seq<char>
    decreases v.len(),
{
    if v.len() == 0 {
        seq![]
    } else {
        let a = join_deps(v.drop_last());
        (if a.len() > 0 { a + seq![' '] } else { a }) + v.last()
    }
}

/// `1`
pub open spec fn flag_one() -> Seq<char> {
    seq!['1']
}

/// The variable `CT_TASK_<n><sfx>` set to `1` where `on` holds; none otherwise.
pub open spec fn flag_var(n: Seq<char>, sfx: Seq<char>, on: bool) -> Seq<(Seq<char>, Seq<char>)> {
    if on { seq![(task_key(n, sfx), flag_one())] } else { seq![] }
}

/// The variable `CT_TASK_<n><sfx>` set to the value, where there is one.
pub open spec fn opt_var(n: Seq<char>, sfx: Seq<char>, v: Option<Seq<char>>) -> Seq<(Seq<char>, Seq<char>)> {
    match v {
        Some(v) => seq![(task_key(n, sfx), v)],
        None => seq![],
    }
}

/// The variable `CT_TASK_<n><sfx>` set to `v`, where `v` is not empty.
pub open spec fn text_var(n: Seq<char>, sfx: Seq<char>, v: Seq<char>) -> Seq<(Seq<char>, Seq<char>)> {
    if v.len() > 0 { seq![(task_key(n, sfx), v)] } else { seq![] }
}

/// The variables that describe one task.
pub open spec fn task_vars(m: TaskMetaView) -> Seq<(Seq<char>, Seq<char>)> {
    let n = m.name;
    seq![(task_key(n, sfx_path()), m.path)] + flag_var(n, sfx_is_script(), m.is_script) + opt_var(
        n,
        sfx_min_ver(),
        m.min_version,
    ) + flag_var(n, sfx_default(), m.default) + flag_var(n, sfx_bootstrap(), m.bootstrap)
        + text_var(n, sfx_help(), m.help) + opt_var(n, sfx_cargo_deps(), m.cargo_deps) + text_var(
        n,
        sfx_task_deps(),
        join_deps(m.task_deps),
    )
}

/// The variables that describe every task of a table, task by task.
pub open spec fn table_vars(t: Seq<TaskMetaView>) -> Seq<(Seq<char>, Seq<char>)>
    decreases t.len(),
{
    if t.len() == 0 {
        seq![]
    } else {
        table_vars(t.drop_last()) + task_vars(t.last())
    }
}

/// The joined dependencies of a task.
fn join_task_deps(deps: &Vec<String>) -> (s: String)
    ensures
        s@ == join_deps(strs_view(deps@)),
{
    let ghost w = strs_view(deps@);
    let mut s = String::new();
    let mut i: usize = 0;
    proof {
        assert(w.take(0) =~= Seq::<Seq<char>>::empty());
    }
    while i < deps.len()
        invariant
            w == strs_view(deps@),
            i <= deps@.len(),
            s@ == join_deps(w.take(i as int)),
        decreases deps@.len() - i,
    {
        proof {
            assert(w.take(i + 1).drop_last() =~= w.take(i as int));
            assert(w.take(i + 1).last() == deps@[i as int]@);
        }
        if s.as_str().unicode_len() > 0 {
            s.append(" ");
            proof {
                reveal_strlit(" ");
            }
        }
        s.append(deps[i].as_str());
        i = i + 1;
    }
    proof {
        assert(w.take(deps@.len() as int) =~= w);
    }
    s
}

fn push_var(out: &mut Vec<(String, String)>, name: &str, suffix: &str, value: String)
    ensures
        vars_view(final(out)@) == vars_view(old(out)@).push((task_key(name@, suffix@), value@)),
{
    let ghost before = vars_view(out@);
    out.push((make_task_key(name, suffix), value));
    proof {
        assert(vars_view(out@) =~= before.push((task_key(name@, suffix@), value@)));
    }
}

fn push_flag(out: &mut Vec<(String, String)>, name: &str, suffix: &str, on: bool)
    ensures
        vars_view(final(out)@) == vars_view(old(out)@) + flag_var(name@, suffix@, on),
{
    if on {
        proof {
            reveal_strlit("1");
            assert("1"@ =~= flag_one());
        }
        push_var(out, name, suffix, "1".to_owned());
        proof {
            assert(vars_view(old(out)@).push((task_key(name@, suffix@), flag_one())) =~= vars_view(
                old(out)@,
            ) + flag_var(name@, suffix@, on));
        }
    } else {
        proof {
            assert(vars_view(old(out)@) + flag_var(name@, suffix@, on) =~= vars_view(old(out)@));
        }
    }
}

fn push_opt(out: &mut Vec<(String, String)>, name: &str, suffix: &str, v: &Option<String>)
    ensures
        vars_view(final(out)@) == vars_view(old(out)@) + opt_var(name@, suffix@, crate::cargo_task_util::opt_view(*v)),
{
    match v {
        Some(x) => {
            push_var(out, name, suffix, x.clone());
            proof {
                assert(vars_view(old(out)@).push((task_key(name@, suffix@), x@)) =~= vars_view(
                    old(out)@,
                ) + opt_var(name@, suffix@, crate::cargo_task_util::opt_view(*v)));
            }
        },
        None => {
            proof {
                assert(vars_view(old(out)@) + opt_var(name@, suffix@, crate::cargo_task_util::opt_view(*v)) =~= vars_view(old(out)@));
            }
        },
    }
}

fn push_text(out: &mut Vec<(String, String)>, name: &str, suffix: &str, v: String)
    ensures
        vars_view(final(out)@) == vars_view(old(out)@) + text_var(name@, suffix@, v@),
{
    if v.as_str().unicode_len() > 0 {
        let ghost vv = v@;
        push_var(out, name, suffix, v);
        proof {
            assert(vars_view(old(out)@).push((task_key(name@, suffix@), vv)) =~= vars_view(
                old(out)@,
            ) + text_var(name@, suffix@, vv));
        }
    } else {
        proof {
            assert(vars_view(old(out)@) + text_var(name@, suffix@, v@) =~= vars_view(old(out)@));
        }
    }
}

proof fn lemma_suffixes()
    ensures
        "_PATH"@ == sfx_path(),
        "_IS_SCRIPT"@ == sfx_is_script(),
        "_MIN_VER"@ == sfx_min_ver(),
        "_DEFAULT"@ == sfx_default(),
        "_BOOTSTRAP"@ == sfx_bootstrap(),
        "_HELP"@ == sfx_help(),
        "_CARGO_DEPS"@ == sfx_cargo_deps(),
        "_TASK_DEPS"@ == sfx_task_deps(),
{
    reveal_strlit("_PATH");
    reveal_strlit("_IS_SCRIPT");
    reveal_strlit("_MIN_VER");
    reveal_strlit("_DEFAULT");
    reveal_strlit("_BOOTSTRAP");
    reveal_strlit("_HELP");
    reveal_strlit("_CARGO_DEPS");
    reveal_strlit("_TASK_DEPS");
    assert("_PATH"@ =~= sfx_path());
    assert("_IS_SCRIPT"@ =~= sfx_is_script());
    assert("_MIN_VER"@ =~= sfx_min_ver());
    assert("_DEFAULT"@ =~= sfx_default());
    assert("_BOOTSTRAP"@ =~= sfx_bootstrap());
    assert("_HELP"@ =~= sfx_help());
    assert("_CARGO_DEPS"@ =~= sfx_cargo_deps());
    assert("_TASK_DEPS"@ =~= sfx_task_deps());
}

/// Appends the variables that describe `m`.
#[verifier::rlimit(50)]
fn push_task_vars(out: &mut Vec<(String, String)>, m: &CTTaskMeta)
    ensures
        vars_view(final(out)@) == vars_view(old(out)@) + task_vars(m@),
{
    proof {
        lemma_suffixes();
    }
    let ghost v0 = vars_view(out@);
    let name = m.name.as_str();
    push_var(out, name, "_PATH", m.path.clone());
    push_flag(out, name, "_IS_SCRIPT", m.is_script);
    push_opt(out, name, "_MIN_VER", &m.min_version);
    push_flag(out, name, "_DEFAULT", m.default);
    push_flag(out, name, "_BOOTSTRAP", m.bootstrap);
    push_text(out, name, "_HELP", m.help.clone());
    push_opt(out, name, "_CARGO_DEPS", &m.cargo_deps);
    push_text(out, name, "_TASK_DEPS", join_task_deps(&m.task_deps));
    proof {
        let mv = m@;
        let n = mv.name;
        assert(vars_view(out@) =~= v0 + task_vars(mv));
    }
}

/// The `CT_TASK_` variables that describe every task of `tasks`, in table order.
pub fn task_env_vars(tasks: &TaskTable) -> (vars: Vec<(String, String)>)
    ensures
        vars_view(vars@) == table_vars(tasks@),
{
    let ghost t = tasks@;
    let mut out: Vec<(String, String)> = Vec::new();
    let n = tasks.len();
    let mut i: usize = 0;
    proof {
        assert(t.take(0) =~= Seq::<TaskMetaView>::empty());
        assert(vars_view(out@) =~= Seq::<(Seq<char>, Seq<char>)>::empty());
    }
    while i < n
        invariant
            t == tasks@,
            n == t.len(),
            i <= n,
            vars_view(out@) == table_vars(t.take(i as int)),
        decreases n - i,
    {
        proof {
            assert(t.take(i + 1).drop_last() =~= t.take(i as int));
            assert(t.take(i + 1).last() == t[i as int]);
        }
        push_task_vars(&mut out, tasks.entry(i));
        i = i + 1;
    }
    proof {
        assert(t.take(n as int) =~= t);
    }
    out
}


proof fn lemma_join_deps_nonempty(d: Seq<Seq<char>>)
    requires
        d.len() > 0,
        is_word(d.last()),
    ensures
        join_deps(d).len() > 0,
{
}

/// Joined dependencies split back into the dependencies, when each is one word.
#[verifier::spinoff_prover]
pub proof fn lemma_split_join_deps(d: Seq<Seq<char>>)
    requires
        forall|j: int| 0 <= j < d.len() ==> is_word(#[trigger] d[j]),
    ensures
        split_ws(join_deps(d)) == d,
    decreases d.len(),
{
    if d.len() == 0 {
        assert(split_ws(Seq::<char>::empty()) =~= Seq::<Seq<char>>::empty());
    } else {
        let init = d.drop_last();
        let last = d.last();
        assert(is_word(last)) by {
            assert(d[d.len() - 1] == last);
        }
        assert forall|j: int| 0 <= j < init.len() implies is_word(#[trigger] init[j]) by {
            assert(init[j] == d[j]);
        }
        lemma_split_join_deps(init);
        let a = join_deps(init);
        lemma_split_ws_word(last);
        if a.len() > 0 {
            let sp = seq![' '];
            assert(is_ws(' '));
            lemma_split_ws_concat(sp, last);
            assert(split_ws(sp) =~= Seq::<Seq<char>>::empty()) by {
                let e = Seq::<char>::empty();
                assert(sp.drop_first() =~= e);
                assert(sp[0] == ' ');
                assert(trim_start(e) == e);
                assert(trim_start(sp) == trim_start(sp.drop_first()));
            }
            lemma_split_ws_concat(a, sp + last);
            assert(a + sp + last =~= a + (sp + last));
            assert(split_ws(join_deps(d)) =~= init + seq![last]);
            assert(init + seq![last] =~= d);
        } else {
            if init.len() > 0 {
                lemma_join_deps_nonempty(init);
            }
            assert(init.len() == 0);
            assert(join_deps(d) =~= last);
            assert(d =~= seq![last]);
        }
    }
}

/// Each dependency of each task is one word, as dependencies read from metadata are.
pub open spec fn deps_are_words(t: Seq<TaskMetaView>) -> bool {
    forall|i: int, j: int|
        0 <= i < t.len() && 0 <= j < t[i].task_deps.len() ==> is_word(#[trigger] t[i].task_deps[j])
}

/// `s` is the suffix of one of the task fields.
pub open spec fn is_field_sfx(s: Seq<char>) -> bool {
    ||| s == sfx_path()
    ||| s == sfx_is_script()
    ||| s == sfx_min_ver()
    ||| s == sfx_default()
    ||| s == sfx_bootstrap()
    ||| s == sfx_help()
    ||| s == sfx_cargo_deps()
    ||| s == sfx_task_deps()
}

/// No variable of `other` begins with `CT_TASK_`.
pub open spec fn no_task_vars(other: Seq<(Seq<char>, Seq<char>)>) -> bool {
    forall|i: int| 0 <= i < other.len() ==> !(#[trigger] other[i].0.len() >= 8 && other[i].0.take(8) == task_prefix())
}

proof fn lemma_key_tail(n: Seq<char>, s: Seq<char>, k: int)
    requires
        0 <= k < s.len(),
    ensures
        task_key(n, s)[task_key(n, s).len() - 1 - k] == s[s.len() - 1 - k],
{
}

/// Task variables of different tasks or different fields are different variables.
pub proof fn lemma_field_keys_distinct(n: Seq<char>, s: Seq<char>, m: Seq<char>, t: Seq<char>)
    requires
        is_field_sfx(s),
        is_field_sfx(t),
        task_key(n, s) == task_key(m, t),
    ensures
        n == m,
        s == t,
{
    lemma_key_tail(n, s, 0);
    lemma_key_tail(m, t, 0);
    lemma_key_tail(n, s, 1);
    lemma_key_tail(m, t, 1);
    lemma_key_tail(n, s, 4);
    lemma_key_tail(m, t, 4);
    if s.len() > 5 && t.len() > 5 {
        lemma_key_tail(n, s, 5);
        lemma_key_tail(m, t, 5);
    }
    assert(s.len() == t.len());
    lemma_task_key_injective(n, s, m, t);
}

proof fn lemma_lookup_concat(a: Seq<(Seq<char>, Seq<char>)>, b: Seq<(Seq<char>, Seq<char>)>, k: Seq<char>)
    ensures
        env_lookup(a + b, k) == if env_lookup(b, k) is Some { env_lookup(b, k) } else { env_lookup(a, k) },
    decreases b.len(),
{
    if b.len() == 0 {
        assert(a + b =~= a);
    } else {
        assert((a + b).drop_last() =~= a + b.drop_last());
        assert((a + b).last() == b.last());
        lemma_lookup_concat(a, b.drop_last(), k);
    }
}

proof fn lemma_lookup_one(k2: Seq<char>, v: Seq<char>, k: Seq<char>)
    ensures
        env_lookup(seq![(k2, v)], k) == if k2 == k { Some(v) } else { None },
{
    let e = Seq::<(Seq<char>, Seq<char>)>::empty();
    assert(seq![(k2, v)].drop_last() =~= e);
    assert(seq![(k2, v)].last() == (k2, v));
    assert(env_lookup(e, k) is None);
}

proof fn lemma_lookup_other(other: Seq<(Seq<char>, Seq<char>)>, n: Seq<char>, s: Seq<char>)
    requires
        no_task_vars(other),
    ensures
        env_lookup(other, task_key(n, s)) is None,
    decreases other.len(),
{
    if other.len() > 0 {
        let k = task_key(n, s);
        assert(k.take(8) =~= task_prefix());
        assert(other.last() == other[other.len() - 1]);
        assert(other.last().0 != k) by {
            let i = other.len() - 1;
            if other[i].0 == k {
                assert(other[i].0.len() >= 8 && other[i].0.take(8) == task_prefix());
            }
        }
        assert(no_task_vars(other.drop_last())) by {
            assert forall|i: int| 0 <= i < other.drop_last().len() implies !(
            #[trigger] other.drop_last()[i].0.len() >= 8 && other.drop_last()[i].0.take(8) == task_prefix()) by {
                assert(other.drop_last()[i] == other[i]);
            }
        }
        lemma_lookup_other(other.drop_last(), n, s);
    }
}

/// What the task variables of `m` say of field `s`.
pub open spec fn field_value(m: TaskMetaView, s: Seq<char>) -> Option<Seq<char>> {
    if s == sfx_path() {
        Some(m.path)
    } else if s == sfx_is_script() {
        if m.is_script { Some(flag_one()) } else { None }
    } else if s == sfx_min_ver() {
        m.min_version
    } else if s == sfx_default() {
        if m.default { Some(flag_one()) } else { None }
    } else if s == sfx_bootstrap() {
        if m.bootstrap { Some(flag_one()) } else { None }
    } else if s == sfx_help() {
        if m.help.len() > 0 { Some(m.help) } else { None }
    } else if s == sfx_cargo_deps() {
        m.cargo_deps
    } else {
        if join_deps(m.task_deps).len() > 0 { Some(join_deps(m.task_deps)) } else { None }
    }
}

proof fn lemma_piece(
    a: Seq<(Seq<char>, Seq<char>)>,
    piece: Seq<(Seq<char>, Seq<char>)>,
    mn: Seq<char>,
    ps: Seq<char>,
    pv: Option<Seq<char>>,
    n: Seq<char>,
    s: Seq<char>,
)
    requires
        is_field_sfx(ps),
        is_field_sfx(s),
        piece == match pv {
            Some(v) => seq![(task_key(mn, ps), v)],
            None => Seq::<(Seq<char>, Seq<char>)>::empty(),
        },
    ensures
        env_lookup(a + piece, task_key(n, s)) == if mn == n && ps == s && pv is Some {
            pv
        } else {
            env_lookup(a, task_key(n, s))
        },
{
    lemma_lookup_concat(a, piece, task_key(n, s));
    match pv {
        Some(v) => {
            lemma_lookup_one(task_key(mn, ps), v, task_key(n, s));
            if task_key(mn, ps) == task_key(n, s) {
                lemma_field_keys_distinct(mn, ps, n, s);
            }
        },
        None => {},
    }
}

proof fn lemma_task_vars_lookup(m: TaskMetaView, n: Seq<char>, s: Seq<char>)
    requires
        is_field_sfx(s),
    ensures
        env_lookup(task_vars(m), task_key(n, s)) == if n == m.name { field_value(m, s) } else { None },
{
    let mn = m.name;
    let e = Seq::<(Seq<char>, Seq<char>)>::empty();
    let f1 = if m.is_script { Some(flag_one()) } else { None };
    let f3 = if m.default { Some(flag_one()) } else { None };
    let f4 = if m.bootstrap { Some(flag_one()) } else { None };
    let f5 = if m.help.len() > 0 { Some(m.help) } else { None };
    let j = join_deps(m.task_deps);
    let f7 = if j.len() > 0 { Some(j) } else { None };
    let p0 = seq![(task_key(mn, sfx_path()), m.path)];
    let p1 = flag_var(mn, sfx_is_script(), m.is_script);
    let p2 = opt_var(mn, sfx_min_ver(), m.min_version);
    let p3 = flag_var(mn, sfx_default(), m.default);
    let p4 = flag_var(mn, sfx_bootstrap(), m.bootstrap);
    let p5 = text_var(mn, sfx_help(), m.help);
    let p6 = opt_var(mn, sfx_cargo_deps(), m.cargo_deps);
    let p7 = text_var(mn, sfx_task_deps(), j);
    assert(p0 =~= e + p0);
    lemma_piece(e, p0, mn, sfx_path(), Some(m.path), n, s);
    lemma_piece(p0, p1, mn, sfx_is_script(), f1, n, s);
    lemma_piece(p0 + p1, p2, mn, sfx_min_ver(), m.min_version, n, s);
    lemma_piece(p0 + p1 + p2, p3, mn, sfx_default(), f3, n, s);
    lemma_piece(p0 + p1 + p2 + p3, p4, mn, sfx_bootstrap(), f4, n, s);
    lemma_piece(p0 + p1 + p2 + p3 + p4, p5, mn, sfx_help(), f5, n, s);
    lemma_piece(p0 + p1 + p2 + p3 + p4 + p5, p6, mn, sfx_cargo_deps(), m.cargo_deps, n, s);
    lemma_piece(p0 + p1 + p2 + p3 + p4 + p5 + p6, p7, mn, sfx_task_deps(), f7, n, s);
    assert(env_lookup(e, task_key(n, s)) is None);
    assert(task_vars(m) == p0 + p1 + p2 + p3 + p4 + p5 + p6 + p7);
}

proof fn lemma_table_vars_lookup(t: Seq<TaskMetaView>, n: Seq<char>, s: Seq<char>)
    requires
        sorted_names(t),
        is_field_sfx(s),
    ensures
        env_lookup(table_vars(t), task_key(n, s)) == if has_name(t, n) {
            field_value(table_get(t, n), s)
        } else {
            None
        },
    decreases t.len(),
{
    if t.len() > 0 {
        let init = t.drop_last();
        let last = t.last();
        assert(sorted_names(init));
        lemma_table_vars_lookup(init, n, s);
        lemma_lookup_concat(table_vars(init), task_vars(last), task_key(n, s));
        lemma_task_vars_lookup(last, n, s);
        lemma_table_get(t, t.len() - 1);
        assert(t[t.len() - 1] == last);
        if n == last.name {
            assert(!has_name(init, n)) by {
                if has_name(init, n) {
                    let i = choose|i: int| 0 <= i < init.len() && #[trigger] init[i].name == n;
                    assert(t[i].name == n);
                    lemma_sorted_unique(t, i, t.len() - 1);
                }
            }
        } else {
            if has_name(t, n) {
                let i = choose|i: int| 0 <= i < t.len() && #[trigger] t[i].name == n;
                assert(init[i] == t[i]);
                lemma_table_get(t, i);
                lemma_table_get(init, i);
            }
            if has_name(init, n) {
                let i = choose|i: int| 0 <= i < init.len() && #[trigger] init[i].name == n;
                assert(t[i] == init[i]);
            }
        }
    } else {
        assert(table_vars(t) =~= Seq::<(Seq<char>, Seq<char>)>::empty());
    }
}

/// What cargo-task writes, the tasks read back: the variables that describe a
/// table of tasks, beside any variables that do not begin with `CT_TASK_`, describe
/// exactly the tasks of the table, when each task dependency is one word.
pub proof fn law_env_round_trip(t: Seq<TaskMetaView>, other: Seq<(Seq<char>, Seq<char>)>)
    requires
        sorted_names(t),
        deps_are_words(t),
        no_task_vars(other),
    ensures
        env_tasks(other + table_vars(t)) == table_map(t),
{
    let vars = other + table_vars(t);
    assert forall|n: Seq<char>, s: Seq<char>| is_field_sfx(s) implies #[trigger] env_lookup(vars, task_key(n, s)) == if has_name(t, n) {
        field_value(table_get(t, n), s)
    } else {
        None
    } by {
        lemma_lookup_concat(other, table_vars(t), task_key(n, s));
        lemma_lookup_other(other, n, s);
        lemma_table_vars_lookup(t, n, s);
    }
    assert(is_field_sfx(sfx_path()));
    assert forall|n: Seq<char>| #[trigger] env_tasks(vars).contains_key(n) <==> table_map(t).contains_key(n) by {
        assert(env_lookup(vars, task_key(n, sfx_path())) == if has_name(t, n) {
            field_value(table_get(t, n), sfx_path())
        } else {
            None
        });
    }
    assert forall|n: Seq<char>| #[trigger] env_tasks(vars).contains_key(n) implies env_tasks(vars)[n] == table_map(t)[n] by {
        let m = table_get(t, n);
        let i = choose|i: int| 0 <= i < t.len() && #[trigger] t[i].name == n;
        lemma_table_get(t, i);
        assert(m.name == n);
        assert(is_field_sfx(sfx_is_script()));
        assert(is_field_sfx(sfx_min_ver()));
        assert(is_field_sfx(sfx_default()));
        assert(is_field_sfx(sfx_bootstrap()));
        assert(is_field_sfx(sfx_help()));
        assert(is_field_sfx(sfx_cargo_deps()));
        assert(is_field_sfx(sfx_task_deps()));
        assert(env_lookup(vars, task_key(n, sfx_path())) == Some(m.path));
        assert(env_lookup(vars, task_key(n, sfx_is_script())) == field_value(m, sfx_is_script()));
        assert(env_lookup(vars, task_key(n, sfx_min_ver())) == field_value(m, sfx_min_ver()));
        assert(env_lookup(vars, task_key(n, sfx_default())) == field_value(m, sfx_default()));
        assert(env_lookup(vars, task_key(n, sfx_bootstrap())) == field_value(m, sfx_bootstrap()));
        assert(env_lookup(vars, task_key(n, sfx_help())) == field_value(m, sfx_help()));
        assert(env_lookup(vars, task_key(n, sfx_cargo_deps())) == field_value(m, sfx_cargo_deps()));
        assert(env_lookup(vars, task_key(n, sfx_task_deps())) == field_value(m, sfx_task_deps()));
        assert forall|j: int| 0 <= j < m.task_deps.len() implies is_word(#[trigger] m.task_deps[j]) by {
            assert(t[i].task_deps[j] == m.task_deps[j]);
        }
        lemma_split_join_deps(m.task_deps);
        if join_deps(m.task_deps).len() == 0 {
            assert(m.task_deps.len() == 0) by {
                if m.task_deps.len() > 0 {
                    assert(is_word(m.task_deps[m.task_deps.len() - 1]));
                    lemma_join_deps_nonempty(m.task_deps);
                }
            }
            assert(m.task_deps =~= Seq::<Seq<char>>::empty());
        }
        if m.help.len() == 0 {
            assert(m.help =~= Seq::<char>::empty());
        }
        assert(env_task_with_path(vars, n, Some(m.path)->0) == m);
    }
    assert(env_tasks(vars) =~= table_map(t));
}


/// Task metadata as read from the AtAt directives of a task's main source file.
pub struct Meta {
    /// `@ct-min-version@`
    pub min_version: Option<String>,
    /// `@ct-default@ true @@`
    pub default: bool,
    /// `@ct-bootstrap@ true @@`
    pub bootstrap: bool,
    /// `@ct-cargo-deps@`
    pub cargo_deps: Option<String>,
    /// the words of each `@ct-task-deps@`
    pub task_deps: Vec<String>,
    /// `@ct-help@`
    pub help: String,
}

/// What a [`Meta`] holds, as plain values.
pub struct MetaView {
    /// minimum version
    pub min_version: Option<Seq<char>>,
    /// default task?
    pub default: bool,
    /// bootstrap task?
    pub bootstrap: bool,
    /// cargo dependencies
    pub cargo_deps: Option<Seq<char>>,
    /// task dependencies
    pub task_deps: Seq<Seq<char>>,
    /// help text
    pub help: Seq<char>,
}

impl View for Meta {
    type V = MetaView;

    open spec fn view(&self) -> MetaView {
        MetaView {
            min_version: opt_view(self.min_version),
            default: self.default,
            bootstrap: self.bootstrap,
            cargo_deps: opt_view(self.cargo_deps),
            task_deps: strs_view(self.task_deps@),
            help: self.help@,
        }
    }
}

/// Metadata with no directive read yet.
pub open spec fn meta_empty() -> MetaView {
    MetaView {
        min_version: None,
        default: false,
        bootstrap: false,
        cargo_deps: None,
        task_deps: seq![],
        help: seq![],
    }
}

impl Default for Meta {
    fn default() -> (m: Self)
        ensures
            m@ == meta_empty(),
    {
        let m = Meta {
            min_version: None,
            default: false,
            bootstrap: false,
            cargo_deps: None,
            task_deps: Vec::new(),
            help: String::new(),
        };
        proof {
            assert(strs_view(m.task_deps@) =~= Seq::<Seq<char>>::empty());
        }
        m
    }
}

/// The metadata after the directive `@k@ v @@`; other keys change nothing.
pub open spec fn apply_directive(m: MetaView, k: Seq<char>, v: Seq<char>) -> MetaView {
    if k == "ct-min-version"@ {
        MetaView { min_version: Some(v), ..m }
    } else if k == "ct-default"@ {
        MetaView { default: m.default || v == "true"@, ..m }
    } else if k == "ct-bootstrap"@ {
        MetaView { bootstrap: m.bootstrap || v == "true"@, ..m }
    } else if k == "ct-cargo-deps"@ {
        MetaView { cargo_deps: Some(v), ..m }
    } else if k == "ct-task-deps"@ {
        MetaView { task_deps: m.task_deps + split_ws(v), ..m }
    } else if k == "ct-help"@ {
        MetaView { help: v, ..m }
    } else {
        m
    }
}

/// The metadata after the directives among `items`, in order; data items change nothing.
pub open spec fn meta_of_items(items: Seq<AtAtItemView>) -> MetaView
    decreases items.len(),
{
    if items.len() == 0 {
        meta_empty()
    } else {
        let m = meta_of_items(items.drop_last());
        match items.last() {
            AtAtItemView::KeyValue(k, v) => apply_directive(m, k, v),
            AtAtItemView::Data(_) => m,
        }
    }
}

fn apply_item(meta: &mut Meta, k: String, v: String)
    ensures
        final(meta)@ == apply_directive(old(meta)@, k@, v@),
{
    if str_eq(k.as_str(), "ct-min-version") {
        meta.min_version = Some(v);
    } else if str_eq(k.as_str(), "ct-default") {
        if str_eq(v.as_str(), "true") {
            meta.default = true;
        }
    } else if str_eq(k.as_str(), "ct-bootstrap") {
        if str_eq(v.as_str(), "true") {
            meta.bootstrap = true;
        }
    } else if str_eq(k.as_str(), "ct-cargo-deps") {
        meta.cargo_deps = Some(v);
    } else if str_eq(k.as_str(), "ct-task-deps") {
        let words = split_whitespace(v.as_str());
        let mut deps: Vec<String> = Vec::new();
        std::mem::swap(&mut deps, &mut meta.task_deps);
        let ghost before = strs_view(deps@);
        let mut i: usize = 0;
        proof {
            assert(strs_view(words@).take(0) =~= Seq::<Seq<char>>::empty());
            assert(before + Seq::<Seq<char>>::empty() =~= before);
        }
        while i < words.len()
            invariant
                i <= words@.len(),
                strs_view(deps@) == before + strs_view(words@).take(i as int),
            decreases words@.len() - i,
        {
            let ghost cur = strs_view(deps@);
            deps.push(words[i].clone());
            proof {
                assert(strs_view(deps@) =~= cur.push(words@[i as int]@));
                assert(strs_view(words@).take(i + 1) =~= strs_view(words@).take(i as int).push(
                    words@[i as int]@,
                ));
            }
            i = i + 1;
        }
        proof {
            assert(strs_view(words@).take(words@.len() as int) =~= strs_view(words@));
        }
        meta.task_deps = deps;
    } else if str_eq(k.as_str(), "ct-help") {
        meta.help = v;
    }
}

/// Parse meta-data info from the content of a task's main source file: the AtAt
/// directives in it, in order.
pub fn parse_metadata(content: &[u8]) -> (m: Meta)
    ensures
        m@ == meta_of_items(chunk_items(Scan::LineStart, content@)),
{
    let mut meta = Meta::default();
    let mut parser = AtAtParser::new();
    match parser.parse(content) {
        Some(items) => {
            let ghost iv = items@.map_values(|it: AtAtParseItem| it@);
            let n = items.len();
            let mut i: usize = 0;
            proof {
                assert(iv.take(0) =~= Seq::<AtAtItemView>::empty());
            }
            while i < n
                invariant
                    n == items@.len(),
                    iv == items@.map_values(|it: AtAtParseItem| it@),
                    iv == chunk_items(Scan::LineStart, content@),
                    i <= n,
                    meta@ == meta_of_items(iv.take(i as int)),
                decreases n - i,
            {
                proof {
                    assert(iv.take(i + 1).drop_last() =~= iv.take(i as int));
                    assert(iv.take(i + 1).last() == items@[i as int]@);
                }
                match &items[i] {
                    AtAtParseItem::KeyValue(k, v) => {
                        apply_item(&mut meta, k.clone(), v.clone());
                    },
                    AtAtParseItem::Data(_) => {},
                }
                i = i + 1;
            }
            proof {
                assert(iv.take(n as int) =~= iv);
            }
        },
        None => {
            proof {
                let e = Seq::<(Seq<u8>, Seq<u8>)>::empty();
                assert(content@.len() == 0);
                assert(crate::at_at::scan_pairs(Scan::LineStart, content@) =~= e);
                let items = chunk_items(Scan::LineStart, content@);
                assert(items =~= seq![AtAtItemView::Data(content@)]);
                assert(items.drop_last() =~= Seq::<AtAtItemView>::empty());
                assert(meta_of_items(items.drop_last()) == meta_empty());
                assert(items.last() == AtAtItemView::Data(content@));
                assert(meta@ == meta_empty());
            }
        },
    }
    meta
}


/// What an entry of the `.cargo-task` directory is.
pub enum TaskEntry {
    /// not a task
    Skip,
    /// a single-file script task, `<name>.ct.rs`, with its name
    Script(String),
    /// a crate task directory, with its name
    Crate(String),
}

/// `.ct.rs`
pub open spec fn script_ext() -> Seq<char> {
    seq!['.', 'c', 't', '.', 'r', 's']
}

/// The kind of directory entry `name` is, as a plain value: 0 not a task,
/// 1 a script task, 2 a crate task.
pub open spec fn entry_kind(name: Seq<char>, is_file: bool, is_dir: bool) -> int {
    if name == "cargo_task_util"@ || name == "target"@ || (name.len() > 0 && name[0] == '.') {
        0
    } else if is_file && name.len() >= 6 && name.skip(name.len() - 6) == script_ext() {
        1
    } else if is_dir {
        2
    } else {
        0
    }
}

/// Which directory entries are tasks: a file `<name>.ct.rs` is the script task
/// `<name>`, a directory is a crate task of its name; the util crate, the target
/// directory and hidden entries are none.
pub fn classify_task_entry(file_name: &str, is_file: bool, is_dir: bool) -> (e: TaskEntry)
    ensures
        match e {
            TaskEntry::Skip => entry_kind(file_name@, is_file, is_dir) == 0,
            TaskEntry::Script(n) => entry_kind(file_name@, is_file, is_dir) == 1 && n@
                == file_name@.take(file_name@.len() - 6),
            TaskEntry::Crate(n) => entry_kind(file_name@, is_file, is_dir) == 2 && n@ == file_name@,
        },
{
    let cs = chars_of(file_name);
    let len = cs.len();
    if str_eq(file_name, "cargo_task_util") || str_eq(file_name, "target") || (len > 0 && cs[0]
        == '.') {
        return TaskEntry::Skip;
    }
    let is_script = len >= 6 && cs[len - 6] == '.' && cs[len - 5] == 'c' && cs[len - 4] == 't'
        && cs[len - 3] == '.' && cs[len - 2] == 'r' && cs[len - 1] == 's';
    proof {
        if len >= 6 {
            let tail = file_name@.skip(len - 6);
            if is_script {
                assert(tail =~= script_ext());
            } else if tail == script_ext() {
                assert(tail[0] == '.' && tail[1] == 'c' && tail[2] == 't');
                assert(tail[3] == '.' && tail[4] == 'r' && tail[5] == 's');
            }
        }
    }
    if is_file && is_script {
        TaskEntry::Script(file_name.substring_char(0, len - 6).to_owned())
    } else if is_dir {
        TaskEntry::Crate(file_name.to_owned())
    } else {
        TaskEntry::Skip
    }
}

/// A crate task gives its cargo dependencies in its Cargo.toml, not in directives.
pub enum TaskMetaError {
    /// `@ct-cargo-deps@` in a directory-style task crate
    CargoDepsInCrate,
}

/// The task that a directory entry is, with the metadata read from its main source
/// file; a crate task with `@ct-cargo-deps@` is refused.
pub fn build_task_meta(name: String, path: String, is_script: bool, meta: Meta) -> (r: Result<
    CTTaskMeta,
    TaskMetaError,
>)
    ensures
        !is_script && meta@.cargo_deps is Some <==> r is Err,
        r matches Ok(t) ==> t@ == (TaskMetaView {
            name: name@,
            path: path@,
            is_script: is_script,
            min_version: meta@.min_version,
            default: meta@.default,
            bootstrap: meta@.bootstrap,
            help: meta@.help,
            cargo_deps: if is_script { meta@.cargo_deps } else { None },
            task_deps: meta@.task_deps,
        }),
{
    if !is_script && meta.cargo_deps.is_some() {
        return Err(TaskMetaError::CargoDepsInCrate);
    }
    let cargo_deps = if is_script { meta.cargo_deps } else { None };
    Ok(CTTaskMeta {
        name,
        path,
        is_script,
        min_version: meta.min_version,
        default: meta.default,
        bootstrap: meta.bootstrap,
        help: meta.help,
        cargo_deps,
        task_deps: meta.task_deps,
    })
}


/// The task dependencies that metadata directives give are single words, so the
/// variables that describe tasks built from them read back unchanged.
pub proof fn law_meta_deps_are_words(items: Seq<AtAtItemView>)
    ensures
        forall|j: int|
            0 <= j < meta_of_items(items).task_deps.len() ==> is_word(
                #[trigger] meta_of_items(items).task_deps[j],
            ),
    decreases items.len(),
{
    if items.len() > 0 {
        let init = items.drop_last();
        law_meta_deps_are_words(init);
        let m = meta_of_items(init);
        match items.last() {
            AtAtItemView::KeyValue(k, v) => {
                if k == "ct-task-deps"@ {
                    lemma_split_ws_words(v);
                    let d = m.task_deps + split_ws(v);
                    assert forall|j: int| 0 <= j < d.len() implies is_word(#[trigger] d[j]) by {
                        if j >= m.task_deps.len() {
                            assert(d[j] == split_ws(v)[j - m.task_deps.len()]);
                        }
                    }
                }
            },
            AtAtItemView::Data(_) => {},
        }
    }
}

/// The variables that loading sets besides those of the tasks.
pub open spec fn is_loader_name(k: Seq<char>) -> bool {
    ||| k == "CARGO"@
    ||| k == "CT_WORK_DIR"@
    ||| k == "CT_PATH"@
    ||| k == "CT_TARGET"@
    ||| k == "CT_TASKS"@
    ||| k == "CT_ARGS"@
}

/// Each task's dependencies are those that the metadata directives of some file give.
pub open spec fn deps_from_metadata(t: Seq<TaskMetaView>) -> bool {
    forall|i: int|
        0 <= i < t.len() ==> exists|items: Seq<AtAtItemView>| #[trigger] t[i].task_deps
            == meta_of_items(items).task_deps
}

/// What loading sets up, tasks read back: after the `CT_` variables are cleared and
/// loading sets its own variables and then those of a table of tasks read from
/// metadata, the `CT_TASK_` variables describe exactly the tasks of that table.
pub proof fn law_load_round_trip(t: Seq<TaskMetaView>, other: Seq<(Seq<char>, Seq<char>)>)
    requires
        sorted_names(t),
        deps_from_metadata(t),
        forall|i: int| 0 <= i < other.len() ==> !is_ct_name(#[trigger] other[i].0) || is_loader_name(
            other[i].0,
        ),
    ensures
        env_tasks(other + table_vars(t)) == table_map(t),
{
    reveal_strlit("CARGO");
    reveal_strlit("CT_WORK_DIR");
    reveal_strlit("CT_PATH");
    reveal_strlit("CT_TARGET");
    reveal_strlit("CT_TASKS");
    reveal_strlit("CT_ARGS");
    assert forall|i: int| 0 <= i < other.len() implies !(#[trigger] other[i].0.len() >= 8
        && other[i].0.take(8) == task_prefix()) by {
        let k = other[i].0;
        if k.len() >= 8 && k.take(8) == task_prefix() {
            assert(k[0] == k.take(8)[0] && k[1] == k.take(8)[1] && k[2] == k.take(8)[2]);
            assert(k[3] == k.take(8)[3] && k[4] == k.take(8)[4] && k[7] == k.take(8)[7]);
            assert(is_ct_name(k));
        }
    }
    assert forall|i: int, j: int|
        0 <= i < t.len() && 0 <= j < t[i].task_deps.len() implies is_word(
        #[trigger] t[i].task_deps[j],
    ) by {
        let items = choose|items: Seq<AtAtItemView>| #[trigger] t[i].task_deps
            == meta_of_items(items).task_deps;
        law_meta_deps_are_words(items);
    }
    law_env_round_trip(t, other);
}

/// The directive `@key@ value @@` among `items`.
pub open spec fn has_directive(items: Seq<AtAtItemView>, k: Seq<char>, v: Seq<char>) -> bool {
    exists|i: int| 0 <= i < items.len() && items[i] == AtAtItemView::KeyValue(k, v)
}

proof fn lemma_directive_keys_differ()
    ensures
        "ct-bootstrap"@ != "ct-min-version"@,
        "ct-bootstrap"@ != "ct-default"@,
        "ct-default"@ != "ct-min-version"@,
{
    reveal_strlit("ct-bootstrap");
    reveal_strlit("ct-min-version");
    reveal_strlit("ct-default");
    assert("ct-bootstrap"@[3] != "ct-min-version"@[3]);
    assert("ct-bootstrap"@[3] != "ct-default"@[3]);
    assert("ct-default"@[3] != "ct-min-version"@[3]);
}

/// A task is a bootstrap task exactly when its metadata holds the directive
/// `@ct-bootstrap@ true @@`, and a default task exactly when it holds
/// `@ct-default@ true @@`; other directives and other values leave both flags alone.
pub proof fn law_meta_flags(items: Seq<AtAtItemView>)
    ensures
        meta_of_items(items).bootstrap <==> has_directive(items, "ct-bootstrap"@, "true"@),
        meta_of_items(items).default <==> has_directive(items, "ct-default"@, "true"@),
    decreases items.len(),
{
    if items.len() > 0 {
        let init = items.drop_last();
        law_meta_flags(init);
        lemma_directive_keys_differ();
        let last = items.last();
        assert(items[items.len() - 1] == last);
        assert forall|k: Seq<char>, v: Seq<char>| has_directive(init, k, v) implies has_directive(
            items,
            k,
            v,
        ) by {
            let i = choose|i: int| 0 <= i < init.len() && init[i] == AtAtItemView::KeyValue(k, v);
            assert(items[i] == init[i]);
        }
        assert forall|k: Seq<char>, v: Seq<char>|
            has_directive(items, k, v) && last != AtAtItemView::KeyValue(k, v) implies has_directive(
            init,
            k,
            v,
        ) by {
            let i = choose|i: int| 0 <= i < items.len() && items[i] == AtAtItemView::KeyValue(k, v);
            assert(i < items.len() - 1);
            assert(init[i] == items[i]);
        }
    }
}

/// The item at `i` is a directive with the key `k`.
pub open spec fn key_at(items: Seq<AtAtItemView>, i: int, k: Seq<char>) -> bool {
    items[i] matches AtAtItemView::KeyValue(kk, _) && kk == k
}

/// The directive at `i` is the last one among `items` with the key `k`.
pub open spec fn last_with_key(items: Seq<AtAtItemView>, i: int, k: Seq<char>) -> bool {
    &&& 0 <= i < items.len()
    &&& key_at(items, i, k)
    &&& forall|j: int| i < j < items.len() ==> !#[trigger] key_at(items, j, k)
}

/// No directive among `items` has the key `k`.
pub open spec fn no_key(items: Seq<AtAtItemView>, k: Seq<char>) -> bool {
    forall|j: int| 0 <= j < items.len() ==> !#[trigger] key_at(items, j, k)
}

proof fn lemma_all_keys_differ()
    ensures
        "ct-min-version"@ != "ct-default"@,
        "ct-min-version"@ != "ct-bootstrap"@,
        "ct-min-version"@ != "ct-cargo-deps"@,
        "ct-min-version"@ != "ct-task-deps"@,
        "ct-min-version"@ != "ct-help"@,
        "ct-default"@ != "ct-bootstrap"@,
        "ct-default"@ != "ct-cargo-deps"@,
        "ct-default"@ != "ct-task-deps"@,
        "ct-default"@ != "ct-help"@,
        "ct-bootstrap"@ != "ct-cargo-deps"@,
        "ct-bootstrap"@ != "ct-task-deps"@,
        "ct-bootstrap"@ != "ct-help"@,
        "ct-cargo-deps"@ != "ct-task-deps"@,
        "ct-cargo-deps"@ != "ct-help"@,
        "ct-task-deps"@ != "ct-help"@,
{
    reveal_strlit("ct-min-version");
    reveal_strlit("ct-default");
    reveal_strlit("ct-bootstrap");
    reveal_strlit("ct-cargo-deps");
    reveal_strlit("ct-task-deps");
    reveal_strlit("ct-help");
    assert("ct-min-version"@[3] == 'm');
    assert("ct-default"@[3] == 'd');
    assert("ct-bootstrap"@[3] == 'b');
    assert("ct-cargo-deps"@[3] == 'c');
    assert("ct-task-deps"@[3] == 't');
    assert("ct-help"@[3] == 'h');
}

/// The minimum version, the cargo dependencies and the help text are those of the
/// last directive with their key (`ct-min-version`, `ct-cargo-deps`, `ct-help`);
/// without such a directive there is no minimum version, no cargo dependencies and
/// no help text.
pub proof fn law_meta_last_values(items: Seq<AtAtItemView>)
    ensures
        forall|i: int| #[trigger] last_with_key(items, i, "ct-min-version"@) ==> meta_of_items(
            items,
        ).min_version == Some(items[i]->KeyValue_1),
        no_key(items, "ct-min-version"@) ==> meta_of_items(items).min_version is None,
        forall|i: int| #[trigger] last_with_key(items, i, "ct-cargo-deps"@) ==> meta_of_items(
            items,
        ).cargo_deps == Some(items[i]->KeyValue_1),
        no_key(items, "ct-cargo-deps"@) ==> meta_of_items(items).cargo_deps is None,
        forall|i: int| #[trigger] last_with_key(items, i, "ct-help"@) ==> meta_of_items(items).help
            == items[i]->KeyValue_1,
        no_key(items, "ct-help"@) ==> meta_of_items(items).help == Seq::<char>::empty(),
    decreases items.len(),
{
    if items.len() > 0 {
        let init = items.drop_last();
        let n = items.len() - 1;
        law_meta_last_values(init);
        lemma_all_keys_differ();
        assert(items[n] == items.last());
        assert forall|j: int| 0 <= j < init.len() implies init[j] == items[j] by {}
        assert forall|k: Seq<char>, i: int|
            #[trigger] last_with_key(items, i, k) && i < n implies last_with_key(init, i, k)
            && !key_at(items, n, k) by {
            assert forall|j: int| i < j < init.len() implies !#[trigger] key_at(init, j, k) by {
                assert(!key_at(items, j, k));
            }
        }
        assert forall|k: Seq<char>| #[trigger] no_key(items, k) implies no_key(init, k) && !key_at(
            items,
            n,
            k,
        ) by {
            assert forall|j: int| 0 <= j < init.len() implies !#[trigger] key_at(init, j, k) by {
                assert(!key_at(items, j, k));
            }
        }
        assert forall|k: Seq<char>| !key_at(items, n, k) && (exists|i: int| #[trigger] last_with_key(items, i, k))
            implies exists|i: int| #[trigger] last_with_key(init, i, k) by {
            let i = choose|i: int| #[trigger] last_with_key(items, i, k);
            assert(i < n);
        }
    }
}

} // verus!
