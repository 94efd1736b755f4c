//! The `CT_TASK_<name>_<FIELD>` environment variables through which task metadata
//! passes from cargo-task to the tasks it runs.

use vstd::prelude::*;
use crate::text::chars_of;

verus! {

/// The common start of every task variable: `CT_TASK_`.
pub open spec fn task_prefix() -> Seq<char> {
    seq!['C', 'T', '_', 'T', 'A', 'S', 'K', '_']
}

/// `_PATH`
pub open spec fn sfx_path() -> Seq<char> {
    seq!['_', 'P', 'A', 'T', 'H']
}

/// `_IS_SCRIPT`
pub open spec fn sfx_is_script() -> Seq<char> {
    seq!['_', 'I', 'S', '_', 'S', 'C', 'R', 'I', 'P', 'T']
}

/// `_MIN_VER`
pub open spec fn sfx_min_ver() -> Seq<char> {
    seq!['_', 'M', 'I', 'N', '_', 'V', 'E', 'R']
}

/// `_DEFAULT`
pub open spec fn sfx_default() -> Seq<char> {
    seq!['_', 'D', 'E', 'F', 'A', 'U', 'L', 'T']
}

/// `_BOOTSTRAP`
pub open spec fn sfx_bootstrap() -> Seq<char> {
    seq!['_', 'B', 'O', 'O', 'T', 'S', 'T', 'R', 'A', 'P']
}

/// `_HELP`
pub open spec fn sfx_help() -> Seq<char> {
    seq!['_', 'H', 'E', 'L', 'P']
}

/// `_CARGO_DEPS`
pub open spec fn sfx_cargo_deps() -> Seq<char> {
    seq!['_', 'C', 'A', 'R', 'G', 'O', '_', 'D', 'E', 'P', 'S']
}

/// `_TASK_DEPS`
pub open spec fn sfx_task_deps() -> Seq<char> {
    seq!['_', 'T', 'A', 'S', 'K', '_', 'D', 'E', 'P', 'S']
}

/// The variable `CT_TASK_<name><suffix>`.
pub open spec fn task_key(name: Seq<char>, suffix: Seq<char>) -> Seq<char> {
    task_prefix() + name + suffix
}

/// The plain values of a list of variables.
pub open spec fn vars_view(v: Seq<(String, String)>) -> Seq<(Seq<char>, Seq<char>)> {
    v.map_values(|p: (String, String)| (p.0@, p.1@))
}

/// The value of variable `k`: the last one given, as when the variables are
/// collected into a map.
pub open spec fn env_lookup(vars: Seq<(Seq<char>, Seq<char>)>, k: Seq<char>) -> Option<Seq<char>>
    decreases vars.len(),
{
    if vars.len() == 0 {
        None
    } else if vars.last().0 == k {
        Some(vars.last().1)
    } else {
        env_lookup(vars.drop_last(), k)
    }
}

/// The value of variable `key`.
pub fn lookup_var(vars: &Vec<(String, String)>, key: &str) -> (r: Option<String>)
    ensures
        crate::cargo_task_util::opt_view(r) == env_lookup(vars_view(vars@), key@),
{
    let ghost vv = vars_view(vars@);
    let mut i: usize = vars.len();
    proof {
        assert(vv.take(i as int) =~= vv);
    }
    while i > 0
        invariant
            vv == vars_view(vars@),
            i <= vars@.len(),
            env_lookup(vv, key@) == env_lookup(vv.take(i as int), key@),
        decreases i,
    {
        proof {
            assert(vv.take(i as int).drop_last() =~= vv.take(i - 1));
            assert(vv.take(i as int).last() == vv[i - 1]);
        }
        if crate::cargo_task_util::str_eq(vars[i - 1].0.as_str(), key) {
            return Some(vars[i - 1].1.clone());
        }
        i = i - 1;
    }
    None
}

/// `CT_TASK_<name><suffix>`, built from `name` and a suffix.
pub fn make_task_key(name: &str, suffix: &str) -> (k: String)
    ensures
        k@ == task_key(name@, suffix@),
{
    let mut k = "CT_TASK_".to_owned();
    proof {
        reveal_strlit("CT_TASK_");
        assert("CT_TASK_"@ =~= task_prefix());
    }
    k.append(name);
    k.append(suffix);
    k
}

/// Variable names that differ in name or in suffix are different variables.
pub proof fn lemma_task_key_injective(n: Seq<char>, s: Seq<char>, m: Seq<char>, t: Seq<char>)
    requires
        task_key(n, s) == task_key(m, t),
        s.len() == t.len(),
    ensures
        n == m,
        s == t,
{
    let a = task_key(n, s);
    assert(a.len() == 8 + n.len() + s.len());
    assert(task_key(m, t).len() == 8 + m.len() + t.len());
    assert(n.len() == m.len());
    assert(n =~= a.subrange(8, 8 + n.len() as int));
    assert(m =~= a.subrange(8, 8 + m.len() as int));
    assert(s =~= a.subrange(8 + n.len() as int, a.len() as int));
    assert(t =~= a.subrange(8 + m.len() as int, a.len() as int));
}

/// If `k` is `CT_TASK_<name>_PATH`, the name.
pub fn path_key_name(k: &str) -> (r: Option<String>)
    ensures
        r matches Some(n) ==> k@ == task_key(n@, sfx_path()),
        r is None ==> forall|n: Seq<char>| k@ != #[trigger] task_key(n, sfx_path()),
{
    let cs = chars_of(k);
    let len = cs.len();
    if len < 13 {
        return None;
    }
    let ok = cs[0] == 'C' && cs[1] == 'T' && cs[2] == '_' && cs[3] == 'T' && cs[4] == 'A' && cs[5]
        == 'S' && cs[6] == 'K' && cs[7] == '_' && cs[len - 5] == '_' && cs[len - 4] == 'P'
        && cs[len - 3] == 'A' && cs[len - 2] == 'T' && cs[len - 1] == 'H';
    if !ok {
        proof {
            assert forall|n: Seq<char>| k@ != #[trigger] task_key(n, sfx_path()) by {
                if k@ == task_key(n, sfx_path()) {
                    let a = task_key(n, sfx_path());
                    assert(a[0] == 'C' && a[1] == 'T' && a[2] == '_' && a[3] == 'T');
                    assert(a[4] == 'A' && a[5] == 'S' && a[6] == 'K' && a[7] == '_');
                    assert(a[a.len() - 5] == '_' && a[a.len() - 4] == 'P');
                    assert(a[a.len() - 3] == 'A' && a[a.len() - 2] == 'T' && a[a.len() - 1] == 'H');
                }
            }
        }
        return None;
    }
    let n = k.substring_char(8, len - 5).to_owned();
    proof {
        assert(k@ =~= task_key(n@, sfx_path()));
    }
    Some(n)
}

} // verus!
