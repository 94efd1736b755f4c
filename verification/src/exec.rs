//! The order in which tasks run: each task after the tasks it depends on,
//! with circular dependencies refused.

use vstd::prelude::*;
use crate::at_at::{
    atat_text, chunk_items, law_chunking, law_key_value_line, pair_item, scan, scan_pairs, AtAtItemView,
    AtAtParseItem, AtAtParser, Scan, AT, LF,
};
use vstd::utf8::{encode_utf8, encode_utf8_decode_utf8, encode_utf8_valid_utf8};
use crate::text::{chars_of, is_ws, join_strs, join_with, lemma_encode_without_at, trim, trim_end, trim_start};
use crate::cargo_task_util::{
    str_eq,
    contains_str, copy_strs, has_name, strs_view, table_get, CTEnv, TaskMetaView,
};

verus! {

/// The names of the tasks of a table.
pub open spec fn task_names(tbl: Seq<TaskMetaView>) -> Set<Seq<char>> {
    tbl.map_values(|m: TaskMetaView| m.name).to_set()
}

/// How many task names are not yet in `visited`.
pub open spec fn unvisited(tbl: Seq<TaskMetaView>, visited: Set<Seq<char>>) -> nat {
    task_names(tbl).difference(visited).len()
}

/// Visiting a task that is in the table and was not yet visited leaves fewer to visit.
pub proof fn lemma_unvisited_decreases(
    tbl: Seq<TaskMetaView>,
    visited: Set<Seq<char>>,
    t: Seq<char>,
)
    requires
        has_name(tbl, t),
        !visited.contains(t),
    ensures
        unvisited(tbl, visited.insert(t)) < unvisited(tbl, visited),
{
    broadcast use vstd::seq_lib::seq_to_set_is_finite, vstd::set::axiom_set_difference_finite, vstd::set::axiom_set_remove_len;

    let names = tbl.map_values(|m: TaskMetaView| m.name);
    let a = task_names(tbl);
    let i = choose|i: int| 0 <= i < tbl.len() && #[trigger] tbl[i].name == t;
    assert(names[i] == t);
    assert(a.contains(t));
    assert(a.difference(visited.insert(t)) =~= a.difference(visited).remove(t));
    assert(a.difference(visited).contains(t));
}

/// The task list after adding `task` and, before it, the tasks it depends on,
/// depth first and each one once; `None` where a dependency leads back to a task
/// on the current path (`visited`). A task that is not in the table is added as it
/// is, without dependencies.
pub open spec fn fill_spec(
    tbl: Seq<TaskMetaView>,
    list: Seq<Seq<char>>,
    task: Seq<char>,
    visited: Set<Seq<char>>,
) -> Option<Seq<Seq<char>>>
    decreases unvisited(tbl, visited), 0nat, 0nat,
{
    if !has_name(tbl, task) {
        Some(if list.contains(task) { list } else { list.push(task) })
    } else if visited.contains(task) {
        None
    } else {
        let v2 = visited.insert(task);
        proof {
            lemma_unvisited_decreases(tbl, visited, task);
        }
        match fill_deps_spec(tbl, list, table_get(tbl, task).task_deps, 0, v2) {
            None => None,
            Some(l) => Some(if l.contains(task) { l } else { l.push(task) }),
        }
    }
}

/// The task list after filling in `deps[j..]`, one after the other.
pub open spec fn fill_deps_spec(
    tbl: Seq<TaskMetaView>,
    list: Seq<Seq<char>>,
    deps: Seq<Seq<char>>,
    j: int,
    visited: Set<Seq<char>>,
) -> Option<Seq<Seq<char>>>
    decreases unvisited(tbl, visited), 1nat, (if j < deps.len() { deps.len() - j } else { 0 }) as nat,
{
    if j < 0 || j >= deps.len() {
        Some(list)
    } else if visited.contains(deps[j]) {
        None
    } else {
        match fill_spec(tbl, list, deps[j], visited) {
            None => None,
            Some(l) => fill_deps_spec(tbl, l, deps, j + 1, visited),
        }
    }
}


/// No name occurs twice in `s`.
pub open spec fn no_dups(s: Seq<Seq<char>>) -> bool {
    forall|i: int, j: int| 0 <= i < j < s.len() ==> #[trigger] s[i] != #[trigger] s[j]
}

/// No name from index `k` on occurs earlier in `s`.
pub open spec fn no_dups_from(s: Seq<Seq<char>>, k: int) -> bool {
    forall|i: int, j: int| 0 <= i < j < s.len() && k <= j ==> #[trigger] s[i] != #[trigger] s[j]
}

/// Every task of `s` that is in the table comes after all the tasks it depends on.
pub open spec fn deps_first(tbl: Seq<TaskMetaView>, s: Seq<Seq<char>>) -> bool {
    forall|i: int, d: Seq<char>|
        0 <= i < s.len() && has_name(tbl, s[i]) && #[trigger] table_get(
            tbl,
            s[i],
        ).task_deps.contains(d) ==> exists|j: int| 0 <= j < i && #[trigger] s[j] == d
}

/// Every task of `s` from index `k` on that is in the table comes after all the
/// tasks it depends on.
pub open spec fn deps_first_from(tbl: Seq<TaskMetaView>, s: Seq<Seq<char>>, k: int) -> bool {
    forall|i: int, d: Seq<char>|
        k <= i < s.len() && has_name(tbl, s[i]) && #[trigger] table_get(
            tbl,
            s[i],
        ).task_deps.contains(d) ==> exists|j: int| 0 <= j < i && #[trigger] s[j] == d
}

/// `l` begins with `list`.
pub open spec fn extends(list: Seq<Seq<char>>, l: Seq<Seq<char>>) -> bool {
    list.len() <= l.len() && l.subrange(0, list.len() as int) == list
}

proof fn lemma_extends_trans(a: Seq<Seq<char>>, b: Seq<Seq<char>>, c: Seq<Seq<char>>)
    requires
        extends(a, b),
        extends(b, c),
    ensures
        extends(a, c),
{
    assert(c.subrange(0, a.len() as int) =~= b.subrange(0, a.len() as int));
}

/// What holds of `b` from `k` on and of `c`, which extends `b`, from the end of `b`
/// on, holds of `c` from `k` on.
proof fn lemma_from_compose(tbl: Seq<TaskMetaView>, b: Seq<Seq<char>>, c: Seq<Seq<char>>, k: int)
    requires
        0 <= k <= b.len(),
        extends(b, c),
        no_dups_from(b, k),
        deps_first_from(tbl, b, k),
        no_dups_from(c, b.len() as int),
        deps_first_from(tbl, c, b.len() as int),
    ensures
        no_dups_from(c, k),
        deps_first_from(tbl, c, k),
{
    assert forall|i: int| 0 <= i < b.len() implies c[i] == b[i] by {
        assert(c.subrange(0, b.len() as int)[i] == c[i]);
    }
    assert forall|i: int, j: int| 0 <= i < j < c.len() && k <= j implies #[trigger] c[i]
        != #[trigger] c[j] by {
        if j < b.len() {
            assert(b[i] != b[j]);
        }
    }
    assert forall|i: int, d: Seq<char>|
        k <= i < c.len() && has_name(tbl, c[i]) && #[trigger] table_get(
            tbl,
            c[i],
        ).task_deps.contains(d) implies exists|j: int| 0 <= j < i && #[trigger] c[j] == d by {
        if i < b.len() {
            assert(b[i] == c[i]);
            let j = choose|j: int| 0 <= j < i && #[trigger] b[j] == d;
            assert(c[j] == d);
        }
    }
}

proof fn lemma_push_if_absent(tbl: Seq<TaskMetaView>, l: Seq<Seq<char>>, t: Seq<char>, k: int)
    requires
        0 <= k <= l.len(),
        no_dups_from(l, k),
        deps_first_from(tbl, l, k),
        has_name(tbl, t) ==> forall|d: Seq<char>| #[trigger]
            table_get(tbl, t).task_deps.contains(d) ==> l.contains(d),
    ensures
        ({
            let r = if l.contains(t) { l } else { l.push(t) };
            &&& extends(l, r)
            &&& r.contains(t)
            &&& no_dups_from(r, k)
            &&& deps_first_from(tbl, r, k)
        }),
{
    if !l.contains(t) {
        let r = l.push(t);
        assert(r.subrange(0, l.len() as int) =~= l);
        assert(r[l.len() as int] == t);
        assert forall|i: int, j: int| 0 <= i < j < r.len() && k <= j implies #[trigger] r[i]
            != #[trigger] r[j] by {
            if j == l.len() {
                assert(r[i] == l[i]);
            } else {
                assert(l[i] != l[j]);
            }
        }
        assert forall|i: int, d: Seq<char>|
            k <= i < r.len() && has_name(tbl, r[i]) && #[trigger] table_get(
                tbl,
                r[i],
            ).task_deps.contains(d) implies exists|j: int| 0 <= j < i && #[trigger] r[j] == d by {
            if i < l.len() {
                assert(r[i] == l[i]);
                let j = choose|j: int| 0 <= j < i && #[trigger] l[j] == d;
                assert(r[j] == d);
            } else {
                assert(l.contains(d));
                let j = choose|j: int| 0 <= j < l.len() && #[trigger] l[j] == d;
                assert(r[j] == d);
            }
        }
    } else {
        assert(l.subrange(0, l.len() as int) =~= l);
    }
}

/// Filling in a task keeps what the list held, in place, and adds the task; the
/// names it adds are new and not repeated, and each added task that is in the table
/// comes after all the tasks it depends on. So a list without repeated names, where
/// each known task follows its dependencies, stays so.
pub proof fn law_fill_order(
    tbl: Seq<TaskMetaView>,
    list: Seq<Seq<char>>,
    task: Seq<char>,
    visited: Set<Seq<char>>,
)
    ensures
        fill_spec(tbl, list, task, visited) matches Some(l) ==> {
            &&& extends(list, l)
            &&& l.contains(task)
            &&& no_dups_from(l, list.len() as int)
            &&& deps_first_from(tbl, l, list.len() as int)
            &&& no_dups(list) ==> no_dups(l)
            &&& deps_first(tbl, list) ==> deps_first(tbl, l)
        },
    decreases unvisited(tbl, visited), 0nat, 0nat,
{
    let k = list.len() as int;
    if !has_name(tbl, task) {
        lemma_push_if_absent(tbl, list, task, k);
    } else if !visited.contains(task) {
        let v2 = visited.insert(task);
        lemma_unvisited_decreases(tbl, visited, task);
        let deps = table_get(tbl, task).task_deps;
        lemma_fill_deps_order(tbl, list, deps, 0, v2);
        if let Some(l) = fill_deps_spec(tbl, list, deps, 0, v2) {
            assert forall|d: Seq<char>| #[trigger] deps.contains(d) implies l.contains(d) by {
                let m = choose|m: int| 0 <= m < deps.len() && deps[m] == d;
            }
            lemma_push_if_absent(tbl, l, task, k);
            lemma_extends_trans(list, l, if l.contains(task) { l } else { l.push(task) });
        }
    }
    if let Some(l) = fill_spec(tbl, list, task, visited) {
        if no_dups(list) {
            lemma_no_dups_compose(list, l);
        }
        if deps_first(tbl, list) {
            lemma_deps_first_compose(tbl, list, l);
        }
    }
}

proof fn lemma_no_dups_compose(b: Seq<Seq<char>>, c: Seq<Seq<char>>)
    requires
        extends(b, c),
        no_dups(b),
        no_dups_from(c, b.len() as int),
    ensures
        no_dups(c),
{
    assert forall|i: int, j: int| 0 <= i < j < c.len() implies #[trigger] c[i] != #[trigger] c[j] by {
        if j < b.len() {
            assert(c.subrange(0, b.len() as int)[i] == c[i]);
            assert(c.subrange(0, b.len() as int)[j] == c[j]);
            assert(b[i] != b[j]);
        }
    }
}

proof fn lemma_deps_first_compose(tbl: Seq<TaskMetaView>, b: Seq<Seq<char>>, c: Seq<Seq<char>>)
    requires
        extends(b, c),
        deps_first(tbl, b),
        deps_first_from(tbl, c, b.len() as int),
    ensures
        deps_first(tbl, c),
{
    assert forall|i: int, d: Seq<char>|
        0 <= i < c.len() && has_name(tbl, c[i]) && #[trigger] table_get(
            tbl,
            c[i],
        ).task_deps.contains(d) implies exists|j: int| 0 <= j < i && #[trigger] c[j] == d by {
        if i < b.len() {
            assert(c.subrange(0, b.len() as int)[i] == c[i]);
            assert(b[i] == c[i]);
            let j = choose|j: int| 0 <= j < i && #[trigger] b[j] == d;
            assert(c.subrange(0, b.len() as int)[j] == c[j]);
            assert(c[j] == d);
        }
    }
}

/// Filling in `deps[j..]` keeps what the list held and adds each of them.
proof fn lemma_fill_deps_order(
    tbl: Seq<TaskMetaView>,
    list: Seq<Seq<char>>,
    deps: Seq<Seq<char>>,
    j: int,
    visited: Set<Seq<char>>,
)
    requires
        0 <= j,
    ensures
        fill_deps_spec(tbl, list, deps, j, visited) matches Some(l) ==> {
            &&& extends(list, l)
            &&& forall|k: int| j <= k < deps.len() ==> l.contains(#[trigger] deps[k])
            &&& no_dups_from(l, list.len() as int)
            &&& deps_first_from(tbl, l, list.len() as int)
        },
    decreases unvisited(tbl, visited), 1nat, (if j < deps.len() { deps.len() - j } else { 0 }) as nat,
{
    if j < 0 || j >= deps.len() {
        assert(list.subrange(0, list.len() as int) =~= list);
    } else if !visited.contains(deps[j]) {
        law_fill_order(tbl, list, deps[j], visited);
        if let Some(l1) = fill_spec(tbl, list, deps[j], visited) {
            lemma_fill_deps_order(tbl, l1, deps, j + 1, visited);
            if let Some(l) = fill_deps_spec(tbl, l1, deps, j + 1, visited) {
                lemma_extends_trans(list, l1, l);
                lemma_from_compose(tbl, l1, l, list.len() as int);
                let i = choose|i: int| 0 <= i < l1.len() && l1[i] == deps[j];
                assert(l[i] == l1[i]) by {
                    assert(l.subrange(0, l1.len() as int)[i] == l1[i]);
                }
                assert(l.contains(deps[j]));
                assert forall|k: int| j <= k < deps.len() implies l.contains(#[trigger] deps[k]) by {
                    if k == j {
                        assert(l.contains(deps[j]));
                    }
                }
            }
        }
    }
}


/// `p` is a chain of dependencies: each of its names but the last is a task of the
/// table that depends on the next one.
pub open spec fn dep_chain(tbl: Seq<TaskMetaView>, p: Seq<Seq<char>>) -> bool {
    forall|i: int|
        0 <= i < p.len() - 1 ==> has_name(tbl, #[trigger] p[i]) && table_get(
            tbl,
            p[i],
        ).task_deps.contains(p[i + 1])
}

proof fn lemma_fill_deps_none(
    tbl: Seq<TaskMetaView>,
    list: Seq<Seq<char>>,
    deps: Seq<Seq<char>>,
    j: int,
    k: int,
    visited: Set<Seq<char>>,
)
    requires
        0 <= j <= k < deps.len(),
        visited.contains(deps[k]) || forall|l: Seq<Seq<char>>|
            #[trigger] fill_spec(tbl, l, deps[k], visited) is None,
    ensures
        fill_deps_spec(tbl, list, deps, j, visited) is None,
    decreases k - j,
{
    if !visited.contains(deps[j]) {
        if j < k {
            if let Some(l1) = fill_spec(tbl, list, deps[j], visited) {
                lemma_fill_deps_none(tbl, l1, deps, j + 1, k, visited);
            }
        } else {
            assert(fill_spec(tbl, list, deps[j], visited) is None);
        }
    }
}

/// Circular dependencies are refused: when a chain of dependencies leads from
/// `p[0]` back to one of its own names, or to a task of the current path
/// (`visited`), filling in `p[0]` fails.
pub proof fn law_cycle_refused(
    tbl: Seq<TaskMetaView>,
    list: Seq<Seq<char>>,
    p: Seq<Seq<char>>,
    visited: Set<Seq<char>>,
)
    requires
        p.len() >= 2,
        dep_chain(tbl, p),
        visited.contains(p.last()) || p.subrange(0, p.len() - 1).contains(p.last()),
    ensures
        fill_spec(tbl, list, p[0], visited) is None,
    decreases p.len(),
{
    assert(has_name(tbl, p[0]));
    if !visited.contains(p[0]) {
        let v2 = visited.insert(p[0]);
        let deps = table_get(tbl, p[0]).task_deps;
        assert(deps.contains(p[1]));
        let k = choose|k: int| 0 <= k < deps.len() && deps[k] == p[1];
        let q = p.drop_first();
        if !v2.contains(p[1]) {
            assert(p.len() > 2) by {
                if p.len() == 2 {
                    assert(p.last() == p[1]);
                    if !visited.contains(p.last()) {
                        let pre = p.subrange(0, 1);
                        let m = choose|m: int| 0 <= m < pre.len() && #[trigger] pre[m] == p.last();
                        assert(p.subrange(0, 1)[m] == p[0]);
                    }
                }
            }
            assert(dep_chain(tbl, q)) by {
                assert forall|i: int| 0 <= i < q.len() - 1 implies has_name(tbl, #[trigger] q[i])
                    && table_get(tbl, q[i]).task_deps.contains(q[i + 1]) by {
                    assert(q[i] == p[i + 1]);
                    assert(q[i + 1] == p[i + 2]);
                }
            }
            assert(v2.contains(q.last()) || q.subrange(0, q.len() - 1).contains(q.last())) by {
                assert(q.last() == p.last());
                if !visited.contains(p.last()) {
                    let pre = p.subrange(0, p.len() - 1);
                    let m = choose|m: int| 0 <= m < pre.len() && #[trigger] pre[m] == p.last();
                    if m == 0 {
                        assert(p.subrange(0, p.len() - 1)[0] == p[0]);
                    } else {
                        assert(q.subrange(0, q.len() - 1)[m - 1] == p[m]);
                        assert(p.subrange(0, p.len() - 1)[m] == p[m]);
                    }
                }
            }
            assert forall|l: Seq<Seq<char>>| #[trigger] fill_spec(tbl, l, deps[k], v2) is None by {
                law_cycle_refused(tbl, l, q, v2);
            }
        }
        lemma_fill_deps_none(tbl, list, deps, 0, k, v2);
    }
}


/// Along every chain of dependencies from `start`, each task of the table that is
/// reached ranks, by `rank`, below the task that depends on it: no circular
/// dependency can be reached from `start`.
pub open spec fn ranked_from(
    tbl: Seq<TaskMetaView>,
    rank: spec_fn(Seq<char>) -> nat,
    start: Seq<char>,
) -> bool {
    forall|p: Seq<Seq<char>>|
        p.len() >= 2 && p[0] == start && #[trigger] dep_chain(tbl, p) && has_name(tbl, p.last())
            ==> rank(p.last()) < rank(p[p.len() - 2])
}

proof fn lemma_ranked_dep(
    tbl: Seq<TaskMetaView>,
    rank: spec_fn(Seq<char>) -> nat,
    parent: Seq<char>,
    d: Seq<char>,
)
    requires
        has_name(tbl, parent),
        table_get(tbl, parent).task_deps.contains(d),
        ranked_from(tbl, rank, parent),
    ensures
        ranked_from(tbl, rank, d),
        has_name(tbl, d) ==> rank(d) < rank(parent),
{
    let e = seq![parent, d];
    assert(dep_chain(tbl, e)) by {
        assert forall|i: int| 0 <= i < e.len() - 1 implies has_name(tbl, #[trigger] e[i])
            && table_get(tbl, e[i]).task_deps.contains(e[i + 1]) by {
            assert(i == 0);
        }
    }
    assert forall|p: Seq<Seq<char>>|
        p.len() >= 2 && p[0] == d && #[trigger] dep_chain(tbl, p) && has_name(tbl, p.last())
            implies rank(p.last()) < rank(p[p.len() - 2]) by {
        let q = seq![parent] + p;
        assert forall|i: int| 0 <= i < q.len() - 1 implies has_name(tbl, #[trigger] q[i])
            && table_get(tbl, q[i]).task_deps.contains(q[i + 1]) by {
            if i == 0 {
                assert(q[1] == p[0]);
            } else {
                assert(q[i] == p[i - 1]);
                assert(q[i + 1] == p[i]);
            }
        }
        assert(dep_chain(tbl, q));
        assert(q.last() == p.last());
        assert(q[q.len() - 2] == p[p.len() - 2]);
    }
}

/// Filling in a task from which no circular dependency can be reached succeeds, as
/// long as the task ranks below every task on the current path (`visited`), which
/// holds only tasks of the table; from an empty path it always does.
pub proof fn law_fill_succeeds(
    tbl: Seq<TaskMetaView>,
    list: Seq<Seq<char>>,
    task: Seq<char>,
    visited: Set<Seq<char>>,
    rank: spec_fn(Seq<char>) -> nat,
)
    requires
        ranked_from(tbl, rank, task),
        forall|v: Seq<char>| #[trigger] visited.contains(v) ==> has_name(tbl, v),
        forall|v: Seq<char>| #[trigger] visited.contains(v) && has_name(tbl, task) ==> rank(task)
            < rank(v),
    ensures
        fill_spec(tbl, list, task, visited) is Some,
    decreases unvisited(tbl, visited), 0nat, 0nat,
{
    if has_name(tbl, task) {
        assert(!visited.contains(task));
        let v2 = visited.insert(task);
        lemma_unvisited_decreases(tbl, visited, task);
        lemma_fill_deps_succeeds(tbl, list, task, 0, v2, rank);
    }
}

proof fn lemma_fill_deps_succeeds(
    tbl: Seq<TaskMetaView>,
    list: Seq<Seq<char>>,
    parent: Seq<char>,
    j: int,
    visited: Set<Seq<char>>,
    rank: spec_fn(Seq<char>) -> nat,
)
    requires
        0 <= j,
        has_name(tbl, parent),
        ranked_from(tbl, rank, parent),
        forall|v: Seq<char>| #[trigger] visited.contains(v) ==> has_name(tbl, v),
        forall|v: Seq<char>| #[trigger] visited.contains(v) ==> rank(parent) <= rank(v),
    ensures
        fill_deps_spec(tbl, list, table_get(tbl, parent).task_deps, j, visited) is Some,
    decreases unvisited(tbl, visited), 1nat, (if j < table_get(tbl, parent).task_deps.len() {
        table_get(tbl, parent).task_deps.len() - j
    } else {
        0
    }) as nat,
{
    let deps = table_get(tbl, parent).task_deps;
    if j < deps.len() {
        let d = deps[j];
        assert(deps.contains(d));
        lemma_ranked_dep(tbl, rank, parent, d);
        if visited.contains(d) {
            assert(rank(d) < rank(parent));
        }
        law_fill_succeeds(tbl, list, d, visited, rank);
        let l1 = fill_spec(tbl, list, d, visited)->0;
        lemma_fill_deps_succeeds(tbl, l1, parent, j + 1, visited, rank);
    }
}

/// Filling in names, in order, from none of which a circular dependency can be
/// reached, succeeds.
pub proof fn law_fill_all_succeeds(
    tbl: Seq<TaskMetaView>,
    list: Seq<Seq<char>>,
    names: Seq<Seq<char>>,
    rank: spec_fn(Seq<char>) -> nat,
)
    requires
        forall|k: int| 0 <= k < names.len() ==> ranked_from(tbl, rank, #[trigger] names[k]),
    ensures
        fill_all(tbl, list, names) is Some,
    decreases names.len(),
{
    if names.len() > 0 {
        let init = names.drop_last();
        assert forall|k: int| 0 <= k < init.len() implies ranked_from(tbl, rank, #[trigger] init[k]) by {
            assert(init[k] == names[k]);
        }
        law_fill_all_succeeds(tbl, list, init, rank);
        let l = fill_all(tbl, list, init)->0;
        assert(names.last() == names[names.len() - 1]);
        law_fill_succeeds(tbl, l, names.last(), Set::empty(), rank);
    }
}

proof fn lemma_fill_leaf_deps(
    tbl: Seq<TaskMetaView>,
    list: Seq<Seq<char>>,
    deps: Seq<Seq<char>>,
    j: int,
    visited: Set<Seq<char>>,
)
    requires
        0 <= j <= deps.len(),
        no_dups(deps),
        forall|k: int| 0 <= k < deps.len() ==> !#[trigger] visited.contains(deps[k]) && !list.contains(
            deps[k],
        ) && (has_name(tbl, deps[k]) ==> table_get(tbl, deps[k]).task_deps.len() == 0),
    ensures
        fill_deps_spec(tbl, list + deps.take(j), deps, j, visited) == Some(list + deps),
    decreases deps.len() - j,
{
    let l = list + deps.take(j);
    if j == deps.len() {
        assert(deps.take(j) =~= deps);
    } else {
        let d = deps[j];
        assert(!visited.contains(d));
        assert(!l.contains(d)) by {
            if l.contains(d) {
                let i = choose|i: int| 0 <= i < l.len() && l[i] == d;
                if i < list.len() {
                    assert(list[i] == d);
                } else {
                    assert(deps[i - list.len()] == d);
                }
            }
        }
        if has_name(tbl, d) {
            let v2 = visited.insert(d);
            assert(fill_deps_spec(tbl, l, table_get(tbl, d).task_deps, 0, v2) == Some(l));
        }
        assert(fill_spec(tbl, l, d, visited) == Some(l.push(d)));
        assert(l.push(d) =~= list + deps.take(j + 1));
        lemma_fill_leaf_deps(tbl, list, deps, j + 1, visited);
    }
}

/// A task's dependencies are filled in in the order they are listed: for a task
/// whose dependencies are new to the list and the path, and have no dependencies of
/// their own, filling in the task adds exactly its dependencies, in their order,
/// and then the task.
pub proof fn law_deps_in_listed_order(
    tbl: Seq<TaskMetaView>,
    list: Seq<Seq<char>>,
    task: Seq<char>,
    visited: Set<Seq<char>>,
)
    requires
        has_name(tbl, task),
        !visited.contains(task),
        !list.contains(task),
        no_dups(table_get(tbl, task).task_deps),
        forall|k: int|
            0 <= k < table_get(tbl, task).task_deps.len() ==> {
                let d = #[trigger] table_get(tbl, task).task_deps[k];
                &&& d != task
                &&& !visited.contains(d)
                &&& !list.contains(d)
                &&& has_name(tbl, d) ==> table_get(tbl, d).task_deps.len() == 0
            },
    ensures
        fill_spec(tbl, list, task, visited) == Some(list + table_get(tbl, task).task_deps + seq![task]),
{
    let deps = table_get(tbl, task).task_deps;
    let v2 = visited.insert(task);
    assert forall|k: int| 0 <= k < deps.len() implies !#[trigger] v2.contains(deps[k])
        && !list.contains(deps[k]) && (has_name(tbl, deps[k]) ==> table_get(tbl, deps[k]).task_deps.len()
        == 0) by {
        let d = deps[k];
        assert(d != task);
    }
    lemma_fill_leaf_deps(tbl, list, deps, 0, v2);
    assert(deps.take(0) =~= Seq::<Seq<char>>::empty());
    assert(list + deps.take(0) =~= list);
    let l = list + deps;
    assert(!l.contains(task)) by {
        if l.contains(task) {
            let i = choose|i: int| 0 <= i < l.len() && l[i] == task;
            if i < list.len() {
                assert(list[i] == task);
            } else {
                assert(deps[i - list.len()] == task);
            }
        }
    }
    assert(l.push(task) =~= list + deps + seq![task]);
}

/// A task named `x` comes before one named `y` in the table.
pub open spec fn in_table_order(tbl: Seq<TaskMetaView>, x: Seq<char>, y: Seq<char>) -> bool {
    exists|i: int, j: int| 0 <= i < j < tbl.len() && tbl[i].name == x && tbl[j].name == y
}

/// The names flagged for a phase are exactly the names of the table's tasks with
/// that flag set (the bootstrap flag for the bootstrap phase, the default flag
/// otherwise), in table order.
pub proof fn law_flagged_names(tbl: Seq<TaskMetaView>, bootstrap: bool)
    ensures
        forall|x: Seq<char>|
            #[trigger] flagged_names(tbl, bootstrap).contains(x) <==> exists|i: int|
                0 <= i < tbl.len() && tbl[i].name == x && (if bootstrap {
                    tbl[i].bootstrap
                } else {
                    tbl[i].default
                }),
        forall|p: int, q: int|
            0 <= p < q < flagged_names(tbl, bootstrap).len() ==> in_table_order(
                tbl,
                #[trigger] flagged_names(tbl, bootstrap)[p],
                #[trigger] flagged_names(tbl, bootstrap)[q],
            ),
        flagged_names(tbl, bootstrap).len() <= tbl.len(),
    decreases tbl.len(),
{
    if tbl.len() > 0 {
        let init = tbl.drop_last();
        let m = tbl.last();
        law_flagged_names(init, bootstrap);
        let r = flagged_names(init, bootstrap);
        let f = flagged_names(tbl, bootstrap);
        let on = if bootstrap { m.bootstrap } else { m.default };
        assert forall|x: Seq<char>| #[trigger] f.contains(x) <==> exists|i: int|
            0 <= i < tbl.len() && tbl[i].name == x && (if bootstrap {
                tbl[i].bootstrap
            } else {
                tbl[i].default
            }) by {
            if f.contains(x) {
                let k = choose|k: int| 0 <= k < f.len() && f[k] == x;
                if k < r.len() {
                    assert(r[k] == f[k]);
                    assert(r.contains(x));
                    let i = choose|i: int| 0 <= i < init.len() && init[i].name == x && (if bootstrap {
                        init[i].bootstrap
                    } else {
                        init[i].default
                    });
                    assert(tbl[i] == init[i]);
                } else {
                    assert(tbl[tbl.len() - 1] == m);
                }
            }
            if exists|i: int|
                0 <= i < tbl.len() && tbl[i].name == x && (if bootstrap {
                    tbl[i].bootstrap
                } else {
                    tbl[i].default
                }) {
                let i = choose|i: int|
                    0 <= i < tbl.len() && tbl[i].name == x && (if bootstrap {
                        tbl[i].bootstrap
                    } else {
                        tbl[i].default
                    });
                if i < init.len() {
                    assert(init[i] == tbl[i]);
                    assert(r.contains(x));
                    let k = choose|k: int| 0 <= k < r.len() && r[k] == x;
                    assert(f[k] == x);
                } else {
                    assert(tbl[i] == m);
                    assert(f[f.len() - 1] == x);
                }
            }
        }
        assert forall|p: int, q: int| 0 <= p < q < f.len() implies in_table_order(
            tbl,
            #[trigger] f[p],
            #[trigger] f[q],
        ) by {
            if q < r.len() {
                assert(f[p] == r[p] && f[q] == r[q]);
                assert(in_table_order(init, r[p], r[q]));
                let (i, j) = choose|i: int, j: int|
                    0 <= i < j < init.len() && init[i].name == r[p] && init[j].name == r[q];
                assert(tbl[i] == init[i] && tbl[j] == init[j]);
            } else {
                assert(f[p] == r[p]);
                assert(r.contains(r[p]));
                let i = choose|i: int| 0 <= i < init.len() && init[i].name == r[p] && (if bootstrap {
                    init[i].bootstrap
                } else {
                    init[i].default
                });
                assert(tbl[i] == init[i]);
                assert(f[q] == m.name);
                assert(tbl[tbl.len() - 1] == m);
                assert(tbl[i].name == f[p] && tbl[tbl.len() - 1].name == f[q]);
            }
        }
    }
}

/// A table without bootstrap tasks has nothing to run before the others: its
/// bootstrap list is empty, so a run starts with the requested or default tasks.
pub proof fn law_no_bootstrap_tasks(tbl: Seq<TaskMetaView>)
    requires
        forall|i: int| 0 <= i < tbl.len() ==> !(#[trigger] tbl[i]).bootstrap,
    ensures
        flagged_names(tbl, true) == Seq::<Seq<char>>::empty(),
        fill_all(tbl, seq![], flagged_names(tbl, true)) == Some(Seq::<Seq<char>>::empty()),
{
    law_flagged_names(tbl, true);
    let f = flagged_names(tbl, true);
    if f.len() > 0 {
        assert(f.contains(f[0]));
        let i = choose|i: int| 0 <= i < tbl.len() && tbl[i].name == f[0] && tbl[i].bootstrap;
        assert(!tbl[i].bootstrap);
    }
    assert(f =~= Seq::<Seq<char>>::empty());
}

/// `x` is `from` or can be reached from it along a chain of dependencies.
pub open spec fn reaches(tbl: Seq<TaskMetaView>, from: Seq<char>, x: Seq<char>) -> bool {
    exists|p: Seq<Seq<char>>| p.len() >= 1 && p[0] == from && p.last() == x && #[trigger] dep_chain(tbl, p)
}

proof fn lemma_reaches_self(tbl: Seq<TaskMetaView>, t: Seq<char>)
    ensures
        reaches(tbl, t, t),
{
    let p = seq![t];
    assert(dep_chain(tbl, p));
}

proof fn lemma_reaches_dep(tbl: Seq<TaskMetaView>, t: Seq<char>, d: Seq<char>, x: Seq<char>)
    requires
        has_name(tbl, t),
        table_get(tbl, t).task_deps.contains(d),
        reaches(tbl, d, x),
    ensures
        reaches(tbl, t, x),
{
    let p = choose|p: Seq<Seq<char>>| p.len() >= 1 && p[0] == d && p.last() == x && #[trigger] dep_chain(tbl, p);
    let q = seq![t] + p;
    assert forall|i: int| 0 <= i < q.len() - 1 implies has_name(tbl, #[trigger] q[i])
        && table_get(tbl, q[i]).task_deps.contains(q[i + 1]) by {
        if i == 0 {
            assert(q[1] == p[0]);
        } else {
            assert(q[i] == p[i - 1]);
            assert(q[i + 1] == p[i]);
        }
    }
    assert(dep_chain(tbl, q));
    assert(q.last() == p.last());
}

/// Filling in a task adds only what it needs: each name it adds is the task itself
/// or one that the task depends on, directly or through other tasks.
pub proof fn law_fill_adds_only_needed(
    tbl: Seq<TaskMetaView>,
    list: Seq<Seq<char>>,
    task: Seq<char>,
    visited: Set<Seq<char>>,
)
    ensures
        fill_spec(tbl, list, task, visited) matches Some(l) ==> forall|i: int|
            list.len() <= i < l.len() ==> reaches(tbl, task, #[trigger] l[i]),
    decreases unvisited(tbl, visited), 0nat, 0nat,
{
    lemma_reaches_self(tbl, task);
    if !has_name(tbl, task) {
    } else if !visited.contains(task) {
        let v2 = visited.insert(task);
        lemma_unvisited_decreases(tbl, visited, task);
        lemma_fill_deps_needed(tbl, list, task, 0, v2);
        if let Some(l1) = fill_deps_spec(tbl, list, table_get(tbl, task).task_deps, 0, v2) {
            if !l1.contains(task) {
                assert forall|i: int| list.len() <= i < l1.push(task).len() implies reaches(
                    tbl,
                    task,
                    #[trigger] l1.push(task)[i],
                ) by {
                    if i < l1.len() {
                        assert(l1.push(task)[i] == l1[i]);
                    }
                }
            }
        }
    }
}

proof fn lemma_fill_deps_needed(
    tbl: Seq<TaskMetaView>,
    list: Seq<Seq<char>>,
    parent: Seq<char>,
    j: int,
    visited: Set<Seq<char>>,
)
    requires
        0 <= j,
        has_name(tbl, parent),
    ensures
        fill_deps_spec(tbl, list, table_get(tbl, parent).task_deps, j, visited) matches Some(l)
            ==> forall|i: int| list.len() <= i < l.len() ==> reaches(tbl, parent, #[trigger] l[i]),
    decreases unvisited(tbl, visited), 1nat, (if j < table_get(tbl, parent).task_deps.len() {
        table_get(tbl, parent).task_deps.len() - j
    } else {
        0
    }) as nat,
{
    let deps = table_get(tbl, parent).task_deps;
    if 0 <= j < deps.len() && !visited.contains(deps[j]) {
        let d = deps[j];
        assert(deps.contains(d));
        law_fill_adds_only_needed(tbl, list, d, visited);
        law_fill_order(tbl, list, d, visited);
        if let Some(l1) = fill_spec(tbl, list, d, visited) {
            lemma_fill_deps_needed(tbl, l1, parent, j + 1, visited);
            lemma_fill_deps_order(tbl, l1, deps, j + 1, visited);
            if let Some(l) = fill_deps_spec(tbl, l1, deps, j + 1, visited) {
                assert forall|i: int| list.len() <= i < l.len() implies reaches(
                    tbl,
                    parent,
                    #[trigger] l[i],
                ) by {
                    if i < l1.len() {
                        assert(l.subrange(0, l1.len() as int)[i] == l[i]);
                        assert(l[i] == l1[i]);
                        lemma_reaches_dep(tbl, parent, d, l1[i]);
                    }
                }
            }
        }
    }
}

/// The task list after filling in each of `names`, in order, each from an empty path.
pub open spec fn fill_all(
    tbl: Seq<TaskMetaView>,
    list: Seq<Seq<char>>,
    names: Seq<Seq<char>>,
) -> Option<Seq<Seq<char>>>
    decreases names.len(),
{
    if names.len() == 0 {
        Some(list)
    } else {
        match fill_all(tbl, list, names.drop_last()) {
            None => None,
            Some(l) => fill_spec(tbl, l, names.last(), Set::empty()),
        }
    }
}

/// The names of the tasks of the table whose flag is set, in table order: the
/// bootstrap flag where `bootstrap` holds, the default flag otherwise.
pub open spec fn flagged_names(tbl: Seq<TaskMetaView>, bootstrap: bool) -> Seq<Seq<char>>
    decreases tbl.len(),
{
    if tbl.len() == 0 {
        seq![]
    } else {
        let m = tbl.last();
        let rest = flagged_names(tbl.drop_last(), bootstrap);
        if (if bootstrap { m.bootstrap } else { m.default }) {
            rest.push(m.name)
        } else {
            rest
        }
    }
}

proof fn lemma_flagged_prefix(tbl: Seq<TaskMetaView>, bootstrap: bool, k: int)
    requires
        0 <= k <= tbl.len(),
    ensures
        flagged_names(tbl.take(k), bootstrap).len() <= flagged_names(tbl, bootstrap).len(),
        flagged_names(tbl, bootstrap).take(flagged_names(tbl.take(k), bootstrap).len() as int)
            == flagged_names(tbl.take(k), bootstrap),
    decreases tbl.len(),
{
    let a = flagged_names(tbl.take(k), bootstrap);
    if k == tbl.len() {
        assert(tbl.take(k) =~= tbl);
        assert(flagged_names(tbl, bootstrap).take(a.len() as int) =~= a);
    } else {
        assert(tbl.drop_last().take(k) =~= tbl.take(k));
        lemma_flagged_prefix(tbl.drop_last(), bootstrap, k);
        let r = flagged_names(tbl.drop_last(), bootstrap);
        assert(flagged_names(tbl, bootstrap).take(a.len() as int) =~= r.take(a.len() as int));
    }
}

proof fn lemma_fill_all_prefix_none(
    tbl: Seq<TaskMetaView>,
    list: Seq<Seq<char>>,
    names: Seq<Seq<char>>,
    k: int,
)
    requires
        0 <= k <= names.len(),
        fill_all(tbl, list, names.take(k)) is None,
    ensures
        fill_all(tbl, list, names) is None,
    decreases names.len(),
{
    if k == names.len() {
        assert(names.take(k) =~= names);
    } else {
        assert(names.drop_last().take(k) =~= names.take(k));
        lemma_fill_all_prefix_none(tbl, list, names.drop_last(), k);
    }
}

/// The tasks to run: the requested ones with their dependencies, or, where none
/// were requested, the default ones with theirs.
pub open spec fn run_order(tbl: Seq<TaskMetaView>, requested: Seq<Seq<char>>) -> Option<
    Seq<Seq<char>>,
> {
    match fill_all(tbl, seq![], requested) {
        Some(l) => if l.len() == 0 {
            fill_all(tbl, l, flagged_names(tbl, false))
        } else {
            Some(l)
        },
        None => None,
    }
}

/// Filling in `name` from an empty path, onto `task_list`.
fn fill_one(env: &CTEnv, task_list: &mut Vec<String>, name: &String) -> (r: Result<(), Vec<String>>)
    ensures
        match fill_spec(env.tasks@, strs_view(old(task_list)@), name@, Set::empty()) {
            Some(l) => r is Ok && strs_view(final(task_list)@) == l,
            None => r is Err,
        },
{
    let visited: Vec<String> = Vec::new();
    proof {
        assert(strs_view(visited@).to_set() =~= Set::<Seq<char>>::empty());
        assert(Set::<Seq<char>>::empty().remove(name@) =~= Set::<Seq<char>>::empty());
    }
    fill_task_deps(env, task_list, name.clone(), visited)
}

/// Fills in, onto `task_list`, each task of the table whose flag (bootstrap or
/// default, as `bootstrap` says) is set, in table order.
fn fill_flagged(env: &CTEnv, task_list: &mut Vec<String>, bootstrap: bool) -> (r: Result<(), Vec<String>>)
    ensures
        match fill_all(
            env.tasks@,
            strs_view(old(task_list)@),
            flagged_names(env.tasks@, bootstrap),
        ) {
            Some(l) => r is Ok && strs_view(final(task_list)@) == l,
            None => r is Err,
        },
{
    let ghost tbl = env.tasks@;
    let ghost list0 = strs_view(task_list@);
    let n = env.tasks.len();
    let mut i: usize = 0;
    proof {
        assert(tbl.take(0) =~= Seq::<TaskMetaView>::empty());
    }
    while i < n
        invariant
            tbl == env.tasks@,
            list0 == strs_view(old(task_list)@),
            n == tbl.len(),
            i <= n,
            fill_all(tbl, list0, flagged_names(tbl.take(i as int), bootstrap)) == Some(strs_view(task_list@)),
        decreases n - i,
    {
        let meta = env.tasks.entry(i);
        proof {
            assert(tbl.take(i + 1).drop_last() =~= tbl.take(i as int));
            assert(tbl.take(i + 1).last() == tbl[i as int]);
        }
        let flagged = if bootstrap { meta.bootstrap } else { meta.default };
        if flagged {
            proof {
                let names = flagged_names(tbl.take(i + 1), bootstrap);
                assert(names == flagged_names(tbl.take(i as int), bootstrap).push(meta@.name));
                assert(names.drop_last() =~= flagged_names(tbl.take(i as int), bootstrap));
            }
            let ghost cur = strs_view(task_list@);
            let r = fill_one(env, task_list, &meta.name);
            if r.is_err() {
                proof {
                    let pre = flagged_names(tbl.take(i + 1), bootstrap);
                    assert(pre.last() == meta@.name);
                    assert(fill_spec(tbl, cur, meta@.name, Set::empty()) is None);
                    assert(fill_all(tbl, list0, pre) is None);
                    lemma_flagged_prefix(tbl, bootstrap, i + 1);
                    lemma_fill_all_prefix_none(tbl, list0, flagged_names(tbl, bootstrap), pre.len() as int);
                }
                return r;
            }
        }
        i = i + 1;
    }
    proof {
        assert(tbl.take(n as int) =~= tbl);
    }
    Ok(())
}


/// Filling in `names` keeps what the list held and adds each name; the names it
/// adds are new and not repeated, and each added task that is in the table comes
/// after all the tasks it depends on. So a list without repeated names, where each
/// known task follows its dependencies, stays so.
pub proof fn law_fill_all_order(tbl: Seq<TaskMetaView>, list: Seq<Seq<char>>, names: Seq<Seq<char>>)
    ensures
        fill_all(tbl, list, names) matches Some(l) ==> {
            &&& extends(list, l)
            &&& forall|k: int| 0 <= k < names.len() ==> l.contains(#[trigger] names[k])
            &&& no_dups_from(l, list.len() as int)
            &&& deps_first_from(tbl, l, list.len() as int)
            &&& no_dups(list) ==> no_dups(l)
            &&& deps_first(tbl, list) ==> deps_first(tbl, l)
        },
    decreases names.len(),
{
    if names.len() > 0 {
        let init = names.drop_last();
        law_fill_all_order(tbl, list, init);
        if let Some(l1) = fill_all(tbl, list, init) {
            law_fill_order(tbl, l1, names.last(), Set::empty());
            if let Some(l) = fill_spec(tbl, l1, names.last(), Set::empty()) {
                lemma_extends_trans(list, l1, l);
                lemma_from_compose(tbl, l1, l, list.len() as int);
                if no_dups(list) {
                    lemma_no_dups_compose(list, l);
                }
                if deps_first(tbl, list) {
                    lemma_deps_first_compose(tbl, list, l);
                }
                assert forall|k: int| 0 <= k < names.len() implies l.contains(#[trigger] names[k]) by {
                    if k < names.len() - 1 {
                        assert(init[k] == names[k]);
                        let i = choose|i: int| 0 <= i < l1.len() && l1[i] == names[k];
                        assert(l.subrange(0, l1.len() as int)[i] == l1[i]);
                        assert(l[i] == names[k]);
                    }
                }
            }
        }
    } else {
        assert(list.subrange(0, list.len() as int) =~= list);
    }
}

/// `x` is one of `names` or a task that one of them depends on, directly or
/// through other tasks.
pub open spec fn needed_by(tbl: Seq<TaskMetaView>, names: Seq<Seq<char>>, x: Seq<char>) -> bool {
    exists|k: int| 0 <= k < names.len() && reaches(tbl, #[trigger] names[k], x)
}

/// Filling in names adds only what they need: each name added is one of them or a
/// task one of them depends on, directly or through other tasks.
pub proof fn law_fill_all_adds_only_needed(
    tbl: Seq<TaskMetaView>,
    list: Seq<Seq<char>>,
    names: Seq<Seq<char>>,
)
    ensures
        fill_all(tbl, list, names) matches Some(l) ==> forall|i: int|
            list.len() <= i < l.len() ==> needed_by(tbl, names, #[trigger] l[i]),
    decreases names.len(),
{
    if names.len() > 0 {
        let init = names.drop_last();
        law_fill_all_adds_only_needed(tbl, list, init);
        law_fill_all_order(tbl, list, init);
        if let Some(l1) = fill_all(tbl, list, init) {
            law_fill_adds_only_needed(tbl, l1, names.last(), Set::empty());
            law_fill_order(tbl, l1, names.last(), Set::empty());
            if let Some(l) = fill_spec(tbl, l1, names.last(), Set::empty()) {
                assert forall|i: int| list.len() <= i < l.len() implies needed_by(
                    tbl,
                    names,
                    #[trigger] l[i],
                ) by {
                    if i < l1.len() {
                        assert(l.subrange(0, l1.len() as int)[i] == l[i]);
                        assert(needed_by(tbl, init, l1[i]));
                        let k = choose|k: int| 0 <= k < init.len() && reaches(tbl, #[trigger] init[k], l1[i]);
                        assert(names[k] == init[k]);
                    } else {
                        assert(names[names.len() - 1] == names.last());
                        assert(reaches(tbl, names[names.len() - 1], l[i]));
                    }
                }
            }
        }
    }
}

/// The run order holds only what is asked for: each task in it is a requested
/// task or one that a requested task depends on, directly or through other tasks;
/// where nothing was requested, the same holds of the default tasks.
pub proof fn law_run_order_only_needed(tbl: Seq<TaskMetaView>, requested: Seq<Seq<char>>)
    ensures
        run_order(tbl, requested) matches Some(l) ==> forall|i: int|
            0 <= i < l.len() ==> needed_by(
                tbl,
                if requested.len() > 0 {
                    requested
                } else {
                    flagged_names(tbl, false)
                },
                #[trigger] l[i],
            ),
{
    let e = Seq::<Seq<char>>::empty();
    law_fill_all_adds_only_needed(tbl, e, requested);
    law_fill_all_order(tbl, e, requested);
    if let Some(l) = fill_all(tbl, e, requested) {
        if l.len() == 0 {
            if requested.len() > 0 {
                assert(l.contains(requested[0]));
            }
            law_fill_all_adds_only_needed(tbl, l, flagged_names(tbl, false));
        }
    }
}

/// The run order holds no task twice, puts each known task after the tasks it
/// depends on, and holds every requested task, or, where none was requested,
/// every default task.
pub proof fn law_run_order(tbl: Seq<TaskMetaView>, requested: Seq<Seq<char>>)
    ensures
        run_order(tbl, requested) matches Some(l) ==> {
            &&& no_dups(l)
            &&& deps_first(tbl, l)
            &&& forall|k: int| 0 <= k < requested.len() ==> l.contains(#[trigger] requested[k])
            &&& requested.len() == 0 ==> forall|k: int|
                0 <= k < flagged_names(tbl, false).len() ==> l.contains(
                    #[trigger] flagged_names(tbl, false)[k],
                )
        },
{
    let e = Seq::<Seq<char>>::empty();
    assert(no_dups(e));
    assert(deps_first(tbl, e));
    law_fill_all_order(tbl, e, requested);
    if let Some(l) = fill_all(tbl, e, requested) {
        if l.len() == 0 {
            law_fill_all_order(tbl, l, flagged_names(tbl, false));
            if requested.len() > 0 {
                assert(l.contains(requested[0]));
            }
        }
    }
}

/// There is a run order when no circular dependency can be reached from a
/// requested task, or, where none is requested, from a default task.
pub proof fn law_run_order_exists(
    tbl: Seq<TaskMetaView>,
    requested: Seq<Seq<char>>,
    rank: spec_fn(Seq<char>) -> nat,
)
    requires
        forall|k: int| 0 <= k < requested.len() ==> ranked_from(tbl, rank, #[trigger] requested[k]),
        requested.len() == 0 ==> forall|k: int|
            0 <= k < flagged_names(tbl, false).len() ==> ranked_from(
                tbl,
                rank,
                #[trigger] flagged_names(tbl, false)[k],
            ),
    ensures
        run_order(tbl, requested) is Some,
{
    law_fill_all_succeeds(tbl, seq![], requested, rank);
    let l = fill_all(tbl, seq![], requested)->0;
    law_fill_all_order(tbl, seq![], requested);
    if requested.len() > 0 {
        assert(l.contains(requested[0]));
    } else {
        law_fill_all_succeeds(tbl, l, flagged_names(tbl, false), rank);
    }
}

/// The bootstrap tasks, each after the tasks it depends on: the task list that
/// runs before any other.
pub fn bootstrap_task_list(env: &CTEnv) -> (r: Result<Vec<String>, Vec<String>>)
    ensures
        match fill_all(env.tasks@, seq![], flagged_names(env.tasks@, true)) {
            Some(l) => r matches Ok(v) && strs_view(v@) == l,
            None => r is Err,
        },
{
    let mut list: Vec<String> = Vec::new();
    proof {
        assert(strs_view(list@) =~= Seq::<Seq<char>>::empty());
    }
    match fill_flagged(env, &mut list, true) {
        Ok(()) => Ok(list),
        Err(e) => Err(e),
    }
}

/// The tasks to run, in order: the tasks named on the command line, each after the
/// tasks it depends on, or, where none was named, the default tasks.
pub fn run_task_list(env: &CTEnv) -> (r: Result<Vec<String>, Vec<String>>)
    ensures
        match run_order(env.tasks@, strs_view(env.task_list@)) {
            Some(l) => r matches Ok(v) && strs_view(v@) == l,
            None => r is Err,
        },
{
    let ghost tbl = env.tasks@;
    let ghost req = strs_view(env.task_list@);
    let mut list: Vec<String> = Vec::new();
    let n = env.task_list.len();
    let mut i: usize = 0;
    proof {
        assert(strs_view(list@) =~= Seq::<Seq<char>>::empty());
        assert(req.take(0) =~= Seq::<Seq<char>>::empty());
    }
    while i < n
        invariant
            tbl == env.tasks@,
            req == strs_view(env.task_list@),
            n == req.len(),
            i <= n,
            fill_all(tbl, seq![], req.take(i as int)) == Some(strs_view(list@)),
        decreases n - i,
    {
        proof {
            assert(req.take(i + 1).drop_last() =~= req.take(i as int));
            assert(req.take(i + 1).last() == env.task_list@[i as int]@);
        }
        let r = fill_one(env, &mut list, &env.task_list[i]);
        if r.is_err() {
            proof {
                assert(fill_all(tbl, seq![], req.take(i + 1)) is None);
                lemma_fill_all_prefix_none(tbl, seq![], req, i + 1);
            }
            return Err(r.unwrap_err());
        }
        i = i + 1;
    }
    proof {
        assert(req.take(n as int) =~= req);
    }
    if list.len() == 0 {
        match fill_flagged(env, &mut list, false) {
            Ok(()) => Ok(list),
            Err(e) => Err(e),
        }
    } else {
        Ok(list)
    }
}


/// A step of a cargo-task run: which tasks to run next, and what follows.
pub enum ExecStep {
    /// run these tasks in order, then reload the environment and step again in
    /// the bootstrapped phase
    RunThenReload(Vec<String>),
    /// run these tasks in order; then the run is complete
    RunThenFinish(Vec<String>),
    /// a circular task dependency, within these tasks: report it and stop
    Circular(Vec<String>),
}

/// Where a cargo-task run stands.
pub enum ExecPhase {
    /// the environment was loaded for the first time
    Start,
    /// the bootstrap tasks have run and the environment was reloaded
    Bootstrapped,
}

/// The step for the requested (or default) tasks.
fn run_step(env: &CTEnv) -> (st: ExecStep)
    ensures
        match run_order(env.tasks@, strs_view(env.task_list@)) {
            Some(l) => st matches ExecStep::RunThenFinish(v) && strs_view(v@) == l,
            None => st is Circular,
        },
{
    match run_task_list(env) {
        Ok(v) => ExecStep::RunThenFinish(v),
        Err(e) => ExecStep::Circular(e),
    }
}

/// Main decision of a cargo-task run, given the phase and the environment as now
/// loaded: at the start, the bootstrap tasks (with their dependencies) run first,
/// and the environment is reloaded after them; where there are none, and once they
/// have run, the requested tasks run, or the default ones where none was requested.
pub fn exec_cargo_task(phase: ExecPhase, env: &CTEnv) -> (st: ExecStep)
    ensures
        ({
            let tbl = env.tasks@;
            let req = strs_view(env.task_list@);
            let boot = fill_all(tbl, seq![], flagged_names(tbl, true));
            match phase {
                ExecPhase::Start => match boot {
                    None => st is Circular,
                    Some(b) => if b.len() > 0 {
                        st matches ExecStep::RunThenReload(v) && strs_view(v@) == b
                    } else {
                        match run_order(tbl, req) {
                            Some(l) => st matches ExecStep::RunThenFinish(v) && strs_view(v@) == l,
                            None => st is Circular,
                        }
                    },
                },
                ExecPhase::Bootstrapped => match run_order(tbl, req) {
                    Some(l) => st matches ExecStep::RunThenFinish(v) && strs_view(v@) == l,
                    None => st is Circular,
                },
            }
        }),
{
    match phase {
        ExecPhase::Start => match bootstrap_task_list(env) {
            Err(e) => ExecStep::Circular(e),
            Ok(b) => {
                if b.len() > 0 {
                    ExecStep::RunThenReload(b)
                } else {
                    run_step(env)
                }
            },
        },
        ExecPhase::Bootstrapped => run_step(env),
    }
}

/// What building a task comes to.
pub enum BuildStep {
    /// the built task is newer than its sources: run it as it is
    UseArtifact,
    /// build the task, first writing the build workspace where `generate_workspace` holds
    Build { generate_workspace: bool },
}

/// Decides how a task is built: not at all where its built artifact is up to date;
/// otherwise it is built, and the build workspace is written first unless it
/// already was in this run, which `did_build_workspace` records.
pub fn task_build_step(artifact_up_to_date: bool, did_build_workspace: &mut bool) -> (s: BuildStep)
    ensures
        artifact_up_to_date ==> s is UseArtifact && *final(did_build_workspace) == *old(
            did_build_workspace,
        ),
        !artifact_up_to_date ==> s == (BuildStep::Build {
            generate_workspace: !*old(did_build_workspace),
        }) && *final(did_build_workspace),
{
    if artifact_up_to_date {
        return BuildStep::UseArtifact;
    }
    let generate_workspace = !*did_build_workspace;
    *did_build_workspace = true;
    BuildStep::Build { generate_workspace }
}

/// What is wrong with a task's directive file.
pub enum DirectiveError {
    /// a `ct-set-env` value without `=`
    NoEquals,
    /// a directive other than `ct-set-env`, with its key
    Unknown(String),
}

/// [`DirectiveError`], as plain values.
pub enum DirectiveFault {
    /// a `ct-set-env` value without `=`
    NoEquals,
    /// an unknown key
    Unknown(Seq<char>),
}

/// The index of the first `c` in `s`, if there is one.
pub open spec fn find_char(s: Seq<char>, c: char) -> Option<int>
    decreases s.len(),
{
    if s.len() == 0 {
        None
    } else if s[0] == c {
        Some(0)
    } else {
        match find_char(s.drop_first(), c) {
            Some(i) => Some(i + 1),
            None => None,
        }
    }
}

/// The variables that the directives among `items` set, in order, and the fault
/// that stops them, if any: each `@ct-set-env@ NAME=VALUE @@` sets NAME, split at
/// the first `=`; a value without `=`, or any other directive, is a fault, and the
/// directives after it are not read.
pub open spec fn directives_of(items: Seq<AtAtItemView>) -> (
    Seq<(Seq<char>, Seq<char>)>,
    Option<DirectiveFault>,
)
    decreases items.len(),
{
    if items.len() == 0 {
        (seq![], None)
    } else {
        let (l, fault) = directives_of(items.drop_last());
        if fault is Some {
            (l, fault)
        } else {
            match items.last() {
                AtAtItemView::Data(_) => (l, None),
                AtAtItemView::KeyValue(k, v) => if k == "ct-set-env"@ {
                    match find_char(v, '=') {
                        Some(i) => (l.push((v.take(i), v.skip(i + 1))), None),
                        None => (l, Some(DirectiveFault::NoEquals)),
                    }
                } else {
                    (l, Some(DirectiveFault::Unknown(k)))
                },
            }
        }
    }
}

/// What a task's directive file says: the variables to set, in order, up to the
/// first faulty directive, and that fault, if any.
pub struct TaskDirectives {
    /// the variables to set, as name and value
    pub set_vars: Vec<(String, String)>,
    /// the faulty directive that stops the reading, if any
    pub error: Option<DirectiveError>,
}

/// The index of the first `c` in `s`, if there is one.
fn find_char_in(s: &str, c: char) -> (r: Option<usize>)
    ensures
        match r {
            Some(i) => find_char(s@, c) == Some(i as int) && i < s@.len() && s@[i as int] == c,
            None => find_char(s@, c) is None,
        },
{
    let cs = chars_of(s);
    let mut i: usize = 0;
    proof {
        assert(s@.skip(0) =~= s@);
    }
    while i < cs.len()
        invariant
            cs@ == s@,
            i <= cs@.len(),
            find_char(s@, c) == match find_char(s@.skip(i as int), c) {
                Some(j) => Some(j + i),
                None => None,
            },
        decreases cs@.len() - i,
    {
        proof {
            assert(s@.skip(i as int)[0] == cs@[i as int]);
            assert(s@.skip(i as int).drop_first() =~= s@.skip(i + 1));
        }
        if cs[i] == c {
            return Some(i);
        }
        i = i + 1;
    }
    None
}

/// The variables that a task's directive file sets, in order, up to its first
/// faulty directive, and that fault, if any.
pub fn parse_task_directives(content: &[u8]) -> (r: TaskDirectives)
    ensures
        ({
            let (l, fault) = directives_of(chunk_items(Scan::LineStart, content@));
            &&& crate::env_vars::vars_view(r.set_vars@) == l
            &&& match fault {
                None => r.error is None,
                Some(DirectiveFault::NoEquals) => r.error matches Some(DirectiveError::NoEquals),
                Some(DirectiveFault::Unknown(k)) => r.error matches Some(DirectiveError::Unknown(k2))
                    && k2@ == k,
            }
        }),
{
    let mut out: Vec<(String, String)> = Vec::new();
    let mut parser = AtAtParser::new();
    let ghost items = chunk_items(Scan::LineStart, content@);
    match parser.parse(content) {
        Some(its) => {
            let n = its.len();
            let mut i: usize = 0;
            proof {
                assert(items.take(0) =~= Seq::<AtAtItemView>::empty());
                assert(crate::env_vars::vars_view(out@) =~= Seq::<(Seq<char>, Seq<char>)>::empty());
                assert(items == its@.map_values(|it: AtAtParseItem| it@));
            }
            while i < n
                invariant
                    n == its@.len(),
                    items == its@.map_values(|it: AtAtParseItem| it@),
                    items == chunk_items(Scan::LineStart, content@),
                    i <= n,
                    directives_of(items.take(i as int)) == (
                        crate::env_vars::vars_view(out@),
                        None::<DirectiveFault>,
                    ),
                decreases n - i,
            {
                proof {
                    assert(items.take(i + 1).drop_last() =~= items.take(i as int));
                    assert(items.take(i + 1).last() == its@[i as int]@);
                }
                match &its[i] {
                    AtAtParseItem::KeyValue(k, v) => {
                        if !str_eq(k.as_str(), "ct-set-env") {
                            proof {
                                assert(items.take(i + 1).last() == AtAtItemView::KeyValue(k@, v@));
                                assert(directives_of(items.take(i + 1)) == (
                                    crate::env_vars::vars_view(out@),
                                    Some(DirectiveFault::Unknown(k@)),
                                ));
                                lemma_directives_prefix_fault(items, i + 1);
                            }
                            return TaskDirectives {
                                set_vars: out,
                                error: Some(DirectiveError::Unknown(k.clone())),
                            };
                        }
                        match find_char_in(v.as_str(), '=') {
                            None => {
                                proof {
                                    assert(items.take(i + 1).last() == AtAtItemView::KeyValue(k@, v@));
                                    assert(directives_of(items.take(i + 1)) == (
                                        crate::env_vars::vars_view(out@),
                                        Some(DirectiveFault::NoEquals),
                                    ));
                                    lemma_directives_prefix_fault(items, i + 1);
                                }
                                return TaskDirectives {
                                    set_vars: out,
                                    error: Some(DirectiveError::NoEquals),
                                };
                            },
                            Some(idx) => {
                                let len = v.as_str().unicode_len();
                                let name = v.as_str().substring_char(0, idx).to_owned();
                                let value = v.as_str().substring_char(idx + 1, len).to_owned();
                                let ghost before = crate::env_vars::vars_view(out@);
                                out.push((name, value));
                                proof {
                                    assert(v@.take(idx as int) =~= v@.subrange(0, idx as int));
                                    assert(v@.skip(idx + 1) =~= v@.subrange(idx + 1, len as int));
                                    assert(crate::env_vars::vars_view(out@) =~= before.push(
                                        (v@.take(idx as int), v@.skip(idx + 1)),
                                    ));
                                }
                            },
                        }
                    },
                    AtAtParseItem::Data(_) => {},
                }
                i = i + 1;
            }
            proof {
                assert(items.take(n as int) =~= items);
            }
        },
        None => {
            proof {
                let e = Seq::<(Seq<u8>, Seq<u8>)>::empty();
                assert(crate::at_at::scan_pairs(Scan::LineStart, content@) =~= e);
                assert(items =~= seq![AtAtItemView::Data(content@)]);
                assert(items.drop_last() =~= Seq::<AtAtItemView>::empty());
                assert(crate::env_vars::vars_view(out@) =~= Seq::<(Seq<char>, Seq<char>)>::empty());
                assert(directives_of(items.drop_last()) == (
                    Seq::<(Seq<char>, Seq<char>)>::empty(),
                    None::<DirectiveFault>,
                ));
                assert(items.last() == AtAtItemView::Data(content@));
            }
        },
    }
    TaskDirectives { set_vars: out, error: None }
}

/// Once the directives of a prefix meet a fault, those of the whole are the same.
proof fn lemma_directives_prefix_fault(items: Seq<AtAtItemView>, k: int)
    requires
        0 <= k <= items.len(),
        directives_of(items.take(k)).1 is Some,
    ensures
        directives_of(items) == directives_of(items.take(k)),
    decreases items.len(),
{
    if k == items.len() {
        assert(items.take(k) =~= items);
    } else {
        assert(items.drop_last().take(k) =~= items.take(k));
        lemma_directives_prefix_fault(items.drop_last(), k);
    }
}

/// The key of the directive that sets a variable.
pub open spec fn set_env_key() -> Seq<char> {
    "ct-set-env"@
}

/// The raw value of a `ct-set-env` directive for `name` and `value`: the UTF-8 of
/// ` NAME=VALUE `.
pub open spec fn set_env_raw(name: Seq<char>, value: Seq<char>) -> Seq<u8> {
    encode_utf8(seq![' '] + name + seq!['='] + value + seq![' '])
}

/// The bytes of the directive line `\n@ct-set-env@ NAME=VALUE @@\n` that a task
/// writes to export a variable.
pub open spec fn set_env_line(name: Seq<char>, value: Seq<char>) -> Seq<u8> {
    seq![LF] + (seq![AT] + encode_utf8(set_env_key()) + seq![AT] + set_env_raw(name, value) + seq![
        AT,
        AT,
    ] + seq![LF])
}

/// The directive lines for each of `vars`, one after the other.
pub open spec fn set_env_lines(vars: Seq<(Seq<char>, Seq<char>)>) -> Seq<u8>
    decreases vars.len(),
{
    if vars.len() == 0 {
        seq![]
    } else {
        set_env_lines(vars.drop_last()) + set_env_line(vars.last().0, vars.last().1)
    }
}

/// A name and a value that a directive line carries unchanged: the name holds no
/// `=`, neither holds '@', and `NAME=VALUE` neither starts nor ends with whitespace.
pub open spec fn exportable(name: Seq<char>, value: Seq<char>) -> bool {
    &&& !name.contains('=')
    &&& !name.contains('@')
    &&& !value.contains('@')
    &&& (name.len() == 0 || !is_ws(name[0]))
    &&& (value.len() == 0 || !is_ws(value.last()))
}

proof fn lemma_find_eq(name: Seq<char>, value: Seq<char>)
    requires
        !name.contains('='),
    ensures
        find_char(name + seq!['='] + value, '=') == Some(name.len() as int),
    decreases name.len(),
{
    let t = name + seq!['='] + value;
    if name.len() > 0 {
        assert(name[0] != '=') by {
            assert(name.contains(name[0]));
        }
        let rest = name.drop_first();
        assert(!rest.contains('=')) by {
            if rest.contains('=') {
                let k = choose|k: int| 0 <= k < rest.len() && rest[k] == '=';
                assert(name[k + 1] == '=');
            }
        }
        lemma_find_eq(rest, value);
        assert(t.drop_first() =~= rest + seq!['='] + value);
    }
}

proof fn lemma_export_text(name: Seq<char>, value: Seq<char>)
    requires
        exportable(name, value),
    ensures
        !set_env_raw(name, value).contains(AT),
        atat_text(set_env_raw(name, value)) == name + seq!['='] + value,
{
    let t = name + seq!['='] + value;
    let x = seq![' '] + name + seq!['='] + value + seq![' '];
    assert(x =~= seq![' '] + t + seq![' ']);
    assert(!x.contains('@')) by {
        if x.contains('@') {
            let k = choose|k: int| 0 <= k < x.len() && x[k] == '@';
            if 1 <= k <= name.len() {
                assert(name[k - 1] == '@');
                assert(name.contains('@'));
            } else if name.len() + 2 <= k < x.len() - 1 {
                assert(value[k - name.len() - 2] == '@');
                assert(value.contains('@'));
            }
        }
    }
    lemma_encode_without_at(x);
    encode_utf8_valid_utf8(x);
    encode_utf8_decode_utf8(x);
    // trimming takes off the two spaces and nothing more
    assert(!is_ws(t[0]));
    assert(!is_ws(t.last()));
    assert(x.drop_first() =~= t + seq![' ']);
    assert(trim_start(x) == trim_start(t + seq![' ']));
    assert((t + seq![' '])[0] == t[0]);
    assert(trim_start(t + seq![' ']) == t + seq![' ']);
    assert((t + seq![' ']).drop_last() =~= t);
    assert(trim_end(t + seq![' ']) == trim_end(t));
    assert(trim_end(t) == t);
}

proof fn lemma_key_text()
    ensures
        !encode_utf8(set_env_key()).contains(AT),
        atat_text(encode_utf8(set_env_key())) == set_env_key(),
{
    reveal_strlit("ct-set-env");
    let k = set_env_key();
    assert(!k.contains('@')) by {
        if k.contains('@') {
            let i = choose|i: int| 0 <= i < k.len() && k[i] == '@';
            assert(0 <= i < 10);
        }
    }
    lemma_encode_without_at(k);
    encode_utf8_valid_utf8(k);
    encode_utf8_decode_utf8(k);
    assert(!is_ws(k[0]));
    assert(trim_start(k) == k);
    assert(!is_ws(k.last()));
    assert(trim_end(k) == k);
}

/// The raw keys and values that the directive lines for `vars` give, in order.
pub open spec fn set_env_pairs(vars: Seq<(Seq<char>, Seq<char>)>) -> Seq<(Seq<u8>, Seq<u8>)> {
    vars.map_values(
        |p: (Seq<char>, Seq<char>)| (encode_utf8(set_env_key()), set_env_raw(p.0, p.1)),
    )
}

proof fn lemma_set_env_scan(vars: Seq<(Seq<char>, Seq<char>)>)
    requires
        forall|i: int| 0 <= i < vars.len() ==> exportable(#[trigger] vars[i].0, vars[i].1),
    ensures
        scan(Scan::LineStart, set_env_lines(vars)) == Scan::LineStart,
        scan_pairs(Scan::LineStart, set_env_lines(vars)) == set_env_pairs(vars),
    decreases vars.len(),
{
    if vars.len() == 0 {
        assert(scan_pairs(Scan::LineStart, Seq::<u8>::empty()) =~= Seq::<(Seq<u8>, Seq<u8>)>::empty());
        assert(set_env_pairs(vars) =~= Seq::<(Seq<u8>, Seq<u8>)>::empty());
    } else {
        let init = vars.drop_last();
        let (n, v) = vars.last();
        assert(exportable(vars[vars.len() - 1].0, vars[vars.len() - 1].1));
        assert forall|i: int| 0 <= i < init.len() implies exportable(#[trigger] init[i].0, init[i].1) by {
            assert(init[i] == vars[i]);
        }
        lemma_set_env_scan(init);
        lemma_export_text(n, v);
        lemma_key_text();
        let key = encode_utf8(set_env_key());
        let raw = set_env_raw(n, v);
        let item = seq![AT] + key + seq![AT] + raw + seq![AT, AT] + seq![LF];
        law_key_value_line(key, raw);
        // the line break before the item keeps the scanner at a line start
        let lf = seq![LF];
        assert(lf.drop_last() =~= Seq::<u8>::empty());
        assert(lf.last() == LF);
        assert(scan(Scan::LineStart, Seq::<u8>::empty()) == Scan::LineStart);
        assert(scan(Scan::LineStart, lf) == Scan::LineStart);
        assert(scan_pairs(Scan::LineStart, Seq::<u8>::empty()) =~= Seq::<(Seq<u8>, Seq<u8>)>::empty());
        assert(scan_pairs(Scan::LineStart, lf) =~= Seq::<(Seq<u8>, Seq<u8>)>::empty());
        law_chunking(Scan::LineStart, lf, item);
        assert(set_env_line(n, v) =~= lf + item);
        let a = set_env_lines(init);
        law_chunking(Scan::LineStart, a, set_env_line(n, v));
        assert(Seq::<(Seq<u8>, Seq<u8>)>::empty() + seq![(key, raw)] =~= seq![(key, raw)]);
        assert(set_env_pairs(vars) =~= set_env_pairs(init).push((key, raw)));
        assert(set_env_pairs(init) + seq![(key, raw)] =~= set_env_pairs(init).push((key, raw)));
    }
}

proof fn lemma_set_env_directives(d: Seq<u8>, vars: Seq<(Seq<char>, Seq<char>)>)
    requires
        forall|i: int| 0 <= i < vars.len() ==> exportable(#[trigger] vars[i].0, vars[i].1),
    ensures
        directives_of(seq![AtAtItemView::Data(d)] + set_env_pairs(vars).map_values(
            |kv: (Seq<u8>, Seq<u8>)| pair_item(kv),
        )) == (vars, None::<DirectiveFault>),
    decreases vars.len(),
{
    let items = seq![AtAtItemView::Data(d)] + set_env_pairs(vars).map_values(
        |kv: (Seq<u8>, Seq<u8>)| pair_item(kv),
    );
    if vars.len() == 0 {
        assert(items =~= seq![AtAtItemView::Data(d)]);
        assert(items.drop_last() =~= Seq::<AtAtItemView>::empty());
        assert(directives_of(Seq::<AtAtItemView>::empty()) == (
            Seq::<(Seq<char>, Seq<char>)>::empty(),
            None::<DirectiveFault>,
        ));
        assert(items.last() == AtAtItemView::Data(d));
        assert(vars =~= Seq::<(Seq<char>, Seq<char>)>::empty());
    } else {
        let init = vars.drop_last();
        let (n, v) = vars.last();
        assert(exportable(vars[vars.len() - 1].0, vars[vars.len() - 1].1));
        assert forall|i: int| 0 <= i < init.len() implies exportable(#[trigger] init[i].0, init[i].1) by {
            assert(init[i] == vars[i]);
        }
        lemma_set_env_directives(d, init);
        let prev = seq![AtAtItemView::Data(d)] + set_env_pairs(init).map_values(
            |kv: (Seq<u8>, Seq<u8>)| pair_item(kv),
        );
        assert(items.drop_last() =~= prev);
        lemma_export_text(n, v);
        lemma_key_text();
        let t = n + seq!['='] + v;
        assert(items.last() == AtAtItemView::KeyValue(set_env_key(), t));
        lemma_find_eq(n, v);
        assert(t.take(n.len() as int) =~= n);
        assert(t.skip(n.len() as int + 1) =~= v);
        assert(init.push((n, v)) =~= vars);
    }
}

/// What a task exports with `set_env`, cargo-task reads back: the directive lines
/// `\n@ct-set-env@ NAME=VALUE @@\n` written one after another for `vars` give
/// exactly those variables, in order, with no fault, when each name holds no `=`,
/// neither part holds '@', and `NAME=VALUE` neither starts nor ends with whitespace.
pub proof fn law_set_env_round_trip(vars: Seq<(Seq<char>, Seq<char>)>)
    requires
        forall|i: int| 0 <= i < vars.len() ==> exportable(#[trigger] vars[i].0, vars[i].1),
    ensures
        directives_of(chunk_items(Scan::LineStart, set_env_lines(vars))) == (
            vars,
            None::<DirectiveFault>,
        ),
{
    lemma_set_env_scan(vars);
    lemma_set_env_directives(set_env_lines(vars), vars);
}

/// The text that `{:?}` formats a string as.
pub uninterp spec fn str_debug(s: Seq<char>) -> Seq<char>;

/// `s` holds only ASCII letters, digits, `-` and `_`, which `{:?}` leaves as they are.
pub open spec fn is_plain_name(s: Seq<char>) -> bool {
    forall|i: int|
        0 <= i < s.len() ==> {
            let c = #[trigger] s[i];
            ('a' <= c && c <= 'z') || ('A' <= c && c <= 'Z') || ('0' <= c && c <= '9') || c == '-'
                || c == '_'
        }
}

/// Formats a string with `{:?}`. Its result is named [`str_debug`]; for a string
/// of plain name characters it is the string in double quotes, as the escapes of
/// `char::escape_debug` leave those characters alone. The escapes of other
/// characters are left unsaid.
#[verifier::external_body]
fn debug_str(s: &str) -> (r: String)
    ensures
        r@ == str_debug(s@),
        is_plain_name(s@) ==> r@ == seq!['"'] + s@ + seq!['"'],
{
    format!("{:?}", s)
}

/// A list of strings as `{:?}` formats it: `[` the quoted strings, separated by
/// `, `, `]`.
pub open spec fn debug_list(items: Seq<Seq<char>>) -> Seq<char> {
    "["@ + join_with(items.map_values(|s: Seq<char>| str_debug(s)), ", "@) + "]"@
}

/// The Cargo.toml of the build workspace, whose members are the task crates.
pub fn workspace_cargo_toml(members: &Vec<String>) -> (s: String)
    ensures
        s@ == "[workspace]\nmembers = "@ + debug_list(strs_view(members@)) + "\n"@,
{
    let mut quoted: Vec<String> = Vec::new();
    let mut i: usize = 0;
    while i < members.len()
        invariant
            i <= members@.len(),
            quoted@.map_values(|w: String| w@) == strs_view(members@).take(i as int).map_values(
                |s: Seq<char>| str_debug(s),
            ),
        decreases members@.len() - i,
    {
        let ghost before = quoted@.map_values(|w: String| w@);
        quoted.push(debug_str(members[i].as_str()));
        proof {
            assert(quoted@.map_values(|w: String| w@) =~= before.push(str_debug(members@[i as int]@)));
            assert(strs_view(members@).take(i + 1).map_values(|s: Seq<char>| str_debug(s)) =~= strs_view(
                members@,
            ).take(i as int).map_values(|s: Seq<char>| str_debug(s)).push(
                str_debug(members@[i as int]@),
            ));
        }
        i = i + 1;
    }
    proof {
        assert(strs_view(members@).take(members@.len() as int) =~= strs_view(members@));
    }
    let mut s = "[workspace]\nmembers = ".to_owned();
    s.append("[");
    s.append(join_strs(&quoted, ", ").as_str());
    s.append("]");
    s.append("\n");
    s
}

/// The Cargo.toml generated for a script task: the package of its name, and its
/// `@ct-cargo-deps@` lines as dependencies.
pub fn script_cargo_toml(task: &str, deps: &Option<String>) -> (s: String)
    ensures
        s@ == "[package]\nname = \""@ + task@ + "\"\nversion = \"0.0.1\"\nedition = \"2018\"\n\n[dependencies]\n"@
            + match deps {
            Some(d) => d@,
            None => Seq::<char>::empty(),
        } + "\n"@,
{
    let mut s = "[package]\nname = \"".to_owned();
    s.append(task);
    s.append("\"\nversion = \"0.0.1\"\nedition = \"2018\"\n\n[dependencies]\n");
    match deps {
        Some(d) => {
            s.append(d.as_str());
        },
        None => {},
    }
    s.append("\n");
    s
}

/// A copy of `v` with `s` added at the end.
fn with_str(v: &Vec<String>, s: &String) -> (r: Vec<String>)
    ensures
        strs_view(r@) == strs_view(v@).push(s@),
{
    let mut r = copy_strs(v);
    let ghost before = r@;
    r.push(s.clone());
    proof {
        assert(strs_view(r@) =~= strs_view(before).push(s@));
    }
    r
}

/// Adds `task` to `task_list`, after the tasks it depends on (depth first, each
/// task once). A dependency that leads back to a task on the current path is an
/// error, which carries the tasks of that path. `task` joins the path whether or not
/// `visited` holds it already.
pub fn fill_task_deps(
    env: &CTEnv,
    task_list: &mut Vec<String>,
    task: String,
    visited: Vec<String>,
) -> (r: Result<(), Vec<String>>)
    ensures
        match fill_spec(
            env.tasks@,
            strs_view(old(task_list)@),
            task@,
            strs_view(visited@).to_set().remove(task@),
        ) {
            Some(l) => r is Ok && strs_view(final(task_list)@) == l,
            None => r is Err,
        },
    decreases unvisited(env.tasks@, strs_view(visited@).to_set().remove(task@)), 0nat, 0nat,
{
    let ghost tbl = env.tasks@;
    let ghost vset = strs_view(visited@).to_set().remove(task@);
    let ghost list0 = strs_view(task_list@);
    assert(!vset.contains(task@));
    let visited2 = with_str(&visited, &task);
    let ghost v2set = strs_view(visited2@).to_set();
    proof {
        strs_view(visited@).lemma_push_to_set_commute(task@);
    }
    assert(v2set =~= vset.insert(task@));
    match env.tasks.get(task.as_str()) {
        None => {
            if !contains_str(task_list, task.as_str()) {
                let ghost before = task_list@;
                task_list.push(task);
                proof {
                    assert(strs_view(task_list@) =~= strs_view(before).push(task@));
                }
            }
            Ok(())
        },
        Some(meta) => {
            proof {
                lemma_unvisited_decreases(tbl, vset, task@);
            }
            let deps = &meta.task_deps;
            let ghost dv = strs_view(deps@);
            let mut j: usize = 0;
            while j < deps.len()
                invariant
                    tbl == env.tasks@,
                    has_name(tbl, task@),
                    !vset.contains(task@),
                    list0 == strs_view(old(task_list)@),
                    dv == strs_view(deps@),
                    dv == table_get(tbl, task@).task_deps,
                    v2set == strs_view(visited2@).to_set(),
                    v2set == vset.insert(task@),
                    unvisited(tbl, v2set) < unvisited(tbl, vset),
                    vset == strs_view(visited@).to_set().remove(task@),
                    j <= deps@.len(),
                    fill_deps_spec(tbl, list0, dv, 0, v2set) == fill_deps_spec(
                        tbl,
                        strs_view(task_list@),
                        dv,
                        j as int,
                        v2set,
                    ),
                decreases deps@.len() - j,
            {
                let dep = &deps[j];
                assert(dv[j as int] == dep@);
                if contains_str(&visited2, dep.as_str()) {
                    proof {
                        assert(v2set.contains(dv[j as int]));
                    }
                    return Err(visited2);
                }
                proof {
                    assert(!v2set.contains(dv[j as int]));
                    assert(v2set.remove(dep@) =~= v2set);
                }
                let r = fill_task_deps(env, task_list, dep.clone(), copy_strs(&visited2));
                if let Err(e) = r {
                    return Err(e);
                }
                j = j + 1;
            }
            if !contains_str(task_list, task.as_str()) {
                let ghost before = task_list@;
                task_list.push(task);
                proof {
                    assert(strs_view(task_list@) =~= strs_view(before).push(task@));
                }
            }
            Ok(())
        },
    }
}

} // verus!
