//! The engine's laws: what linking, repairing and weighing guarantee, proved
//! once and for all over the repository model.

use crate::date::Date;
use crate::instance::{
    ancestor, children_once_of, drop_id_of, edge, has_id, ids_of, idx_of, lemma_edge_is_ancestor,
    link_of, path_in, present_in, refresh_of, refresh_todo, todo_of, weight_of, weight_sum,
    wf_ids,
};
use crate::todo::TodoValue;
use vstd::prelude::*;

verus! {

broadcast use vstd::seq_lib::group_seq_properties;

/// Linking keeps every identity in place.
proof fn lemma_link_keeps_ids(s: Seq<TodoValue>, father: u64, child: u64)
    requires
        has_id(s, child),
    ensures
        ids_of(link_of(s, father, child)) == ids_of(s),
        link_of(s, father, child).len() == s.len(),
        wf_ids(s) ==> wf_ids(link_of(s, father, child)),
{
    let s2 = link_of(s, father, child);
    let i = idx_of(s, child);
    assert(0 <= i < s.len() && s[i].id == child);
    assert forall|k: int| 0 <= k < s.len() implies #[trigger] s2[k].id == s[k].id by {}
    assert(ids_of(s2) =~= ids_of(s));
    if wf_ids(s) {
        assert forall|a: int, b: int|
            0 <= a < s2.len() && 0 <= b < s2.len() && a != b implies s2[a].id != s2[b].id by {
            assert(s2[a].id == s[a].id);
            assert(s2[b].id == s[b].id);
        }
    }
}

/// After a permitted link the child reaches the father in one parent step:
/// the father joins the child's ancestor set, and the child the father's
/// descendant set.
pub proof fn lemma_link_connects(s: Seq<TodoValue>, father: u64, child: u64)
    requires
        wf_ids(s),
        has_id(s, child),
        has_id(s, father),
        father != child,
        !ancestor(s, father, child),
        !ancestor(s, child, father),
    ensures
        ancestor(link_of(s, father, child), child, father),
        has_id(link_of(s, father, child), child),
        has_id(link_of(s, father, child), father),
{
    let s2 = link_of(s, father, child);
    let i = idx_of(s, child);
    assert(0 <= i < s.len() && s[i].id == child);
    // the pair was not linked yet: a recorded link with the father present
    // would already make the father an ancestor
    assert(!s[i].dependents.contains(father)) by {
        if s[i].dependents.contains(father) {
            assert(todo_of(s, child) == s[i]);
            assert(edge(s, child, father));
            lemma_edge_is_ancestor(s, child, father);
        }
    }
    lemma_link_keeps_ids(s, father, child);
    assert(s2[i].id == child);
    assert(has_id(s2, child));
    let j = idx_of(s, father);
    assert(s2[j].id == father);
    assert(has_id(s2, father));
    assert(edge(s2, child, father)) by {
        let w = idx_of(s2, child);
        assert(0 <= w < s2.len() && s2[w].id == child);
        assert(w == i);
        assert(todo_of(s2, child).dependents == s[i].dependents.push(father));
        assert(s[i].dependents.push(father).contains(father));
    }
    lemma_edge_is_ancestor(s2, child, father);
}

/// Linking the same pair a second time is refused: the pair now fails the
/// duplicate check, because the child already descends from the father. The
/// graph would also be left unchanged: relinking is the identity.
pub proof fn lemma_relink_refused(s: Seq<TodoValue>, father: u64, child: u64)
    requires
        wf_ids(s),
        has_id(s, child),
        has_id(s, father),
        father != child,
        !ancestor(s, father, child),
        !ancestor(s, child, father),
    ensures
        !(father != child && !ancestor(link_of(s, father, child), father, child) && !(has_id(
            link_of(s, father, child),
            child,
        ) && ancestor(link_of(s, father, child), child, father))),
        link_of(link_of(s, father, child), father, child) == link_of(s, father, child),
{
    let s2 = link_of(s, father, child);
    lemma_link_connects(s, father, child);
    // relinking takes the no-op branch: the father is already recorded
    let i = idx_of(s, child);
    assert(!s[i].dependents.contains(father)) by {
        if s[i].dependents.contains(father) {
            assert(todo_of(s, child) == s[i]);
            assert(edge(s, child, father));
            lemma_edge_is_ancestor(s, child, father);
        }
    }
    lemma_link_keeps_ids(s, father, child);
    let w = idx_of(s2, child);
    assert(0 <= w < s2.len() && s2[w].id == child);
    assert(w == i);
    assert(s2[i].dependents == s[i].dependents.push(father));
    assert(s2[i].dependents.contains(father));
}

/// Linking a pair forbids the reverse link: after `link(a, b)` the call
/// `link(b, a)` fails its cycle check, since `a` now descends from `b`.
pub proof fn lemma_reverse_link_refused(s: Seq<TodoValue>, father: u64, child: u64)
    requires
        wf_ids(s),
        has_id(s, child),
        has_id(s, father),
        father != child,
        !ancestor(s, father, child),
        !ancestor(s, child, father),
    ensures
        !(child != father && !ancestor(link_of(s, father, child), child, father) && !(has_id(
            link_of(s, father, child),
            father,
        ) && ancestor(link_of(s, father, child), father, child))),
{
    lemma_link_connects(s, father, child);
}

/// A filter keeps a sequence whose members all satisfy the predicate.
proof fn lemma_filter_fixed(x: Seq<u64>, pred: spec_fn(u64) -> bool)
    requires
        forall|k: int| 0 <= k < x.len() ==> pred(#[trigger] x[k]),
    ensures
        x.filter(pred) == x,
    decreases x.len(),
{
    reveal(Seq::filter);
    if x.len() > 0 {
        lemma_filter_fixed(x.drop_last(), pred);
        assert(x.drop_last().push(x.last()) =~= x);
    }
}

/// The repair pass keeps every identity in place.
pub proof fn lemma_refresh_keeps_ids(s: Seq<TodoValue>, today: Date)
    ensures
        ids_of(refresh_of(s, today)) == ids_of(s),
        refresh_of(s, today).len() == s.len(),
{
    assert forall|k: int| 0 <= k < s.len() implies #[trigger] refresh_of(s, today)[k].id
        == s[k].id by {}
    assert(ids_of(refresh_of(s, today)) =~= ids_of(s));
}

/// The repair pass is idempotent: run twice on the same day it yields
/// exactly what one run yields.
pub proof fn lemma_refresh_idempotent(s: Seq<TodoValue>, today: Date)
    ensures
        refresh_of(refresh_of(s, today), today) == refresh_of(s, today),
{
    let s1 = refresh_of(s, today);
    lemma_refresh_keeps_ids(s, today);
    assert forall|i: int| 0 <= i < s1.len() implies #[trigger] refresh_of(s1, today)[i]
        == s1[i] by {
        let t = s[i];
        let t1 = s1[i];
        assert(t1 == refresh_todo(t, ids_of(s), today));
        assert(refresh_of(s1, today)[i] == refresh_todo(t1, ids_of(s1), today));
        assert forall|k: int|
            0 <= k < t1.dependents.len() implies present_in(ids_of(s))(
            #[trigger] t1.dependents[k],
        ) by {
            t.dependents.lemma_filter_pred(present_in(ids_of(s)), k);
        }
        lemma_filter_fixed(t1.dependents, present_in(ids_of(s)));
        assert(refresh_todo(t1, ids_of(s1), today) =~= t1);
    }
    assert(refresh_of(s1, today) =~= s1);
}

/// After the repair pass no parent entry dangles: whatever a task lists as a
/// parent is itself a loaded task.
pub proof fn lemma_refresh_no_dangling(s: Seq<TodoValue>, today: Date, i: int, p: u64)
    requires
        0 <= i < refresh_of(s, today).len(),
        refresh_of(s, today)[i].dependents.contains(p),
    ensures
        has_id(refresh_of(s, today), p),
{
    let deps = refresh_of(s, today)[i].dependents;
    assert(deps == s[i].dependents.filter(present_in(ids_of(s))));
    let k = choose|k: int| 0 <= k < deps.len() && deps[k] == p;
    s[i].dependents.lemma_filter_pred(present_in(ids_of(s)), k);
    assert(ids_of(s).contains(p));
    let w = choose|w: int| 0 <= w < ids_of(s).len() && ids_of(s)[w] == p;
    assert(s[w].id == p);
    lemma_refresh_keeps_ids(s, today);
    assert(refresh_of(s, today)[w].id == p);
}

/// Removing a task and repairing leaves no reference to it: a removed parent
/// is dropped from every remaining parent list.
pub proof fn lemma_remove_drops_parent(s: Seq<TodoValue>, p: u64, today: Date, i: int)
    requires
        wf_ids(s),
        0 <= i < refresh_of(drop_id_of(s, p), today).len(),
    ensures
        !refresh_of(drop_id_of(s, p), today)[i].dependents.contains(p),
{
    let s1 = drop_id_of(s, p);
    assert(!has_id(s1, p)) by {
        if has_id(s, p) {
            let w = idx_of(s, p);
            assert(0 <= w < s.len() && s[w].id == p);
            if has_id(s1, p) {
                let k = choose|k: int| 0 <= k < s1.len() && s1[k].id == p;
                let orig: int = if k < w {
                    k
                } else {
                    k + 1
                };
                assert(s1[k] == s[orig]);
                assert(s[orig].id == p);
                assert(orig != w);
            }
        } else {
            if has_id(s1, p) {
                let k = choose|k: int| 0 <= k < s1.len() && s1[k].id == p;
                assert(s1[k] == s[k]);
                assert(has_id(s, p));
            }
        }
    }
    if refresh_of(s1, today)[i].dependents.contains(p) {
        lemma_refresh_no_dangling(s1, today, i, p);
        lemma_refresh_keeps_ids(s1, today);
        let k = choose|k: int|
            0 <= k < refresh_of(s1, today).len() && refresh_of(s1, today)[k].id == p;
        assert(s1[k].id == p);
        assert(has_id(s1, p));
    }
}

/// The completed share of a weight sum never exceeds the total: counting
/// only completed tasks can only shrink the sum, whatever the fuel.
pub proof fn lemma_weight_completed_le_total(s: Seq<TodoValue>, id: u64, fuel: nat)
    ensures
        weight_of(s, id, true, fuel) <= weight_of(s, id, false, fuel),
        crate::instance::cap32(weight_of(s, id, true, fuel)) <= crate::instance::cap32(
            weight_of(s, id, false, fuel),
        ),
    decreases fuel, 0nat,
{
    if fuel > 0 {
        let kids = children_once_of(s, id);
        if kids.len() > 0 {
            lemma_weight_sum_completed_le_total(s, kids, (fuel - 1) as nat);
        }
    }
}

/// The list form of the weight comparison, one child at a time.
proof fn lemma_weight_sum_completed_le_total(s: Seq<TodoValue>, kids: Seq<u64>, fuel: nat)
    ensures
        weight_sum(s, kids, true, fuel) <= weight_sum(s, kids, false, fuel),
    decreases fuel, kids.len(),
{
    if kids.len() > 0 {
        lemma_weight_completed_le_total(s, kids.first(), fuel);
        lemma_weight_sum_completed_le_total(s, kids.drop_first(), fuel);
    }
}

/// No task reaches itself through parent steps.
pub open spec fn acyclic(s: Seq<TodoValue>) -> bool {
    forall|x: u64| !(#[trigger] ancestor(s, x, x))
}

/// Ancestor chains compose: an ancestor's ancestor is an ancestor.
pub proof fn lemma_ancestor_transitive(s: Seq<TodoValue>, a: u64, b: u64, c: u64)
    requires
        ancestor(s, a, b),
        ancestor(s, b, c),
    ensures
        ancestor(s, a, c),
{
    let q1 = choose|q: Seq<u64>| q.len() >= 2 && q.first() == a && q.last() == b && path_in(s, q);
    let q2 = choose|q: Seq<u64>| q.len() >= 2 && q.first() == b && q.last() == c && path_in(s, q);
    let q = q1 + q2.drop_first();
    assert(q.first() == a);
    assert(q.last() == c);
    assert forall|k: int| 0 <= k < q.len() - 1 implies edge(s, #[trigger] q[k], q[k + 1]) by {
        if k < q1.len() - 1 {
            assert(q[k] == q1[k]);
            assert(q[k + 1] == q1[k + 1]);
            assert(edge(s, q1[k], q1[k + 1]));
        } else if k == q1.len() - 1 {
            assert(q[k] == q1.last());
            assert(q[k + 1] == q2.drop_first()[0]);
            assert(q2.drop_first()[0] == q2[1]);
            assert(edge(s, q2[0], q2[1]));
        } else {
            let j = k - q1.len() + 1;
            assert(q[k] == q2[j]);
            assert(q[k + 1] == q2[j + 1]);
            assert(edge(s, q2[j], q2[j + 1]));
        }
    }
    assert(q.len() >= 2 && q.first() == a && q.last() == c && path_in(s, q));
}

/// One parent step in front of an ancestor chain extends it.
proof fn lemma_ancestor_prepend(s: Seq<TodoValue>, x: u64, m: u64, b: u64)
    requires
        edge(s, x, m),
        ancestor(s, m, b),
    ensures
        ancestor(s, x, b),
{
    lemma_edge_is_ancestor(s, x, m);
    lemma_ancestor_transitive(s, x, m, b);
}

/// In the linked repository, a parent step is an old step or exactly the new
/// pair.
proof fn lemma_link_edge_cases(s: Seq<TodoValue>, father: u64, child: u64, x: u64, p: u64)
    requires
        wf_ids(s),
        has_id(s, child),
        edge(link_of(s, father, child), x, p),
    ensures
        edge(s, x, p) || (x == child && p == father),
{
    let s2 = link_of(s, father, child);
    let i = idx_of(s, child);
    assert(0 <= i < s.len() && s[i].id == child);
    lemma_link_keeps_ids(s, father, child);
    let w2 = idx_of(s2, x);
    assert(0 <= w2 < s2.len() && s2[w2].id == x);
    assert(s[w2].id == x);
    assert(has_id(s, x));
    let w = idx_of(s, x);
    assert(0 <= w < s.len() && s[w].id == x);
    assert(w == w2);
    let jp = idx_of(s2, p);
    assert(0 <= jp < s2.len() && s2[jp].id == p);
    assert(s[jp].id == p);
    assert(has_id(s, p));
    if x != child {
        assert(w != i);
        assert(s2[w2] == s[w]);
        assert(todo_of(s2, x) == todo_of(s, x));
        assert(edge(s, x, p));
    } else {
        assert(w == i);
        if s[i].dependents.contains(father) {
            assert(edge(s, x, p));
        } else {
            assert(todo_of(s2, child).dependents == s[i].dependents.push(father));
            if p != father {
                let k = choose|k: int|
                    0 <= k < s[i].dependents.push(father).len() && s[i].dependents.push(father)[k]
                        == p;
                assert(k < s[i].dependents.len());
                assert(s[i].dependents[k] == p);
                assert(s[i].dependents.contains(p));
                assert(todo_of(s, child) == s[i]);
                assert(edge(s, x, p));
            }
        }
    }
}

/// A parent chain of the linked repository either already ran through the
/// old one, or it passes the new pair: it reaches the child from its start
/// and reaches its end from the father.
proof fn lemma_link_path_decompose(
    s: Seq<TodoValue>,
    father: u64,
    child: u64,
    p: Seq<u64>,
)
    requires
        wf_ids(s),
        has_id(s, child),
        p.len() >= 2,
        path_in(link_of(s, father, child), p),
    ensures
        ancestor(s, p.first(), p.last()) || ((p.first() == child || ancestor(s, p.first(), child))
            && (p.last() == father || ancestor(s, father, p.last()))),
    decreases p.len(),
{
    let s2 = link_of(s, father, child);
    assert(edge(s2, p[0], p[1]));
    lemma_link_edge_cases(s, father, child, p[0], p[1]);
    if p.len() == 2 {
        if edge(s, p[0], p[1]) {
            lemma_edge_is_ancestor(s, p[0], p[1]);
        }
    } else {
        let rest = p.drop_first();
        assert(rest.len() >= 2);
        assert forall|k: int| 0 <= k < rest.len() - 1 implies edge(s2, #[trigger] rest[k], rest[k + 1]) by {
            assert(rest[k] == p[k + 1]);
            assert(rest[k + 1] == p[k + 2]);
            assert(edge(s2, p[k + 1], p[k + 2]));
        }
        lemma_link_path_decompose(s, father, child, rest);
        assert(rest.first() == p[1]);
        assert(rest.last() == p.last());
        if ancestor(s, p[1], p.last()) {
            if edge(s, p[0], p[1]) {
                lemma_ancestor_prepend(s, p[0], p[1], p.last());
            } else {
                assert(p[0] == child && p[1] == father);
            }
        } else {
            assert((p[1] == child || ancestor(s, p[1], child)) && (p.last() == father || ancestor(
                s,
                father,
                p.last(),
            )));
            if edge(s, p[0], p[1]) {
                if p[1] == child {
                    lemma_edge_is_ancestor(s, p[0], p[1]);
                } else {
                    lemma_edge_is_ancestor(s, p[0], p[1]);
                    lemma_ancestor_transitive(s, p[0], p[1], child);
                }
            } else {
                assert(p[0] == child && p[1] == father);
            }
        }
    }
}

/// A permitted link keeps the graph acyclic: no task becomes reachable from
/// itself. Only the cycle check matters here; the duplicate check guards
/// redundancy, not acyclicity.
pub proof fn lemma_link_preserves_acyclicity(s: Seq<TodoValue>, father: u64, child: u64)
    requires
        wf_ids(s),
        has_id(s, child),
        father != child,
        !ancestor(s, father, child),
        acyclic(s),
    ensures
        acyclic(link_of(s, father, child)),
{
    let s2 = link_of(s, father, child);
    assert forall|x: u64| !(#[trigger] ancestor(s2, x, x)) by {
        if ancestor(s2, x, x) {
            let p = choose|p: Seq<u64>|
                p.len() >= 2 && p.first() == x && p.last() == x && path_in(s2, p);
            lemma_link_path_decompose(s, father, child, p);
            if ancestor(s, x, x) {
                assert(!ancestor(s, x, x));
            } else {
                if x == child {
                    if x == father {
                    } else {
                        assert(ancestor(s, father, x));
                        assert(ancestor(s, father, child));
                    }
                } else {
                    assert(ancestor(s, x, child));
                    if x == father {
                        assert(ancestor(s, father, child));
                    } else {
                        assert(ancestor(s, father, x));
                        lemma_ancestor_transitive(s, father, x, child);
                    }
                }
            }
        }
    }
}

} // verus!
