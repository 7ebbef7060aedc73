//! The repository: the full set of loaded tasks for one store location, and
//! the graph operations over it. Parent links are recorded on each child, so
//! the repository is a directed graph whose edges point from a child to each
//! task it depends from; the operations here keep that graph acyclic and
//! duplicate-free.

use crate::date::Date;
use crate::todo::{Todo, TodoValue};
use vstd::prelude::*;

verus! {

broadcast use vstd::seq_lib::group_seq_properties;

/// The mathematical value of a task list: each task as its view, in order.
pub open spec fn repo_view(todos: Seq<Todo>) -> Seq<TodoValue> {
    todos.map_values(|t: Todo| t@)
}

/// The identities of a task sequence, in order.
pub open spec fn ids_of(s: Seq<TodoValue>) -> Seq<u64> {
    s.map_values(|t: TodoValue| t.id)
}

/// Whether some task in `s` has identity `id`.
pub open spec fn has_id(s: Seq<TodoValue>, id: u64) -> bool {
    exists|i: int| 0 <= i < s.len() && s[i].id == id
}

/// An index of the task with identity `id`; under `wf_ids` it is the only one.
pub open spec fn idx_of(s: Seq<TodoValue>, id: u64) -> int {
    choose|i: int| 0 <= i < s.len() && s[i].id == id
}

/// The task value with identity `id`; meaningful when `has_id(s, id)`.
pub open spec fn todo_of(s: Seq<TodoValue>, id: u64) -> TodoValue {
    s[idx_of(s, id)]
}

/// Identities are unique across the repository.
pub open spec fn wf_ids(s: Seq<TodoValue>) -> bool {
    forall|i: int, j: int|
        0 <= i < s.len() && 0 <= j < s.len() && i != j ==> s[i].id != s[j].id
}

/// One parent step: task `c` is present, lists `p` as a parent, and `p` is
/// itself present. Dangling parent entries form no step.
pub open spec fn edge(s: Seq<TodoValue>, c: u64, p: u64) -> bool {
    has_id(s, c) && has_id(s, p) && todo_of(s, c).dependents.contains(p)
}

/// Every consecutive pair of `p` is a parent step of `s`.
pub open spec fn path_in(s: Seq<TodoValue>, p: Seq<u64>) -> bool {
    forall|k: int| 0 <= k < p.len() - 1 ==> edge(s, #[trigger] p[k], p[k + 1])
}

/// `a` is an ancestor of `x` in `s`: reachable from `x` by one or more
/// parent steps.
pub open spec fn ancestor(s: Seq<TodoValue>, x: u64, a: u64) -> bool {
    exists|p: Seq<u64>| p.len() >= 2 && p.first() == x && p.last() == a && path_in(s, p)
}

/// The predicate selecting tasks that list `p` as a direct parent.
pub open spec fn lists_parent(p: u64) -> spec_fn(TodoValue) -> bool {
    |t: TodoValue| t.dependents.contains(p)
}

/// The direct children of `id`, in repository order.
pub open spec fn children_once_of(s: Seq<TodoValue>, id: u64) -> Seq<u64> {
    ids_of(s.filter(lists_parent(id)))
}

/// A repository of tasks backed by one store directory.
pub struct TodoInstance {
    pub todos: Vec<Todo>,
    pub path: String,
}

impl View for TodoInstance {
    type V = Seq<TodoValue>;

    open spec fn view(&self) -> Seq<TodoValue> {
        repo_view(self.todos@)
    }
}

impl TodoInstance {
    /// Task identities are unique; every graph operation relies on it.
    pub open spec fn wf(&self) -> bool {
        wf_ids(self@)
    }

    /// An empty repository over the given store location.
    pub fn create(path: &str) -> (r: TodoInstance)
        ensures
            r@.len() == 0,
            r.path@ == path@,
            r.wf(),
    {
        TodoInstance { todos: Vec::new(), path: path.to_owned() }
    }

    /// The identities of all loaded tasks, in storage order.
    pub fn todos(&self) -> (r: Vec<u64>)
        ensures
            r@ == ids_of(self@),
    {
        let mut r: Vec<u64> = Vec::new();
        let mut i: usize = 0;
        while i < self.todos.len()
            invariant
                0 <= i <= self.todos.len(),
                r@ =~= ids_of(self@).subrange(0, i as int),
            decreases self.todos.len() - i,
        {
            r.push(self.todos[i].id());
            assert(r@ =~= ids_of(self@).subrange(0, i + 1));
            i += 1;
        }
        assert(ids_of(self@).subrange(0, self.todos@.len() as int) =~= ids_of(self@));
        r
    }

    /// The task with the given identity, if one is loaded.
    pub fn get(&self, id: u64) -> (r: Option<&Todo>)
        requires
            self.wf(),
        ensures
            match r {
                Some(t) => has_id(self@, id) && t@ == todo_of(self@, id),
                None => !has_id(self@, id),
            },
    {
        let mut i: usize = 0;
        while i < self.todos.len()
            invariant
                self.wf(),
                0 <= i <= self.todos.len(),
                forall|j: int| 0 <= j < i ==> self@[j].id != id,
            decreases self.todos.len() - i,
        {
            if self.todos[i].id() == id {
                proof {
                    assert(self@[i as int].id == id);
                    assert(has_id(self@, id));
                    let w = idx_of(self@, id);
                    assert(0 <= w < self@.len() && self@[w].id == id);
                    assert(w == i);
                }
                return Some(&self.todos[i]);
            }
            i += 1;
        }
        None
    }

    /// The task with the given identity, for mutation in place. The rest of
    /// the repository is untouched; absence leaves it untouched entirely.
    pub fn get_mut(&mut self, id: u64) -> (r: Option<&mut Todo>)
        requires
            old(self).wf(),
        ensures
            match r {
                Some(t) => {
                    &&& has_id(old(self)@, id)
                    &&& t@ == todo_of(old(self)@, id)
                    &&& final(self)@ == old(self)@.update(idx_of(old(self)@, id), final(t)@)
                    &&& final(self).path == old(self).path
                },
                None => {
                    &&& !has_id(old(self)@, id)
                    &&& final(self)@ == old(self)@
                    &&& final(self).path == old(self).path
                },
            },
    {
        let n = self.todos.len();
        let mut i: usize = 0;
        while i < n
            invariant
                old(self) == self,
                old(self).wf(),
                n == self.todos.len(),
                0 <= i <= n,
                forall|j: int| 0 <= j < i ==> self@[j].id != id,
            decreases n - i,
        {
            if self.todos[i].id() == id {
                proof {
                    assert(self@[i as int].id == id);
                    assert(has_id(self@, id));
                    let w = idx_of(self@, id);
                    assert(0 <= w < self@.len() && self@[w].id == id);
                    assert(w == i);
                }
                let t = &mut self.todos[i];
                proof {
                    assert(repo_view(old(self).todos@.update(i as int, *final(t))) =~= repo_view(
                        old(self).todos@,
                    ).update(i as int, final(t)@));
                }
                return Some(t);
            }
            i += 1;
        }
        None
    }

    /// The identities of tasks that list `id` as a direct parent: one hop
    /// only, in repository order.
    pub fn children_once(&self, id: u64) -> (r: Vec<u64>)
        ensures
            r@ == children_once_of(self@, id),
    {
        let ghost sv = self@;
        let mut r: Vec<u64> = Vec::new();
        let mut i: usize = 0;
        while i < self.todos.len()
            invariant
                0 <= i <= self.todos.len(),
                sv == self@,
                r@ == children_once_of(sv.subrange(0, i as int), id),
            decreases self.todos.len() - i,
        {
            let ghost prefix = sv.subrange(0, i as int);
            if ids_contain(&self.todos[i].dependents, id) {
                let c = self.todos[i].id();
                r.push(c);
            }
            proof {
                let pred = lists_parent(id);
                let x = sv[i as int];
                assert(sv.subrange(0, i + 1) =~= prefix + seq![x]);
                Seq::<TodoValue>::filter_distributes_over_add(prefix, seq![x], pred);
                reveal_with_fuel(Seq::filter, 2);
                assert(seq![x].drop_last() =~= Seq::<TodoValue>::empty());
                assert(seq![x].filter(pred) == if pred(x) { seq![x] } else {
                    Seq::<TodoValue>::empty()
                });
                assert(r@ =~= ids_of(sv.subrange(0, i + 1).filter(pred)));
            }
            i += 1;
        }
        assert(sv.subrange(0, self.todos@.len() as int) =~= sv);
        r
    }
}

/// A single parent step is an ancestor path of length two.
pub proof fn lemma_edge_is_ancestor(s: Seq<TodoValue>, x: u64, p: u64)
    requires
        edge(s, x, p),
    ensures
        ancestor(s, x, p),
{
    let path = seq![x, p];
    assert(path.first() == x);
    assert(path.last() == p);
    assert forall|k: int| 0 <= k < path.len() - 1 implies edge(s, #[trigger] path[k], path[k + 1]) by {
        assert(k == 0);
    }
}

/// Extending an ancestor chain by one parent step keeps it one.
pub proof fn lemma_ancestor_step(s: Seq<TodoValue>, x: u64, m: u64, p: u64)
    requires
        ancestor(s, x, m),
        edge(s, m, p),
    ensures
        ancestor(s, x, p),
{
    let q = choose|q: Seq<u64>| q.len() >= 2 && q.first() == x && q.last() == m && path_in(s, q);
    let q2 = q.push(p);
    assert(q2.first() == x);
    assert(q2.last() == p);
    assert forall|k: int| 0 <= k < q2.len() - 1 implies edge(s, #[trigger] q2[k], q2[k + 1]) by {
        if k < q.len() - 1 {
            assert(q2[k] == q[k]);
            assert(q2[k + 1] == q[k + 1]);
            assert(edge(s, q[k], q[k + 1]));
        } else {
            assert(k == q.len() - 1);
            assert(q2[k] == q.last());
        }
    }
}

/// The end of every parent path out of `x` lies in any set that is closed
/// under parent steps from `x` and from its own members.
proof fn lemma_closed_absorbs_path(s: Seq<TodoValue>, x: u64, res: Seq<u64>, path: Seq<u64>)
    requires
        path.len() >= 2,
        path.first() == x,
        path_in(s, path),
        forall|y: u64, p: u64|
            (y == x || res.contains(y)) && #[trigger] edge(s, y, p) ==> res.contains(p),
    ensures
        res.contains(path.last()),
    decreases path.len(),
{
    if path.len() == 2 {
        assert(edge(s, path[0], path[1]));
        assert(res.contains(path[1]));
    } else {
        let prefix = path.drop_last();
        assert(prefix.len() >= 2);
        assert(prefix.first() == x);
        assert forall|k: int|
            0 <= k < prefix.len() - 1 implies edge(s, #[trigger] prefix[k], prefix[k + 1]) by {
            assert(prefix[k] == path[k]);
            assert(prefix[k + 1] == path[k + 1]);
            assert(edge(s, path[k], path[k + 1]));
        }
        lemma_closed_absorbs_path(s, x, res, prefix);
        let m = prefix.last();
        assert(m == path[path.len() - 2]);
        assert(edge(s, path[path.len() - 2], path[path.len() - 1]));
        assert(res.contains(path.last()));
    }
}

/// A set closed under parent steps from `x` and from its own members holds
/// every ancestor of `x`.
pub proof fn lemma_closed_contains_ancestors(s: Seq<TodoValue>, x: u64, res: Seq<u64>)
    requires
        forall|y: u64, p: u64|
            (y == x || res.contains(y)) && #[trigger] edge(s, y, p) ==> res.contains(p),
    ensures
        forall|a: u64| #[trigger] ancestor(s, x, a) ==> res.contains(a),
{
    assert forall|a: u64| #[trigger] ancestor(s, x, a) implies res.contains(a) by {
        let path = choose|p: Seq<u64>|
            p.len() >= 2 && p.first() == x && p.last() == a && path_in(s, p);
        lemma_closed_absorbs_path(s, x, res, path);
    }
}

/// A duplicate-free sequence of present identities is no longer than the
/// task list itself.
proof fn lemma_distinct_present_ids_bound(s: Seq<TodoValue>, r: Seq<u64>)
    requires
        r.no_duplicates(),
        forall|k: int| 0 <= k < r.len() ==> has_id(s, #[trigger] r[k]),
    ensures
        r.len() <= s.len(),
{
    broadcast use vstd::seq_lib::seq_to_set_is_finite;

    r.unique_seq_to_set();
    assert forall|x: u64| r.to_set().contains(x) implies ids_of(s).to_set().contains(x) by {
        assert(r.contains(x));
        let k = choose|k: int| 0 <= k < r.len() && r[k] == x;
        assert(has_id(s, x));
        let i = choose|i: int| 0 <= i < s.len() && s[i].id == x;
        assert(ids_of(s)[i] == x);
        assert(ids_of(s).contains(x));
    }
    vstd::set_lib::lemma_len_subset(r.to_set(), ids_of(s).to_set());
    ids_of(s).lemma_cardinality_of_set();
}

impl TodoInstance {
    /// Every ancestor of `id`: the identities reachable from `id` by one or
    /// more parent steps, without duplicates. An absent `id` yields the empty
    /// set, and parent entries naming no loaded task are passed over.
    pub fn all_deps(&self, id: u64) -> (r: Vec<u64>)
        requires
            self.wf(),
        ensures
            forall|k: int| 0 <= k < r@.len() ==> ancestor(self@, id, #[trigger] r@[k]),
            forall|a: u64| #[trigger] ancestor(self@, id, a) ==> r@.contains(a),
            r@.no_duplicates(),
    {
        let ghost sv = self@;
        let mut result: Vec<u64> = Vec::new();
        let mut queue: Vec<u64> = Vec::new();
        queue.push(id);
        assert(queue@[0] == id);
        assert(queue@.contains(id));
        while queue.len() > 0
            invariant
                self.wf(),
                sv == self@,
                result@.no_duplicates(),
                result@.len() <= sv.len(),
                forall|k: int|
                    0 <= k < result@.len() ==> ancestor(sv, id, #[trigger] result@[k]) && has_id(
                        sv,
                        result@[k],
                    ),
                forall|k: int|
                    0 <= k < queue@.len() ==> #[trigger] queue@[k] == id || result@.contains(
                        queue@[k],
                    ),
                forall|y: u64, p: u64|
                    (y == id || result@.contains(y)) && !queue@.contains(y) && #[trigger] edge(
                        sv,
                        y,
                        p,
                    ) ==> result@.contains(p),
            decreases sv.len() - result@.len(), queue@.len(),
        {
            let ghost queue0 = queue@;
            let cur = match queue.pop() {
                Some(c) => c,
                None => vstd::pervasive::unreached(),
            };
            assert(cur == queue0.last());
            assert(cur == id || result@.contains(cur));
            let ghost queue1 = queue@;
            let ghost result0 = result@;
            proof {
                assert forall|y: u64| y != cur && !queue1.contains(y) implies !queue0.contains(
                    y,
                ) by {
                    if queue0.contains(y) {
                        let k = choose|k: int| 0 <= k < queue0.len() && queue0[k] == y;
                        assert(k < queue0.len() - 1);
                        assert(queue1[k] == y);
                    }
                }
            }
            if let Some(t) = self.get(cur) {
                let deps_len = t.dependents.len();
                let mut j: usize = 0;
                while j < deps_len
                    invariant
                        self.wf(),
                        sv == self@,
                        t@ == todo_of(sv, cur),
                        has_id(sv, cur),
                        cur == id || result@.contains(cur),
                        deps_len == t@.dependents.len(),
                        0 <= j <= deps_len,
                        result@.no_duplicates(),
                        result@.len() <= sv.len(),
                        forall|k: int|
                            0 <= k < result@.len() ==> ancestor(sv, id, #[trigger] result@[k])
                                && has_id(sv, result@[k]),
                        forall|k: int|
                            0 <= k < queue@.len() ==> #[trigger] queue@[k] == id
                                || result@.contains(queue@[k]),
                        forall|y: u64, p: u64|
                            y != cur && (y == id || result@.contains(y)) && !queue@.contains(y)
                                && #[trigger] edge(sv, y, p) ==> result@.contains(p),
                        forall|jj: int|
                            0 <= jj < j && has_id(sv, #[trigger] t@.dependents[jj])
                                ==> result@.contains(t@.dependents[jj]),
                        result0.len() <= result@.len(),
                        forall|k: int|
                            0 <= k < result0.len() ==> result0[k] == #[trigger] result@[k],
                        queue@.len() - queue1.len() <= result@.len() - result0.len(),
                        forall|y: u64| !queue@.contains(y) ==> !queue1.contains(y),
                    decreases deps_len - j,
                {
                    let p = t.dependents[j];
                    if self.get(p).is_some() && !ids_contain(&result, p) {
                        proof {
                            assert(t@.dependents.contains(p));
                            assert(edge(sv, cur, p));
                            if cur == id {
                                lemma_edge_is_ancestor(sv, id, p);
                            } else {
                                lemma_ancestor_step(sv, id, cur, p);
                            }
                        }
                        result.push(p);
                        queue.push(p);
                        proof {
                            lemma_distinct_present_ids_bound(sv, result@);
                        }
                    }
                    j += 1;
                }
                proof {
                    assert forall|y: u64, p: u64|
                        (y == id || result@.contains(y)) && !queue@.contains(y) && #[trigger] edge(
                            sv,
                            y,
                            p,
                        ) implies result@.contains(p) by {
                        if y == cur {
                            assert(todo_of(sv, cur).dependents.contains(p));
                            let jj = choose|jj: int|
                                0 <= jj < t@.dependents.len() && t@.dependents[jj] == p;
                            assert(has_id(sv, t@.dependents[jj]));
                        }
                    }
                }
            } else {
                assert(!has_id(sv, cur));
                assert forall|y: u64, p: u64|
                    (y == id || result@.contains(y)) && !queue@.contains(y) && #[trigger] edge(
                        sv,
                        y,
                        p,
                    ) implies result@.contains(p) by {
                    if y == cur {
                        assert(has_id(sv, cur));
                    }
                }
            }
            proof {
                if result@.len() == result0.len() {
                    assert(result@ =~= result0);
                    assert(queue@.len() < queue0.len());
                }
            }
        }
        proof {
            lemma_closed_contains_ancestors(sv, id, result@);
        }
        result
    }
}


/// The predicate selecting identities other than `x`.
pub open spec fn id_differs(x: u64) -> spec_fn(u64) -> bool {
    |y: u64| y != x
}

/// The repository after linking: `father` appended to the parent list of
/// `child` unless already present; every other task untouched.
pub open spec fn link_of(s: Seq<TodoValue>, father: u64, child: u64) -> Seq<TodoValue> {
    let i = idx_of(s, child);
    let t = s[i];
    if t.dependents.contains(father) {
        s
    } else {
        s.update(i, TodoValue { dependents: t.dependents.push(father), ..t })
    }
}

/// The repository after unlinking: `father` dropped from the parent list of
/// `child`; a no-op when the pair is not linked or `child` is absent.
pub open spec fn unlink_of(s: Seq<TodoValue>, father: u64, child: u64) -> Seq<TodoValue> {
    if has_id(s, child) {
        let i = idx_of(s, child);
        let t = s[i];
        s.update(i, TodoValue { dependents: t.dependents.filter(id_differs(father)), ..t })
    } else {
        s
    }
}

impl TodoInstance {
    /// Every descendant of `id`: the identities of loaded tasks whose
    /// ancestor set holds `id`, without duplicates.
    pub fn children(&self, id: u64) -> (r: Vec<u64>)
        requires
            self.wf(),
        ensures
            forall|c: u64| #[trigger] r@.contains(c) <==> has_id(self@, c) && ancestor(self@, c, id),
            r@.no_duplicates(),
    {
        let ghost sv = self@;
        let mut r: Vec<u64> = Vec::new();
        let mut i: usize = 0;
        while i < self.todos.len()
            invariant
                self.wf(),
                sv == self@,
                0 <= i <= self.todos.len(),
                forall|k: int|
                    0 <= k < r@.len() ==> has_id(sv, #[trigger] r@[k]) && ancestor(sv, r@[k], id),
                forall|j: int| 0 <= j < i && ancestor(sv, sv[j].id, id) ==> r@.contains(#[trigger] sv[j].id),
                forall|k: int|
                    0 <= k < r@.len() ==> exists|j: int| 0 <= j < i && sv[j].id == #[trigger] r@[k],
                r@.no_duplicates(),
            decreases self.todos.len() - i,
        {
            let c = self.todos[i].id();
            assert(sv[i as int].id == c);
            let deps = self.all_deps(c);
            if ids_contain(&deps, id) {
                proof {
                    let k = choose|k: int| 0 <= k < deps@.len() && deps@[k] == id;
                    assert(ancestor(sv, c, deps@[k]));
                    if r@.contains(c) {
                        let k2 = choose|k2: int| 0 <= k2 < r@.len() && r@[k2] == c;
                        let j2 = choose|j2: int| 0 <= j2 < i && sv[j2] .id == r@[k2];
                        assert(false);
                    }
                }
                r.push(c);
            }
            i += 1;
        }
        proof {
            assert forall|c: u64| #[trigger] r@.contains(c) implies has_id(sv, c) && ancestor(
                sv,
                c,
                id,
            ) by {
                let k = choose|k: int| 0 <= k < r@.len() && r@[k] == c;
            }
            assert forall|c: u64| has_id(sv, c) && ancestor(sv, c, id) implies r@.contains(c) by {
                let j = choose|j: int| 0 <= j < sv.len() && sv[j].id == c;
                assert(ancestor(sv, sv[j].id, id));
            }
        }
        r
    }

    /// Whether a link from `father` down to `child` may be made: the two are
    /// distinct, `child` is no ancestor of `father` (the link would close a
    /// cycle), and `child` is no descendant of `father` (the link would be
    /// redundant).
    pub fn is_child_able(&self, father: u64, child: u64) -> (r: bool)
        requires
            self.wf(),
        ensures
            r <==> father != child && !ancestor(self@, father, child) && !(has_id(self@, child)
                && ancestor(self@, child, father)),
    {
        if father == child {
            return false;
        }
        let deps = self.all_deps(father);
        if ids_contain(&deps, child) {
            proof {
                let k = choose|k: int| 0 <= k < deps@.len() && deps@[k] == child;
            }
            return false;
        }
        let kids = self.children(father);
        !ids_contain(&kids, child)
    }

    /// Records `father` as a parent of `child`. The caller must have checked
    /// `is_child_able` first: the engine never creates a cycle or a duplicate
    /// link, and never invents a missing child.
    pub fn child(&mut self, father: u64, child: u64)
        requires
            old(self).wf(),
            has_id(old(self)@, child),
            father != child,
            !ancestor(old(self)@, father, child),
            !ancestor(old(self)@, child, father),
        ensures
            final(self)@ == link_of(old(self)@, father, child),
            final(self).wf(),
            final(self).path == old(self).path,
    {
        let ghost sv = old(self)@;
        match self.get_mut(child) {
            Some(t) => {
                if !ids_contain(&t.dependents, father) {
                    t.dependents.push(father);
                }
            },
            None => vstd::pervasive::unreached(),
        }
        proof {
            assert(self@ =~= link_of(sv, father, child));
            let i = idx_of(sv, child);
            assert forall|a: int, b: int|
                0 <= a < self@.len() && 0 <= b < self@.len() && a != b implies self@[a].id
                != self@[b].id by {
                assert(self@[a].id == sv[a].id);
                assert(self@[b].id == sv[b].id);
            }
        }
    }

    /// Drops `father` from the parent list of `child`; a no-op when the two
    /// are not linked, or when `child` is not loaded.
    pub fn unlink(&mut self, father: u64, child: u64)
        requires
            old(self).wf(),
        ensures
            final(self)@ == unlink_of(old(self)@, father, child),
            final(self).wf(),
            final(self).path == old(self).path,
    {
        let ghost sv = old(self)@;
        match self.get_mut(child) {
            Some(t) => {
                remove_ids(&mut t.dependents, father);
            },
            None => {},
        }
        proof {
            assert(self@ =~= unlink_of(sv, father, child));
            assert forall|a: int, b: int|
                0 <= a < self@.len() && 0 <= b < self@.len() && a != b implies self@[a].id
                != self@[b].id by {
                assert(self@[a].id == sv[a].id);
                assert(self@[b].id == sv[b].id);
            }
        }
    }

    /// Swaps in a task carrying an identity already loaded; the stale record
    /// leaves its slot and the replacement joins at the end. A task whose
    /// identity is unknown is refused.
    pub fn replace(&mut self, replacement: Todo) -> (r: bool)
        requires
            old(self).wf(),
        ensures
            !has_id(old(self)@, replacement@.id) ==> r == false && final(self)@ == old(self)@
                && final(self).path == old(self).path,
            has_id(old(self)@, replacement@.id) ==> r == true && final(self)@ == old(self)@.remove(
                idx_of(old(self)@, replacement@.id),
            ).push(replacement@) && final(self).wf() && final(self).path == old(self).path,
    {
        let ghost sv = old(self)@;
        let id = replacement.id();
        let n = self.todos.len();
        let mut i: usize = 0;
        while i < n
            invariant
                old(self) == self,
                old(self).wf(),
                sv == self@,
                id == replacement@.id,
                n == self.todos.len(),
                0 <= i <= n,
                forall|j: int| 0 <= j < i ==> self@[j].id != id,
            decreases n - i,
        {
            if self.todos[i].id() == id {
                proof {
                    assert(self@[i as int].id == id);
                    assert(has_id(self@, id));
                    let w = idx_of(self@, id);
                    assert(w == i);
                    assert(sv[i as int].id == id);
                }
                let ghost rv = replacement@;
                let ghost before = self.todos@;
                self.todos.remove(i);
                assert(self.todos@ == before.remove(i as int));
                let ghost mid = self.todos@;
                self.todos.push(replacement);
                assert(self.todos@ == mid.push(replacement));
                proof {
                    let m = sv.len() as int;
                    assert(sv == repo_view(before));
                    assert forall|k: int| 0 <= k < m implies #[trigger] self@[k] == (if k < i {
                        sv[k]
                    } else if k < m - 1 {
                        sv[k + 1]
                    } else {
                        rv
                    }) by {
                        if k < i {
                            assert(self.todos@[k] == before[k]);
                        } else if k < m - 1 {
                            assert(mid[k] == before.subrange(i + 1, before.len() as int)[k - i]);
                            assert(self.todos@[k] == before[k + 1]);
                        } else {
                            assert(self.todos@[k] == mid.push(replacement)[k]);
                        }
                    }
                    assert(self@ =~= sv.remove(i as int).push(rv));
                    assert forall|a: int, b: int|
                        0 <= a < self@.len() && 0 <= b < self@.len() && a != b implies self@[a].id
                        != self@[b].id by {
                        let ia: int = if a < i { a } else if a < m - 1 { a + 1 } else { i as int };
                        let ib: int = if b < i { b } else if b < m - 1 { b + 1 } else { i as int };
                        assert(rv.id == sv[i as int].id);
                        assert(self@[a].id == sv[ia].id);
                        assert(self@[b].id == sv[ib].id);
                        assert(ia != ib);
                    }
                }
                return true;
            }
            i += 1;
        }
        false
    }
}

/// Removes every entry equal to `x` from an id list.
pub(crate) fn remove_ids(v: &mut Vec<u64>, x: u64)
    ensures
        final(v)@ == old(v)@.filter(id_differs(x)),
{
    let ghost all = old(v)@;
    let mut kept: Vec<u64> = Vec::new();
    let mut i: usize = 0;
    while i < v.len()
        invariant
            0 <= i <= v@.len(),
            v@ == all,
            kept@ == all.subrange(0, i as int).filter(id_differs(x)),
        decreases v@.len() - i,
    {
        let ghost pred = id_differs(x);
        let ghost prefix = all.subrange(0, i as int);
        if v[i] != x {
            kept.push(v[i]);
        }
        proof {
            let e = all[i as int];
            assert(all.subrange(0, i + 1) =~= prefix + seq![e]);
            Seq::<u64>::filter_distributes_over_add(prefix, seq![e], pred);
            reveal_with_fuel(Seq::filter, 2);
            assert(seq![e].drop_last() =~= Seq::<u64>::empty());
            assert(seq![e].filter(pred) == if pred(e) { seq![e] } else { Seq::<u64>::empty() });
            assert(kept@ =~= all.subrange(0, i + 1).filter(pred));
        }
        i += 1;
    }
    assert(all.subrange(0, v@.len() as int) =~= all);
    *v = kept;
}


/// The predicate selecting identities present in `ids`.
pub open spec fn present_in(ids: Seq<u64>) -> spec_fn(u64) -> bool {
    |x: u64| ids.contains(x)
}

/// One task after the repair pass over a repository whose identities are
/// `ids`: parent entries naming no loaded task are dropped, and the schedule
/// of an unfinished task lying strictly before `today` advances to `today`.
pub open spec fn refresh_todo(t: TodoValue, ids: Seq<u64>, today: Date) -> TodoValue {
    TodoValue {
        dependents: t.dependents.filter(present_in(ids)),
        time: match t.time {
            Some(d) => if !t.completed && d.days < today.days {
                Some(today)
            } else {
                t.time
            },
            None => t.time,
        },
        ..t
    }
}

/// The whole repository after the repair pass as of `today`.
pub open spec fn refresh_of(s: Seq<TodoValue>, today: Date) -> Seq<TodoValue> {
    s.map_values(|t: TodoValue| refresh_todo(t, ids_of(s), today))
}

/// The repository with the task of identity `id` dropped; untouched when no
/// task carries it.
pub open spec fn drop_id_of(s: Seq<TodoValue>, id: u64) -> Seq<TodoValue> {
    if has_id(s, id) {
        s.remove(idx_of(s, id))
    } else {
        s
    }
}

impl TodoInstance {
    /// The repair pass as of a given day, over every loaded task: parent
    /// entries naming no loaded task are removed until none remain, and the
    /// schedule of an unfinished task lying strictly in the past advances to
    /// that day. Completed tasks keep their schedule.
    pub fn refresh_on(&mut self, today: Date)
        requires
            old(self).wf(),
        ensures
            final(self)@ == refresh_of(old(self)@, today),
            final(self).wf(),
            final(self).path == old(self).path,
    {
        let ghost sv = old(self)@;
        let ids = self.todos();
        let n = self.todos.len();
        let mut i: usize = 0;
        while i < n
            invariant
                sv == old(self)@,
                old(self).wf(),
                ids@ == ids_of(sv),
                n == sv.len(),
                self.todos@.len() == n,
                0 <= i <= n,
                self.path == old(self).path,
                forall|k: int| 0 <= k < i ==> self@[k] == #[trigger] refresh_of(sv, today)[k],
                forall|k: int| i <= k < n ==> #[trigger] self@[k] == sv[k],
            decreases n - i,
        {
            let ghost before_iter = self@;
            let t = &mut self.todos[i];
            retain_present(&mut t.dependents, &ids);
            if !t.completed {
                if let Some(d) = t.time {
                    if d.before(&today) {
                        t.time = Some(today);
                    }
                }
            }
            proof {
                assert(before_iter[i as int] == sv[i as int]);
                assert(self@[i as int] =~= refresh_todo(sv[i as int], ids_of(sv), today));
                assert forall|k: int| 0 <= k < n && k != i implies self@[k] == before_iter[k] by {}
                assert(refresh_of(sv, today)[i as int] == refresh_todo(
                    sv[i as int],
                    ids_of(sv),
                    today,
                ));
                assert forall|k: int| i + 1 <= k < n implies self@[k] == sv[k] by {
                    assert(self@[k] == before_iter[k]);
                    assert(before_iter[k] == sv[k]);
                }
            }
            i += 1;
        }
        proof {
            assert(self@ =~= refresh_of(sv, today));
            assert forall|a: int, b: int|
                0 <= a < self@.len() && 0 <= b < self@.len() && a != b implies self@[a].id
                != self@[b].id by {
                assert(self@[a] == refresh_of(sv, today)[a]);
                assert(self@[b] == refresh_of(sv, today)[b]);
            }
        }
    }

    /// The repair pass as of the machine's current local day.
    pub fn refresh(&mut self)
        requires
            old(self).wf(),
        ensures
            exists|d: Date| final(self)@ == refresh_of(old(self)@, d),
            final(self).wf(),
            final(self).path == old(self).path,
    {
        let today = crate::date::today_local();
        self.refresh_on(today);
    }

    /// Removal as of a given day: the task with identity `id` leaves the
    /// repository, and the repair pass then mends the links of the rest, so
    /// no parent entry dangles.
    pub fn remove_on(&mut self, id: u64, today: Date)
        requires
            old(self).wf(),
        ensures
            final(self)@ == refresh_of(drop_id_of(old(self)@, id), today),
            final(self).wf(),
            final(self).path == old(self).path,
    {
        let ghost sv = old(self)@;
        let n = self.todos.len();
        let mut i: usize = 0;
        let mut idx: usize = n;
        while i < n
            invariant
                old(self) == self,
                old(self).wf(),
                sv == self@,
                n == self.todos.len(),
                0 <= i <= n,
                idx == n ==> forall|j: int| 0 <= j < i ==> self@[j].id != id,
                idx != n ==> 0 <= idx < i && self@[idx as int].id == id,
            decreases n - i,
        {
            if self.todos[i].id() == id {
                idx = i;
            }
            i += 1;
        }
        if idx < n {
            proof {
                assert(self@[idx as int].id == id);
                assert(has_id(sv, id));
                let w = idx_of(sv, id);
                assert(0 <= w < sv.len() && sv[w].id == id);
                assert(w == idx);
            }
            self.todos.remove(idx);
            proof {
                let m = sv.len() as int;
                assert forall|k: int| 0 <= k < m - 1 implies #[trigger] self@[k] == (if k < idx {
                    sv[k]
                } else {
                    sv[k + 1]
                }) by {
                    if k < idx {
                        assert(self.todos@[k] == old(self).todos@[k]);
                    } else {
                        assert(self.todos@[k] == old(self).todos@.subrange(
                            idx + 1,
                            old(self).todos@.len() as int,
                        )[k - idx]);
                    }
                }
                assert(self@ =~= drop_id_of(sv, id));
                assert forall|a: int, b: int|
                    0 <= a < self@.len() && 0 <= b < self@.len() && a != b implies self@[a].id
                    != self@[b].id by {
                    let ia: int = if a < idx { a } else { a + 1 };
                    let ib: int = if b < idx { b } else { b + 1 };
                    assert(self@[a].id == sv[ia].id);
                    assert(self@[b].id == sv[ib].id);
                }
            }
        } else {
            proof {
                assert(!has_id(sv, id));
                assert(self@ == drop_id_of(sv, id));
            }
        }
        self.refresh_on(today);
    }

    /// Removal as of the machine's current local day.
    pub fn remove(&mut self, id: u64)
        requires
            old(self).wf(),
        ensures
            exists|d: Date| final(self)@ == refresh_of(drop_id_of(old(self)@, id), d),
            final(self).wf(),
            final(self).path == old(self).path,
    {
        let today = crate::date::today_local();
        self.remove_on(id, today);
    }
}

/// Keeps exactly the parent entries that name a loaded task.
fn retain_present(v: &mut Vec<u64>, ids: &Vec<u64>)
    ensures
        final(v)@ == old(v)@.filter(present_in(ids@)),
{
    let ghost all = old(v)@;
    let mut kept: Vec<u64> = Vec::new();
    let mut i: usize = 0;
    while i < v.len()
        invariant
            0 <= i <= v@.len(),
            v@ == all,
            kept@ == all.subrange(0, i as int).filter(present_in(ids@)),
        decreases v@.len() - i,
    {
        let ghost pred = present_in(ids@);
        let ghost prefix = all.subrange(0, i as int);
        if ids_contain(ids, v[i]) {
            kept.push(v[i]);
        }
        proof {
            let e = all[i as int];
            assert(all.subrange(0, i + 1) =~= prefix + seq![e]);
            Seq::<u64>::filter_distributes_over_add(prefix, seq![e], pred);
            reveal_with_fuel(Seq::filter, 2);
            assert(seq![e].drop_last() =~= Seq::<u64>::empty());
            assert(seq![e].filter(pred) == if pred(e) { seq![e] } else { Seq::<u64>::empty() });
            assert(kept@ =~= all.subrange(0, i + 1).filter(pred));
        }
        i += 1;
    }
    assert(all.subrange(0, v@.len() as int) =~= all);
    *v = kept;
}


/// A sum capped at the largest 32-bit value.
pub open spec fn cap32(w: nat) -> nat {
    if w > u32::MAX as nat {
        u32::MAX as nat
    } else {
        w
    }
}

/// The leaf-weight sum under `id`, with recursion fuel. A task with no
/// direct children contributes its own weight when it passes the completion
/// filter; a task with children contributes the sum over the children that
/// pass the filter, its own weight ignored. Fuel only bounds the recursion
/// depth: on acyclic data any fuel beyond the repository size yields the
/// full sum.
pub open spec fn weight_of(s: Seq<TodoValue>, id: u64, completed: bool, fuel: nat) -> nat
    decreases fuel, 0nat,
{
    if fuel == 0 {
        0
    } else {
        let kids = children_once_of(s, id);
        if kids.len() == 0 {
            if todo_of(s, id).completed || !completed {
                todo_of(s, id).weight as nat
            } else {
                0
            }
        } else {
            weight_sum(s, kids, completed, (fuel - 1) as nat)
        }
    }
}

/// The summed weight of the listed tasks that pass the completion filter.
pub open spec fn weight_sum(s: Seq<TodoValue>, kids: Seq<u64>, completed: bool, fuel: nat) -> nat
    decreases fuel, kids.len(),
{
    if kids.len() == 0 {
        0
    } else {
        let head = kids.first();
        let head_part = if todo_of(s, head).completed || !completed {
            weight_of(s, head, completed, fuel)
        } else {
            0
        };
        head_part + weight_sum(s, kids.drop_first(), completed, fuel)
    }
}

/// Appending one task to a weight sum adds exactly its contribution.
proof fn lemma_weight_sum_push(s: Seq<TodoValue>, kids: Seq<u64>, k: u64, completed: bool, fuel: nat)
    ensures
        weight_sum(s, kids.push(k), completed, fuel) == weight_sum(s, kids, completed, fuel) + (
        if todo_of(s, k).completed || !completed {
            weight_of(s, k, completed, fuel)
        } else {
            0
        }),
    decreases kids.len(),
{
    if kids.len() == 0 {
        assert(kids.push(k).first() == k);
        assert(kids.push(k).drop_first() =~= kids);
    } else {
        assert(kids.push(k).first() == kids.first());
        assert(kids.push(k).drop_first() =~= kids.drop_first().push(k));
        lemma_weight_sum_push(s, kids.drop_first(), k, completed, fuel);
    }
}

/// A capped add of capped terms is the cap of the full sum.
fn cap_add(a: u32, b: u32) -> (r: u32)
    ensures
        r as nat == cap32(a as nat + b as nat),
{
    if a > u32::MAX - b {
        u32::MAX
    } else {
        a + b
    }
}

impl TodoInstance {
    /// The weight sum with an explicit recursion-depth bound.
    fn weight_fuel(&self, id: u64, completed: bool, fuel: u64) -> (r: u32)
        requires
            self.wf(),
            has_id(self@, id),
        ensures
            r as nat == cap32(weight_of(self@, id, completed, fuel as nat)),
        decreases fuel,
    {
        if fuel == 0 {
            return 0;
        }
        let ghost sv = self@;
        let kids = self.children_once(id);
        if kids.len() == 0 {
            let t = match self.get(id) {
                Some(t) => t,
                None => vstd::pervasive::unreached(),
            };
            if t.completed || !completed {
                t.weight
            } else {
                0
            }
        } else {
            let ghost ks = kids@;
            let mut base: u32 = 0;
            let mut j: usize = 0;
            while j < kids.len()
                invariant
                    self.wf(),
                    sv == self@,
                    ks == kids@,
                    ks == children_once_of(sv, id),
                    0 <= j <= ks.len(),
                    fuel >= 1,
                    base as nat == cap32(
                        weight_sum(sv, ks.subrange(0, j as int), completed, (fuel - 1) as nat),
                    ),
                decreases ks.len() - j,
            {
                let c = kids[j];
                proof {
                    let filtered = sv.filter(lists_parent(id));
                    assert(c == ids_of(filtered)[j as int]);
                    assert(filtered[j as int].id == c);
                    assert(filtered.contains(filtered[j as int]));
                    sv.lemma_filter_contains_rev(lists_parent(id), filtered[j as int]);
                    let w = choose|w: int| 0 <= w < sv.len() && sv[w] == filtered[j as int];
                    assert(sv[w].id == c);
                    assert(has_id(sv, c));
                }
                let tc = match self.get(c) {
                    Some(t) => t,
                    None => vstd::pervasive::unreached(),
                };
                let ghost prefix = ks.subrange(0, j as int);
                if tc.completed || !completed {
                    let w = self.weight_fuel(c, completed, fuel - 1);
                    base = cap_add(base, w);
                }
                proof {
                    assert(ks.subrange(0, j + 1) =~= prefix.push(c));
                    lemma_weight_sum_push(sv, prefix, c, completed, (fuel - 1) as nat);
                    assert(tc@ == todo_of(sv, c));
                }
                j += 1;
            }
            proof {
                assert(ks.subrange(0, ks.len() as int) =~= ks);
            }
            base
        }
    }

    /// The leaf-weight sum under `id`: the total when `completed` is false,
    /// the completed share when it is true; a sum beyond the 32-bit range is
    /// capped rather than overflowing.
    pub fn weight(&self, id: u64, completed: bool) -> (r: u32)
        requires
            self.wf(),
            has_id(self@, id),
        ensures
            r as nat == cap32(weight_of(self@, id, completed, self@.len() as nat)),
    {
        let n = self.todos.len();
        self.weight_fuel(id, completed, n as u64)
    }
}

/// Whether the id list contains `x`.
pub(crate) fn ids_contain(v: &Vec<u64>, x: u64) -> (r: bool)
    ensures
        r <==> v@.contains(x),
{
    let mut i: usize = 0;
    while i < v.len()
        invariant
            0 <= i <= v@.len(),
            forall|j: int| 0 <= j < i ==> v@[j] != x,
        decreases v@.len() - i,
    {
        if v[i] == x {
            return true;
        }
        i += 1;
    }
    false
}

} // verus!
