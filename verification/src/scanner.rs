//! The query engine: evaluates a predicate set against the repository and
//! expands every raw match into a dependency-complete display set. An anchor
//! match pulls in its whole ancestor chain unconditionally, and its
//! descendants that pass the completion predicate alone; a hard cap bounds
//! the scan on pathological inputs.

use crate::filter::{spec_matches, TodoFilter};
use crate::instance::{
    ancestor, edge, has_id, ids_contain, ids_of, lemma_edge_is_ancestor, todo_of, TodoInstance,
};
use crate::todo::TodoValue;
use vstd::prelude::*;

verus! {

broadcast use vstd::seq_lib::group_seq_properties;

/// The cap on a query's result set: the scan stops early rather than grow a
/// result beyond roughly this many entries.
pub const RESULT_CAP: usize = 1024;

/// Whether `c` is an anchor match: loaded, and passing the full strict
/// predicate set.
pub open spec fn is_anchor(s: Seq<TodoValue>, f: TodoFilter, c: u64) -> bool {
    has_id(s, c) && spec_matches(f, todo_of(s, c), true)
}

/// What an anchor `c` pulls into the result: itself, every ancestor
/// unconditionally, and every descendant that passes the completion
/// predicate alone.
pub open spec fn in_expansion(s: Seq<TodoValue>, f: TodoFilter, c: u64, x: u64) -> bool {
    ||| x == c
    ||| ancestor(s, c, x)
    ||| (has_id(s, x) && ancestor(s, x, c) && spec_matches(f, todo_of(s, x), false))
}

/// Whether `x` belongs to the query's full result: some anchor pulls it in.
pub open spec fn in_result(s: Seq<TodoValue>, f: TodoFilter, x: u64) -> bool {
    exists|c: u64| is_anchor(s, f, c) && in_expansion(s, f, c, x)
}

/// The end of an ancestor chain is itself a loaded task.
pub(crate) proof fn lemma_ancestor_present(s: Seq<TodoValue>, x: u64, a: u64)
    requires
        ancestor(s, x, a),
    ensures
        has_id(s, a),
{
    let p = choose|p: Seq<u64>| p.len() >= 2 && p.first() == x && p.last() == a && crate::instance::path_in(s, p);
    assert(edge(s, p[p.len() - 2], p[p.len() - 1]));
}

/// A scanner: one repository and the result cache of the last query.
pub struct TodoScanner {
    pub instance: TodoInstance,
    pub cache: Vec<u64>,
}

impl TodoScanner {
    /// Every cached identity names a loaded task.
    pub open spec fn cache_ok(&self) -> bool {
        forall|k: int|
            0 <= k < self.cache@.len() ==> has_id(self.instance@, #[trigger] self.cache@[k])
    }

    /// A scanner over the given repository, with an empty cache.
    pub fn new(instance: TodoInstance) -> (r: TodoScanner)
        ensures
            r.instance == instance,
            r.cache@.len() == 0,
    {
        TodoScanner { instance, cache: Vec::new() }
    }

    /// Whether the task passes the filter, strictly or leniently.
    pub fn match_filters(filter: &TodoFilter, todo: &crate::todo::Todo, strict: bool) -> (r: bool)
        ensures
            r == spec_matches(*filter, todo@, strict),
    {
        filter.test(todo, strict)
    }

    /// Runs the query: fills the cache with every anchor match, its whole
    /// ancestor chain, and its descendants that pass the completion
    /// predicate alone, without duplicates. A result kept within the cap is
    /// complete; a scan that outgrows the cap stops early and the result is
    /// merely sound.
    pub fn apply_filters(&mut self, filter: &TodoFilter)
        requires
            old(self).instance.wf(),
        ensures
            final(self).instance == old(self).instance,
            final(self).cache@.no_duplicates(),
            final(self).cache_ok(),
            forall|k: int|
                0 <= k < final(self).cache@.len() ==> in_result(
                    old(self).instance@,
                    *filter,
                    #[trigger] final(self).cache@[k],
                ),
            final(self).cache@.len() <= RESULT_CAP ==> (forall|x: u64|
                #[trigger] in_result(old(self).instance@, *filter, x)
                    ==> final(self).cache@.contains(x)),
    {
        let ghost sv = self.instance@;
        self.cache.clear();
        let ids = self.instance.todos();
        let n = ids.len();
        let mut stop = false;
        let mut i: usize = 0;
        while i < n && !stop
            invariant
                self.instance == old(self).instance,
                self.instance.wf(),
                sv == self.instance@,
                ids@ == ids_of(sv),
                n == ids@.len(),
                n == sv.len(),
                0 <= i <= n,
                self.cache@.no_duplicates(),
                forall|k: int|
                    0 <= k < self.cache@.len() ==> has_id(sv, #[trigger] self.cache@[k])
                        && in_result(sv, *filter, self.cache@[k]),
                stop ==> self.cache@.len() > RESULT_CAP,
                !stop ==> self.cache@.len() <= RESULT_CAP,
                forall|j: int, x: u64|
                    0 <= j < i && is_anchor(sv, *filter, sv[j].id) && #[trigger] in_expansion(
                        sv,
                        *filter,
                        sv[j].id,
                        x,
                    ) && !stop ==> self.cache@.contains(x),
            decreases n - i,
        {
            let todo_id = ids[i];
            assert(sv[i as int].id == todo_id);
            let anchor = match self.instance.get(todo_id) {
                Some(t) => TodoScanner::match_filters(filter, t, true),
                None => vstd::pervasive::unreached(),
            };
            let ghost cache0 = self.cache@;
            if anchor {
                assert(is_anchor(sv, *filter, todo_id));
                if !ids_contain(&self.cache, todo_id) {
                    proof {
                        assert(in_expansion(sv, *filter, todo_id, todo_id));
                        assert(in_result(sv, *filter, todo_id));
                    }
                    self.cache.push(todo_id);
                }
                assert(self.cache@.contains(todo_id));
                let ghost cache1 = self.cache@;
                let ups = self.instance.all_deps(todo_id);
                let mut m: usize = 0;
                while m < ups.len()
                    invariant
                        self.instance == old(self).instance,
                        self.instance.wf(),
                        sv == self.instance@,
                        is_anchor(sv, *filter, todo_id),
                        0 <= m <= ups@.len(),
                        forall|k: int|
                            0 <= k < ups@.len() ==> ancestor(sv, todo_id, #[trigger] ups@[k]),
                        self.cache@.no_duplicates(),
                        forall|k: int|
                            0 <= k < self.cache@.len() ==> has_id(sv, #[trigger] self.cache@[k])
                                && in_result(sv, *filter, self.cache@[k]),
                        forall|k: int| 0 <= k < m ==> self.cache@.contains(#[trigger] ups@[k]),
                        self.cache@.contains(todo_id),
                        cache1.len() <= self.cache@.len(),
                        forall|k: int| 0 <= k < cache1.len() ==> #[trigger] self.cache@[k] == cache1[k],
                    decreases ups@.len() - m,
                {
                    let u = ups[m];
                    if !ids_contain(&self.cache, u) {
                        proof {
                            assert(ancestor(sv, todo_id, u));
                            lemma_ancestor_present(sv, todo_id, u);
                            assert(in_expansion(sv, *filter, todo_id, u));
                            assert(in_result(sv, *filter, u));
                        }
                        self.cache.push(u);
                    }
                    m += 1;
                }
                let ghost cache2 = self.cache@;
                let downs = self.instance.children(todo_id);
                let mut m: usize = 0;
                while m < downs.len()
                    invariant
                        self.instance == old(self).instance,
                        self.instance.wf(),
                        sv == self.instance@,
                        is_anchor(sv, *filter, todo_id),
                        0 <= m <= downs@.len(),
                        forall|c: u64|
                            #[trigger] downs@.contains(c) <==> has_id(sv, c) && ancestor(
                                sv,
                                c,
                                todo_id,
                            ),
                        self.cache@.no_duplicates(),
                        forall|k: int|
                            0 <= k < self.cache@.len() ==> has_id(sv, #[trigger] self.cache@[k])
                                && in_result(sv, *filter, self.cache@[k]),
                        forall|k: int|
                            0 <= k < m && spec_matches(
                                *filter,
                                todo_of(sv, downs@[k]),
                                false,
                            ) ==> self.cache@.contains(#[trigger] downs@[k]),
                        self.cache@.contains(todo_id),
                        forall|a: u64| #[trigger] ancestor(sv, todo_id, a) ==> ups@.contains(a),
                        forall|k: int| 0 <= k < ups@.len() ==> self.cache@.contains(#[trigger] ups@[k]),
                        cache2.len() <= self.cache@.len(),
                        forall|k: int| 0 <= k < cache2.len() ==> #[trigger] self.cache@[k] == cache2[k],
                    decreases downs@.len() - m,
                {
                    let c = downs[m];
                    assert(downs@.contains(c));
                    let lenient = match self.instance.get(c) {
                        Some(t) => TodoScanner::match_filters(filter, t, false),
                        None => vstd::pervasive::unreached(),
                    };
                    if lenient && !ids_contain(&self.cache, c) {
                        proof {
                            assert(in_expansion(sv, *filter, todo_id, c));
                            assert(in_result(sv, *filter, c));
                        }
                        self.cache.push(c);
                    }
                    m += 1;
                }
                proof {
                    assert forall|x: u64|
                        is_anchor(sv, *filter, sv[i as int].id) && #[trigger] in_expansion(
                            sv,
                            *filter,
                            sv[i as int].id,
                            x,
                        ) implies self.cache@.contains(x) by {
                        if x == todo_id {
                        } else if ancestor(sv, todo_id, x) {
                            assert(ups@.contains(x));
                            let k = choose|k: int| 0 <= k < ups@.len() && ups@[k] == x;
                        } else {
                            assert(downs@.contains(x));
                            let k = choose|k: int| 0 <= k < downs@.len() && downs@[k] == x;
                            assert(spec_matches(*filter, todo_of(sv, downs@[k]), false));
                        }
                    }
                    assert forall|y: u64| cache0.contains(y) implies self.cache@.contains(y) by {
                        let k = choose|k: int| 0 <= k < cache0.len() && cache0[k] == y;
                        assert(cache1[k] == y);
                        assert(cache2[k] == y);
                        assert(self.cache@[k] == y);
                    }
                }
                if self.cache.len() > RESULT_CAP {
                    stop = true;
                }
            } else {
                proof {
                    assert(has_id(sv, todo_id));
                    let w = crate::instance::idx_of(sv, todo_id);
                    assert(0 <= w < sv.len() && sv[w].id == todo_id);
                    assert(w == i);
                    assert(todo_of(sv, todo_id) == sv[i as int]);
                    assert(!is_anchor(sv, *filter, sv[i as int].id));
                }
            }
            i += 1;
        }
        proof {
            if self.cache@.len() <= RESULT_CAP {
                assert(!stop);
                assert(i == n);
                assert forall|x: u64| #[trigger] in_result(sv, *filter, x) implies self.cache@.contains(x) by {
                    let c = choose|c: u64| is_anchor(sv, *filter, c) && in_expansion(sv, *filter, c, x);
                    let j = choose|j: int| 0 <= j < sv.len() && sv[j].id == c;
                    assert(is_anchor(sv, *filter, sv[j].id));
                    assert(in_expansion(sv, *filter, sv[j].id, x));
                }
            }
        }
    }
}

/// A display line of the query result: one task and its rendered text.
pub struct FormattedTodo {
    pub string: String,
    pub id: u64,
}

impl FormattedTodo {
    /// A display line from its parts.
    pub fn of(id: u64, string: String) -> (r: FormattedTodo)
        ensures
            r.id == id,
            r.string@ == string@,
    {
        FormattedTodo { string, id }
    }
}

/// One row of a rendered task forest: a task and its indent depth.
#[derive(Clone, Copy, Debug, PartialEq, Eq, Structural)]
pub struct TreeEntry {
    pub id: u64,
    pub depth: u64,
}

/// The rendered subtree under `id`, depth-first: the task itself at the
/// given depth, then each direct child lying in `range`, one indent level
/// deeper, in repository order. Fuel bounds the walked depth; on acyclic
/// data any fuel beyond the repository size covers the whole subtree.
pub open spec fn tree_of(
    s: Seq<TodoValue>,
    id: u64,
    range: Seq<u64>,
    depth: u64,
    fuel: nat,
) -> Seq<TreeEntry>
    decreases fuel, 0nat,
{
    if fuel == 0 {
        Seq::empty()
    } else {
        seq![TreeEntry { id, depth }] + tree_kids(
            s,
            crate::instance::children_once_of(s, id),
            range,
            ((depth + 1) as u64),
            (fuel - 1) as nat,
        )
    }
}

/// The rendered subtrees of the listed children that lie in `range`,
/// concatenated in order.
pub open spec fn tree_kids(
    s: Seq<TodoValue>,
    kids: Seq<u64>,
    range: Seq<u64>,
    depth: u64,
    fuel: nat,
) -> Seq<TreeEntry>
    decreases fuel, kids.len(),
{
    if kids.len() == 0 {
        Seq::empty()
    } else {
        (if range.contains(kids.first()) {
            tree_of(s, kids.first(), range, depth, fuel)
        } else {
            Seq::empty()
        }) + tree_kids(s, kids.drop_first(), range, depth, fuel)
    }
}

/// Appending one child to a rendered row extends the rows by exactly that
/// child's subtree, when it lies in the range.
proof fn lemma_tree_kids_push(
    s: Seq<TodoValue>,
    kids: Seq<u64>,
    k: u64,
    range: Seq<u64>,
    depth: u64,
    fuel: nat,
)
    ensures
        tree_kids(s, kids.push(k), range, depth, fuel) == tree_kids(s, kids, range, depth, fuel)
            + (if range.contains(k) {
            tree_of(s, k, range, depth, fuel)
        } else {
            Seq::<TreeEntry>::empty()
        }),
    decreases kids.len(),
{
    if kids.len() == 0 {
        assert(kids.push(k).first() == k);
        assert(kids.push(k).drop_first() =~= kids);
        assert(tree_kids(s, kids.push(k), range, depth, fuel) =~= tree_kids(
            s,
            kids,
            range,
            depth,
            fuel,
        ) + (if range.contains(k) {
            tree_of(s, k, range, depth, fuel)
        } else {
            Seq::<TreeEntry>::empty()
        }));
    } else {
        assert(kids.push(k).first() == kids.first());
        assert(kids.push(k).drop_first() =~= kids.drop_first().push(k));
        lemma_tree_kids_push(s, kids.drop_first(), k, range, depth, fuel);
        assert(tree_kids(s, kids.push(k), range, depth, fuel) =~= tree_kids(
            s,
            kids,
            range,
            depth,
            fuel,
        ) + (if range.contains(k) {
            tree_of(s, k, range, depth, fuel)
        } else {
            Seq::<TreeEntry>::empty()
        }));
    }
}

/// No entry of the listed parent ids lies in `range`: the root test of the
/// forest rendering.
pub open spec fn none_in(xs: Seq<u64>, range: Seq<u64>) -> bool
    decreases xs.len(),
{
    xs.len() == 0 || (!range.contains(xs.first()) && none_in(xs.drop_first(), range))
}

/// The full forest of a result set: for each member whose parents all lie
/// outside the set, its subtree restricted to the set, in cache order.
pub open spec fn forest_of(
    s: Seq<TodoValue>,
    roots: Seq<u64>,
    range: Seq<u64>,
    fuel: nat,
) -> Seq<TreeEntry>
    decreases roots.len(),
{
    if roots.len() == 0 {
        Seq::empty()
    } else {
        (if none_in(todo_of(s, roots.first()).dependents, range) {
            tree_of(s, roots.first(), range, 0, fuel)
        } else {
            Seq::empty()
        }) + forest_of(s, roots.drop_first(), range, fuel)
    }
}

/// Whether none of the id list's entries, from `from` on, lies in `range`.
fn none_contained(xs: &Vec<u64>, from: usize, range: &Vec<u64>) -> (r: bool)
    requires
        from <= xs@.len(),
    ensures
        r == none_in(xs@.skip(from as int), range@),
    decreases xs@.len() - from,
{
    if from == xs.len() {
        assert(xs@.skip(from as int) =~= Seq::<u64>::empty());
        true
    } else {
        let ghost tail = xs@.skip(from as int);
        assert(tail.first() == xs@[from as int]);
        assert(tail.drop_first() =~= xs@.skip(from as int + 1));
        if ids_contain(range, xs[from]) {
            false
        } else {
            none_contained(xs, from + 1, range)
        }
    }
}

impl TodoScanner {
    /// The rendered subtree under `id`, restricted to `range`.
    fn tree_rec(&self, id: u64, range: &Vec<u64>, depth: u64, fuel: u64) -> (r: Vec<TreeEntry>)
        requires
            self.instance.wf(),
            depth as nat + fuel as nat <= u64::MAX as nat,
        ensures
            r@ == tree_of(self.instance@, id, range@, depth, fuel as nat),
        decreases fuel,
    {
        let ghost sv = self.instance@;
        let mut r: Vec<TreeEntry> = Vec::new();
        if fuel == 0 {
            assert(r@ =~= tree_of(sv, id, range@, depth, fuel as nat));
            return r;
        }
        r.push(TreeEntry { id, depth });
        let kids = self.instance.children_once(id);
        let ghost ks = kids@;
        let mut j: usize = 0;
        while j < kids.len()
            invariant
                self.instance.wf(),
                sv == self.instance@,
                ks == kids@,
                ks == crate::instance::children_once_of(sv, id),
                0 <= j <= ks.len(),
                depth as nat + fuel as nat <= u64::MAX as nat,
                fuel >= 1,
                r@ == seq![TreeEntry { id, depth }] + tree_kids(
                    sv,
                    ks.subrange(0, j as int),
                    range@,
                    ((depth + 1) as u64),
                    (fuel - 1) as nat,
                ),
            decreases ks.len() - j,
        {
            let c = kids[j];
            let ghost prefix = ks.subrange(0, j as int);
            if ids_contain(range, c) {
                let mut sub = self.tree_rec(c, range, depth + 1, fuel - 1);
                r.append(&mut sub);
            }
            proof {
                assert(ks.subrange(0, j + 1) =~= prefix.push(c));
                lemma_tree_kids_push(
                    sv,
                    prefix,
                    c,
                    range@,
                    ((depth + 1) as u64),
                    (fuel - 1) as nat,
                );
            }
            j += 1;
        }
        assert(ks.subrange(0, ks.len() as int) =~= ks);
        r
    }

    /// The rendered subtree under `id`, restricted to `range`: the task,
    /// then each direct child in the range one level deeper, depth-first.
    pub fn as_tree(&self, id: u64, range: &Vec<u64>) -> (r: Vec<TreeEntry>)
        requires
            self.instance.wf(),
        ensures
            r@ == tree_of(self.instance@, id, range@, 0, self.instance@.len() as nat),
    {
        let n = self.instance.todos.len();
        self.tree_rec(id, range, 0, n as u64)
    }

    /// The forest of the cached result set: every cached task with no cached
    /// parent becomes a root, and each root's subtree is walked depth-first
    /// through the direct children that lie in the set. Parents always come
    /// before their children.
    pub fn list_entries(&self) -> (r: Vec<TreeEntry>)
        requires
            self.instance.wf(),
            self.cache_ok(),
        ensures
            r@ == forest_of(
                self.instance@,
                self.cache@,
                self.cache@,
                self.instance@.len() as nat,
            ),
    {
        let ghost sv = self.instance@;
        let ghost cv = self.cache@;
        let n = self.instance.todos.len();
        let mut r: Vec<TreeEntry> = Vec::new();
        let mut i: usize = 0;
        while i < self.cache.len()
            invariant
                self.instance.wf(),
                self.cache_ok(),
                sv == self.instance@,
                cv == self.cache@,
                n == sv.len(),
                0 <= i <= cv.len(),
                r@ + forest_of(sv, cv.skip(i as int), cv, n as nat) == forest_of(
                    sv,
                    cv,
                    cv,
                    n as nat,
                ),
            decreases cv.len() - i,
        {
            let ghost tail = cv.skip(i as int);
            assert(tail.first() == cv[i as int]);
            assert(tail.drop_first() =~= cv.skip(i as int + 1));
            let todo_id = self.cache[i];
            let t = match self.instance.get(todo_id) {
                Some(t) => t,
                None => vstd::pervasive::unreached(),
            };
            let is_root = none_contained(&t.dependents, 0, &self.cache);
            proof {
                assert(t.dependents@.skip(0) =~= t@.dependents);
                assert(t@ == todo_of(sv, cv[i as int]));
            }
            if is_root {
                let mut sub = self.tree_rec(todo_id, &self.cache, 0, n as u64);
                r.append(&mut sub);
            }
            proof {
                assert(r@ + forest_of(sv, cv.skip(i as int + 1), cv, n as nat) =~= forest_of(
                    sv,
                    cv,
                    cv,
                    n as nat,
                ));
            }
            i += 1;
        }
        proof {
            assert(cv.skip(cv.len() as int) =~= Seq::<u64>::empty());
            assert(r@ =~= forest_of(sv, cv, cv, n as nat));
        }
        r
    }
}

} // verus!
