//! The perspective a caller views tasks through: today's agenda, upcoming
//! work, unscheduled tasks, the logbook of finished ones, everything, or one
//! project's subtree. A perspective both tests single tasks and drives a
//! keyword query that expands matches into dependency-complete sets.

use crate::date::Date;
use crate::filter::TodoCompleteFilter;
use crate::instance::{ancestor, has_id, ids_contain, ids_of, todo_of, TodoInstance};
use crate::text::{contains_sub, lower_of, lowercase, str_contains};
use crate::todo::{tags_view, Todo, TodoValue};
use vstd::prelude::*;

verus! {

broadcast use vstd::seq_lib::group_seq_properties;

/// One perspective on the task set.
#[derive(Debug, Clone, Copy, PartialEq, Eq, Structural)]
pub enum TodoView {
    Today,
    Upcoming,
    Anytime,
    Logbook,
    All,
    Project(u64),
}

/// Whether some listed tag holds the key as a substring, case-folded.
pub open spec fn tag_hits(tags: Seq<Seq<char>>, key: Seq<char>) -> bool
    decreases tags.len(),
{
    tags.len() > 0 && (contains_sub(lower_of(tags.first()), key) || tag_hits(
        tags.drop_first(),
        key,
    ))
}

/// Whether the task's name, details or some tag holds the key, case-folded.
pub open spec fn keyword_hits(t: TodoValue, key: Seq<char>) -> bool {
    ||| contains_sub(lower_of(t.name), key)
    ||| contains_sub(lower_of(t.details), key)
    ||| tag_hits(t.tags, key)
}

/// Whether the task holds every searched keyword somewhere.
pub open spec fn keywords_match(t: TodoValue, keys: Seq<Seq<char>>) -> bool
    decreases keys.len(),
{
    keys.len() == 0 || (keyword_hits(t, keys.first()) && keywords_match(t, keys.drop_first()))
}

impl TodoView {
    /// Whether the loaded task `id` belongs to this perspective on day
    /// `today`: scheduled today or due for the agenda, scheduled or due
    /// later for upcoming, unscheduled for anytime, completed for the
    /// logbook, anything for all, and the project's descendants or the
    /// project itself for a project.
    pub open spec fn spec_test(self, s: Seq<TodoValue>, id: u64, today: Date) -> bool {
        let t = todo_of(s, id);
        match self {
            TodoView::Today => match t.time {
                Some(d) => d == today,
                None => match t.deadline {
                    Some(m) => m.days <= today.days,
                    None => false,
                },
            },
            TodoView::Upcoming => match t.time {
                Some(d) => d != today,
                None => match t.deadline {
                    Some(m) => today.days < m.days,
                    None => false,
                },
            },
            TodoView::Anytime => t.time is None && t.deadline is None,
            TodoView::Logbook => t.completed,
            TodoView::All => true,
            TodoView::Project(p) => ancestor(s, id, p) || id == p,
        }
    }

    /// Whether the loaded task belongs to this perspective as of `today`.
    pub fn test(&self, id: u64, instance: &TodoInstance, today: Date) -> (r: bool)
        requires
            instance.wf(),
            has_id(instance@, id),
        ensures
            r == self.spec_test(instance@, id, today),
    {
        let todo = match instance.get(id) {
            Some(t) => t,
            None => vstd::pervasive::unreached(),
        };
        match self {
            TodoView::Today => match &todo.time {
                Some(d) => d.same_day(&today),
                None => match &todo.deadline {
                    Some(m) => m.days <= today.days,
                    None => false,
                },
            },
            TodoView::Upcoming => match &todo.time {
                Some(d) => !d.same_day(&today),
                None => match &todo.deadline {
                    Some(m) => today.days < m.days,
                    None => false,
                },
            },
            TodoView::Anytime => todo.time.is_none() && todo.deadline.is_none(),
            TodoView::Logbook => todo.completed,
            TodoView::All => true,
            TodoView::Project(p) => {
                if id == *p {
                    true
                } else {
                    let kids = instance.children(*p);
                    let hit = ids_contain(&kids, id);
                    proof {
                        if hit {
                            assert(kids@.contains(id));
                        } else {
                            assert(!kids@.contains(id));
                        }
                    }
                    hit
                }
            },
        }
    }

    /// The completion predicate a fresh view starts with: the logbook shows
    /// finished tasks, every other perspective the unfinished ones.
    pub fn default_complete_filter(&self) -> (r: TodoCompleteFilter)
        ensures
            self is Logbook ==> r is Completed,
            !(self is Logbook) ==> r is NotComplete,
    {
        match self {
            TodoView::Logbook => TodoCompleteFilter::Completed,
            _ => TodoCompleteFilter::NotComplete,
        }
    }

    /// Whether a task may be created from this perspective.
    pub fn allow_create_todo(&self) -> (r: bool)
        ensures
            r == (self is Today || self is Project || self is Anytime || self is All),
    {
        match self {
            TodoView::Today | TodoView::Project(_) | TodoView::Anytime | TodoView::All => true,
            _ => false,
        }
    }

    /// Stamps a freshly created task with the perspective it was created
    /// from: today's agenda schedules it for today, a project links it under
    /// the project; the other creating perspectives leave it untouched.
    pub fn process_todo(&self, todo: &mut Todo, today: Date)
        requires
            self is Today || self is Project || self is Anytime || self is All,
        ensures
            self is Today ==> final(todo)@ == (TodoValue { time: Some(today), ..old(todo)@ }),
            self matches TodoView::Project(p) ==> final(todo)@ == (TodoValue {
                dependents: old(todo)@.dependents.push(*p),
                ..old(todo)@
            }),
            self is Anytime || self is All ==> final(todo)@ == old(todo)@,
    {
        match self {
            TodoView::Today => {
                todo.time = Some(today);
                assert(todo@ =~= (TodoValue { time: Some(today), ..old(todo)@ }));
            },
            TodoView::Project(p) => {
                todo.dependents.push(*p);
                assert(todo@ =~= (TodoValue {
                    dependents: old(todo)@.dependents.push(*p),
                    ..old(todo)@
                }));
            },
            _ => {
                assert(todo@ =~= old(todo)@);
            },
        }
    }
}

/// Whether some tag from `from` on holds the key, case-folded.
fn tag_hits_exec(tags: &Vec<String>, from: usize, key: &String) -> (r: bool)
    requires
        from <= tags@.len(),
    ensures
        r == tag_hits(tags_view(tags@).skip(from as int), key@),
    decreases tags@.len() - from,
{
    let ghost tv = tags_view(tags@);
    if from == tags.len() {
        assert(tv.skip(from as int) =~= Seq::<Seq<char>>::empty());
        false
    } else {
        assert(tv.skip(from as int).first() == tags@[from as int]@);
        assert(tv.skip(from as int).drop_first() =~= tv.skip(from as int + 1));
        let folded = lowercase(tags[from].as_str());
        if str_contains(folded.as_str(), key.as_str()) {
            true
        } else {
            tag_hits_exec(tags, from + 1, key)
        }
    }
}

/// Whether the task's name, details or some tag holds the key, case-folded.
fn keyword_hits_exec(todo: &Todo, key: &String) -> (r: bool)
    ensures
        r == keyword_hits(todo@, key@),
{
    let folded_name = lowercase(todo.metadata.name.as_str());
    if str_contains(folded_name.as_str(), key.as_str()) {
        return true;
    }
    let folded_details = lowercase(todo.metadata.details.as_str());
    if str_contains(folded_details.as_str(), key.as_str()) {
        return true;
    }
    let ghost tv = tags_view(todo.tags@);
    assert(tv.skip(0) =~= todo@.tags);
    tag_hits_exec(&todo.tags, 0, key)
}

/// Whether the task holds every keyword from `from` on.
fn keywords_match_exec(todo: &Todo, keywords: &Vec<String>, from: usize) -> (r: bool)
    requires
        from <= keywords@.len(),
    ensures
        r == keywords_match(todo@, tags_view(keywords@).skip(from as int)),
    decreases keywords@.len() - from,
{
    let ghost kv = tags_view(keywords@);
    if from == keywords.len() {
        assert(kv.skip(from as int) =~= Seq::<Seq<char>>::empty());
        true
    } else {
        assert(kv.skip(from as int).first() == keywords@[from as int]@);
        assert(kv.skip(from as int).drop_first() =~= kv.skip(from as int + 1));
        if !keyword_hits_exec(todo, &keywords[from]) {
            false
        } else {
            keywords_match_exec(todo, keywords, from + 1)
        }
    }
}

/// Whether `c` anchors the perspective's query: loaded, passing the
/// completion predicate, in the perspective, and holding every keyword.
pub open spec fn view_anchor(
    s: Seq<TodoValue>,
    v: TodoView,
    cf: TodoCompleteFilter,
    keys: Seq<Seq<char>>,
    c: u64,
    today: Date,
) -> bool {
    &&& has_id(s, c)
    &&& cf.spec_test(todo_of(s, c).completed)
    &&& v.spec_test(s, c, today)
    &&& keywords_match(todo_of(s, c), keys)
}

/// What an anchor pulls into the perspective's result: itself, its
/// ancestors, and its descendants that pass the completion predicate.
pub open spec fn view_expansion(
    s: Seq<TodoValue>,
    cf: TodoCompleteFilter,
    c: u64,
    x: u64,
) -> bool {
    ||| x == c
    ||| ancestor(s, c, x)
    ||| (has_id(s, x) && ancestor(s, x, c) && cf.spec_test(todo_of(s, x).completed))
}

/// Whether `x` belongs to the perspective's full result.
pub open spec fn view_in_result(
    s: Seq<TodoValue>,
    v: TodoView,
    cf: TodoCompleteFilter,
    keys: Seq<Seq<char>>,
    x: u64,
    today: Date,
) -> bool {
    exists|c: u64| view_anchor(s, v, cf, keys, c, today) && view_expansion(s, cf, c, x)
}

impl TodoView {
    /// Runs the perspective's query: every anchor match, its whole ancestor
    /// chain, and its descendants that pass the completion predicate,
    /// without duplicates. A result kept within the cap is complete; a scan
    /// that outgrows the cap stops early and the result is merely sound.
    pub fn filter(
        &self,
        instance: &TodoInstance,
        complete: &TodoCompleteFilter,
        keywords: &Vec<String>,
        today: Date,
    ) -> (r: Vec<u64>)
        requires
            instance.wf(),
        ensures
            r@.no_duplicates(),
            forall|k: int|
                0 <= k < r@.len() ==> has_id(instance@, #[trigger] r@[k]) && view_in_result(
                    instance@,
                    *self,
                    *complete,
                    tags_view(keywords@),
                    r@[k],
                    today,
                ),
            r@.len() <= crate::scanner::RESULT_CAP ==> (forall|x: u64|
                #[trigger] view_in_result(
                    instance@,
                    *self,
                    *complete,
                    tags_view(keywords@),
                    x,
                    today,
                ) ==> r@.contains(x)),
    {
        let ghost sv = instance@;
        let ghost keys = tags_view(keywords@);
        let ids = instance.todos();
        let n = ids.len();
        let mut vec: Vec<u64> = Vec::new();
        let mut stop = false;
        let mut i: usize = 0;
        while i < n && !stop
            invariant
                instance.wf(),
                sv == instance@,
                keys == tags_view(keywords@),
                ids@ == ids_of(sv),
                n == ids@.len(),
                n == sv.len(),
                0 <= i <= n,
                vec@.no_duplicates(),
                forall|k: int|
                    0 <= k < vec@.len() ==> has_id(sv, #[trigger] vec@[k]) && view_in_result(
                        sv,
                        *self,
                        *complete,
                        keys,
                        vec@[k],
                        today,
                    ),
                stop ==> vec@.len() > crate::scanner::RESULT_CAP,
                !stop ==> vec@.len() <= crate::scanner::RESULT_CAP,
                forall|j: int, x: u64|
                    0 <= j < i && view_anchor(sv, *self, *complete, keys, sv[j].id, today)
                        && #[trigger] view_expansion(sv, *complete, sv[j].id, x) && !stop
                        ==> vec@.contains(x),
            decreases n - i,
        {
            let todo_id = ids[i];
            assert(sv[i as int].id == todo_id);
            let t = match instance.get(todo_id) {
                Some(t) => t,
                None => vstd::pervasive::unreached(),
            };
            let anchor = complete.test(t) && self.test(todo_id, instance, today)
                && keywords_match_exec(t, keywords, 0);
            proof {
                assert(keys.skip(0) =~= keys);
                assert(t@ == todo_of(sv, todo_id));
                let w = crate::instance::idx_of(sv, todo_id);
                assert(0 <= w < sv.len() && sv[w].id == todo_id);
                assert(w == i);
                assert(anchor == view_anchor(sv, *self, *complete, keys, sv[i as int].id, today));
            }
            let ghost vec0 = vec@;
            if anchor {
                if !ids_contain(&vec, todo_id) {
                    proof {
                        assert(view_expansion(sv, *complete, todo_id, todo_id));
                        assert(view_in_result(sv, *self, *complete, keys, todo_id, today));
                    }
                    vec.push(todo_id);
                }
                assert(vec@.contains(todo_id));
                let ghost vec1 = vec@;
                let ups = instance.all_deps(todo_id);
                let mut m: usize = 0;
                while m < ups.len()
                    invariant
                        instance.wf(),
                        sv == instance@,
                        keys == tags_view(keywords@),
                        view_anchor(sv, *self, *complete, keys, todo_id, today),
                        0 <= m <= ups@.len(),
                        forall|k: int|
                            0 <= k < ups@.len() ==> ancestor(sv, todo_id, #[trigger] ups@[k]),
                        vec@.no_duplicates(),
                        forall|k: int|
                            0 <= k < vec@.len() ==> has_id(sv, #[trigger] vec@[k])
                                && view_in_result(sv, *self, *complete, keys, vec@[k], today),
                        forall|k: int| 0 <= k < m ==> vec@.contains(#[trigger] ups@[k]),
                        vec@.contains(todo_id),
                        vec1.len() <= vec@.len(),
                        forall|k: int| 0 <= k < vec1.len() ==> #[trigger] vec@[k] == vec1[k],
                    decreases ups@.len() - m,
                {
                    let u = ups[m];
                    if !ids_contain(&vec, u) {
                        proof {
                            assert(ancestor(sv, todo_id, u));
                            assert(view_expansion(sv, *complete, todo_id, u));
                            assert(view_in_result(sv, *self, *complete, keys, u, today));
                            crate::scanner::lemma_ancestor_present(sv, todo_id, u);
                        }
                        vec.push(u);
                    }
                    m += 1;
                }
                let ghost vec2 = vec@;
                let downs = instance.children(todo_id);
                let mut m: usize = 0;
                while m < downs.len()
                    invariant
                        instance.wf(),
                        sv == instance@,
                        keys == tags_view(keywords@),
                        view_anchor(sv, *self, *complete, keys, todo_id, today),
                        0 <= m <= downs@.len(),
                        forall|c: u64|
                            #[trigger] downs@.contains(c) <==> has_id(sv, c) && ancestor(
                                sv,
                                c,
                                todo_id,
                            ),
                        vec@.no_duplicates(),
                        forall|k: int|
                            0 <= k < vec@.len() ==> has_id(sv, #[trigger] vec@[k])
                                && view_in_result(sv, *self, *complete, keys, vec@[k], today),
                        forall|k: int|
                            0 <= k < m && (*complete).spec_test(todo_of(sv, downs@[k]).completed)
                                ==> vec@.contains(#[trigger] downs@[k]),
                        vec@.contains(todo_id),
                        forall|a: u64| #[trigger] ancestor(sv, todo_id, a) ==> ups@.contains(a),
                        forall|k: int| 0 <= k < ups@.len() ==> vec@.contains(#[trigger] ups@[k]),
                        vec2.len() <= vec@.len(),
                        forall|k: int| 0 <= k < vec2.len() ==> #[trigger] vec@[k] == vec2[k],
                    decreases downs@.len() - m,
                {
                    let c = downs[m];
                    assert(downs@.contains(c));
                    let lenient = match instance.get(c) {
                        Some(tc) => complete.test(tc),
                        None => vstd::pervasive::unreached(),
                    };
                    if lenient && !ids_contain(&vec, c) {
                        proof {
                            assert(view_expansion(sv, *complete, todo_id, c));
                            assert(view_in_result(sv, *self, *complete, keys, c, today));
                        }
                        vec.push(c);
                    }
                    m += 1;
                }
                proof {
                    assert forall|x: u64|
                        view_anchor(sv, *self, *complete, keys, sv[i as int].id, today)
                            && #[trigger] view_expansion(
                            sv,
                            *complete,
                            sv[i as int].id,
                            x,
                        ) implies vec@.contains(x) by {
                        if x == todo_id {
                        } else if ancestor(sv, todo_id, x) {
                            assert(ups@.contains(x));
                            let k = choose|k: int| 0 <= k < ups@.len() && ups@[k] == x;
                        } else {
                            assert(downs@.contains(x));
                            let k = choose|k: int| 0 <= k < downs@.len() && downs@[k] == x;
                            assert((*complete).spec_test(todo_of(sv, downs@[k]).completed));
                        }
                    }
                    assert forall|y: u64| vec0.contains(y) implies vec@.contains(y) by {
                        let k = choose|k: int| 0 <= k < vec0.len() && vec0[k] == y;
                        assert(vec1[k] == y);
                        assert(vec2[k] == y);
                        assert(vec@[k] == y);
                    }
                }
            } else {
                proof {
                    assert(!view_anchor(sv, *self, *complete, keys, sv[i as int].id, today));
                }
            }
            if vec.len() > crate::scanner::RESULT_CAP {
                stop = true;
            }
            i += 1;
        }
        proof {
            if vec@.len() <= crate::scanner::RESULT_CAP {
                assert(!stop);
                assert(i == n);
                assert forall|x: u64|
                    #[trigger] view_in_result(
                        sv,
                        *self,
                        *complete,
                        keys,
                        x,
                        today,
                    ) implies vec@.contains(x) by {
                    let c = choose|c: u64|
                        view_anchor(sv, *self, *complete, keys, c, today) && view_expansion(
                            sv,
                            *complete,
                            c,
                            x,
                        );
                    let j = choose|j: int| 0 <= j < sv.len() && sv[j].id == c;
                    assert(view_anchor(sv, *self, *complete, keys, sv[j].id, today));
                    assert(view_expansion(sv, *complete, sv[j].id, x));
                }
            }
        }
        vec
    }
}

} // verus!
