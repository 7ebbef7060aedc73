//! The query predicates: completion state, exact and ranged date
//! constraints, required and forbidden tags, and case-insensitive name
//! search. A task matching all of them anchors a query result; the
//! completion predicate alone also readmits descendants of an anchor.

use crate::date::Date;
use crate::text::{contains_sub, lower_of, lowercase, str_contains};
use crate::todo::{Todo, TodoValue};
use vstd::prelude::*;

verus! {

/// The completion predicate: only completed tasks, only unfinished ones, or
/// every task.
pub enum TodoCompleteFilter {
    Completed,
    NotComplete,
    All,
}

impl TodoCompleteFilter {
    /// Whether a task of the given completion state passes.
    pub open spec fn spec_test(self, completed: bool) -> bool {
        match self {
            TodoCompleteFilter::Completed => completed,
            TodoCompleteFilter::NotComplete => !completed,
            TodoCompleteFilter::All => true,
        }
    }

    /// Whether the task passes the completion predicate.
    pub fn test(&self, todo: &Todo) -> (r: bool)
        ensures
            r == self.spec_test(todo@.completed),
    {
        match self {
            TodoCompleteFilter::Completed => todo.completed,
            TodoCompleteFilter::NotComplete => !todo.completed,
            TodoCompleteFilter::All => true,
        }
    }
}

/// One constraint on an optional date field. The field must be set in any
/// case; `Present` asks no more, `Equals` asks for one exact day, `Range`
/// bounds the day on whichever sides are given, inclusively.
#[derive(Clone, Copy)]
pub enum DateTest {
    Present,
    Equals(Date),
    Range(Option<Date>, Option<Date>),
}

impl DateTest {
    /// Whether the day `d` passes this constraint.
    pub open spec fn spec_test(self, d: Date) -> bool {
        match self {
            DateTest::Present => true,
            DateTest::Equals(m) => d.days == m.days,
            DateTest::Range(lo, hi) => (match lo {
                Some(l) => l.days <= d.days,
                None => true,
            }) && (match hi {
                Some(h) => d.days <= h.days,
                None => true,
            }),
        }
    }

    /// Whether the day passes this constraint.
    pub fn test(&self, d: &Date) -> (r: bool)
        ensures
            r == self.spec_test(*d),
    {
        match self {
            DateTest::Present => true,
            DateTest::Equals(m) => d.days == m.days,
            DateTest::Range(lo, hi) => {
                let lo_ok = match lo {
                    Some(l) => l.days <= d.days,
                    None => true,
                };
                let hi_ok = match hi {
                    Some(h) => d.days <= h.days,
                    None => true,
                };
                lo_ok && hi_ok
            },
        }
    }
}

/// One tag constraint: the tag must be present, or, when `forbidden`, must
/// be absent.
pub struct TagTest {
    pub tag: String,
    pub forbidden: bool,
}

/// A full predicate set over task fields.
pub struct TodoFilter {
    pub completion: TodoCompleteFilter,
    pub scheduled: Vec<DateTest>,
    pub deadline: Vec<DateTest>,
    pub tags: Vec<TagTest>,
    pub name: Option<String>,
}

/// Whether every scheduled-day constraint holds of the task's scheduled day.
pub open spec fn scheduled_pass(f: TodoFilter, t: TodoValue) -> bool {
    match t.time {
        Some(d) => forall|k: int|
            0 <= k < f.scheduled@.len() ==> (#[trigger] f.scheduled@[k]).spec_test(d),
        None => f.scheduled@.len() == 0,
    }
}

/// Whether every deadline constraint holds of the deadline's day.
pub open spec fn deadline_pass(f: TodoFilter, t: TodoValue) -> bool {
    match t.deadline {
        Some(m) => forall|k: int|
            0 <= k < f.deadline@.len() ==> (#[trigger] f.deadline@[k]).spec_test(
                Date { days: m.days },
            ),
        None => f.deadline@.len() == 0,
    }
}

/// Whether every tag constraint holds: each tag required or forbidden as
/// stated.
pub open spec fn tags_pass(f: TodoFilter, t: TodoValue) -> bool {
    forall|k: int|
        0 <= k < f.tags@.len() ==> (if (#[trigger] f.tags@[k]).forbidden {
            !t.tags.contains(f.tags@[k].tag@)
        } else {
            t.tags.contains(f.tags@[k].tag@)
        })
}

/// Whether the name holds the searched text, case-insensitively.
pub open spec fn name_pass(f: TodoFilter, t: TodoValue) -> bool {
    f.name is Some ==> contains_sub(lower_of(t.name), lower_of(f.name->0@))
}

/// Whether the task passes every strict predicate: the scheduled-day,
/// deadline, tag and name constraints together.
pub open spec fn spec_strict_matches(f: TodoFilter, t: TodoValue) -> bool {
    scheduled_pass(f, t) && deadline_pass(f, t) && tags_pass(f, t) && name_pass(f, t)
}

/// Whether the task passes the filter: the completion predicate always, and
/// the strict predicates when `strict` asks for them.
pub open spec fn spec_matches(f: TodoFilter, t: TodoValue, strict: bool) -> bool {
    &&& f.completion.spec_test(t.completed)
    &&& (strict ==> spec_strict_matches(f, t))
}

impl TodoFilter {
    /// A filter with no constraint beyond the completion predicate.
    pub fn of_completion(completion: TodoCompleteFilter) -> (r: TodoFilter)
        ensures
            r.completion == completion,
            r.scheduled@.len() == 0,
            r.deadline@.len() == 0,
            r.tags@.len() == 0,
            r.name is None,
    {
        TodoFilter {
            completion,
            scheduled: Vec::new(),
            deadline: Vec::new(),
            tags: Vec::new(),
            name: None,
        }
    }

    /// Whether the scheduled-day constraints hold of the task.
    fn check_scheduled(&self, todo: &Todo) -> (r: bool)
        ensures
            r == scheduled_pass(*self, todo@),
    {
        match &todo.time {
            Some(d) => {
                let mut k: usize = 0;
                while k < self.scheduled.len()
                    invariant
                        0 <= k <= self.scheduled@.len(),
                        todo@.time == Some(*d),
                        forall|j: int|
                            0 <= j < k ==> (#[trigger] self.scheduled@[j]).spec_test(*d),
                    decreases self.scheduled@.len() - k,
                {
                    if !self.scheduled[k].test(d) {
                        proof {
                            assert((k as int) < self.scheduled@.len());
                            if scheduled_pass(*self, todo@) {
                                let z = self.scheduled@[k as int];
                                assert(z.spec_test(*d));
                            }
                        }
                        return false;
                    }
                    k += 1;
                }
                assert(k == self.scheduled@.len());
                assert forall|j: int|
                    0 <= j < self.scheduled@.len() implies (
                #[trigger] self.scheduled@[j]).spec_test(*d) by {
                    assert(0 <= j < k);
                }
                true
            },
            None => {
                if self.scheduled.len() == 0 {
                    true
                } else {
                    false
                }
            },
        }
    }

    /// Whether the deadline constraints hold of the task.
    fn check_deadline(&self, todo: &Todo) -> (r: bool)
        ensures
            r == deadline_pass(*self, todo@),
    {
        match &todo.deadline {
            Some(m) => {
                let day = m.date();
                assert(day == (Date { days: todo@.deadline->0.days }));
                let mut k: usize = 0;
                while k < self.deadline.len()
                    invariant
                        0 <= k <= self.deadline@.len(),
                        todo@.deadline == Some(*m),
                        day == (Date { days: m.days }),
                        forall|j: int|
                            0 <= j < k ==> (#[trigger] self.deadline@[j]).spec_test(day),
                    decreases self.deadline@.len() - k,
                {
                    if !self.deadline[k].test(&day) {
                        proof {
                            assert((k as int) < self.deadline@.len());
                            if deadline_pass(*self, todo@) {
                                let z = self.deadline@[k as int];
                                assert(z.spec_test(day));
                            }
                        }
                        return false;
                    }
                    k += 1;
                }
                assert(k == self.deadline@.len());
                assert forall|j: int|
                    0 <= j < self.deadline@.len() implies (#[trigger] self.deadline@[j]).spec_test(
                    day,
                ) by {
                    assert(0 <= j < k);
                }
                true
            },
            None => {
                if self.deadline.len() == 0 {
                    true
                } else {
                    false
                }
            },
        }
    }

    /// Whether the tag constraints hold of the task.
    fn check_tags(&self, todo: &Todo) -> (r: bool)
        ensures
            r == tags_pass(*self, todo@),
    {
        let mut k: usize = 0;
        while k < self.tags.len()
            invariant
                0 <= k <= self.tags@.len(),
                forall|j: int|
                    0 <= j < k ==> (if (#[trigger] self.tags@[j]).forbidden {
                        !todo@.tags.contains(self.tags@[j].tag@)
                    } else {
                        todo@.tags.contains(self.tags@[j].tag@)
                    }),
            decreases self.tags@.len() - k,
        {
            let present = todo.has_tag(&self.tags[k].tag);
            let pass = if self.tags[k].forbidden {
                !present
            } else {
                present
            };
            if !pass {
                proof {
                    assert((k as int) < self.tags@.len());
                    if tags_pass(*self, todo@) {
                        let z = self.tags@[k as int];
                        assert(if z.forbidden {
                            !todo@.tags.contains(z.tag@)
                        } else {
                            todo@.tags.contains(z.tag@)
                        });
                    }
                }
                return false;
            }
            k += 1;
        }
        assert(k == self.tags@.len());
        assert forall|j: int|
            0 <= j < self.tags@.len() implies (if (#[trigger] self.tags@[j]).forbidden {
            !todo@.tags.contains(self.tags@[j].tag@)
        } else {
            todo@.tags.contains(self.tags@[j].tag@)
        }) by {
            assert(0 <= j < k);
            let z = self.tags@[j];
        }
        true
    }

    /// Whether the name constraint holds of the task.
    fn check_name(&self, todo: &Todo) -> (r: bool)
        ensures
            r == name_pass(*self, todo@),
    {
        match &self.name {
            Some(n) => {
                let folded_name = lowercase(todo.metadata.name.as_str());
                let folded_query = lowercase(n.as_str());
                str_contains(folded_name.as_str(), folded_query.as_str())
            },
            None => true,
        }
    }

    /// Whether the task passes this filter, strictly or leniently.
    pub fn test(&self, todo: &Todo, strict: bool) -> (r: bool)
        ensures
            r == spec_matches(*self, todo@, strict),
    {
        if !self.completion.test(todo) {
            return false;
        }
        if !strict {
            return true;
        }
        self.check_scheduled(todo) && self.check_deadline(todo) && self.check_tags(todo)
            && self.check_name(todo)
    }
}

} // verus!
