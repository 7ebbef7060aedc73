//! The task record. A task has a stable 64-bit identity derived from its name
//! and creation time, completion state, optional deadline and scheduled day,
//! a list of parent ids it depends from, duplicate-free tags, a progress
//! weight, and name/details metadata.

use crate::date::{Date, Moment, SECS_PER_DAY};
use vstd::prelude::*;

verus! {

/// Free-text metadata of a task.
#[derive(Clone)]
pub struct TodoMetaData {
    pub details: String,
    pub name: String,
}

/// One task record.
#[derive(Clone)]
pub struct Todo {
    pub id: u64,
    pub completed: bool,
    pub creation_date: Moment,
    pub deadline: Option<Moment>,
    pub time: Option<Date>,
    pub dependents: Vec<u64>,
    pub tags: Vec<String>,
    pub weight: u32,
    pub metadata: TodoMetaData,
}

/// The predicate that keeps every tag other than `tag`.
pub open spec fn tag_differs(tag: Seq<char>) -> spec_fn(Seq<char>) -> bool {
    |t: Seq<char>| t != tag
}

/// The sequence of tag values of a tag list.
pub open spec fn tags_view(tags: Seq<String>) -> Seq<Seq<char>> {
    tags.map_values(|t: String| t@)
}

/// The mathematical value of a task: every field as a plain value.
#[verifier::ext_equal]
pub struct TodoValue {
    pub id: u64,
    pub completed: bool,
    pub creation_date: Moment,
    pub deadline: Option<Moment>,
    pub time: Option<Date>,
    pub dependents: Seq<u64>,
    pub tags: Seq<Seq<char>>,
    pub weight: u32,
    pub name: Seq<char>,
    pub details: Seq<char>,
}

impl View for Todo {
    type V = TodoValue;

    open spec fn view(&self) -> TodoValue {
        TodoValue {
            id: self.id,
            completed: self.completed,
            creation_date: self.creation_date,
            deadline: self.deadline,
            time: self.time,
            dependents: self.dependents@,
            tags: tags_view(self.tags@),
            weight: self.weight,
            name: self.metadata.name@,
            details: self.metadata.details@,
        }
    }
}

/// Relies on std's `DefaultHasher`, which the original identity scheme uses:
/// a 64-bit hash of the task name combined with a hash of the creation time.
/// The value is not documented to be stable across processes, so nothing is
/// assumed about it; identity collisions are possible and unhandled.
#[verifier::external_body]
fn create_id(name: &String, time: &Moment) -> u64 {
    let hash_of = |s: &String| {
        let mut h = std::collections::hash_map::DefaultHasher::new();
        std::hash::Hash::hash(s, &mut h);
        std::hash::Hasher::finish(&h)
    };
    let time_str = format!("{}:{}", time.days, time.secs);
    hash_of(&format!("{}{}", hash_of(name), hash_of(&time_str)))
}

impl Todo {
    /// The task's identity, never reassigned after creation.
    pub fn id(&self) -> (r: u64)
        ensures
            r == self@.id,
    {
        self.id
    }

    /// The creation time, immutable after creation.
    pub fn creation_date(&self) -> (r: &Moment)
        ensures
            *r == self@.creation_date,
    {
        &self.creation_date
    }

    /// A fresh task: not completed, no schedule, no links, no tags, weight 1,
    /// identity derived from the name and the current time.
    pub fn create(name: String) -> (t: Todo)
        ensures
            !t@.completed,
            t@.deadline is None,
            t@.time is None,
            t@.dependents.len() == 0,
            t@.tags.len() == 0,
            t@.weight == 1,
            t@.name == name@,
            t@.details.len() == 0,
            t@.creation_date.secs < SECS_PER_DAY,
    {
        let time = crate::date::now_utc();
        let id = create_id(&name, &time);
        Todo {
            id,
            completed: false,
            creation_date: time,
            deadline: None,
            time: None,
            dependents: Vec::new(),
            tags: Vec::new(),
            weight: 1,
            metadata: TodoMetaData { name, details: String::new() },
        }
    }

    /// Whether the tag list already holds the tag.
    pub fn has_tag(&self, tag: &String) -> (r: bool)
        ensures
            r <==> self@.tags.contains(tag@),
    {
        let mut i: usize = 0;
        while i < self.tags.len()
            invariant
                0 <= i <= self.tags.len(),
                forall|j: int| 0 <= j < i ==> self@.tags[j] != tag@,
            decreases self.tags.len() - i,
        {
            assert(self@.tags[i as int] == self.tags@[i as int]@);
            if self.tags[i] == *tag {
                assert(self@.tags.contains(tag@));
                return true;
            }
            i += 1;
        }
        false
    }

    /// Adds a tag; a tag already present is left alone, so tags stay
    /// duplicate-free.
    pub fn add_tag(&mut self, tag: String)
        ensures
            old(self)@.tags.contains(tag@) ==> final(self)@ == old(self)@,
            !old(self)@.tags.contains(tag@) ==> final(self)@ == (TodoValue {
                tags: old(self)@.tags.push(tag@),
                ..old(self)@
            }),
    {
        if !self.has_tag(&tag) {
            self.tags.push(tag);
            assert(self@.tags =~= old(self)@.tags.push(tag@));
            assert(self@ =~= (TodoValue { tags: old(self)@.tags.push(tag@), ..old(self)@ }));
        }
    }

    /// Removes every tag equal to the given one; with duplicate-free tags
    /// that is the single occurrence, and a no-op when it is absent.
    pub fn remove_tag(&mut self, tag: &String)
        ensures
            final(self)@ == (TodoValue {
                tags: old(self)@.tags.filter(tag_differs(tag@)),
                ..old(self)@
            }),
    {
        let ghost all = old(self)@.tags;
        let ghost pred = tag_differs(tag@);
        let mut kept: Vec<String> = Vec::new();
        let mut i: usize = 0;
        while i < self.tags.len()
            invariant
                0 <= i <= self.tags.len(),
                tags_view(self.tags@) == all,
                tags_view(kept@) == all.subrange(0, i as int).filter(tag_differs(tag@)),
            decreases self.tags.len() - i,
        {
            let ghost pred = tag_differs(tag@);
            assert(all[i as int] == self.tags@[i as int]@);
            let ghost prefix = all.subrange(0, i as int);
            let ghost kept0 = kept@;
            if !(self.tags[i] == *tag) {
                kept.push(self.tags[i].clone());
            }
            proof {
                let x = all[i as int];
                assert(all.subrange(0, i + 1) =~= prefix + seq![x]);
                Seq::<Seq<char>>::filter_distributes_over_add(prefix, seq![x], pred);
                reveal_with_fuel(Seq::filter, 2);
                assert(seq![x].drop_last() =~= Seq::<Seq<char>>::empty());
                assert(seq![x].filter(pred) == if pred(x) { seq![x] } else { Seq::<Seq<char>>::empty() });
                assert(all.subrange(0, i + 1).filter(pred) == if pred(x) { prefix.filter(pred) + seq![x] } else { prefix.filter(pred) });
                if pred(x) {
                    assert(kept@ =~= kept0.push(self.tags@[i as int]));
                    assert(tags_view(kept@) =~= prefix.filter(pred) + seq![x]);
                } else {
                    assert(kept@ == kept0);
                    assert(tags_view(kept@) == prefix.filter(pred));
                }
                assert(tags_view(kept@) =~= all.subrange(0, i + 1).filter(pred));
            }
            i += 1;
        }
        assert(all.subrange(0, self.tags@.len() as int) =~= all);
        self.tags = kept;
        assert(self@ =~= (TodoValue {
            tags: old(self)@.tags.filter(tag_differs(tag@)),
            ..old(self)@
        }));
    }
}

} // verus!
