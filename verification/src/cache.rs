//! The pending link selection carried between two command invocations: one
//! chosen parent and the chosen children. Processing toggles each pairing on
//! the repository — a pair already linked is unlinked, an unlinked pair is
//! linked — and then empties the selection.

use crate::instance::{
    has_id, ids_contain, ids_of, idx_of, link_of, remove_ids, todo_of, unlink_of, wf_ids,
    TodoInstance,
};
use crate::todo::TodoValue;
use vstd::prelude::*;

verus! {

broadcast use vstd::seq_lib::group_seq_properties;

/// One toggle: a pair already linked comes apart, an unlinked pair is linked.
pub open spec fn toggle_of(s: Seq<TodoValue>, father: u64, c: u64) -> Seq<TodoValue> {
    if todo_of(s, c).dependents.contains(father) {
        unlink_of(s, father, c)
    } else {
        link_of(s, father, c)
    }
}

/// The toggles of one father against each listed child, first to last.
pub open spec fn toggles_of(s: Seq<TodoValue>, father: u64, children: Seq<u64>) -> Seq<TodoValue>
    decreases children.len(),
{
    if children.len() == 0 {
        s
    } else {
        toggles_of(toggle_of(s, father, children.first()), father, children.drop_first())
    }
}

/// Toggling keeps every identity in place and the repository well-formed.
proof fn lemma_toggle_keeps_ids(s: Seq<TodoValue>, father: u64, c: u64)
    requires
        wf_ids(s),
        has_id(s, c),
    ensures
        ids_of(toggle_of(s, father, c)) == ids_of(s),
        toggle_of(s, father, c).len() == s.len(),
        wf_ids(toggle_of(s, father, c)),
{
    let s2 = toggle_of(s, father, c);
    let i = idx_of(s, c);
    assert(0 <= i < s.len() && s[i].id == c);
    assert forall|k: int| 0 <= k < s.len() implies #[trigger] s2[k].id == s[k].id by {}
    assert(ids_of(s2) =~= ids_of(s));
    assert forall|a: int, b: int|
        0 <= a < s2.len() && 0 <= b < s2.len() && a != b implies s2[a].id != s2[b].id by {
        assert(s2[a].id == s[a].id);
        assert(s2[b].id == s[b].id);
    }
}

/// Toggling one more child toggles it against the state the earlier toggles
/// left behind.
proof fn lemma_toggles_push(s: Seq<TodoValue>, father: u64, children: Seq<u64>, c: u64)
    ensures
        toggles_of(s, father, children.push(c)) == toggle_of(
            toggles_of(s, father, children),
            father,
            c,
        ),
    decreases children.len(),
{
    if children.len() == 0 {
        assert(children.push(c).first() == c);
        assert(children.push(c).drop_first() =~= children);
        assert(toggles_of(s, father, children) == s);
        assert(toggles_of(s, father, children.push(c)) == toggles_of(
            toggle_of(s, father, c),
            father,
            children,
        ));
        assert(toggles_of(toggle_of(s, father, c), father, children) == toggle_of(s, father, c));
    } else {
        assert(children.push(c).first() == children.first());
        assert(children.push(c).drop_first() =~= children.drop_first().push(c));
        lemma_toggles_push(toggle_of(s, father, children.first()), father, children.drop_first(), c);
        assert(toggles_of(s, father, children.push(c)) == toggles_of(
            toggle_of(s, father, children.first()),
            father,
            children.drop_first().push(c),
        ));
        assert(toggles_of(s, father, children) == toggles_of(
            toggle_of(s, father, children.first()),
            father,
            children.drop_first(),
        ));
    }
}

/// The pending selection: an intended parent and the children to pair with
/// it on the next processing step.
pub struct TodoCache {
    pub father: Option<u64>,
    pub child: Vec<u64>,
}

impl TodoCache {
    /// Forgets the pending selection.
    pub fn clean(&mut self)
        ensures
            final(self).father is None,
            final(self).child@.len() == 0,
    {
        self.father = None;
        self.child = Vec::new();
    }

    /// Applies the pending selection: with a chosen father and at least one
    /// chosen child, every (father, child) pair is toggled — an existing
    /// link is removed, a missing one is added — and the selection is then
    /// forgotten. An incomplete selection changes nothing.
    pub fn process(&mut self, instance: &mut TodoInstance)
        requires
            old(instance).wf(),
            forall|k: int|
                0 <= k < old(self).child@.len() ==> has_id(
                    old(instance)@,
                    #[trigger] old(self).child@[k],
                ),
        ensures
            old(self).child@.len() > 0 && old(self).father is Some ==> {
                &&& final(instance)@ == toggles_of(
                    old(instance)@,
                    old(self).father->0,
                    old(self).child@,
                )
                &&& final(self).father is None
                &&& final(self).child@.len() == 0
            },
            !(old(self).child@.len() > 0 && old(self).father is Some) ==> *final(self) == *old(
                self,
            ) && final(instance)@ == old(instance)@,
            final(instance).wf(),
            final(instance).path == old(instance).path,
    {
        if self.child.len() == 0 {
            return ;
        }
        let father = match self.father {
            Some(f) => f,
            None => {
                return ;
            },
        };
        let ghost sv = old(instance)@;
        let ghost cv = self.child@;
        let n = self.child.len();
        let mut k: usize = 0;
        while k < n
            invariant
                cv == self.child@,
                n == cv.len(),
                0 <= k <= n,
                father == old(self).father->0,
                self.father == old(self).father,
                sv == old(instance)@,
                instance@ == toggles_of(sv, father, cv.subrange(0, k as int)),
                instance.wf(),
                ids_of(instance@) == ids_of(sv),
                instance@.len() == sv.len(),
                instance.path == old(instance).path,
                forall|j: int| 0 <= j < cv.len() ==> has_id(sv, #[trigger] cv[j]),
            decreases n - k,
        {
            let c = self.child[k];
            let ghost mid = instance@;
            proof {
                assert(has_id(sv, cv[k as int]));
                let w = choose|w: int| 0 <= w < sv.len() && sv[w].id == c;
                assert(ids_of(sv)[w] == c);
                assert(ids_of(mid)[w] == c);
                assert(mid[w].id == c);
                assert(has_id(mid, c));
            }
            match instance.get_mut(c) {
                Some(t) => {
                    if ids_contain(&t.dependents, father) {
                        remove_ids(&mut t.dependents, father);
                    } else {
                        t.dependents.push(father);
                    }
                },
                None => vstd::pervasive::unreached(),
            }
            proof {
                assert(instance@ =~= toggle_of(mid, father, c));
                assert(cv.subrange(0, k + 1) =~= cv.subrange(0, k as int).push(c));
                lemma_toggles_push(sv, father, cv.subrange(0, k as int), c);
                lemma_toggle_keeps_ids(mid, father, c);
            }
            k += 1;
        }
        proof {
            assert(cv.subrange(0, cv.len() as int) =~= cv);
        }
        self.clean();
    }
}

} // verus!
