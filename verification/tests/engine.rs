use tuffous_core::date::{Date, Moment};
use tuffous_core::instance::TodoInstance;
use tuffous_core::todo::Todo;

fn todos_equal(a: &Todo, b: &Todo) -> bool {
    a.id == b.id
        && a.completed == b.completed
        && a.creation_date == b.creation_date
        && a.deadline == b.deadline
        && a.time == b.time
        && a.dependents == b.dependents
        && a.tags == b.tags
        && a.weight == b.weight
        && a.metadata.name == b.metadata.name
        && a.metadata.details == b.metadata.details
}

fn instances_equal(a: &TodoInstance, b: &TodoInstance) -> bool {
    a.todos.len() == b.todos.len()
        && a.todos
            .iter()
            .zip(b.todos.iter())
            .all(|(x, y)| todos_equal(x, y))
}

fn day(days: i64) -> Date {
    Date { days }
}

#[test]
fn create_sets_defaults() {
    let t = Todo::create(String::from("Groceries"));
    assert!(!t.completed);
    assert!(t.deadline.is_none());
    assert!(t.time.is_none());
    assert!(t.dependents.is_empty());
    assert!(t.tags.is_empty());
    assert_eq!(t.weight, 1);
    assert_eq!(t.metadata.name, "Groceries");
    assert_eq!(t.metadata.details, "");
    assert_eq!(t.id(), t.id);
    assert!(t.creation_date().secs < 86400);
}

#[test]
fn tags_stay_duplicate_free() {
    let mut t = Todo::create(String::from("Tagged"));
    t.add_tag(String::from("urgent"));
    t.add_tag(String::from("urgent"));
    assert_eq!(t.tags.len(), 1);
    assert!(t.has_tag(&String::from("urgent")));
    t.add_tag(String::from("home"));
    assert_eq!(t.tags.len(), 2);
    t.remove_tag(&String::from("urgent"));
    assert_eq!(t.tags, vec![String::from("home")]);
    t.remove_tag(&String::from("absent"));
    assert_eq!(t.tags.len(), 1);
}

#[test]
fn get_and_get_mut_find_by_identity() {
    let mut instance = TodoInstance::create(".");
    let t = Todo::create(String::from("One"));
    let id = t.id();
    instance.todos.push(t);
    assert!(instance.get(id).is_some());
    assert!(instance.get(id ^ 1).is_none());
    instance.get_mut(id).unwrap().completed = true;
    assert!(instance.get(id).unwrap().completed);
}

#[test]
fn link_makes_ancestors_and_descendants() {
    let mut instance = TodoInstance::create(".");
    let a = Todo::create(String::from("Parent"));
    let b = Todo::create(String::from("Child"));
    let (ia, ib) = (a.id(), b.id());
    instance.todos.push(a);
    instance.todos.push(b);
    assert!(instance.is_child_able(ia, ib));
    instance.child(ia, ib);
    assert!(instance.all_deps(ib).contains(&ia));
    assert!(instance.children(ia).contains(&ib));
    assert!(instance.children_once(ia).contains(&ib));
}

#[test]
fn link_reverse_is_refused() {
    let mut instance = TodoInstance::create(".");
    let a = Todo::create(String::from("Up"));
    let b = Todo::create(String::from("Down"));
    let (ia, ib) = (a.id(), b.id());
    instance.todos.push(a);
    instance.todos.push(b);
    instance.child(ia, ib);
    assert!(!instance.is_child_able(ib, ia));
}

#[test]
fn relink_is_refused_as_duplicate() {
    let mut instance = TodoInstance::create(".");
    let a = Todo::create(String::from("Once"));
    let b = Todo::create(String::from("Only"));
    let (ia, ib) = (a.id(), b.id());
    instance.todos.push(a);
    instance.todos.push(b);
    instance.child(ia, ib);
    assert!(!instance.is_child_able(ia, ib));
    assert!(!instance.is_child_able(ia, ia));
}

#[test]
fn transitive_ancestors_are_found() {
    let mut instance = TodoInstance::create(".");
    let a = Todo::create(String::from("Root"));
    let b = Todo::create(String::from("Middle"));
    let c = Todo::create(String::from("Leaf"));
    let (ia, ib, ic) = (a.id(), b.id(), c.id());
    instance.todos.push(a);
    instance.todos.push(b);
    instance.todos.push(c);
    instance.child(ia, ib);
    instance.child(ib, ic);
    let deps = instance.all_deps(ic);
    assert!(deps.contains(&ia));
    assert!(deps.contains(&ib));
    assert!(!instance.is_child_able(ic, ia));
    assert!(instance.children(ia).contains(&ic));
}

#[test]
fn unlink_removes_one_direction() {
    let mut instance = TodoInstance::create(".");
    let a = Todo::create(String::from("Was"));
    let b = Todo::create(String::from("Linked"));
    let (ia, ib) = (a.id(), b.id());
    instance.todos.push(a);
    instance.todos.push(b);
    instance.child(ia, ib);
    instance.unlink(ia, ib);
    assert!(instance.all_deps(ib).is_empty());
    assert!(instance.is_child_able(ia, ib));
    instance.unlink(ia, ib);
    assert!(instance.all_deps(ib).is_empty());
}

#[test]
fn replace_swaps_by_identity() {
    let mut instance = TodoInstance::create(".");
    let t = Todo::create(String::from("Before"));
    let id = t.id();
    instance.todos.push(t);
    let mut newer = instance.get(id).unwrap().clone();
    newer.metadata.name = String::from("After");
    assert!(instance.replace(newer));
    assert_eq!(instance.get(id).unwrap().metadata.name, "After");
    let stranger = Todo::create(String::from("Stranger"));
    if stranger.id() != id {
        assert!(!instance.replace(stranger));
    }
}

#[test]
fn refresh_repairs_dangling_links_and_stale_dates() {
    let mut instance = TodoInstance::create(".");
    let a = Todo::create(String::from("Stays"));
    let ia = a.id();
    instance.todos.push(a);
    let ghostly = ia ^ 0x5555;
    instance.get_mut(ia).unwrap().dependents.push(ghostly);
    instance.get_mut(ia).unwrap().dependents.push(ghostly ^ 1);
    instance.get_mut(ia).unwrap().time = Some(day(700_000));
    instance.refresh_on(day(700_005));
    let t = instance.get(ia).unwrap();
    assert!(t.dependents.is_empty());
    assert_eq!(t.time, Some(day(700_005)));
}

#[test]
fn refresh_leaves_completed_schedules_alone() {
    let mut instance = TodoInstance::create(".");
    let mut a = Todo::create(String::from("Done"));
    a.completed = true;
    a.time = Some(day(700_000));
    let ia = a.id();
    instance.todos.push(a);
    instance.refresh_on(day(700_005));
    assert_eq!(instance.get(ia).unwrap().time, Some(day(700_000)));
}

#[test]
fn refresh_is_idempotent() {
    let mut instance = TodoInstance::create(".");
    let mut a = Todo::create(String::from("Sched"));
    a.time = Some(day(699_990));
    let b = Todo::create(String::from("Plain"));
    let ia = a.id();
    instance.todos.push(a);
    instance.todos.push(b);
    instance.get_mut(ia).unwrap().dependents.push(12345);
    let today = day(700_001);
    instance.refresh_on(today);
    let mut snapshot1 = TodoInstance::create(".");
    for t in &instance.todos {
        snapshot1.todos.push(t.clone());
    }
    instance.refresh_on(today);
    assert!(instances_equal(&snapshot1, &instance));
}

#[test]
fn remove_drops_task_and_dangling_parent() {
    let mut instance = TodoInstance::create(".");
    let p = Todo::create(String::from("Parent"));
    let c = Todo::create(String::from("Child"));
    let (ip, ic) = (p.id(), c.id());
    instance.todos.push(p);
    instance.todos.push(c);
    instance.child(ip, ic);
    instance.remove_on(ip, day(700_000));
    assert!(instance.get(ip).is_none());
    assert!(instance.get(ic).unwrap().dependents.is_empty());
    // removing an absent identity is a no-op in memory
    instance.remove_on(ip, day(700_000));
    assert!(instance.get(ic).is_some());
}

#[test]
fn weight_counts_leaves_only() {
    let mut instance = TodoInstance::create(".");
    let root = Todo::create(String::from("Project"));
    let mut l1 = Todo::create(String::from("Step one"));
    let mut l2 = Todo::create(String::from("Step two"));
    l1.weight = 2;
    l2.weight = 3;
    let (ir, i1, i2) = (root.id(), l1.id(), l2.id());
    instance.todos.push(root);
    instance.todos.push(l1);
    instance.todos.push(l2);
    instance.child(ir, i1);
    instance.child(ir, i2);
    assert_eq!(instance.weight(ir, false), 5);
    assert_eq!(instance.weight(ir, true), 0);
    instance.get_mut(i1).unwrap().completed = true;
    assert_eq!(instance.weight(ir, true), 2);
    assert!(instance.weight(ir, true) <= instance.weight(ir, false));
}

#[test]
fn weight_scenario_meal_plan() {
    let mut instance = TodoInstance::create(".");
    let groceries = Todo::create(String::from("Groceries"));
    let meal_plan = Todo::create(String::from("Meal Plan"));
    let (ig, im) = (groceries.id(), meal_plan.id());
    instance.todos.push(groceries);
    instance.todos.push(meal_plan);
    // "Groceries" depends on "Meal Plan": the plan is the parent
    instance.child(im, ig);
    assert_eq!(instance.weight(im, false), 1);
    assert_eq!(instance.weight(im, true), 0);
    instance.get_mut(ig).unwrap().completed = true;
    assert_eq!(instance.weight(im, true), 1);
}

#[test]
fn weight_saturates_instead_of_overflowing() {
    let mut instance = TodoInstance::create(".");
    let root = Todo::create(String::from("Huge"));
    let mut l1 = Todo::create(String::from("Half one"));
    let mut l2 = Todo::create(String::from("Half two"));
    l1.weight = u32::MAX;
    l2.weight = u32::MAX;
    let (ir, i1, i2) = (root.id(), l1.id(), l2.id());
    instance.todos.push(root);
    instance.todos.push(l1);
    instance.todos.push(l2);
    instance.child(ir, i1);
    instance.child(ir, i2);
    assert_eq!(instance.weight(ir, false), u32::MAX);
}

#[test]
fn todos_lists_identities_in_order() {
    let mut instance = TodoInstance::create("somewhere");
    assert!(instance.todos().is_empty());
    let a = Todo::create(String::from("First"));
    let b = Todo::create(String::from("Second"));
    let (ia, ib) = (a.id(), b.id());
    instance.todos.push(a);
    instance.todos.push(b);
    assert_eq!(instance.todos(), vec![ia, ib]);
}

#[test]
fn moments_and_dates_compare_by_day() {
    let m = Moment { days: 100, secs: 30 };
    assert_eq!(m.date(), day(100));
    assert!(day(99).before(&day(100)));
    assert!(!day(100).before(&day(100)));
    assert!(day(100).same_day(&day(100)));
    assert!(!day(100).same_day(&day(101)));
}

#[test]
fn weight_of_a_leaf_is_its_own() {
    let mut instance = TodoInstance::create(".");
    let mut t = Todo::create(String::from("Single"));
    t.weight = 7;
    let it = t.id();
    instance.todos.push(t);
    assert_eq!(instance.weight(it, false), 7);
    assert_eq!(instance.weight(it, true), 0);
    instance.get_mut(it).unwrap().completed = true;
    assert_eq!(instance.weight(it, true), 7);
}

#[test]
fn queries_on_an_absent_identity_are_empty() {
    let mut instance = TodoInstance::create(".");
    let t = Todo::create(String::from("Known"));
    let unknown = t.id() ^ 0xdead;
    instance.todos.push(t);
    assert!(instance.all_deps(unknown).is_empty());
    assert!(instance.children(unknown).is_empty());
    assert!(instance.children_once(unknown).is_empty());
}
