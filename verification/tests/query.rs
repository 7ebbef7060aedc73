use tuffous_core::cache::TodoCache;
use tuffous_core::date::Date;
use tuffous_core::filter::{DateTest, TagTest, TodoCompleteFilter, TodoFilter};
use tuffous_core::instance::TodoInstance;
use tuffous_core::scanner::{FormattedTodo, TodoScanner, TreeEntry};
use tuffous_core::todo::Todo;
use tuffous_core::view::TodoView;
use tuffous_core::{get_version, version};

fn day(days: i64) -> Date {
    Date { days }
}

fn named(name: &str) -> Todo {
    Todo::create(String::from(name))
}

#[test]
fn completion_filter_variants() {
    let mut t = named("Flip");
    assert!(!TodoCompleteFilter::Completed.test(&t));
    assert!(TodoCompleteFilter::NotComplete.test(&t));
    assert!(TodoCompleteFilter::All.test(&t));
    t.completed = true;
    assert!(TodoCompleteFilter::Completed.test(&t));
    assert!(!TodoCompleteFilter::NotComplete.test(&t));
    assert!(TodoCompleteFilter::All.test(&t));
}

#[test]
fn date_tests_check_exact_and_ranges() {
    assert!(DateTest::Present.test(&day(5)));
    assert!(DateTest::Equals(day(5)).test(&day(5)));
    assert!(!DateTest::Equals(day(5)).test(&day(6)));
    assert!(DateTest::Range(Some(day(3)), Some(day(7))).test(&day(5)));
    assert!(!DateTest::Range(Some(day(6)), Some(day(7))).test(&day(5)));
    assert!(!DateTest::Range(Some(day(3)), Some(day(4))).test(&day(5)));
    assert!(DateTest::Range(None, Some(day(7))).test(&day(5)));
    assert!(DateTest::Range(Some(day(3)), None).test(&day(5)));
}

#[test]
fn filter_requires_scheduled_field() {
    let mut f = TodoFilter::of_completion(TodoCompleteFilter::All);
    f.scheduled.push(DateTest::Equals(day(10)));
    let mut t = named("Dated");
    assert!(!f.test(&t, true));
    t.time = Some(day(10));
    assert!(f.test(&t, true));
    t.time = Some(day(11));
    assert!(!f.test(&t, true));
    // the lenient pass ignores the date predicate
    assert!(f.test(&t, false));
}

#[test]
fn filter_checks_deadline_day() {
    let mut f = TodoFilter::of_completion(TodoCompleteFilter::All);
    f.deadline.push(DateTest::Range(Some(day(10)), Some(day(20))));
    let mut t = named("Due");
    assert!(!f.test(&t, true));
    t.deadline = Some(tuffous_core::date::Moment { days: 15, secs: 7200 });
    assert!(f.test(&t, true));
    t.deadline = Some(tuffous_core::date::Moment { days: 25, secs: 0 });
    assert!(!f.test(&t, true));
}

#[test]
fn filter_requires_and_forbids_tags() {
    let mut f = TodoFilter::of_completion(TodoCompleteFilter::All);
    f.tags.push(TagTest { tag: String::from("urgent"), forbidden: false });
    f.tags.push(TagTest { tag: String::from("done"), forbidden: true });
    let mut t = named("Tagged");
    assert!(!f.test(&t, true));
    t.add_tag(String::from("urgent"));
    assert!(f.test(&t, true));
    t.add_tag(String::from("done"));
    assert!(!f.test(&t, true));
}

#[test]
fn filter_name_search_folds_case() {
    let mut f = TodoFilter::of_completion(TodoCompleteFilter::All);
    f.name = Some(String::from("lAUnd"));
    let t = named("Do The LAUNDRY");
    assert!(f.test(&t, true));
    let other = named("Dishes");
    assert!(!other.metadata.name.contains("lAUnd"));
    assert!(!f.test(&other, true));
}

#[test]
fn filter_completion_gates_everything() {
    let f = TodoFilter::of_completion(TodoCompleteFilter::Completed);
    let t = named("Open");
    assert!(!f.test(&t, true));
    assert!(!f.test(&t, false));
}

#[test]
fn scanner_expands_anchor_with_ancestors_and_lenient_descendants() {
    let mut instance = TodoInstance::create(".");
    let a = named("Grandparent");
    let b = named("Parent");
    let mut x = named("Match");
    x.add_tag(String::from("urgent"));
    let y = named("Sibling child");
    let outsider = named("Unrelated");
    let (ia, ib, ix, iy, io) = (a.id(), b.id(), x.id(), y.id(), outsider.id());
    instance.todos.push(a);
    instance.todos.push(b);
    instance.todos.push(x);
    instance.todos.push(y);
    instance.todos.push(outsider);
    instance.child(ia, ib);
    instance.child(ib, ix);
    instance.child(ix, iy);
    let mut scanner = TodoScanner::new(instance);
    let mut f = TodoFilter::of_completion(TodoCompleteFilter::NotComplete);
    f.tags.push(TagTest { tag: String::from("urgent"), forbidden: false });
    scanner.apply_filters(&f);
    assert!(scanner.cache.contains(&ix));
    assert!(scanner.cache.contains(&ia));
    assert!(scanner.cache.contains(&ib));
    assert!(scanner.cache.contains(&iy));
    assert!(!scanner.cache.contains(&io));
    assert_eq!(scanner.cache.len(), 4);
}

#[test]
fn scanner_lenient_pass_respects_completion() {
    let mut instance = TodoInstance::create(".");
    let mut x = named("Anchor");
    x.add_tag(String::from("pick"));
    let mut done_child = named("Finished child");
    done_child.completed = true;
    let open_child = named("Open child");
    let (ix, id_done, id_open) = (x.id(), done_child.id(), open_child.id());
    instance.todos.push(x);
    instance.todos.push(done_child);
    instance.todos.push(open_child);
    instance.child(ix, id_done);
    instance.child(ix, id_open);
    let mut scanner = TodoScanner::new(instance);
    let mut f = TodoFilter::of_completion(TodoCompleteFilter::NotComplete);
    f.tags.push(TagTest { tag: String::from("pick"), forbidden: false });
    scanner.apply_filters(&f);
    assert!(scanner.cache.contains(&ix));
    assert!(scanner.cache.contains(&id_open));
    assert!(!scanner.cache.contains(&id_done));
}

#[test]
fn tree_walks_parents_before_children() {
    let mut instance = TodoInstance::create(".");
    let root = named("Top");
    let mid = named("Mid");
    let leaf = named("Leaf");
    let (ir, im, il) = (root.id(), mid.id(), leaf.id());
    instance.todos.push(root);
    instance.todos.push(mid);
    instance.todos.push(leaf);
    instance.child(ir, im);
    instance.child(im, il);
    let mut scanner = TodoScanner::new(instance);
    let f = TodoFilter::of_completion(TodoCompleteFilter::All);
    scanner.apply_filters(&f);
    let entries = scanner.list_entries();
    let expect = vec![
        TreeEntry { id: ir, depth: 0 },
        TreeEntry { id: im, depth: 1 },
        TreeEntry { id: il, depth: 2 },
    ];
    assert_eq!(entries, expect);
    let sub = scanner.as_tree(im, &scanner.cache);
    assert_eq!(sub, vec![TreeEntry { id: im, depth: 0 }, TreeEntry { id: il, depth: 1 }]);
}

#[test]
fn tree_restricts_children_to_the_range() {
    let mut instance = TodoInstance::create(".");
    let root = named("Shown");
    let hidden = named("Hidden");
    let (ir, ih) = (root.id(), hidden.id());
    instance.todos.push(root);
    instance.todos.push(hidden);
    instance.child(ir, ih);
    let scanner = TodoScanner::new(instance);
    let range = vec![ir];
    let entries = scanner.as_tree(ir, &range);
    assert_eq!(entries, vec![TreeEntry { id: ir, depth: 0 }]);
}

#[test]
fn formatted_todo_keeps_parts() {
    let f = FormattedTodo::of(42, String::from("a line"));
    assert_eq!(f.id, 42);
    assert_eq!(f.string, "a line");
}

#[test]
fn cache_process_toggles_links() {
    let mut instance = TodoInstance::create(".");
    let p = named("Chosen parent");
    let c = named("Chosen child");
    let (ip, ic) = (p.id(), c.id());
    instance.todos.push(p);
    instance.todos.push(c);
    let mut cache = TodoCache { father: Some(ip), child: vec![ic] };
    cache.process(&mut instance);
    assert!(instance.get(ic).unwrap().dependents.contains(&ip));
    assert!(cache.father.is_none());
    assert!(cache.child.is_empty());
    let mut cache2 = TodoCache { father: Some(ip), child: vec![ic] };
    cache2.process(&mut instance);
    assert!(!instance.get(ic).unwrap().dependents.contains(&ip));
}

#[test]
fn cache_process_without_selection_is_a_no_op() {
    let mut instance = TodoInstance::create(".");
    let t = named("Alone");
    let it = t.id();
    instance.todos.push(t);
    let mut cache = TodoCache { father: None, child: vec![it] };
    cache.process(&mut instance);
    assert!(instance.get(it).unwrap().dependents.is_empty());
    assert_eq!(cache.child, vec![it]);
    let mut cache2 = TodoCache { father: Some(it), child: Vec::new() };
    cache2.process(&mut instance);
    assert_eq!(cache2.father, Some(it));
}

#[test]
fn view_today_and_upcoming_split_by_date() {
    let mut instance = TodoInstance::create(".");
    let mut scheduled_today = named("Now");
    scheduled_today.time = Some(day(1000));
    let mut scheduled_later = named("Later");
    scheduled_later.time = Some(day(1005));
    let mut due = named("Overdue");
    due.deadline = Some(tuffous_core::date::Moment { days: 999, secs: 0 });
    let plain = named("Floating");
    let (i1, i2, i3, i4) =
        (scheduled_today.id(), scheduled_later.id(), due.id(), plain.id());
    instance.todos.push(scheduled_today);
    instance.todos.push(scheduled_later);
    instance.todos.push(due);
    instance.todos.push(plain);
    let today = day(1000);
    assert!(TodoView::Today.test(i1, &instance, today));
    assert!(!TodoView::Today.test(i2, &instance, today));
    assert!(TodoView::Today.test(i3, &instance, today));
    assert!(!TodoView::Today.test(i4, &instance, today));
    assert!(!TodoView::Upcoming.test(i1, &instance, today));
    assert!(TodoView::Upcoming.test(i2, &instance, today));
    assert!(!TodoView::Upcoming.test(i3, &instance, today));
    assert!(TodoView::Anytime.test(i4, &instance, today));
    assert!(!TodoView::Anytime.test(i1, &instance, today));
    assert!(TodoView::All.test(i1, &instance, today));
}

#[test]
fn view_logbook_and_project() {
    let mut instance = TodoInstance::create(".");
    let mut done = named("Done");
    done.completed = true;
    let project = named("Project");
    let member = named("Member");
    let (i_done, i_p, i_m) = (done.id(), project.id(), member.id());
    instance.todos.push(done);
    instance.todos.push(project);
    instance.todos.push(member);
    instance.child(i_p, i_m);
    let today = day(1000);
    assert!(TodoView::Logbook.test(i_done, &instance, today));
    assert!(!TodoView::Logbook.test(i_p, &instance, today));
    assert!(TodoView::Project(i_p).test(i_p, &instance, today));
    assert!(TodoView::Project(i_p).test(i_m, &instance, today));
    assert!(!TodoView::Project(i_p).test(i_done, &instance, today));
}

#[test]
fn view_filter_expands_keyword_matches() {
    let mut instance = TodoInstance::create(".");
    let parent = named("Errands");
    let mut hit = named("Buy stamps");
    hit.metadata.details = String::from("at the post office");
    let child = named("Count change");
    let stranger = named("Stretch");
    let (ip, ih, ic, is) = (parent.id(), hit.id(), child.id(), stranger.id());
    instance.todos.push(parent);
    instance.todos.push(hit);
    instance.todos.push(child);
    instance.todos.push(stranger);
    instance.child(ip, ih);
    instance.child(ih, ic);
    let keywords = vec![String::from("post")];
    let r = TodoView::All.filter(&instance, &TodoCompleteFilter::All, &keywords, day(1000));
    assert!(r.contains(&ih));
    assert!(r.contains(&ip));
    assert!(r.contains(&ic));
    assert!(!r.contains(&is));
}

#[test]
fn view_filter_matches_tags_case_folded() {
    let mut instance = TodoInstance::create(".");
    let mut tagged = named("Quiet name");
    tagged.add_tag(String::from("URGENT"));
    let it = tagged.id();
    instance.todos.push(tagged);
    let keywords = vec![String::from("urgent")];
    let r = TodoView::All.filter(&instance, &TodoCompleteFilter::All, &keywords, day(1000));
    assert!(r.contains(&it));
}

#[test]
fn view_creation_rules() {
    assert!(TodoView::Today.allow_create_todo());
    assert!(TodoView::Anytime.allow_create_todo());
    assert!(TodoView::All.allow_create_todo());
    assert!(TodoView::Project(7).allow_create_todo());
    assert!(!TodoView::Upcoming.allow_create_todo());
    assert!(!TodoView::Logbook.allow_create_todo());
    assert!(matches!(
        TodoView::Logbook.default_complete_filter(),
        TodoCompleteFilter::Completed
    ));
    assert!(matches!(
        TodoView::Today.default_complete_filter(),
        TodoCompleteFilter::NotComplete
    ));
}

#[test]
fn view_process_todo_stamps_new_tasks() {
    let mut t = named("Fresh");
    TodoView::Today.process_todo(&mut t, day(1234));
    assert_eq!(t.time, Some(day(1234)));
    let mut t2 = named("Filed");
    TodoView::Project(99).process_todo(&mut t2, day(1234));
    assert_eq!(t2.dependents, vec![99]);
    let mut t3 = named("Loose");
    TodoView::Anytime.process_todo(&mut t3, day(1234));
    assert!(t3.time.is_none());
    assert!(t3.dependents.is_empty());
}

#[test]
fn version_strings_agree() {
    assert_eq!(version(), "0.1");
    assert_eq!(get_version(), "0.1");
}

#[test]
fn scanner_result_is_capped() {
    let mut instance = TodoInstance::create(".");
    for i in 0..1030u32 {
        let t = named(&format!("Task number {}", i));
        if instance.get(t.id()).is_none() {
            instance.todos.push(t);
        }
    }
    let total = instance.todos.len();
    assert!(total > 1025);
    let mut scanner = TodoScanner::new(instance);
    let f = TodoFilter::of_completion(TodoCompleteFilter::All);
    scanner.apply_filters(&f);
    assert_eq!(scanner.cache.len(), 1025);
}
