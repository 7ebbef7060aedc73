use tuffous_core::util::{
    destroy, get_month_str, get_progression_char, join_str_with, remove_from_vec,
    remove_from_vec_if, vec_all_match, vec_any_match, vec_none_match,
};

#[test]
fn remove_from_vec_drops_equal_entries() {
    let mut v = vec![1u64, 2, 3, 2, 4];
    remove_from_vec(&mut v, &2);
    assert_eq!(v, vec![1, 3, 4]);
    remove_from_vec(&mut v, &9);
    assert_eq!(v, vec![1, 3, 4]);
}

#[test]
fn remove_from_vec_if_drops_selected_entries() {
    let mut v = vec![1u32, 2, 3, 4, 5, 6];
    remove_from_vec_if(&mut v, &|x: &u32| x % 2 == 0);
    assert_eq!(v, vec![1, 3, 5]);
}

#[test]
fn vec_match_helpers_answer_on_each_element() {
    let v = vec![1u32, 2, 3];
    assert!(vec_any_match(&v, &|x: &u32| *x == 2));
    assert!(!vec_any_match(&v, &|x: &u32| *x == 9));
    assert!(vec_all_match(&v, &|x: &u32| *x < 4));
    assert!(!vec_all_match(&v, &|x: &u32| *x < 3));
    assert!(vec_none_match(&v, &|x: &u32| *x > 5));
    assert!(!vec_none_match(&v, &|x: &u32| *x == 1));
    let empty: Vec<u32> = Vec::new();
    assert!(!vec_any_match(&empty, &|_x: &u32| true));
    assert!(vec_all_match(&empty, &|_x: &u32| false));
    assert!(vec_none_match(&empty, &|_x: &u32| true));
}

#[test]
fn month_names_match_the_calendar() {
    let names = [
        "Jan", "Feb", "Mar", "Apr", "May", "Jun", "Jul", "Aug", "Sep", "Oct", "Nov", "Dec",
    ];
    for (i, name) in names.iter().enumerate() {
        assert_eq!(get_month_str(i as u32 + 1), *name);
    }
}

#[test]
fn join_str_with_places_separators_between() {
    assert_eq!(join_str_with(Vec::new(), ", "), "");
    assert_eq!(join_str_with(vec!["a"], ", "), "a");
    assert_eq!(join_str_with(vec!["a", "b", "c"], ", "), "a, b, c");
    assert_eq!(join_str_with(vec!["x", ""], "-"), "x-");
}

#[test]
fn progression_glyphs_step_through_the_scale() {
    assert_eq!(get_progression_char(0), '\u{f0766}');
    assert_eq!(get_progression_char(1), '\u{f0a9e}');
    assert_eq!(get_progression_char(13), '\u{f0a9e}');
    assert_eq!(get_progression_char(14), '\u{f0a9f}');
    assert_eq!(get_progression_char(38), '\u{f0aa0}');
    assert_eq!(get_progression_char(50), '\u{f0aa1}');
    assert_eq!(get_progression_char(63), '\u{f0aa2}');
    assert_eq!(get_progression_char(75), '\u{f0aa3}');
    assert_eq!(get_progression_char(88), '\u{f0aa4}');
    assert_eq!(get_progression_char(89), '\u{f0aa5}');
    assert_eq!(get_progression_char(100), '\u{f0aa5}');
}

#[test]
fn destroy_consumes_its_argument() {
    destroy(String::from("gone"));
    destroy(7u64);
}
