use dirnav::{Entry, MoveIntoStep, Navigator};

fn e(name: &str, is_dir: bool) -> Entry {
    Entry { name: name.to_string(), is_dir }
}

fn p(segs: &[&str]) -> Vec<String> {
    segs.iter().map(|s| s.to_string()).collect()
}

fn names(entries: &[Entry]) -> Vec<String> {
    entries.iter().map(|x| x.name.clone()).collect()
}

fn ab_children() -> Vec<Entry> {
    vec![e("x", true), e("y", true), e("f.txt", false)]
}

#[test]
fn fresh_population_is_dirs_first_with_midpoint_focus() {
    let nav = Navigator::new(p(&["a", "b"]), ab_children(), 80, 10);
    let visible = nav.visible_entries();
    assert_eq!(names(&visible), vec!["x", "y", "f.txt"]);
    // dir_count = 2, so the default focus is 2 / 2 = 1, i.e. `y`
    assert_eq!(nav.focus_index(), 1);
    let focused = nav.focused().unwrap();
    assert_eq!(focused.name, "y");
    assert!(focused.is_dir);
}

#[test]
fn buffer_is_partitioned_dirs_before_files() {
    let children = vec![
        e("f1", false),
        e("d1", true),
        e("f2", false),
        e("d2", true),
        e("f3", false),
    ];
    let nav = Navigator::new(p(&["a"]), children, 80, 10);
    let visible = nav.visible_entries();
    assert_eq!(names(&visible), vec!["d1", "d2", "f1", "f2", "f3"]);
    let mut seen_file = false;
    for entry in &visible {
        if !entry.is_dir {
            seen_file = true;
        }
        if entry.is_dir {
            assert!(!seen_file, "a file preceded a directory");
        }
    }
}

#[test]
fn move_out_then_in_restores_path_and_focus() {
    let mut nav = Navigator::new(p(&["a", "b"]), ab_children(), 80, 10);
    assert_eq!(nav.focused().unwrap().name, "y");

    let parent = nav.move_out_target().unwrap();
    assert_eq!(parent, p(&["a"]));
    assert!(nav.move_out(vec![e("b", true)]));
    assert_eq!(nav.get_path(), &p(&["a"]));
    // re-entering the parent focuses the directory just left
    assert_eq!(nav.focused().unwrap().name, "b");
    assert!(nav.focused().unwrap().is_dir);

    match nav.move_into_target() {
        MoveIntoStep::Descend(target) => assert_eq!(target, p(&["a", "b"])),
        _ => panic!("expected a descend target"),
    }
    assert!(nav.move_into(ab_children()));
    assert_eq!(nav.get_path(), &p(&["a", "b"]));
    // the focus remembered when leaving is restored
    assert_eq!(nav.focus_index(), 1);
    assert_eq!(nav.focused().unwrap().name, "y");
}

#[test]
fn move_out_with_empty_buffer_still_remembers_the_parent_child() {
    let mut nav = Navigator::new(p(&["a", "b"]), vec![], 80, 10);
    assert!(nav.move_out(vec![e("b", true), e("c", true)]));
    assert_eq!(nav.get_path(), &p(&["a"]));
    assert_eq!(nav.focused().unwrap().name, "b");
}

#[test]
fn stale_memory_recovers_to_fresh_default_twice() {
    let mut nav = Navigator::new(p(&["a", "b"]), ab_children(), 80, 10);
    assert!(nav.move_out(vec![e("b", true)]));
    // `y` was remembered for a/b, but it no longer exists on disk
    let shrunk = || vec![e("x", true), e("f.txt", false)];
    nav.set_path(p(&["a", "b"]), shrunk());
    assert_eq!(names(&nav.visible_entries()), vec!["x", "f.txt"]);
    // fresh-visit default: one directory, focus 1 / 2 = 0
    assert_eq!(nav.focus_index(), 0);
    assert_eq!(nav.focused().unwrap().name, "x");
    // the stale mapping was removed: an identical re-entry takes the
    // fresh-visit branch again rather than failing
    nav.set_path(p(&["a", "b"]), shrunk());
    assert_eq!(nav.focus_index(), 0);
    assert_eq!(nav.focused().unwrap().name, "x");
}

#[test]
fn move_up_at_top_leaves_state_unchanged() {
    let mut nav = Navigator::new(p(&["a"]), vec![e("f1", false), e("f2", false)], 80, 10);
    assert_eq!(nav.focus_index(), 0);
    nav.move_up();
    assert_eq!(nav.focus_index(), 0);
    assert_eq!(nav.get_path(), &p(&["a"]));
}

#[test]
fn move_down_at_bottom_leaves_state_unchanged() {
    let mut nav = Navigator::new(p(&["a"]), vec![e("f1", false), e("f2", false)], 80, 10);
    nav.move_down();
    assert_eq!(nav.focus_index(), 1);
    nav.move_down();
    assert_eq!(nav.focus_index(), 1);
}

#[test]
fn move_into_on_empty_buffer_is_refused_and_keeps_path() {
    let mut nav = Navigator::new(p(&["a"]), vec![], 80, 10);
    assert!(matches!(nav.move_into_target(), MoveIntoStep::NothingHere));
    assert!(!nav.move_into(vec![]));
    assert_eq!(nav.get_path(), &p(&["a"]));
}

#[test]
fn move_into_on_a_file_is_refused_and_keeps_path() {
    let mut nav = Navigator::new(p(&["a"]), vec![e("f.txt", false)], 80, 10);
    assert!(matches!(nav.move_into_target(), MoveIntoStep::NotADirectory));
    assert!(!nav.move_into(vec![]));
    assert_eq!(nav.get_path(), &p(&["a"]));
    assert_eq!(nav.focus_index(), 0);
}

#[test]
fn move_out_at_root_is_refused_and_keeps_path() {
    let mut nav = Navigator::new(p(&["a"]), vec![e("d", true)], 80, 10);
    assert!(nav.move_out_target().is_none());
    assert!(!nav.move_out(vec![]));
    assert_eq!(nav.get_path(), &p(&["a"]));
}

#[test]
fn population_is_lazy_and_move_down_fills_on_demand() {
    let children: Vec<Entry> = (0..10).map(|i| e(&format!("f{}", i), false)).collect();
    // height 4: only four entries are materialized up front
    let mut nav = Navigator::new(p(&["a"]), children, 80, 4);
    assert_eq!(nav.visible_entries().len(), 4);
    assert_eq!(nav.focus_index(), 0);
    // half = 2: nothing more is needed until focus + 2 passes the buffer
    nav.move_down();
    assert_eq!(nav.visible_entries().len(), 4);
    nav.move_down();
    assert_eq!(nav.visible_entries().len(), 4);
    nav.move_down();
    assert_eq!(nav.focus_index(), 3);
    assert_eq!(nav.visible_entries().len(), 5);
    // walking to the end materializes everything, and stops there
    for _ in 0..20 {
        nav.move_down();
    }
    assert_eq!(nav.focus_index(), 9);
    assert_eq!(nav.visible_entries().len(), 10);
}

#[test]
fn restored_focus_pulls_enough_to_fill_the_lower_half() {
    let children: Vec<Entry> = (0..10).map(|i| e(&format!("f{}", i), false)).collect();
    let mut nav = Navigator::new(p(&["r", "sub"]), children.clone(), 80, 6);
    for _ in 0..7 {
        nav.move_down();
    }
    assert_eq!(nav.focus_index(), 7);
    assert!(nav.move_out(vec![e("sub", true)]));
    assert!(nav.move_into(children));
    // the remembered entry sits at position 7; half = 3 more rows are
    // pulled below it
    assert_eq!(nav.focus_index(), 7);
    assert_eq!(nav.focused().unwrap().name, "f7");
    assert_eq!(nav.visible_entries().len(), 10);
}

#[test]
fn query_filters_the_listing_but_not_the_focus() {
    let mut nav = Navigator::new(p(&["a", "b"]), ab_children(), 80, 10);
    nav.set_query(Some("f.txt".to_string()));
    let visible = nav.visible_entries();
    assert_eq!(names(&visible), vec!["f.txt"]);
    // the focus was reset and still indexes the unfiltered buffer
    assert_eq!(nav.focus_index(), 0);
    assert_eq!(nav.focused().unwrap().name, "x");
    nav.set_query(None);
    assert_eq!(nav.visible_entries().len(), 3);
}

#[test]
fn query_with_no_match_shows_nothing() {
    let mut nav = Navigator::new(p(&["a"]), ab_children(), 80, 10);
    nav.set_query(Some("missing".to_string()));
    assert!(nav.visible_entries().is_empty());
    nav.set_query(None);
    assert_eq!(nav.visible_entries().len(), 3);
}

#[test]
fn set_size_changes_the_cap_used_on_the_next_path_change() {
    let mut nav = Navigator::new(p(&["C:", "foo"]), vec![], 80, 10);
    // full width: (2 + 3) + (3 + 3) - 2 = 9, under the cap of 60
    assert_eq!(nav.anchor_column(), 9);
    nav.set_size(16, 10);
    nav.set_path(p(&["C:", "foo"]), vec![]);
    // the same path still fits under the new cap of 16 * 3 / 4 = 12
    assert_eq!(nav.anchor_column(), 9);
    nav.set_path(p(&["C:", "a-much-longer-name"]), vec![]);
    assert_eq!(nav.anchor_column(), 12);
}

#[test]
fn descending_grows_the_anchor_by_the_child_name() {
    let mut nav = Navigator::new(p(&["C:"]), vec![e("foo", true)], 80, 10);
    // full width of ["C:"]: (2 + 3) - 2 = 3
    assert_eq!(nav.anchor_column(), 3);
    assert!(nav.move_into(vec![]));
    // grown by "foo".len() + 3, still under the cap of 60
    assert_eq!(nav.anchor_column(), 9);
    // popping back out recomputes the anchor from scratch
    assert!(nav.move_out(vec![e("foo", true)]));
    assert_eq!(nav.anchor_column(), 3);
}
