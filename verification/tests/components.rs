use dirnav::{
    anchor_for, breadcrumb_draws, filter_exact, grow_anchor, listing_layout, same_entry,
    same_path, Entry, EntryCursor, FocusMemory,
};

fn e(name: &str, is_dir: bool) -> Entry {
    Entry { name: name.to_string(), is_dir }
}

fn p(segs: &[&str]) -> Vec<String> {
    segs.iter().map(|s| s.to_string()).collect()
}

#[test]
fn entry_equality_is_structural() {
    assert!(same_entry(&e("x", true), &e("x", true)));
    assert!(!same_entry(&e("x", true), &e("x", false)));
    assert!(!same_entry(&e("x", true), &e("y", true)));
    let copy = e("x", true).clone();
    assert!(same_entry(&copy, &e("x", true)));
}

#[test]
fn path_equality_is_segment_by_segment() {
    assert!(same_path(&p(&["a", "b"]), &p(&["a", "b"])));
    assert!(!same_path(&p(&["a", "b"]), &p(&["a"])));
    assert!(!same_path(&p(&["a", "b"]), &p(&["a", "c"])));
    assert!(same_path(&p(&[]), &p(&[])));
}

#[test]
fn cursor_hands_out_directories_first_then_files_once() {
    let raw = vec![e("f1", false), e("d1", true), e("f2", false), e("d2", true)];
    let mut cursor = EntryCursor::dirs_first_cursor(raw);
    let order: Vec<String> = std::iter::from_fn(|| cursor.next().map(|x| x.name)).collect();
    assert_eq!(order, vec!["d1", "d2", "f1", "f2"]);
    assert!(cursor.next().is_none());
}

#[test]
fn focus_memory_remembers_one_entry_per_path() {
    let mut memory = FocusMemory::new();
    assert!(memory.lookup(&p(&["a"])).is_none());
    memory.insert(p(&["a"]), e("x", true));
    memory.insert(p(&["a", "b"]), e("y", false));
    let remembered = memory.lookup(&p(&["a"])).unwrap();
    assert_eq!(remembered.name, "x");
    assert!(remembered.is_dir);
    // a later write overwrites the earlier one
    memory.insert(p(&["a"]), e("z", false));
    let overwritten = memory.lookup(&p(&["a"])).unwrap();
    assert_eq!(overwritten.name, "z");
    assert!(!overwritten.is_dir);
    // removal self-heals; the other path is untouched
    memory.remove(&p(&["a"]));
    assert!(memory.lookup(&p(&["a"])).is_none());
    assert_eq!(memory.lookup(&p(&["a", "b"])).unwrap().name, "y");
    // removing an absent path is harmless
    memory.remove(&p(&["nowhere"]));
    assert!(memory.lookup(&p(&["nowhere"])).is_none());
}

#[test]
fn filter_keeps_exact_matches_in_order() {
    let buffer = vec![e("a", true), e("b", false), e("a", false), e("ab", false)];
    let out = filter_exact(&buffer, &"a".to_string());
    assert_eq!(out.len(), 2);
    assert_eq!(out[0].name, "a");
    assert!(out[0].is_dir);
    assert_eq!(out[1].name, "a");
    assert!(!out[1].is_dir);
}

#[test]
fn layout_centers_the_focus_when_both_sides_fit() {
    let l = listing_layout(5, 10, 20);
    assert_eq!(l.start_index, 0);
    assert_eq!(l.start_row, 0);
    assert_eq!(l.visible_count, 10);
}

#[test]
fn layout_pins_to_the_top_for_an_early_focus() {
    let l = listing_layout(0, 10, 3);
    assert_eq!(l.start_index, 0);
    assert_eq!(l.start_row, 5);
    assert_eq!(l.visible_count, 3);
}

#[test]
fn layout_pins_to_the_bottom_for_a_late_focus() {
    let l = listing_layout(19, 10, 20);
    assert_eq!(l.start_index, 14);
    assert_eq!(l.start_row, 0);
    assert_eq!(l.visible_count, 6);
}

#[test]
fn layout_of_an_empty_listing_shows_nothing() {
    let l = listing_layout(0, 10, 0);
    assert_eq!(l.visible_count, 0);
}

#[test]
fn anchor_is_the_breadcrumb_width_under_the_cap() {
    // (2 + 3) + (3 + 3) - 2 = 9
    assert_eq!(anchor_for(&p(&["C:", "foo"]), 80), 9);
    // a single segment: (2 + 3) - 2 = 3
    assert_eq!(anchor_for(&p(&["C:"]), 80), 3);
}

#[test]
fn anchor_is_capped_at_three_quarters_of_the_screen() {
    assert_eq!(anchor_for(&p(&["C:", "a-very-long-directory-name"]), 16), 12);
    assert_eq!(anchor_for(&p(&["C:", "foo"]), 0), 0);
}

#[test]
fn growing_the_anchor_clamps_to_the_same_cap() {
    assert_eq!(grow_anchor(9, 3, 80), 15);
    assert_eq!(grow_anchor(58, 10, 80), 60);
    assert_eq!(grow_anchor(0, 1_000_000, 80), 60);
}

#[test]
fn breadcrumb_renders_right_to_left_with_separators() {
    // width of ["C:", "ab"]: (2 + 3) + (2 + 3) - 2 = 8
    let draws = breadcrumb_draws(&p(&["C:", "ab"]), 8);
    let plan: Vec<(u16, String)> = draws.iter().map(|d| (d.col, d.text.clone())).collect();
    assert_eq!(
        plan,
        vec![
            (8, ">".to_string()),
            (5, "ab".to_string()),
            (3, "\\".to_string()),
            (0, "C:".to_string()),
        ]
    );
}

#[test]
fn breadcrumb_truncates_a_segment_that_cannot_fit() {
    let draws = breadcrumb_draws(&p(&["C:", "verylongname"]), 6);
    let plan: Vec<(u16, String)> = draws.iter().map(|d| (d.col, d.text.clone())).collect();
    assert_eq!(plan, vec![(6, ">".to_string()), (2, "...".to_string())]);
    assert!(draws.iter().all(|d| d.col <= 6));
}

#[test]
fn breadcrumb_truncates_a_separator_that_cannot_fit() {
    let draws = breadcrumb_draws(&p(&["C:", "ab"]), 4);
    let plan: Vec<(u16, String)> = draws.iter().map(|d| (d.col, d.text.clone())).collect();
    assert_eq!(
        plan,
        vec![(4, ">".to_string()), (1, "ab".to_string()), (0, "...".to_string())]
    );
}

#[test]
fn breadcrumb_of_a_deep_path_emits_one_truncation_marker_in_bounds() {
    let path = p(&["C:", "alpha", "beta", "gamma", "delta"]);
    let anchor = anchor_for(&path, 20);
    assert_eq!(anchor, 15);
    let draws = breadcrumb_draws(&path, anchor);
    assert!(draws.iter().all(|d| d.col <= anchor));
    assert_eq!(draws.iter().filter(|d| d.text == "...").count(), 1);
}
