use rocket::actions::Actions;
use rocket::select_action::{derive_mode, KeySelect, SelectAction, SelectionMode, SelectionResult};

fn s(x: &str) -> String {
    x.to_string()
}

fn listing() -> Vec<String> {
    vec![s("/d/a"), s("/d/b"), s("/d/c"), s("/d/d"), s("/d/e")]
}

#[test]
fn mode_follows_modifiers() {
    assert_eq!(derive_mode(true, true), SelectionMode::Ranged);
    assert_eq!(derive_mode(true, false), SelectionMode::Ranged);
    assert_eq!(derive_mode(false, true), SelectionMode::Multiple);
    assert_eq!(derive_mode(false, false), SelectionMode::Single);
}

#[test]
fn single_mode_never_holds_more_than_one() {
    let mut sel = SelectAction::new();
    let l = listing();
    for p in [&l[0], &l[1], &l[1], &l[3], &l[0], &l[0], &l[2]] {
        sel.select_file(p, &l);
        assert!(sel.files.len() <= 1);
    }
}

#[test]
fn single_click_replaces_selection() {
    let mut sel = SelectAction::new();
    let l = listing();
    sel.select_file(&l[0], &l);
    assert_eq!(sel.files, vec![s("/d/a")]);
    sel.select_file(&l[2], &l);
    assert_eq!(sel.files, vec![s("/d/c")]);
}

#[test]
fn single_click_on_sole_selected_clears() {
    let mut sel = SelectAction::new();
    let l = listing();
    sel.select_file(&l[1], &l);
    sel.select_file(&l[1], &l);
    assert!(sel.files.is_empty());
    sel.select_file(&l[1], &l);
    sel.select_file(&l[1], &l);
    assert!(sel.files.is_empty());
}

#[test]
fn single_click_after_multiple_selection_keeps_one() {
    let mut sel = SelectAction::new();
    let l = listing();
    sel.mode = SelectionMode::Multiple;
    sel.select_file(&l[0], &l);
    sel.select_file(&l[1], &l);
    sel.mode = SelectionMode::Single;
    sel.select_file(&l[1], &l);
    assert_eq!(sel.files, vec![s("/d/b")]);
}

#[test]
fn multiple_click_twice_restores() {
    let mut sel = SelectAction::new();
    let l = listing();
    sel.mode = SelectionMode::Multiple;
    sel.select_file(&l[0], &l);
    sel.select_file(&l[2], &l);
    let before = sel.files.clone();
    sel.select_file(&l[4], &l);
    assert_eq!(sel.files.len(), 3);
    sel.select_file(&l[4], &l);
    assert_eq!(sel.files, before);
    sel.select_file(&l[0], &l);
    assert_eq!(sel.files, vec![s("/d/c")]);
    sel.select_file(&l[0], &l);
    let mut now = sel.files.clone();
    now.sort();
    assert_eq!(now, vec![s("/d/a"), s("/d/c")]);
}

#[test]
fn ranged_from_prior_selection() {
    let mut sel = SelectAction::new();
    let l = listing();
    sel.select_file(&l[1], &l);
    sel.mode = SelectionMode::Ranged;
    sel.select_file(&l[3], &l);
    let mut now = sel.files.clone();
    now.sort();
    assert_eq!(now, vec![s("/d/b"), s("/d/c"), s("/d/d")]);
}

#[test]
fn ranged_without_prior_selection_starts_at_top() {
    let mut sel = SelectAction::new();
    let l = listing();
    sel.mode = SelectionMode::Ranged;
    sel.select_file(&l[2], &l);
    let mut now = sel.files.clone();
    now.sort();
    assert_eq!(now, vec![s("/d/a"), s("/d/b"), s("/d/c")]);
}

#[test]
fn ranged_upwards_uses_last_selected_as_anchor() {
    let mut sel = SelectAction::new();
    let l = listing();
    sel.mode = SelectionMode::Multiple;
    sel.select_file(&l[0], &l);
    sel.select_file(&l[4], &l);
    sel.mode = SelectionMode::Ranged;
    sel.select_file(&l[2], &l);
    assert_eq!(sel.files, vec![s("/d/a"), s("/d/e"), s("/d/c"), s("/d/d")]);
}

#[test]
fn ranged_click_outside_listing_changes_nothing() {
    let mut sel = SelectAction::new();
    let l = listing();
    sel.select_file(&l[1], &l);
    sel.mode = SelectionMode::Ranged;
    sel.select_file(&s("/elsewhere/x"), &l);
    assert_eq!(sel.files, vec![s("/d/b")]);
    let empty: Vec<String> = Vec::new();
    sel.select_file(&l[3], &empty);
    assert_eq!(sel.files, vec![s("/d/b")]);
}

#[test]
fn toggle_selection_mode_flips_single_and_multiple() {
    let mut sel = SelectAction::new();
    sel.toggle_selection_mode();
    assert_eq!(sel.mode, SelectionMode::Multiple);
    sel.toggle_selection_mode();
    assert_eq!(sel.mode, SelectionMode::Single);
    sel.mode = SelectionMode::Ranged;
    sel.toggle_selection_mode();
    assert_eq!(sel.mode, SelectionMode::Ranged);
}

#[test]
fn clear_selection_resets_mode() {
    let mut sel = SelectAction::new();
    let l = listing();
    sel.mode = SelectionMode::Multiple;
    sel.select_file(&l[0], &l);
    sel.select_file(&l[1], &l);
    sel.clear_selection();
    assert!(sel.files.is_empty());
    assert_eq!(sel.mode, SelectionMode::Single);
}

#[test]
fn deselect_removes_only_that_entry() {
    let mut sel = SelectAction::new();
    let l = listing();
    sel.mode = SelectionMode::Multiple;
    sel.select_file(&l[0], &l);
    sel.select_file(&l[1], &l);
    sel.deselect_file(&l[0]);
    assert_eq!(sel.files, vec![s("/d/b")]);
    sel.deselect_file(&l[3]);
    assert_eq!(sel.files, vec![s("/d/b")]);
    assert!(sel.is_file_selected(&l[1]));
    assert!(!sel.is_file_selected(&l[0]));
}

#[test]
fn get_selection_when_empty_gives_message() {
    let sel = SelectAction::new();
    match sel.get_selected_files(&s("No file is selected.")) {
        SelectionResult::NothingSelected(m) => assert_eq!(m, "No file is selected."),
        _ => panic!("expected the empty-selection message"),
    }
}

#[test]
fn get_selection_single_and_multiple() {
    let mut sel = SelectAction::new();
    let l = listing();
    sel.select_file(&l[2], &l);
    match sel.get_selected_files(&s("none")) {
        SelectionResult::Single(p) => assert_eq!(p, "/d/c"),
        _ => panic!("expected one entry"),
    }
    sel.mode = SelectionMode::Multiple;
    sel.select_file(&l[4], &l);
    let r = sel.get_selected_files(&s("none"));
    match r.clone() {
        SelectionResult::Multiple(ps) => assert_eq!(ps, vec![s("/d/c"), s("/d/e")]),
        _ => panic!("expected all entries"),
    }
    sel.mode = SelectionMode::Ranged;
    assert!(matches!(sel.get_selected_files(&s("none")), SelectionResult::Multiple(_)));
}

#[test]
fn prune_removes_exactly_missing() {
    let mut sel = SelectAction::new();
    let l = listing();
    sel.mode = SelectionMode::Multiple;
    sel.select_file(&l[0], &l);
    sel.select_file(&l[1], &l);
    sel.select_file(&l[2], &l);
    sel.remove_deleted_files(&vec![s("/d/b"), s("/d/zzz")]);
    assert_eq!(sel.files, vec![s("/d/a"), s("/d/c")]);
    sel.remove_deleted_files(&Vec::new());
    assert_eq!(sel.files, vec![s("/d/a"), s("/d/c")]);
}

#[test]
fn key_jump_selects_next_name_with_letter() {
    let l = vec![s("/home/u/alpha"), s("/home/u/notes.txt"), s("/home/u/beta"), s("/home/u/nine")];
    let mut sel = SelectAction::new();
    sel.key_pressed(&l, 'N');
    assert_eq!(sel.files, vec![s("/home/u/notes.txt")]);
    assert_eq!(sel.key_select, KeySelect::Held { key: 'N', needs_scroll: true });
    sel.key_pressed(&l, 'N');
    assert_eq!(sel.files, vec![s("/home/u/notes.txt")]);
    sel.key_released('N');
    assert_eq!(sel.key_select, KeySelect::Idle);
    sel.key_pressed(&l, 'N');
    assert_eq!(sel.files, vec![s("/home/u/nine")]);
    sel.key_released('N');
    sel.key_pressed(&l, 'N');
    assert_eq!(sel.files, vec![s("/home/u/nine")]);
    assert_eq!(sel.key_select, KeySelect::Idle);
}

#[test]
fn key_jump_into_empty_listing_does_nothing() {
    let mut sel = SelectAction::new();
    let empty: Vec<String> = Vec::new();
    sel.key_pressed(&empty, 'A');
    assert!(sel.files.is_empty());
    assert_eq!(sel.key_select, KeySelect::Idle);
}

#[test]
fn select_by_key_collapses_any_mode() {
    let mut sel = SelectAction::new();
    let l = listing();
    sel.mode = SelectionMode::Multiple;
    sel.select_file(&l[0], &l);
    sel.select_file(&l[1], &l);
    sel.select_by_key(&l[3], 'D');
    assert_eq!(sel.files, vec![s("/d/d")]);
    assert_eq!(sel.mode, SelectionMode::Multiple);
    sel.scrolled_to_selection();
    assert_eq!(sel.key_select, KeySelect::Held { key: 'D', needs_scroll: false });
    sel.key_released('X');
    assert_eq!(sel.key_select, KeySelect::Held { key: 'D', needs_scroll: false });
}

#[test]
fn actions_start_empty() {
    let a = Actions::new();
    assert!(a.select_action.files.is_empty());
    assert_eq!(a.select_action.mode, SelectionMode::Single);
}
