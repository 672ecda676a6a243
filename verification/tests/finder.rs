use oslo::finder::{visible_rows, Outcome, Scope, Selection};

#[test]
fn tab_switches_the_scope_and_back() {
    assert_eq!(Scope::Global.toggled(), Scope::Local);
    assert_eq!(Scope::Local.toggled(), Scope::Global);
    assert_eq!(Scope::Global.toggled().toggled(), Scope::Global);
    assert_ne!(
        Outcome::Cancelled,
        Outcome::Chosen {
            line: "ls".to_string(),
            mode: "sh".to_string()
        }
    );
}

/// Five rows of input chrome; the list always keeps at least one.
#[test]
fn the_list_gets_what_the_chrome_leaves() {
    assert_eq!(visible_rows(12), 7);
    assert_eq!(visible_rows(7), 2);
    assert_eq!(visible_rows(6), 1);
    assert_eq!(visible_rows(3), 1);
    assert_eq!(visible_rows(0), 1);
}

/// Index zero is drawn nearest the search bar: Up advances through the list, Down returns.
#[test]
fn arrow_navigation_follows_the_screen() {
    let mut state = Selection::new(5);
    state.fit(10);
    state.up();
    assert_eq!(state.selected, 1);
    state.down();
    assert_eq!(state.selected, 0);
}

/// The selection cannot leave the list, however hard a key is held.
#[test]
fn the_selection_is_clamped() {
    let mut state = Selection::new(5);
    state.fit(10);
    state.move_by(-100);
    assert_eq!(state.selected, 0);
    state.move_by(100);
    assert_eq!(state.selected, 4);
    state.move_by(1);
    assert_eq!(state.selected, 4, "already at the end");
}

/// A list longer than the window scrolls, and the selection stays on screen.
#[test]
fn the_window_follows_the_selection() {
    let mut state = Selection::new(100);
    state.fit(12);
    assert_eq!(state.window, 7);
    state.move_by(6);
    assert_eq!(state.selected, 6);
    assert_eq!(state.offset, 0, "still in the first window");
    state.move_by(1);
    assert_eq!(state.selected, 7);
    assert_eq!(state.offset, 1, "scrolled by one");
    state.move_by(-7);
    assert_eq!(state.selected, 0);
    assert_eq!(state.offset, 0, "scrolled back");
}

/// The window never runs past the end of the list.
#[test]
fn the_window_does_not_overrun_the_list() {
    let mut state = Selection::new(12);
    state.fit(12);
    state.move_by(100);
    assert_eq!(state.selected, 11);
    assert_eq!(state.offset, 5, "the last window, not past it");
}

/// Filtering again homes the selection.
#[test]
fn filtering_again_returns_to_the_top() {
    let mut state = Selection::new(50);
    state.fit(12);
    state.move_by(20);
    assert_eq!(state.selected, 20);
    assert_eq!(state.offset, 14);
    state.refiltered(10);
    assert_eq!(state.selected, 0);
    assert_eq!(state.offset, 0);
    assert_eq!(state.matches, 10);
}

/// A resize between frames must not leave the selection off screen.
#[test]
fn shrinking_the_terminal_keeps_the_selection_visible() {
    let mut state = Selection::new(100);
    state.fit(40);
    state.move_by(30);
    assert_eq!(state.selected, 30);
    state.fit(7);
    assert_eq!(state.window, 2);
    assert!(state.selected >= state.offset && state.selected < state.offset + state.window);
    assert_eq!(state.offset, 29);
}

/// Pages move by a whole window.
#[test]
fn a_page_is_a_window() {
    let mut state = Selection::new(100);
    state.fit(12);
    state.page_up();
    assert_eq!(state.selected, 7);
    assert_eq!(state.offset, 1);
    state.page_up();
    assert_eq!(state.selected, 14);
    state.page_down();
    assert_eq!(state.selected, 7);
    state.page_down();
    state.page_down();
    assert_eq!(state.selected, 0);
    assert_eq!(state.offset, 0);
}

/// Forgetting a row keeps the eye where it was, or on the new last row.
#[test]
fn forgetting_keeps_the_place() {
    let mut state = Selection::new(10);
    state.fit(20);
    state.move_by(4);
    state.forgotten(9);
    assert_eq!(state.selected, 4);
    let mut state = Selection::new(3);
    state.fit(20);
    state.move_by(2);
    state.forgotten(2);
    assert_eq!(state.selected, 1);
    state.forgotten(0);
    assert_eq!(state.selected, 0);
}

/// A list that matches nothing is safe to move in.
#[test]
fn an_empty_result_list_is_safe_to_move_in() {
    let mut state = Selection::new(5);
    state.refiltered(0);
    state.fit(20);
    state.move_by(1);
    state.move_by(-1);
    assert_eq!(state.selected, 0);
    assert_eq!(state.offset, 0);
}
