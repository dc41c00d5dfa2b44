use weaver::editor::EditorState;

#[test]
fn a_new_editor_state_has_no_actions() {
    let mut state: EditorState<u32> = EditorState::new();
    assert!(!state.action_in_progress(1));
    assert_eq!(state.undo(), None);
    assert_eq!(state.redo(), None);
}

#[test]
fn an_action_under_way_is_kept_by_kind() {
    let mut state: EditorState<u32> = EditorState::new();
    assert_eq!(state.begin_action(1, 10), None);
    assert!(state.action_in_progress(1));
    assert!(!state.action_in_progress(2));
    assert_eq!(state.begin_action(1, 11), Some(10));
    assert_eq!(state.end_action(1), Some(11));
    assert!(!state.action_in_progress(1));
    assert_eq!(state.end_action(1), None);
}

#[test]
fn undo_then_redo_gives_back_the_action() {
    let mut state: EditorState<u32> = EditorState::default();
    state.push_done(1);
    state.push_done(2);
    let undone = state.undo().unwrap();
    assert_eq!(undone, 2);
    state.push_undone(undone);
    let redone = state.redo().unwrap();
    assert_eq!(redone, 2);
    state.push_done(redone);
    assert_eq!(state.undo(), Some(2));
    assert_eq!(state.undo(), Some(1));
    assert_eq!(state.undo(), None);
}
