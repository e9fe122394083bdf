use segue_attacca::events::{
    app_event_action, handle_track_list_events, AppAction, Event, KeyCode, Modifiers,
    SelectedPanel, TrackListState,
};

fn key(c: char) -> Event {
    Event::KeyPressed(KeyCode::Char(c), Modifiers::none())
}

#[test]
fn escape_and_q_quit() {
    assert!(
        app_event_action(&Event::KeyPressed(KeyCode::Escape, Modifiers::none())) == AppAction::Quit
    );
    assert!(app_event_action(&key('q')) == AppAction::Quit);
}

#[test]
fn digits_switch_panels() {
    assert!(app_event_action(&key('1')) == AppAction::SwitchPanel(SelectedPanel::TrackList));
    assert!(app_event_action(&key('2')) == AppAction::SwitchPanel(SelectedPanel::Inspector));
}

#[test]
fn other_events_are_ignored() {
    assert!(app_event_action(&key('x')) == AppAction::Ignore);
    assert!(app_event_action(&Event::Redraw) == AppAction::Ignore);
    assert!(
        app_event_action(&Event::KeyPressed(KeyCode::Enter, Modifiers::none()))
            == AppAction::Ignore
    );
}

#[test]
fn stepping_down_selects_the_first_row_then_walks() {
    let mut state = TrackListState::new();
    assert!(handle_track_list_events(&key('j'), &mut state, 2));
    assert_eq!(state.selected, Some(0));
    assert_eq!(state.inspected, Some(0));
    assert!(handle_track_list_events(&key('j'), &mut state, 2));
    assert_eq!(state.selected, Some(1));
    assert_eq!(state.inspected, Some(1));
    assert!(handle_track_list_events(&key('j'), &mut state, 2));
    assert_eq!(state.selected, Some(2));
    assert_eq!(state.inspected, None);
}

#[test]
fn stepping_up_saturates_at_the_top() {
    let mut state = TrackListState::new();
    handle_track_list_events(&key('j'), &mut state, 3);
    handle_track_list_events(&key('j'), &mut state, 3);
    assert_eq!(state.selected, Some(1));
    assert!(handle_track_list_events(&key('k'), &mut state, 3));
    assert_eq!(state.selected, Some(0));
    assert!(handle_track_list_events(&key('k'), &mut state, 3));
    assert_eq!(state.selected, Some(0));
    assert_eq!(state.inspected, Some(0));
}

#[test]
fn unhandled_keys_leave_the_cursor_alone() {
    let mut state = TrackListState::new();
    assert!(!handle_track_list_events(&key('x'), &mut state, 3));
    assert_eq!(state.selected, None);
    assert_eq!(state.inspected, None);
    assert!(!handle_track_list_events(&Event::Redraw, &mut state, 3));
}

#[test]
fn no_modifier_means_all_flags_off() {
    let m = Modifiers::none();
    assert!(!m.shift && !m.ctrl && !m.alt && !m.hyper);
}

#[test]
fn the_track_list_panel_is_focused_first() {
    assert!(SelectedPanel::default() == SelectedPanel::TrackList);
}
