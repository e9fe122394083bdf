//! Application-level input events and the decisions the interface loop makes
//! on them: which panel is focused, how the track list selection moves, and
//! when the application quits.

use vstd::prelude::*;

verus! {

/// Messages the interface sends back to the application core. No message
/// carries content yet; the variant stands in until one does.
pub enum AppMessage {
    Nothing,
}

/// A key press together with its modifiers, or a request to redraw.
#[derive(Clone, Copy, PartialEq, Eq, Structural)]
pub enum Event {
    KeyPressed(KeyCode, Modifiers),
    Redraw,
}

/// The subset of keys the interface reacts to.
#[derive(Clone, Copy, PartialEq, Eq, Structural)]
pub enum KeyCode {
    Backspace,
    Char(char),
    Enter,
    Escape,
    Tab,
}

/// Modifier keys held during a key press.
#[derive(Clone, Copy, PartialEq, Eq, Structural)]
pub struct Modifiers {
    pub shift: bool,
    pub ctrl: bool,
    pub alt: bool,
    pub hyper: bool,
}

impl Modifiers {
    /// No modifier held.
    pub fn none() -> (r: Modifiers)
        ensures
            !r.shift && !r.ctrl && !r.alt && !r.hyper,
    {
        Modifiers { shift: false, ctrl: false, alt: false, hyper: false }
    }
}

/// Which panel of the interface owns key presses right now.
#[derive(Clone, Copy, PartialEq, Eq, Structural)]
pub enum SelectedPanel {
    TrackList,
    Inspector,
}

impl Default for SelectedPanel {
    fn default() -> (r: SelectedPanel)
        ensures
            r == SelectedPanel::TrackList,
    {
        SelectedPanel::TrackList
    }
}

/// What the interface loop should do with an event that no panel handled.
#[derive(Clone, Copy, PartialEq, Eq, Structural)]
pub enum AppAction {
    Quit,
    SwitchPanel(SelectedPanel),
    Ignore,
}

/// The decision the interface loop takes on an event that the focused panel
/// did not consume: escape or `q` quits, `1` and `2` switch panels, and
/// everything else is ignored.
pub fn app_event_action(event: &Event) -> (r: AppAction)
    ensures
        r == spec_app_event_action(*event),
{
    match event {
        Event::KeyPressed(KeyCode::Escape, _) => AppAction::Quit,
        Event::KeyPressed(KeyCode::Char(c), _) => {
            if *c == 'q' {
                AppAction::Quit
            } else if *c == '1' {
                AppAction::SwitchPanel(SelectedPanel::TrackList)
            } else if *c == '2' {
                AppAction::SwitchPanel(SelectedPanel::Inspector)
            } else {
                AppAction::Ignore
            }
        },
        _ => AppAction::Ignore,
    }
}

/// The mapping from unconsumed events to loop actions.
pub open spec fn spec_app_event_action(event: Event) -> AppAction {
    match event {
        Event::KeyPressed(KeyCode::Escape, _) => AppAction::Quit,
        Event::KeyPressed(KeyCode::Char(c), _) => if c == 'q' {
            AppAction::Quit
        } else if c == '1' {
            AppAction::SwitchPanel(SelectedPanel::TrackList)
        } else if c == '2' {
            AppAction::SwitchPanel(SelectedPanel::Inspector)
        } else {
            AppAction::Ignore
        },
        _ => AppAction::Ignore,
    }
}

/// The track-list panel's cursor: which row is highlighted and which track,
/// if any, the inspector panel is showing.
pub struct TrackListState {
    /// The highlighted row; moving past either end saturates.
    pub selected: Option<usize>,
    /// The catalog index of the track shown in the inspector.
    pub inspected: Option<usize>,
}

impl TrackListState {
    /// A fresh list cursor: nothing highlighted, nothing inspected.
    pub fn new() -> (r: TrackListState)
        ensures
            r.selected is None,
            r.inspected is None,
    {
        TrackListState { selected: None, inspected: None }
    }
}

/// The row the cursor moves to on a step down: the first row when nothing is
/// highlighted, else one further, saturating at the largest index.
pub open spec fn spec_next_row(selected: Option<usize>) -> usize {
    match selected {
        None => 0,
        Some(i) => if i == usize::MAX {
            usize::MAX
        } else {
            (i + 1) as usize
        },
    }
}

/// The row the cursor moves to on a step up: the last possible row when
/// nothing is highlighted, else one back, saturating at zero.
pub open spec fn spec_prev_row(selected: Option<usize>) -> usize {
    match selected {
        None => usize::MAX,
        Some(i) => if i == 0 {
            0
        } else {
            (i - 1) as usize
        },
    }
}

/// The inspector shows the track at the highlighted row, or at the top when
/// nothing is highlighted; a row past the end of the catalog shows nothing.
pub open spec fn spec_inspected(selected: Option<usize>, track_count: usize) -> Option<usize> {
    let row = match selected {
        None => 0,
        Some(i) => i,
    };
    if row < track_count {
        Some(row)
    } else {
        None
    }
}

/// Key handling owned by the track-list panel: `j` moves the cursor down and
/// `k` up, both re-aiming the inspector at the newly highlighted track; every
/// other event is left for the interface loop and reported unhandled.
pub fn handle_track_list_events(event: &Event, state: &mut TrackListState, track_count: usize) -> (handled: bool)
    ensures
        handled == (*event matches Event::KeyPressed(KeyCode::Char(c), _) && (c == 'j' || c == 'k')),
        (*event matches Event::KeyPressed(KeyCode::Char(c), _) && c == 'j') ==> {
            &&& final(state).selected == Some(spec_next_row(old(state).selected))
            &&& final(state).inspected == spec_inspected(final(state).selected, track_count)
        },
        (*event matches Event::KeyPressed(KeyCode::Char(c), _) && c == 'k') ==> {
            &&& final(state).selected == Some(spec_prev_row(old(state).selected))
            &&& final(state).inspected == spec_inspected(final(state).selected, track_count)
        },
        !handled ==> *final(state) == *old(state),
{
    match event {
        Event::KeyPressed(KeyCode::Char(c), _) => {
            if *c == 'j' {
                let row = match state.selected {
                    None => 0,
                    Some(i) => if i == usize::MAX {
                        usize::MAX
                    } else {
                        i + 1
                    },
                };
                state.selected = Some(row);
                state.inspected = if row < track_count {
                    Some(row)
                } else {
                    None
                };
                true
            } else if *c == 'k' {
                let row = match state.selected {
                    None => usize::MAX,
                    Some(i) => if i == 0 {
                        0
                    } else {
                        i - 1
                    },
                };
                state.selected = Some(row);
                state.inspected = if row < track_count {
                    Some(row)
                } else {
                    None
                };
                true
            } else {
                false
            }
        },
        _ => false,
    }
}

} // verus!
