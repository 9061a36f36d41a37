use gifwat::panel::{
    AnchorTracker, PanelAction, Placement, VisState, VisibilityController,
};

#[test]
fn scenario_tray_click_then_focus_lost() {
    let mut vis = VisibilityController::new();
    assert_eq!(vis.state, VisState::Hidden);
    let action = vis.toggle(Some((500, 40)), Some(1920));
    assert_eq!(action, PanelAction::ShowAt(Placement { x: 340, y: 40 }));
    assert_eq!(vis.state, VisState::Visible);
    let action = vis.focus_lost();
    assert_eq!(action, PanelAction::Hide);
    assert_eq!(vis.state, VisState::Hidden);
}

#[test]
fn scenario_hotkey_before_any_click() {
    let tracker = AnchorTracker::new();
    assert_eq!(tracker.last(), None);
    let mut vis = VisibilityController::new();
    let action = vis.toggle(tracker.last(), Some(1920));
    // fallback: flush to the top-right of the primary display
    assert_eq!(action, PanelAction::ShowAt(Placement { x: 1590, y: 30 }));
    assert_eq!(vis.state, VisState::Visible);
}

#[test]
fn hide_twice_from_hidden_is_idempotent() {
    let mut vis = VisibilityController::new();
    let first = vis.explicit_hide();
    assert_eq!(first, PanelAction::Stay);
    assert_eq!(vis.state, VisState::Hidden);
    let second = vis.explicit_hide();
    assert_eq!(second, PanelAction::Stay);
    assert_eq!(vis.state, VisState::Hidden);
}

#[test]
fn hide_after_show_then_again() {
    let mut vis = VisibilityController::new();
    vis.toggle(Some((10, 10)), None);
    assert_eq!(vis.state, VisState::Visible);
    assert_eq!(vis.explicit_hide(), PanelAction::Hide);
    assert_eq!(vis.explicit_hide(), PanelAction::Stay);
    assert_eq!(vis.state, VisState::Hidden);
}

#[test]
fn toggle_while_visible_hides() {
    let mut vis = VisibilityController::new();
    vis.toggle(Some((100, 20)), Some(800));
    let action = vis.toggle(Some((100, 20)), Some(800));
    assert_eq!(action, PanelAction::Hide);
    assert_eq!(vis.state, VisState::Hidden);
}

#[test]
fn toggle_without_anchor_or_screen_shows_unplaced() {
    let mut vis = VisibilityController::new();
    let action = vis.toggle(None, None);
    assert_eq!(action, PanelAction::ShowUnplaced);
    assert_eq!(vis.state, VisState::Visible);
}

#[test]
fn anchor_tracker_keeps_last_click() {
    let mut tracker = AnchorTracker::new();
    tracker.record(1, 2);
    tracker.record(500, 40);
    assert_eq!(tracker.last(), Some((500, 40)));
    let mut vis = VisibilityController::new();
    let action = vis.toggle(tracker.last(), Some(1920));
    assert_eq!(action, PanelAction::ShowAt(Placement { x: 340, y: 40 }));
}
