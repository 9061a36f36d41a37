//! The panel visibility state machine and the tray-click anchor.
//!
//! The controller decides show/hide and computes the panel's top-left
//! corner; the window itself is an external resource that the surrounding
//! program commands with the returned action.

use vstd::prelude::*;

verus! {

/// The fixed width of the panel window, in pixels.
pub const PANEL_WIDTH: i64 = 320;

/// Gap kept between the panel and the right screen edge in the fallback
/// placement.
pub const FALLBACK_MARGIN: i64 = 10;

/// Distance from the top of the screen in the fallback placement.
pub const FALLBACK_TOP: i64 = 30;

/// Remembers the screen point of the last tray click; unset before any
/// click has happened this run.
pub struct AnchorTracker {
    pub point: Option<(i32, i32)>,
}

impl AnchorTracker {
    /// A tracker with no click recorded yet.
    pub fn new() -> (t: AnchorTracker)
        ensures
            t.point is None,
    {
        AnchorTracker { point: None }
    }

    /// Overwrites the anchor with the newest click position.
    pub fn record(&mut self, x: i32, y: i32)
        ensures
            final(self).point == Some((x, y)),
    {
        self.point = Some((x, y));
    }

    /// The last recorded click position, or `None` when unset.
    pub fn last(&self) -> (r: Option<(i32, i32)>)
        ensures
            r == self.point,
    {
        self.point
    }
}

/// Whether the panel is currently shown.
#[derive(PartialEq, Eq, Structural, Clone, Copy, Debug)]
pub enum VisState {
    Hidden,
    Visible,
}

/// A top-left screen position for the panel.
#[derive(PartialEq, Eq, Structural, Clone, Copy, Debug)]
pub struct Placement {
    pub x: i64,
    pub y: i64,
}

/// What the controller asks of the window after a transition.
#[derive(PartialEq, Eq, Structural, Clone, Copy, Debug)]
pub enum PanelAction {
    /// Move to the given top-left corner, show, and take input focus.
    ShowAt(Placement),
    /// Show and take focus without repositioning: no anchor is known and
    /// no display bounds are available.
    ShowUnplaced,
    /// Hide the window.
    Hide,
    /// Nothing to ask of the window.
    Stay,
}

/// Placement under a tray anchor: centered horizontally on the anchor
/// point, immediately below it (the reported point already lies under the
/// icon, so no further clearance is added).
pub open spec fn spec_anchor_placement(x: i32, y: i32) -> Placement {
    Placement { x: (x - PANEL_WIDTH / 2) as i64, y: y as i64 }
}

/// Fallback placement when no tray click was ever recorded: flush to the
/// top-right of the primary display, with a fixed margin.
pub open spec fn spec_fallback_placement(screen_w: i32) -> Placement {
    Placement { x: (screen_w - PANEL_WIDTH - FALLBACK_MARGIN) as i64, y: FALLBACK_TOP }
}

/// One toggle step: the next state, and what the window is asked.
pub open spec fn spec_toggle(
    s: VisState,
    anchor: Option<(i32, i32)>,
    screen_w: Option<i32>,
) -> (VisState, PanelAction) {
    match s {
        VisState::Visible => (VisState::Hidden, PanelAction::Hide),
        VisState::Hidden => (
            VisState::Visible,
            match anchor {
                Some(p) => PanelAction::ShowAt(spec_anchor_placement(p.0, p.1)),
                None => match screen_w {
                    Some(w) => PanelAction::ShowAt(spec_fallback_placement(w)),
                    None => PanelAction::ShowUnplaced,
                },
            },
        ),
    }
}

/// One hide step (focus loss or an explicit dismiss): the panel ends
/// hidden; the window is asked to hide only when it was visible.
pub open spec fn spec_hide(s: VisState) -> (VisState, PanelAction) {
    match s {
        VisState::Visible => (VisState::Hidden, PanelAction::Hide),
        VisState::Hidden => (VisState::Hidden, PanelAction::Stay),
    }
}

/// The visibility state machine driving the panel window.
pub struct VisibilityController {
    pub state: VisState,
}

impl VisibilityController {
    /// The panel starts hidden.
    pub fn new() -> (c: VisibilityController)
        ensures
            c.state == VisState::Hidden,
    {
        VisibilityController { state: VisState::Hidden }
    }

    /// Toggles the panel at an anchor point (a tray click, or the
    /// remembered anchor on a hotkey); `screen_w` is the primary display's
    /// width, used for the fallback placement when no anchor is known.
    pub fn toggle(&mut self, anchor: Option<(i32, i32)>, screen_w: Option<i32>) -> (a: PanelAction)
        ensures
            (final(self).state, a) == spec_toggle(old(self).state, anchor, screen_w),
    {
        match self.state {
            VisState::Visible => {
                self.state = VisState::Hidden;
                PanelAction::Hide
            },
            VisState::Hidden => {
                self.state = VisState::Visible;
                match anchor {
                    Some((x, y)) => PanelAction::ShowAt(
                        Placement { x: x as i64 - PANEL_WIDTH / 2, y: y as i64 },
                    ),
                    None => match screen_w {
                        Some(w) => PanelAction::ShowAt(
                            Placement { x: w as i64 - PANEL_WIDTH - FALLBACK_MARGIN, y: FALLBACK_TOP },
                        ),
                        None => PanelAction::ShowUnplaced,
                    },
                }
            },
        }
    }

    /// The panel lost input focus: a click elsewhere dismisses it.
    pub fn focus_lost(&mut self) -> (a: PanelAction)
        ensures
            (final(self).state, a) == spec_hide(old(self).state),
    {
        let a = if self.state == VisState::Visible {
            PanelAction::Hide
        } else {
            PanelAction::Stay
        };
        self.state = VisState::Hidden;
        a
    }

    /// An in-panel dismiss action hides the panel.
    pub fn explicit_hide(&mut self) -> (a: PanelAction)
        ensures
            (final(self).state, a) == spec_hide(old(self).state),
    {
        self.focus_lost()
    }
}

/// Hiding is idempotent: after one hide step the panel is hidden, and a
/// second hide step in a row keeps the state `Hidden` and asks nothing of
/// the window.
pub proof fn lemma_hide_idempotent(s: VisState)
    ensures
        spec_hide(s).0 == VisState::Hidden,
        spec_hide(spec_hide(s).0).0 == VisState::Hidden,
        spec_hide(spec_hide(s).0).1 == PanelAction::Stay,
{
}

} // verus!
