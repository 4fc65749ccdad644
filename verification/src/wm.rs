//! Window-manager records: managed windows, input modes, seat operations,
//! and the small placement policies the manage cycle applies.

use vstd::prelude::*;
use crate::actions::Action;
use crate::layout::{FrameId, Rect};

verus! {

/// Input mode (normal or resize).
#[derive(Debug, Clone, Copy, PartialEq, Eq, Structural)]
pub enum InputMode {
    Normal,
    Resize,
}

/// How a floating window is positioned and focused.
#[derive(Debug, Clone, Copy, PartialEq, Eq, Structural)]
pub enum FloatingKind {
    Dialog,
    Notification,
}

impl FloatingKind {
    /// Notifications never take focus; everything else does.
    pub fn should_auto_focus(self) -> (b: bool)
        ensures
            b == !(self is Notification),
    {
        !matches!(self, FloatingKind::Notification)
    }
}

/// Edge bits of an interactive resize (left, right, top, bottom), as the
/// compositor reports them.
pub type EdgeBits = u32;

/// A window tracked by the window manager. Protocol objects are held by the
/// caller beside it, found again by `id`.
#[derive(Debug)]
pub struct ManagedWindow {
    /// Unique identifier (the protocol object id).
    pub id: u64,
    pub app_id: String,
    pub title: String,
    /// Stable identifier from the compositor (persists across reconnects).
    pub identifier: Option<String>,
    pub width: i32,
    pub height: i32,
    /// Last dimensions proposed to the client.
    pub last_proposed_width: i32,
    pub last_proposed_height: i32,
    pub new: bool,
    pub closed: bool,
    /// The frame this window is placed in.
    pub frame_id: Option<FrameId>,
    pub floating: bool,
    pub fullscreen: bool,
    /// Number of active screen-capture sessions involving this window.
    pub capture_sessions: u32,
    /// Whether the window prefers server-side decorations.
    pub prefers_ssd: bool,
    pub floating_kind: FloatingKind,
    /// Floating position.
    pub float_x: i32,
    pub float_y: i32,
    /// Whether this floating window has been positioned with its real size.
    pub float_positioned: bool,
    /// The seat (by object id) that asked to move this window.
    pub pointer_move_requested: Option<u64>,
    /// The seat (by object id) that asked to resize this window.
    pub pointer_resize_requested: Option<u64>,
    pub pointer_resize_requested_edges: EdgeBits,
}

/// Size used for a floating window whose size is not known yet.
pub const DEFAULT_FLOAT_WIDTH: i32 = 640;
pub const DEFAULT_FLOAT_HEIGHT: i32 = 480;
/// Distance of a notification from the top-right corner.
pub const NOTIFICATION_MARGIN: i32 = 20;

/// The size a floating window is placed with: its own where known.
pub open spec fn float_size(w: ManagedWindow) -> (int, int) {
    (
        if w.width > 0 { w.width as int } else { DEFAULT_FLOAT_WIDTH as int },
        if w.height > 0 { w.height as int } else { DEFAULT_FLOAT_HEIGHT as int },
    )
}

/// Halving as `i32` division does it (toward zero).
pub open spec fn half_toward_zero(a: int) -> int {
    if a >= 0 { a / 2 } else { -((-a) / 2) }
}

/// Where a floating window goes in `area`: notifications at the top-right
/// corner, dialogs centered.
pub open spec fn float_position(w: ManagedWindow, area: Rect) -> (int, int) {
    let (fw, fh) = float_size(w);
    match w.floating_kind {
        FloatingKind::Notification => (
            area.x + area.width - fw - NOTIFICATION_MARGIN,
            area.y + NOTIFICATION_MARGIN,
        ),
        FloatingKind::Dialog => (
            area.x + half_toward_zero(area.width - fw),
            area.y + half_toward_zero(area.height - fh),
        ),
    }
}

/// Every sum the placement computes fits `i32` (otherwise the arithmetic
/// overflows): for a notification the right edge and the corner position,
/// for a dialog the spare width and height and the centered position.
pub open spec fn float_fits(w: ManagedWindow, area: Rect) -> bool {
    let (fw, fh) = float_size(w);
    let p = float_position(w, area);
    match w.floating_kind {
        FloatingKind::Notification => {
            &&& i32::MIN <= area.x + area.width <= i32::MAX
            &&& i32::MIN <= area.x + area.width - fw <= i32::MAX
            &&& i32::MIN <= p.0 <= i32::MAX
            &&& i32::MIN <= p.1 <= i32::MAX
        },
        FloatingKind::Dialog => {
            &&& i32::MIN <= area.width - fw <= i32::MAX
            &&& i32::MIN <= area.height - fh <= i32::MAX
            &&& i32::MIN <= p.0 <= i32::MAX
            &&& i32::MIN <= p.1 <= i32::MAX
        },
    }
}

impl ManagedWindow {
    /// A newly announced window with identifier `id`: nothing known yet,
    /// tiled, a dialog if it ever floats, floating position (100, 100).
    pub fn new(id: u64) -> (w: ManagedWindow)
        ensures
            w.id == id,
            w.app_id@.len() == 0,
            w.title@.len() == 0,
            w.identifier is None,
            w.width == 0 && w.height == 0,
            w.last_proposed_width == 0 && w.last_proposed_height == 0,
            w.new,
            !w.closed,
            w.frame_id is None,
            !w.floating && !w.fullscreen,
            w.capture_sessions == 0,
            !w.prefers_ssd,
            w.floating_kind == FloatingKind::Dialog,
            w.float_x == 100 && w.float_y == 100,
            !w.float_positioned,
            w.pointer_move_requested is None,
            w.pointer_resize_requested is None,
            w.pointer_resize_requested_edges == 0,
    {
        ManagedWindow {
            id,
            app_id: String::new(),
            title: String::new(),
            identifier: None,
            width: 0,
            height: 0,
            last_proposed_width: 0,
            last_proposed_height: 0,
            new: true,
            closed: false,
            frame_id: None,
            floating: false,
            fullscreen: false,
            capture_sessions: 0,
            prefers_ssd: false,
            floating_kind: FloatingKind::Dialog,
            float_x: 100,
            float_y: 100,
            float_positioned: false,
            pointer_move_requested: None,
            pointer_resize_requested: None,
            pointer_resize_requested_edges: 0,
        }
    }

    /// The size the window floats with: its own, or 640x480 while unknown.
    pub fn floating_dimensions(&self) -> (d: (i32, i32))
        ensures
            (d.0 as int, d.1 as int) == float_size(*self),
    {
        let win_w = if self.width > 0 { self.width } else { DEFAULT_FLOAT_WIDTH };
        let win_h = if self.height > 0 { self.height } else { DEFAULT_FLOAT_HEIGHT };
        (win_w, win_h)
    }

    /// Place the floating window in `area`: a notification at the top-right
    /// corner, a dialog centered.
    pub fn position_floating(&mut self, area: Rect)
        requires
            float_fits(*old(self), area),
        ensures
            (final(self).float_x as int, final(self).float_y as int) == float_position(*old(self), area),
            *final(self) == (ManagedWindow { float_x: final(self).float_x, float_y: final(self).float_y, ..*old(self) }),
    {
        let (win_w, win_h) = self.floating_dimensions();
        match self.floating_kind {
            FloatingKind::Notification => {
                self.float_x = area.x + area.width - win_w - NOTIFICATION_MARGIN;
                self.float_y = area.y + NOTIFICATION_MARGIN;
            },
            FloatingKind::Dialog => {
                self.float_x = area.x + (area.width - win_w) / 2;
                self.float_y = area.y + (area.height - win_h) / 2;
            },
        }
    }
}

/// An in-progress pointer operation of a seat.
#[derive(Debug, Clone)]
pub enum SeatOp {
    /// No operation in progress.
    Idle,
    Move { window_id: u64, start_x: i32, start_y: i32 },
    Resize {
        window_id: u64,
        start_x: i32,
        start_y: i32,
        start_width: i32,
        start_height: i32,
        edges: EdgeBits,
        /// Which axes to resize (by proximity to split boundaries).
        resize_h: bool,
        resize_v: bool,
        /// Path to the horizontal split boundary grabbed at drag start.
        h_boundary_path: Option<Vec<bool>>,
        /// Path to the vertical split boundary grabbed at drag start.
        v_boundary_path: Option<Vec<bool>>,
    },
    /// Resize a split boundary from an empty frame area.
    ResizeEmpty {
        frame_id: FrameId,
        resize_h: bool,
        resize_v: bool,
        h_boundary_path: Option<Vec<bool>>,
        v_boundary_path: Option<Vec<bool>>,
    },
}

/// A key binding registered with the compositor (by object id), and what it
/// does in which mode.
#[derive(Debug)]
pub struct XkbBindingEntry {
    pub binding_id: u64,
    pub action: Action,
    pub mode: InputMode,
}

/// A pointer binding registered with the compositor (by object id).
#[derive(Debug)]
pub struct PointerBindingEntry {
    pub binding_id: u64,
    pub action: Action,
    pub is_move: bool,
}

/// Whether placing a window should switch to the workspace of its target
/// frame: only for placements from an app binding, not from a saved-state
/// restore, and only when that workspace is hidden.
pub fn should_reveal_bound_workspace(restored: bool, from_binding: bool, target_visible: bool) -> (b: bool)
    ensures
        b == (from_binding && !restored && !target_visible),
{
    from_binding && !restored && !target_visible
}

} // verus!
