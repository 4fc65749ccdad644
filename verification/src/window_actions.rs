//! What the window manager does with an action: the changes to workspaces,
//! frames and windows, and what it asks the compositor or the system to do.

use vstd::prelude::*;
use crate::layout::frame_with_window;
use crate::actions::Action;
use crate::layout::{
    can_remove, find_leaf, has_id, has_window_id, leaf_ids, remove_leaf, replace_leaf, split_at,
    tab_after_removal, toggle_at, Direction, FrameId, FrameIdAlloc, FrameView, Orientation, SplitNode,
    Tree, WindowRef, bump,
};
use crate::seqs::{any_match, first_match, lemma_first_match, lemma_first_match_none, lemma_first_match_unique};
use crate::state::{same_but_layout, skeleton};
use crate::wm::{InputMode, ManagedWindow, SeatOp};
use crate::workspace::{id_is, switched, ws_named, Output, OutputId, Workspace, WorkspaceId, WorkspaceManager};
use crate::config::CommandsConfig;
use crate::layout::{overlap_len, Rect};
use crate::wm::half_toward_zero;

verus! {

/// What the caller must do beyond the window manager's own state.
#[derive(Debug)]
pub enum Effect {
    Nothing,
    /// Ask the window to close.
    CloseWindow(u64),
    /// Make the window fullscreen on the output.
    EnterFullscreen(u64, OutputId),
    /// Take the window out of fullscreen.
    ExitFullscreen(u64),
    /// Move the focused frame's edge (the ratio arithmetic is the caller's).
    ResizeFrame(FrameId, Direction),
    /// Start a program: the command and its arguments.
    Spawn(Vec<String>),
    /// End the session.
    ExitSession,
    /// Read the configuration again.
    ReloadConfig,
    /// Save the layout and exit, to be started again.
    Restart,
    /// Toggle the focused window's app binding to the focused frame.
    ToggleAppBinding,
    /// Bind the focused window's app to the focused frame only.
    BindAppExclusive,
}

/// Where a directional focus or move goes, as the geometry finds it: the
/// neighbouring frame in the same workspace, else the entry frame of the
/// workspace shown on the adjacent monitor.
#[derive(Debug, Clone, Copy)]
pub struct DirectionTargets {
    pub neighbor: Option<FrameId>,
    pub cross: Option<(WorkspaceId, FrameId)>,
}

// ── The model ─────────────────────────────────────────────────────────────

/// The frame after window `wid` left it (the active tab pulled back into
/// range); unchanged when it does not hold the window.
pub open spec fn frame_without(f: FrameView, wid: u64) -> FrameView {
    match first_match(f.windows, has_window_id(wid)) {
        Some(pos) => FrameView {
            windows: f.windows.remove(pos),
            active_tab: tab_after_removal(f.active_tab, (f.windows.len() - 1) as nat),
            ..f
        },
        None => f,
    }
}

/// The frame after window `w` joined it as the active tab.
pub open spec fn frame_with(f: FrameView, w: WindowRef) -> FrameView {
    FrameView { windows: f.windows.push(w), active_tab: f.windows.len() as usize, ..f }
}

/// The tree after window `wid` left frame `fid` (unchanged without that frame).
pub open spec fn take_from<R>(t: Tree<R>, fid: FrameId, wid: u64) -> Tree<R> {
    match find_leaf(t, fid) {
        Some(f) => replace_leaf(t, fid, frame_without(f, wid)),
        None => t,
    }
}

/// The tree after window `w` joined frame `fid` (unchanged without that frame).
pub open spec fn put_into<R>(t: Tree<R>, fid: FrameId, w: WindowRef) -> Tree<R> {
    match find_leaf(t, fid) {
        Some(f) => replace_leaf(t, fid, frame_with(f, w)),
        None => t,
    }
}

pub open spec fn window_is(id: u64) -> spec_fn(ManagedWindow) -> bool {
    |m: ManagedWindow| m.id == id
}

/// The managed windows after the first with identifier `wid` was recorded
/// as placed in frame `fid`.
pub open spec fn placed_in(ws: Seq<ManagedWindow>, wid: u64, fid: FrameId) -> Seq<ManagedWindow> {
    match first_match(ws, window_is(wid)) {
        Some(k) => ws.update(k, ManagedWindow { frame_id: Some(fid), ..ws[k] }),
        None => ws,
    }
}

/// The trees of the workspaces, in order.
pub open spec fn roots_of<R>(m: WorkspaceManager<R>) -> Seq<Tree<R>> {
    m.workspaces@.map_values(|w: Workspace<R>| w.root@)
}

/// The focused frames of the workspaces, in order.
pub open spec fn focus_of<R>(m: WorkspaceManager<R>) -> Seq<FrameId> {
    m.workspaces@.map_values(|w: Workspace<R>| w.focused_frame)
}

/// `m1` is `m0` with the workspaces' trees and focused frames now `roots`
/// and `focus`, and nothing else changed but possibly the focused workspace.
pub open spec fn relayout<R>(m0: WorkspaceManager<R>, m1: WorkspaceManager<R>, roots: Seq<Tree<R>>, focus: Seq<FrameId>) -> bool {
    &&& m1.workspaces@.len() == m0.workspaces@.len()
    &&& roots_of(m1) == roots
    &&& focus_of(m1) == focus
    &&& forall|j: int| 0 <= j < m0.workspaces@.len() ==> same_but_layout(#[trigger] m1.workspaces@[j], m0.workspaces@[j])
    &&& m1.outputs == m0.outputs
    &&& m1.output_workspace == m0.output_workspace
    &&& m1.monitor_memory == m0.monitor_memory
    &&& m1.outputs_changed == m0.outputs_changed
    &&& m1.last_connected_keys == m0.last_connected_keys
}

/// The focused workspace's position.
pub open spec fn fw<R>(m: WorkspaceManager<R>) -> int {
    m.focused_workspace.0 as int
}

/// The focused frame of the focused workspace.
pub open spec fn focused_frame_of<R>(m: WorkspaceManager<R>) -> FrameId {
    m.workspaces@[fw(m)].focused_frame
}

/// The focused frame's view, when the focused workspace has it.
pub open spec fn focused_leaf<R>(m: WorkspaceManager<R>) -> Option<FrameView> {
    find_leaf(m.workspaces@[fw(m)].root@, focused_frame_of(m))
}

/// The active window of the focused frame.
pub open spec fn focused_window<R>(m: WorkspaceManager<R>) -> Option<WindowRef> {
    match focused_leaf(m) {
        Some(f) => if f.active_tab < f.windows.len() { Some(f.windows[f.active_tab as int]) } else { None },
        None => None,
    }
}

/// The manager can act on its focused workspace.
pub open spec fn has_focus<R>(m: WorkspaceManager<R>) -> bool {
    0 <= fw(m) < m.workspaces@.len()
}

// ── Moving a window between frames ────────────────────────────────────────

fn take_window<R: Copy>(root: &mut SplitNode<R>, fid: FrameId, wid: u64)
    ensures
        final(root)@ == take_from(old(root)@, fid, wid),
{
    match root.find_frame_mut(fid) {
        Some(f) => {
            let _ = f.remove_window(wid);
        },
        None => {},
    }
}

fn put_window<R: Copy>(root: &mut SplitNode<R>, fid: FrameId, w: WindowRef)
    ensures
        final(root)@ == put_into(old(root)@, fid, w),
{
    match root.find_frame_mut(fid) {
        Some(f) => f.add_window(w),
        None => {},
    }
}

pub(crate) fn place_window(windows: &mut Vec<ManagedWindow>, wid: u64, fid: FrameId)
    ensures
        final(windows)@ == placed_in(old(windows)@, wid, fid),
{
    let ghost p = window_is(wid);
    let mut k: usize = 0;
    while k < windows.len()
        invariant
            k <= windows@.len(),
            windows@ == old(windows)@,
            p == window_is(wid),
            forall|j: int| 0 <= j < k ==> !p(#[trigger] windows@[j]),
        decreases windows@.len() - k,
    {
        if windows[k].id == wid {
            proof {
                lemma_first_match_unique(windows@, p, k as int);
            }
            let w = &mut windows[k];
            w.frame_id = Some(fid);
            return;
        }
        k += 1;
    }
    proof {
        lemma_first_match_none(windows@, p);
    }
}

/// Change workspace `i`'s tree with `f`-like edits: the helpers below take
/// the workspace out by position.
pub(crate) fn set_focus<R>(m: &mut WorkspaceManager<R>, i: usize, fid: FrameId)
    requires
        i < old(m).workspaces@.len(),
    ensures
        relayout(*old(m), *final(m), roots_of(*old(m)), focus_of(*old(m)).update(i as int, fid)),
        final(m).focused_workspace == old(m).focused_workspace,
{
    let ghost m0 = *m;
    let w = &mut m.workspaces[i];
    w.focused_frame = fid;
    proof {
        assert(roots_of(*m) =~= roots_of(m0));
        assert(focus_of(*m) =~= focus_of(m0).update(i as int, fid));
    }
}

pub(crate) fn take_window_in<R: Copy>(m: &mut WorkspaceManager<R>, i: usize, fid: FrameId, wid: u64)
    requires
        i < old(m).workspaces@.len(),
    ensures
        relayout(*old(m), *final(m), roots_of(*old(m)).update(i as int, take_from(old(m).workspaces@[i as int].root@, fid, wid)), focus_of(*old(m))),
        final(m).focused_workspace == old(m).focused_workspace,
{
    let ghost m0 = *m;
    let w = &mut m.workspaces[i];
    take_window(&mut w.root, fid, wid);
    proof {
        assert(roots_of(*m) =~= roots_of(m0).update(i as int, take_from(m0.workspaces@[i as int].root@, fid, wid)));
        assert(focus_of(*m) =~= focus_of(m0));
    }
}

pub(crate) fn put_window_in<R: Copy>(m: &mut WorkspaceManager<R>, i: usize, fid: FrameId, win: WindowRef)
    requires
        i < old(m).workspaces@.len(),
    ensures
        relayout(*old(m), *final(m), roots_of(*old(m)).update(i as int, put_into(old(m).workspaces@[i as int].root@, fid, win)), focus_of(*old(m))),
        final(m).focused_workspace == old(m).focused_workspace,
{
    let ghost m0 = *m;
    let w = &mut m.workspaces[i];
    put_window(&mut w.root, fid, win);
    proof {
        assert(roots_of(*m) =~= roots_of(m0).update(i as int, put_into(m0.workspaces@[i as int].root@, fid, win)));
        assert(focus_of(*m) =~= focus_of(m0));
    }
}

pub(crate) proof fn lemma_relayout_trans<R>(m0: WorkspaceManager<R>, m1: WorkspaceManager<R>, m2: WorkspaceManager<R>)
    requires
        relayout(m0, m1, roots_of(m1), focus_of(m1)),
        relayout(m1, m2, roots_of(m2), focus_of(m2)),
    ensures
        relayout(m0, m2, roots_of(m2), focus_of(m2)),
{
    assert forall|j: int| 0 <= j < m0.workspaces@.len() implies same_but_layout(#[trigger] m2.workspaces@[j], m0.workspaces@[j]) by {
        assert(same_but_layout(m2.workspaces@[j], m1.workspaces@[j]));
        assert(same_but_layout(m1.workspaces@[j], m0.workspaces@[j]));
    }
}

pub(crate) proof fn lemma_roots_index<R>(m: WorkspaceManager<R>, i: int)
    requires
        0 <= i < m.workspaces@.len(),
    ensures
        roots_of(m)[i] == m.workspaces@[i].root@,
        focus_of(m)[i] == m.workspaces@[i].focused_frame,
        roots_of(m).len() == m.workspaces@.len(),
        focus_of(m).len() == m.workspaces@.len(),
{
}

// ── Splitting and unsplitting ─────────────────────────────────────────────

/// The focused workspace's tree and focused frame after an unsplit: an
/// empty focused frame that is not the only one is removed, and focus goes
/// to the first remaining frame.
pub open spec fn unsplit_result<R>(m: WorkspaceManager<R>) -> (Tree<R>, FrameId) {
    let w = m.workspaces@[fw(m)];
    let fid = w.focused_frame;
    let t = w.root@;
    if (focused_leaf(m) matches Some(f) && f.windows.len() > 0) || leaf_ids(t).len() <= 1 {
        (t, fid)
    } else if can_remove(t, fid) {
        (remove_leaf(t, fid), leaf_ids(remove_leaf(t, fid))[0])
    } else {
        (remove_leaf(t, fid), fid)
    }
}

/// Remove the focused frame if it is empty and not the last one; focus
/// moves to the first remaining frame.
pub fn perform_unsplit<R: Copy>(workspaces: &mut WorkspaceManager<R>)
    requires
        has_focus(*old(workspaces)),
    ensures
        relayout(
            *old(workspaces),
            *final(workspaces),
            roots_of(*old(workspaces)).update(fw(*old(workspaces)), unsplit_result(*old(workspaces)).0),
            focus_of(*old(workspaces)).update(fw(*old(workspaces)), unsplit_result(*old(workspaces)).1),
        ),
        final(workspaces).focused_workspace == old(workspaces).focused_workspace,
{
    let ghost m0 = *workspaces;
    let i = workspaces.focused_workspace.0;
    let fid = workspaces.workspaces[i].focused_frame;
    proof {
        lemma_roots_index(m0, i as int);
        assert(roots_of(m0).update(i as int, m0.workspaces@[i as int].root@) =~= roots_of(m0));
        assert(focus_of(m0).update(i as int, fid) =~= focus_of(m0));
    }
    match workspaces.workspaces[i].root.find_frame(fid) {
        Some(f) => {
            if !f.is_empty() {
                return;
            }
        },
        None => {},
    }
    let n = workspaces.workspaces[i].root.all_frame_ids().len();
    if n <= 1 {
        return;
    }
    let w = &mut workspaces.workspaces[i];
    if w.root.remove_frame(fid) {
        w.focused_frame = w.root.first_frame_id();
    }
    proof {
        assert(roots_of(*workspaces) =~= roots_of(m0).update(i as int, unsplit_result(m0).0));
        assert(focus_of(*workspaces) =~= focus_of(m0).update(i as int, unsplit_result(m0).1));
    }
}

/// The window that moves into the new frame when the focused frame is
/// split: its active window, when it holds more than one.
pub open spec fn split_mover<R>(m: WorkspaceManager<R>) -> Option<WindowRef> {
    match focused_leaf(m) {
        Some(f) => if f.windows.len() > 1 && f.active_tab < f.windows.len() {
            Some(f.windows[f.active_tab as int])
        } else {
            None
        },
        None => None,
    }
}

/// The workspaces after splitting the focused frame; `nid` is the new
/// frame. A frame with several windows gives its active one to the new
/// frame, and focus follows it.
pub open spec fn split_result<R>(m: WorkspaceManager<R>, o: Orientation, ratio: R, nid: FrameId) -> (Seq<Tree<R>>, Seq<FrameId>) {
    let i = fw(m);
    let fid = focused_frame_of(m);
    let t1 = split_at(m.workspaces@[i].root@, fid, o, ratio, nid);
    match split_mover(m) {
        Some(win) => (
            roots_of(m).update(i, put_into(take_from(t1, fid, win.window_id), nid, win)),
            focus_of(m).update(i, nid),
        ),
        None => (roots_of(m).update(i, t1), focus_of(m)),
    }
}

/// Splitting the focused frame, the allocator going from `n0` to `n1`.
pub open spec fn split_done<R>(
    m0: WorkspaceManager<R>,
    m1: WorkspaceManager<R>,
    w0: Seq<ManagedWindow>,
    w1: Seq<ManagedWindow>,
    o: Orientation,
    ratio: R,
    n0: u64,
    n1: u64,
) -> bool {
    let nid = FrameId(n0);
    &&& m1.focused_workspace == m0.focused_workspace
    &&& if has_id(m0.workspaces@[fw(m0)].root@, focused_frame_of(m0)) {
        &&& relayout(m0, m1, split_result(m0, o, ratio, nid).0, split_result(m0, o, ratio, nid).1)
        &&& n1 == bump(n0)
        &&& w1 == (match split_mover(m0) {
            Some(win) => placed_in(w0, win.window_id, nid),
            None => w0,
        })
    } else {
        &&& relayout(m0, m1, roots_of(m0), focus_of(m0))
        &&& n1 == n0
        &&& w1 == w0
    }
}

/// Split the focused frame; the new frame takes its identifier from
/// `alloc` and, when the frame held several windows, the active one.
pub fn perform_split<R: Copy>(
    workspaces: &mut WorkspaceManager<R>,
    windows: &mut Vec<ManagedWindow>,
    orientation: Orientation,
    ratio: R,
    alloc: &mut FrameIdAlloc,
)
    requires
        has_focus(*old(workspaces)),
    ensures
        split_done(*old(workspaces), *final(workspaces), old(windows)@, final(windows)@, orientation, ratio, old(alloc).next, final(alloc).next),
{
    let ghost m0 = *workspaces;
    let i = workspaces.focused_workspace.0;
    let fid = workspaces.workspaces[i].focused_frame;
    let mover = match workspaces.workspaces[i].root.find_frame(fid) {
        Some(f) => if f.windows.len() > 1 {
            match f.active_window() {
                Some(w) => Some(w.duplicate()),
                None => None,
            }
        } else {
            None
        },
        None => None,
    };
    proof {
        assert(mover == split_mover(m0));
    }
    let ghost nid = FrameId(alloc.next);
    let w = &mut workspaces.workspaces[i];
    let split = w.root.split_frame(fid, orientation, ratio, alloc);
    proof {
        lemma_roots_index(m0, i as int);
        assert(roots_of(*workspaces) =~= roots_of(m0).update(i as int, workspaces.workspaces@[i as int].root@));
        assert(focus_of(*workspaces) =~= focus_of(m0));
        assert(relayout(m0, *workspaces, roots_of(*workspaces), focus_of(*workspaces)));
    }
    match split {
        Some(new_id) => {
            match mover {
                Some(win) => {
                    let wid = win.window_id;
                    let ghost m1 = *workspaces;
                    take_window_in(workspaces, i, fid, wid);
                    let ghost m2 = *workspaces;
                    put_window_in(workspaces, i, new_id, win);
                    let ghost m3 = *workspaces;
                    proof {
                        lemma_roots_index(m1, i as int);
                        lemma_roots_index(m2, i as int);
                    }
                    place_window(windows, wid, new_id);
                    set_focus(workspaces, i, new_id);
                    proof {
                        lemma_relayout_trans(m0, m1, m2);
                        lemma_relayout_trans(m0, m2, m3);
                        lemma_relayout_trans(m0, m3, *workspaces);
                        assert(roots_of(m3) =~= split_result(m0, orientation, ratio, nid).0);
                        assert(focus_of(m3).update(i as int, new_id) =~= split_result(m0, orientation, ratio, nid).1);
                    }
                },
                None => {
                    proof {
                        assert(roots_of(*workspaces) =~= split_result(m0, orientation, ratio, nid).0);
                    }
                },
            }
        },
        None => {
            proof {
                assert(roots_of(*workspaces) =~= roots_of(m0));
            }
        },
    }
}

// ── Crossing to the adjacent monitor ──────────────────────────────────────

/// The area of an output that tiling may use.
pub open spec fn usable_of(o: Output) -> Rect {
    if o.has_exclusive_zone {
        Rect { x: o.usable_x, y: o.usable_y, width: o.usable_width, height: o.usable_height }
    } else {
        Rect { x: o.x, y: o.y, width: o.width, height: o.height }
    }
}

/// `r` lies beyond `cur` in direction `dir` (within `gap`) and overlaps it
/// across that direction.
pub open spec fn lies_beyond(cur: Rect, r: Rect, dir: Direction, gap: int) -> bool {
    match dir {
        Direction::Right => r.x >= cur.x + cur.width - gap && overlap_len(cur.y as int, cur.height as int, r.y as int, r.height as int) > 0,
        Direction::Left => r.x + r.width <= cur.x + gap && overlap_len(cur.y as int, cur.height as int, r.y as int, r.height as int) > 0,
        Direction::Down => r.y >= cur.y + cur.height - gap && overlap_len(cur.x as int, cur.width as int, r.x as int, r.width as int) > 0,
        Direction::Up => r.y + r.height <= cur.y + gap && overlap_len(cur.x as int, cur.width as int, r.x as int, r.width as int) > 0,
    }
}

pub open spec fn beyond(current: OutputId, cur: Rect, dir: Direction, gap: int) -> spec_fn(Output) -> bool {
    |o: Output| o.id != current && !o.removed && lies_beyond(cur, usable_of(o), dir, gap)
}

pub open spec fn shows<R>(oid: OutputId) -> spec_fn(Workspace<R>) -> bool {
    |w: Workspace<R>| w.active_output == Some(oid)
}

/// The workspace (by position) shown on the first live output beyond
/// output `current` in direction `dir`, with that output's usable area.
pub open spec fn adjacent_of<R>(m: WorkspaceManager<R>, current: OutputId, dir: Direction, gap: int) -> Option<(int, Rect)> {
    match first_match(m.outputs@, id_is(current)) {
        Some(c) => {
            let cur = usable_of(m.outputs@[c]);
            match first_match(m.outputs@, beyond(current, cur, dir, gap)) {
                Some(t) => match first_match(m.workspaces@, shows::<R>(m.outputs@[t].id)) {
                    Some(k) => Some((k, usable_of(m.outputs@[t]))),
                    None => None,
                },
                None => None,
            }
        },
        None => None,
    }
}

fn overlap64(s1: i64, l1: i64, s2: i64, l2: i64) -> (r: i64)
    requires
        -0x1_0000_0000 <= s1 <= 0x1_0000_0000,
        -0x1_0000_0000 <= l1 <= 0x1_0000_0000,
        -0x1_0000_0000 <= s2 <= 0x1_0000_0000,
        -0x1_0000_0000 <= l2 <= 0x1_0000_0000,
    ensures
        r == overlap_len(s1 as int, l1 as int, s2 as int, l2 as int),
{
    let lo = if s1 >= s2 { s1 } else { s2 };
    let hi = if s1 + l1 <= s2 + l2 { s1 + l1 } else { s2 + l2 };
    if hi - lo > 0 { hi - lo } else { 0 }
}

fn lies_beyond_exec(cur: Rect, r: Rect, dir: Direction, gap: i32) -> (b: bool)
    ensures
        b == lies_beyond(cur, r, dir, gap as int),
{
    let (cx, cy, cw, ch) = (cur.x as i64, cur.y as i64, cur.width as i64, cur.height as i64);
    let (rx, ry, rw, rh) = (r.x as i64, r.y as i64, r.width as i64, r.height as i64);
    let g = gap as i64;
    match dir {
        Direction::Right => rx >= cx + cw - g && overlap64(cy, ch, ry, rh) > 0,
        Direction::Left => rx + rw <= cx + g && overlap64(cy, ch, ry, rh) > 0,
        Direction::Down => ry >= cy + ch - g && overlap64(cx, cw, rx, rw) > 0,
        Direction::Up => ry + rh <= cy + g && overlap64(cx, cw, rx, rw) > 0,
    }
}

/// The workspace shown on the monitor next to output `current` in
/// direction `dir` (the first live output whose usable area lies beyond
/// the current one's, within `gap`, and overlaps it across), with that
/// output's usable area; the caller lays the workspace out in it.
pub fn adjacent_workspace<R>(workspaces: &WorkspaceManager<R>, current: OutputId, dir: Direction, gap: i32) -> (r: Option<(usize, Rect)>)
    ensures
        match adjacent_of(*workspaces, current, dir, gap as int) {
            Some((k, area)) => r == Some((k as usize, area)) && k < workspaces.workspaces@.len(),
            None => r is None,
        },
{
    let cur = match workspaces.output(current) {
        Some(o) => o.usable_rect(),
        None => return None,
    };
    proof {
        lemma_first_match(workspaces.outputs@, id_is(current));
    }
    let ghost p = beyond(current, cur, dir, gap as int);
    let mut t: usize = 0;
    while t < workspaces.outputs.len()
        invariant
            t <= workspaces.outputs@.len(),
            p == beyond(current, cur, dir, gap as int),
            first_match(workspaces.outputs@, id_is(current)) matches Some(c) && cur == usable_of(workspaces.outputs@[c]),
            forall|j: int| 0 <= j < t ==> !p(#[trigger] workspaces.outputs@[j]),
        decreases workspaces.outputs@.len() - t,
    {
        let o = &workspaces.outputs[t];
        if o.id != current && !o.removed && lies_beyond_exec(cur, o.usable_rect(), dir, gap) {
            proof {
                lemma_first_match_unique(workspaces.outputs@, p, t as int);
            }
            let oid = o.id;
            let area = o.usable_rect();
            let ghost q = shows::<R>(oid);
            let mut k: usize = 0;
            while k < workspaces.workspaces.len()
                invariant
                    k <= workspaces.workspaces@.len(),
                    q == shows::<R>(oid),
                    p == beyond(current, cur, dir, gap as int),
                    first_match(workspaces.outputs@, id_is(current)) matches Some(c) && cur == usable_of(workspaces.outputs@[c]),
                    first_match(workspaces.outputs@, p) == Some(t as int),
                    t < workspaces.outputs@.len(),
                    oid == workspaces.outputs@[t as int].id,
                    area == usable_of(workspaces.outputs@[t as int]),
                    forall|j: int| 0 <= j < k ==> !q(#[trigger] workspaces.workspaces@[j]),
                decreases workspaces.workspaces@.len() - k,
            {
                if workspaces.workspaces[k].active_output == Some(oid) {
                    proof {
                        lemma_first_match_unique(workspaces.workspaces@, q, k as int);
                    }
                    return Some((k, area));
                }
                k += 1;
            }
            proof {
                lemma_first_match_none(workspaces.workspaces@, q);
            }
            return None;
        }
        t += 1;
    }
    proof {
        lemma_first_match_none(workspaces.outputs@, p);
    }
    None
}

/// A frame of the target workspace touches the edge the focus enters by.
pub open spec fn on_entry_edge(r: Rect, area: Rect, dir: Direction, gap: int) -> bool {
    match dir {
        Direction::Right => r.x <= area.x + gap,
        Direction::Left => r.x + r.width >= area.x + area.width - gap,
        Direction::Down => r.y <= area.y + gap,
        Direction::Up => r.y + r.height >= area.y + area.height - gap,
    }
}

pub open spec fn abs_int(a: int) -> int {
    if a < 0 { -a } else { a }
}

/// How far a frame's centre is from the source frame's, across the
/// direction of travel.
pub open spec fn entry_distance(r: Rect, src: Rect, dir: Direction) -> int {
    match dir {
        Direction::Right | Direction::Left => abs_int(
            (r.y + half_toward_zero(r.height as int)) - (src.y + half_toward_zero(src.height as int)),
        ),
        Direction::Down | Direction::Up => abs_int(
            (r.x + half_toward_zero(r.width as int)) - (src.x + half_toward_zero(src.width as int)),
        ),
    }
}

/// Frame `k` is where the focus enters: it is on the entry edge, no frame
/// on the edge is closer to the source, and none before it is as close.
pub open spec fn is_entry(layouts: Seq<(FrameId, Rect)>, area: Rect, dir: Direction, src: Rect, gap: int, k: int) -> bool {
    &&& 0 <= k < layouts.len()
    &&& on_entry_edge(layouts[k].1, area, dir, gap)
    &&& forall|j: int| 0 <= j < layouts.len() && on_entry_edge(#[trigger] layouts[j].1, area, dir, gap)
        ==> entry_distance(layouts[k].1, src, dir) <= entry_distance(layouts[j].1, src, dir)
    &&& forall|j: int| 0 <= j < k && on_entry_edge(#[trigger] layouts[j].1, area, dir, gap)
        ==> entry_distance(layouts[j].1, src, dir) > entry_distance(layouts[k].1, src, dir)
}

fn half64(a: i64) -> (r: i64)
    requires
        -0x1_0000_0000 <= a <= 0x1_0000_0000,
    ensures
        r == half_toward_zero(a as int),
{
    a / 2
}

fn entry_distance_exec(r: Rect, src: Rect, dir: Direction) -> (d: i64)
    ensures
        d == entry_distance(r, src, dir),
{
    let c = match dir {
        Direction::Right | Direction::Left => (r.y as i64 + half64(r.height as i64)) - (src.y as i64 + half64(src.height as i64)),
        Direction::Down | Direction::Up => (r.x as i64 + half64(r.width as i64)) - (src.x as i64 + half64(src.width as i64)),
    };
    if c < 0 { -c } else { c }
}

fn on_entry_edge_exec(r: Rect, area: Rect, dir: Direction, gap: i32) -> (b: bool)
    ensures
        b == on_entry_edge(r, area, dir, gap as int),
{
    let g = gap as i64;
    match dir {
        Direction::Right => (r.x as i64) <= area.x as i64 + g,
        Direction::Left => r.x as i64 + r.width as i64 >= area.x as i64 + area.width as i64 - g,
        Direction::Down => (r.y as i64) <= area.y as i64 + g,
        Direction::Up => r.y as i64 + r.height as i64 >= area.y as i64 + area.height as i64 - g,
    }
}

/// The frame the focus enters on the adjacent monitor: among the frames
/// (laid out in `area`) on the edge facing the source, the one whose centre
/// lines up best with the source frame's; the first of equals.
pub fn entry_frame(layouts: &[(FrameId, Rect)], area: Rect, dir: Direction, src: Rect, gap: i32) -> (r: Option<FrameId>)
    ensures
        match r {
            Some(f) => exists|k: int| is_entry(layouts@, area, dir, src, gap as int, k) && layouts@[k].0 == f,
            None => forall|j: int| 0 <= j < layouts@.len() ==> !on_entry_edge(#[trigger] layouts@[j].1, area, dir, gap as int),
        },
{
    let mut best: Option<usize> = None;
    let mut best_d: i64 = 0;
    let mut k: usize = 0;
    while k < layouts.len()
        invariant
            k <= layouts@.len(),
            match best {
                Some(b) => {
                    &&& b < k
                    &&& on_entry_edge(layouts@[b as int].1, area, dir, gap as int)
                    &&& best_d == entry_distance(layouts@[b as int].1, src, dir)
                    &&& forall|j: int| 0 <= j < k && on_entry_edge(#[trigger] layouts@[j].1, area, dir, gap as int)
                        ==> best_d <= entry_distance(layouts@[j].1, src, dir)
                    &&& forall|j: int| 0 <= j < b && on_entry_edge(#[trigger] layouts@[j].1, area, dir, gap as int)
                        ==> entry_distance(layouts@[j].1, src, dir) > best_d
                },
                None => forall|j: int| 0 <= j < k ==> !on_entry_edge(#[trigger] layouts@[j].1, area, dir, gap as int),
            },
        decreases layouts@.len() - k,
    {
        let (_, r) = layouts[k];
        if on_entry_edge_exec(r, area, dir, gap) {
            let d = entry_distance_exec(r, src, dir);
            match best {
                Some(_) => {
                    if d < best_d {
                        best = Some(k);
                        best_d = d;
                    }
                },
                None => {
                    best = Some(k);
                    best_d = d;
                },
            }
        }
        k += 1;
    }
    match best {
        Some(b) => {
            proof {
                assert(is_entry(layouts@, area, dir, src, gap as int, b as int));
            }
            Some(layouts[b].0)
        },
        None => None,
    }
}

// ── The actions on the focused frame ──────────────────────────────────────

/// Nothing changed.
pub open spec fn untouched<R>(m0: WorkspaceManager<R>, m1: WorkspaceManager<R>, w0: Seq<ManagedWindow>, w1: Seq<ManagedWindow>) -> bool {
    m1 == m0 && w1 == w0
}

/// The workspace shown there has a live output record.
pub open spec fn has_live_output<R>(m: WorkspaceManager<R>) -> bool {
    m.workspaces@[fw(m)].active_output matches Some(o) && first_match(m.outputs@, id_is(o)) is Some
}

/// Closing: the focused frame's active window is asked to close (if it is
/// managed); a frame without an active window is unsplit instead.
pub open spec fn close_done<R>(m0: WorkspaceManager<R>, m1: WorkspaceManager<R>, w0: Seq<ManagedWindow>, w1: Seq<ManagedWindow>, e: Effect) -> bool {
    match focused_leaf(m0) {
        None => untouched(m0, m1, w0, w1) && e is Nothing,
        Some(_) => match focused_window(m0) {
            Some(win) => untouched(m0, m1, w0, w1) && e == (if any_match(w0, window_is(win.window_id)) {
                Effect::CloseWindow(win.window_id)
            } else {
                Effect::Nothing
            }),
            None => {
                &&& relayout(m0, m1, roots_of(m0).update(fw(m0), unsplit_result(m0).0), focus_of(m0).update(fw(m0), unsplit_result(m0).1))
                &&& m1.focused_workspace == m0.focused_workspace
                &&& w1 == w0
                &&& e is Nothing
            },
        },
    }
}

/// Toggling fullscreen: a fullscreen window leaves it; any other enters it
/// on its workspace's output, when the caller can put windows there.
pub open spec fn fullscreen_done<R>(m0: WorkspaceManager<R>, m1: WorkspaceManager<R>, w0: Seq<ManagedWindow>, w1: Seq<ManagedWindow>, outs: Seq<u64>, e: Effect) -> bool {
    &&& m1 == m0
    &&& match focused_window(m0) {
        None => w1 == w0 && e is Nothing,
        Some(win) => match first_match(w0, window_is(win.window_id)) {
            None => w1 == w0 && e is Nothing,
            Some(k) => if w0[k].fullscreen {
                w1 == w0.update(k, ManagedWindow { fullscreen: false, ..w0[k] }) && e == Effect::ExitFullscreen(win.window_id)
            } else {
                match m0.workspaces@[fw(m0)].active_output {
                    Some(o) => if outs.contains(o.0) {
                        w1 == w0.update(k, ManagedWindow { fullscreen: true, ..w0[k] }) && e == Effect::EnterFullscreen(win.window_id, o)
                    } else {
                        w1 == w0 && e is Nothing
                    },
                    None => w1 == w0 && e is Nothing,
                }
            },
        },
    }
}

/// Toggling floating for the focused frame's active window.
pub open spec fn float_done<R>(m0: WorkspaceManager<R>, m1: WorkspaceManager<R>, w0: Seq<ManagedWindow>, w1: Seq<ManagedWindow>) -> bool {
    &&& m1 == m0
    &&& w1 == (match focused_window(m0) {
        Some(win) => match first_match(w0, window_is(win.window_id)) {
            Some(k) => w0.update(k, ManagedWindow { floating: !w0[k].floating, ..w0[k] }),
            None => w0,
        },
        None => w0,
    })
}

/// The next tab of a frame (unchanged without windows).
pub open spec fn tab_next(f: FrameView) -> FrameView {
    FrameView {
        active_tab: if f.windows.len() == 0 {
            f.active_tab
        } else {
            ((f.active_tab + 1) % (f.windows.len() as int)) as usize
        },
        ..f
    }
}

/// The previous tab of a frame (unchanged without windows).
pub open spec fn tab_prev(f: FrameView) -> FrameView {
    FrameView {
        active_tab: if f.windows.len() == 0 {
            f.active_tab
        } else if f.active_tab == 0 {
            (f.windows.len() - 1) as usize
        } else {
            (f.active_tab - 1) as usize
        },
        ..f
    }
}

/// The focused frame changed by `g` (nothing when it is missing).
pub open spec fn tab_done<R>(m0: WorkspaceManager<R>, m1: WorkspaceManager<R>, next: bool) -> bool {
    &&& m1.focused_workspace == m0.focused_workspace
    &&& match focused_leaf(m0) {
        Some(f) => relayout(
            m0,
            m1,
            roots_of(m0).update(fw(m0), replace_leaf(m0.workspaces@[fw(m0)].root@, focused_frame_of(m0), if next { tab_next(f) } else { tab_prev(f) })),
            focus_of(m0),
        ),
        None => relayout(m0, m1, roots_of(m0), focus_of(m0)),
    }
}

fn focused_window_exec<R: Copy>(m: &WorkspaceManager<R>) -> (r: Option<WindowRef>)
    requires
        has_focus(*m),
    ensures
        r == focused_window(*m),
{
    let ws = &m.workspaces[m.focused_workspace.0];
    match ws.root.find_frame(ws.focused_frame) {
        Some(f) => match f.active_window() {
            Some(w) => Some(w.duplicate()),
            None => None,
        },
        None => None,
    }
}

fn window_index(windows: &Vec<ManagedWindow>, id: u64) -> (r: Option<usize>)
    ensures
        match r {
            Some(k) => first_match(windows@, window_is(id)) == Some(k as int) && k < windows@.len(),
            None => first_match(windows@, window_is(id)) is None,
        },
{
    let ghost p = window_is(id);
    let mut k: usize = 0;
    while k < windows.len()
        invariant
            k <= windows@.len(),
            p == window_is(id),
            forall|j: int| 0 <= j < k ==> !p(#[trigger] windows@[j]),
        decreases windows@.len() - k,
    {
        if windows[k].id == id {
            proof {
                lemma_first_match_unique(windows@, p, k as int);
            }
            return Some(k);
        }
        k += 1;
    }
    proof {
        lemma_first_match_none(windows@, p);
    }
    None
}

fn contains_u64(v: &[u64], x: u64) -> (b: bool)
    ensures
        b == v@.contains(x),
{
    let mut k: usize = 0;
    while k < v.len()
        invariant
            k <= v@.len(),
            forall|j: int| 0 <= j < k ==> v@[j] != x,
        decreases v@.len() - k,
    {
        if v[k] == x {
            proof {
                assert(v@[k as int] == x);
            }
            return true;
        }
        k += 1;
    }
    false
}

fn close_focused<R: Copy>(workspaces: &mut WorkspaceManager<R>, windows: &Vec<ManagedWindow>) -> (e: Effect)
    requires
        has_focus(*old(workspaces)),
    ensures
        close_done(*old(workspaces), *final(workspaces), windows@, windows@, e),
{
    let ghost m0 = *workspaces;
    let i = workspaces.focused_workspace.0;
    let fid = workspaces.workspaces[i].focused_frame;
    let present = workspaces.workspaces[i].root.find_frame(fid).is_some();
    if !present {
        return Effect::Nothing;
    }
    match focused_window_exec(workspaces) {
        Some(win) => {
            let k = window_index(windows, win.window_id);
            proof {
                lemma_first_match(windows@, window_is(win.window_id));
            }
            match k {
                Some(_) => Effect::CloseWindow(win.window_id),
                None => Effect::Nothing,
            }
        },
        None => {
            perform_unsplit(workspaces);
            Effect::Nothing
        },
    }
}

fn toggle_fullscreen<R: Copy>(workspaces: &WorkspaceManager<R>, windows: &mut Vec<ManagedWindow>, output_ids: &[u64]) -> (e: Effect)
    requires
        has_focus(*workspaces),
    ensures
        fullscreen_done(*workspaces, *workspaces, old(windows)@, final(windows)@, output_ids@, e),
{
    let win = match focused_window_exec(workspaces) {
        Some(w) => w,
        None => return Effect::Nothing,
    };
    let k = match window_index(windows, win.window_id) {
        Some(k) => k,
        None => return Effect::Nothing,
    };
    if windows[k].fullscreen {
        let w = &mut windows[k];
        w.fullscreen = false;
        Effect::ExitFullscreen(win.window_id)
    } else {
        match workspaces.workspaces[workspaces.focused_workspace.0].active_output {
            Some(o) => if contains_u64(output_ids, o.0) {
                let w = &mut windows[k];
                w.fullscreen = true;
                Effect::EnterFullscreen(win.window_id, o)
            } else {
                Effect::Nothing
            },
            None => Effect::Nothing,
        }
    }
}

fn toggle_float<R: Copy>(workspaces: &WorkspaceManager<R>, windows: &mut Vec<ManagedWindow>)
    requires
        has_focus(*workspaces),
    ensures
        float_done(*workspaces, *workspaces, old(windows)@, final(windows)@),
{
    let win = match focused_window_exec(workspaces) {
        Some(w) => w,
        None => return,
    };
    match window_index(windows, win.window_id) {
        Some(k) => {
            let w = &mut windows[k];
            w.floating = !w.floating;
        },
        None => {},
    }
}

fn cycle_tab<R: Copy>(workspaces: &mut WorkspaceManager<R>, next: bool)
    requires
        has_focus(*old(workspaces)),
        next ==> (focused_leaf(*old(workspaces)) matches Some(f) ==> f.windows.len() == 0 || f.active_tab < usize::MAX),
    ensures
        tab_done(*old(workspaces), *final(workspaces), next),
{
    let ghost m0 = *workspaces;
    let i = workspaces.focused_workspace.0;
    let fid = workspaces.workspaces[i].focused_frame;
    let w = &mut workspaces.workspaces[i];
    match w.root.find_frame_mut(fid) {
        Some(f) => {
            if next {
                f.next_tab();
            } else {
                f.prev_tab();
            }
        },
        None => {},
    }
    proof {
        if focused_leaf(m0) is Some {
            let f = focused_leaf(m0)->0;
            let nf = if next { tab_next(f) } else { tab_prev(f) };
            assert(roots_of(*workspaces) =~= roots_of(m0).update(i as int, replace_leaf(m0.workspaces@[i as int].root@, fid, nf)));
            assert(focus_of(*workspaces) =~= focus_of(m0));
        } else {
            assert(roots_of(*workspaces) =~= roots_of(m0));
            assert(focus_of(*workspaces) =~= focus_of(m0));
        }
    }
}

// ── Directional focus and moves, and moves to another workspace ──────────

/// Directional focus: the neighbouring frame, else the entry frame on the
/// adjacent monitor (whose workspace becomes the focused one); nothing
/// when the focused workspace is not on a live output.
pub open spec fn focus_dir_done<R>(m0: WorkspaceManager<R>, m1: WorkspaceManager<R>, t: DirectionTargets) -> bool {
    if has_live_output(m0) {
        match t.neighbor {
            Some(n) => relayout(m0, m1, roots_of(m0), focus_of(m0).update(fw(m0), n)) && m1.focused_workspace == m0.focused_workspace,
            None => match t.cross {
                Some((tw, tf)) => relayout(m0, m1, roots_of(m0), focus_of(m0).update(tw.0 as int, tf)) && m1.focused_workspace == tw,
                None => m1 == m0,
            },
        }
    } else {
        m1 == m0
    }
}

/// Directional move: the focused frame's active window goes to the
/// neighbouring frame, else to the entry frame on the adjacent monitor
/// (whose workspace becomes the focused one); focus follows it.
pub open spec fn move_dir_done<R>(m0: WorkspaceManager<R>, m1: WorkspaceManager<R>, w0: Seq<ManagedWindow>, w1: Seq<ManagedWindow>, t: DirectionTargets) -> bool {
    let i = fw(m0);
    let fid = focused_frame_of(m0);
    let r0 = roots_of(m0);
    if has_live_output(m0) && t.neighbor is Some {
        let n = t.neighbor->0;
        match focused_window(m0) {
            Some(win) => {
                &&& relayout(m0, m1, r0.update(i, put_into(take_from(r0[i], fid, win.window_id), n, win)), focus_of(m0).update(i, n))
                &&& m1.focused_workspace == m0.focused_workspace
                &&& w1 == placed_in(w0, win.window_id, n)
            },
            None => untouched(m0, m1, w0, w1),
        }
    } else if has_live_output(m0) && t.cross is Some {
        let (tw, tf) = t.cross->0;
        match focused_window(m0) {
            Some(win) => {
                let r1 = r0.update(i, take_from(r0[i], fid, win.window_id));
                &&& relayout(m0, m1, r1.update(tw.0 as int, put_into(r1[tw.0 as int], tf, win)), focus_of(m0).update(tw.0 as int, tf))
                &&& m1.focused_workspace == tw
                &&& w1 == placed_in(w0, win.window_id, tf)
            },
            None => untouched(m0, m1, w0, w1),
        }
    } else {
        untouched(m0, m1, w0, w1)
    }
}

/// Moving the focused frame's active window to the focused frame of the
/// workspace named `name`; with no such workspace the window only leaves
/// its frame.
pub open spec fn move_ws_done<R>(m0: WorkspaceManager<R>, m1: WorkspaceManager<R>, w0: Seq<ManagedWindow>, w1: Seq<ManagedWindow>, name: Seq<char>) -> bool {
    let i = fw(m0);
    let r0 = roots_of(m0);
    match focused_window(m0) {
        None => untouched(m0, m1, w0, w1),
        Some(win) => {
            let r1 = r0.update(i, take_from(r0[i], focused_frame_of(m0), win.window_id));
            &&& m1.focused_workspace == m0.focused_workspace
            &&& match first_match(m0.workspaces@, ws_named::<R>(name)) {
                Some(t) => {
                    let tf = m0.workspaces@[t].focused_frame;
                    &&& relayout(m0, m1, r1.update(t, put_into(r1[t], tf, win)), focus_of(m0))
                    &&& w1 == placed_in(w0, win.window_id, tf)
                },
                None => relayout(m0, m1, r1, focus_of(m0)) && w1 == w0,
            }
        },
    }
}

fn has_live_output_exec<R>(m: &WorkspaceManager<R>) -> (b: bool)
    requires
        has_focus(*m),
    ensures
        b == has_live_output(*m),
{
    match m.workspaces[m.focused_workspace.0].active_output {
        Some(o) => m.output(o).is_some(),
        None => false,
    }
}

fn focus_direction<R: Copy>(workspaces: &mut WorkspaceManager<R>, targets: DirectionTargets)
    requires
        has_focus(*old(workspaces)),
        targets.cross matches Some((tw, _)) ==> tw.0 < old(workspaces).workspaces@.len(),
    ensures
        focus_dir_done(*old(workspaces), *final(workspaces), targets),
{
    if !has_live_output_exec(workspaces) {
        return;
    }
    match targets.neighbor {
        Some(n) => {
            let i = workspaces.focused_workspace.0;
            set_focus(workspaces, i, n);
        },
        None => match targets.cross {
            Some((tw, tf)) => {
                let ghost m1 = *workspaces;
                set_focus(workspaces, tw.0, tf);
                workspaces.focused_workspace = tw;
                proof {
                    assert(roots_of(*workspaces) =~= roots_of(m1));
                    assert(focus_of(*workspaces) =~= focus_of(m1).update(tw.0 as int, tf));
                }
            },
            None => {},
        },
    }
}

fn move_direction<R: Copy>(workspaces: &mut WorkspaceManager<R>, windows: &mut Vec<ManagedWindow>, targets: DirectionTargets)
    requires
        has_focus(*old(workspaces)),
        targets.cross matches Some((tw, _)) ==> tw.0 < old(workspaces).workspaces@.len(),
    ensures
        move_dir_done(*old(workspaces), *final(workspaces), old(windows)@, final(windows)@, targets),
{
    let ghost m0 = *workspaces;
    let live = has_live_output_exec(workspaces);
    if !live {
        return;
    }
    let i = workspaces.focused_workspace.0;
    let fid = workspaces.workspaces[i].focused_frame;
    let win = match focused_window_exec(workspaces) {
        Some(w) => w,
        None => return,
    };
    let wid = win.window_id;
    proof {
        lemma_roots_index(m0, i as int);
    }
    match targets.neighbor {
        Some(n) => {
            take_window_in(workspaces, i, fid, wid);
            let ghost m1 = *workspaces;
            put_window_in(workspaces, i, n, win);
            let ghost m2 = *workspaces;
            place_window(windows, wid, n);
            set_focus(workspaces, i, n);
            proof {
                lemma_roots_index(m1, i as int);
                lemma_relayout_trans(m0, m1, m2);
                lemma_relayout_trans(m0, m2, *workspaces);
                let r0 = roots_of(m0);
                assert(roots_of(*workspaces) =~= r0.update(i as int, put_into(take_from(r0[i as int], fid, wid), n, win)));
            }
        },
        None => match targets.cross {
            Some((tw, tf)) => {
                take_window_in(workspaces, i, fid, wid);
                let ghost m1 = *workspaces;
                put_window_in(workspaces, tw.0, tf, win);
                let ghost m2 = *workspaces;
                place_window(windows, wid, tf);
                set_focus(workspaces, tw.0, tf);
                let ghost m3 = *workspaces;
                workspaces.focused_workspace = tw;
                proof {
                    lemma_roots_index(m1, tw.0 as int);
                    lemma_relayout_trans(m0, m1, m2);
                    lemma_relayout_trans(m0, m2, m3);
                    assert(roots_of(*workspaces) =~= roots_of(m3));
                    assert(focus_of(*workspaces) =~= focus_of(m3));
                    let r0 = roots_of(m0);
                    let r1 = r0.update(i as int, take_from(r0[i as int], fid, wid));
                    assert(roots_of(m1) == r1);
                    assert(roots_of(*workspaces) =~= r1.update(tw.0 as int, put_into(r1[tw.0 as int], tf, win)));
                }
            },
            None => {},
        },
    }
}

fn move_to_workspace<R: Copy>(workspaces: &mut WorkspaceManager<R>, windows: &mut Vec<ManagedWindow>, name: &str)
    requires
        has_focus(*old(workspaces)),
    ensures
        move_ws_done(*old(workspaces), *final(workspaces), old(windows)@, final(windows)@, name@),
{
    let ghost m0 = *workspaces;
    let i = workspaces.focused_workspace.0;
    let fid = workspaces.workspaces[i].focused_frame;
    let win = match focused_window_exec(workspaces) {
        Some(w) => w,
        None => return,
    };
    let wid = win.window_id;
    proof {
        lemma_roots_index(m0, i as int);
    }
    take_window_in(workspaces, i, fid, wid);
    let ghost m1 = *workspaces;
    let found = workspaces.workspace_index_by_name(name);
    proof {
        assert forall|j: int| 0 <= j < m0.workspaces@.len() implies ws_named::<R>(name@)(#[trigger] m1.workspaces@[j]) == ws_named::<R>(name@)(m0.workspaces@[j]) by {
            assert(same_but_layout(m1.workspaces@[j], m0.workspaces@[j]));
        }
        crate::seqs::lemma_first_match_agree(m1.workspaces@, ws_named::<R>(name@), m0.workspaces@, ws_named::<R>(name@));
    }
    match found {
        Some(t) => {
            let tf = workspaces.workspaces[t].focused_frame;
            proof {
                lemma_roots_index(m1, t as int);
                lemma_roots_index(m0, t as int);
            }
            put_window_in(workspaces, t, tf, win);
            proof {
                lemma_relayout_trans(m0, m1, *workspaces);
            }
            place_window(windows, wid, tf);
        },
        None => {},
    }
}

fn toggle_split<R: Copy>(workspaces: &mut WorkspaceManager<R>)
    requires
        has_focus(*old(workspaces)),
    ensures
        relayout(
            *old(workspaces),
            *final(workspaces),
            roots_of(*old(workspaces)).update(
                fw(*old(workspaces)),
                toggle_at(old(workspaces).workspaces@[fw(*old(workspaces))].root@, focused_frame_of(*old(workspaces))).0,
            ),
            focus_of(*old(workspaces)),
        ),
        final(workspaces).focused_workspace == old(workspaces).focused_workspace,
{
    let ghost m0 = *workspaces;
    let i = workspaces.focused_workspace.0;
    let fid = workspaces.workspaces[i].focused_frame;
    let w = &mut workspaces.workspaces[i];
    let _ = w.root.toggle_orientation(fid);
    proof {
        assert(roots_of(*workspaces) =~= roots_of(m0).update(i as int, toggle_at(m0.workspaces@[i as int].root@, fid).0));
        assert(focus_of(*workspaces) =~= focus_of(m0));
    }
}

// ── Performing an action ──────────────────────────────────────────────────

/// The effect of starting `cmd` (a program and its arguments): nothing for
/// an empty command.
pub open spec fn spawned(e: Effect, cmd: Seq<String>) -> bool {
    if cmd.len() == 0 {
        e is Nothing
    } else {
        e matches Effect::Spawn(v) && v@ == cmd
    }
}

/// What performing `action` does, from workspaces `m0`, windows `w0` and
/// frame counter `n0` to `m1`, `w1`, `n1`, with effect `e`.
pub open spec fn performed<R>(
    action: Action,
    m0: WorkspaceManager<R>,
    m1: WorkspaceManager<R>,
    w0: Seq<ManagedWindow>,
    w1: Seq<ManagedWindow>,
    n0: u64,
    n1: u64,
    targets: DirectionTargets,
    outs: Seq<u64>,
    commands: CommandsConfig,
    ratio: R,
    e: Effect,
) -> bool {
    let still = untouched(m0, m1, w0, w1);
    match action {
        Action::Close => close_done(m0, m1, w0, w1, e) && n1 == n0,
        Action::ToggleFullscreen => fullscreen_done(m0, m1, w0, w1, outs, e) && n1 == n0,
        Action::ToggleFloat => float_done(m0, m1, w0, w1) && e is Nothing && n1 == n0,
        Action::ToggleSplit => {
            &&& relayout(m0, m1, roots_of(m0).update(fw(m0), toggle_at(m0.workspaces@[fw(m0)].root@, focused_frame_of(m0)).0), focus_of(m0))
            &&& m1.focused_workspace == m0.focused_workspace
            &&& w1 == w0 && e is Nothing && n1 == n0
        },
        Action::FocusDirection(_) => focus_dir_done(m0, m1, targets) && w1 == w0 && e is Nothing && n1 == n0,
        Action::FocusNextTab => tab_done(m0, m1, true) && w1 == w0 && e is Nothing && n1 == n0,
        Action::FocusPrevTab => tab_done(m0, m1, false) && w1 == w0 && e is Nothing && n1 == n0,
        Action::FocusParent => still && e is Nothing && n1 == n0,
        Action::MoveDirection(_) => move_dir_done(m0, m1, w0, w1, targets) && e is Nothing && n1 == n0,
        Action::MoveToWorkspace(name) => move_ws_done(m0, m1, w0, w1, name@) && e is Nothing && n1 == n0,
        Action::SplitHorizontal => split_done(m0, m1, w0, w1, Orientation::Horizontal, ratio, n0, n1) && e is Nothing,
        Action::SplitVertical => split_done(m0, m1, w0, w1, Orientation::Vertical, ratio, n0, n1) && e is Nothing,
        Action::Unsplit => {
            &&& relayout(m0, m1, roots_of(m0).update(fw(m0), unsplit_result(m0).0), focus_of(m0).update(fw(m0), unsplit_result(m0).1))
            &&& m1.focused_workspace == m0.focused_workspace
            &&& w1 == w0 && e is Nothing && n1 == n0
        },
        Action::SwitchWorkspace(name) => switched(m0, m1, name@) && w1 == w0 && e is Nothing && n1 == n0,
        Action::EnterResizeMode => still && e is Nothing && n1 == n0,
        Action::ExitResizeMode => still && e is Nothing && n1 == n0,
        Action::Resize(dir) => still && e == Effect::ResizeFrame(focused_frame_of(m0), dir) && n1 == n0,
        Action::SpawnTerminal => still && spawned(e, seq![commands.terminal]) && n1 == n0,
        Action::SpawnLauncher => still && spawned(e, commands.launcher@) && n1 == n0,
        Action::SpawnWindowSwitcher => still && spawned(e, commands.window_switcher@) && n1 == n0,
        Action::Spawn(args) => still && spawned(e, args@) && n1 == n0,
        Action::Exit => still && e is ExitSession && n1 == n0,
        Action::ReloadConfig => still && e is ReloadConfig && n1 == n0,
        Action::Restart => still && e is Restart && n1 == n0,
        Action::ToggleAppBinding => still && e is ToggleAppBinding && n1 == n0,
        Action::BindAppExclusive => still && e is BindAppExclusive && n1 == n0,
        Action::Noop => still && e is Nothing && n1 == n0,
    }
}

/// The input mode after `action`.
pub open spec fn mode_after(action: Action, mode: InputMode) -> InputMode {
    match action {
        Action::EnterResizeMode => InputMode::Resize,
        Action::ExitResizeMode => InputMode::Normal,
        _ => mode,
    }
}

/// Perform a bound action on the workspaces and windows. Directional
/// actions use the targets the caller's geometry found; fullscreen needs
/// the output to be among `output_ids`; splits use `split_ratio` and take
/// the new frame's identifier from `alloc`. What lies outside (closing,
/// fullscreen requests, resizing ratios, spawning, exiting, reloading) is
/// handed back as the effect.
pub fn perform_action<R: Copy>(
    workspaces: &mut WorkspaceManager<R>,
    windows: &mut Vec<ManagedWindow>,
    mode: &mut InputMode,
    action: Action,
    targets: DirectionTargets,
    output_ids: &[u64],
    commands: &CommandsConfig,
    split_ratio: R,
    alloc: &mut FrameIdAlloc,
) -> (e: Effect)
    requires
        old(workspaces).wf(),
        old(workspaces).workspaces@.len() > 0,
        targets.cross matches Some((tw, _)) ==> tw.0 < old(workspaces).workspaces@.len(),
        action is FocusNextTab ==> (focused_leaf(*old(workspaces)) matches Some(f) ==> f.windows.len() == 0 || f.active_tab < usize::MAX),
    ensures
        performed(
            action,
            *old(workspaces),
            *final(workspaces),
            old(windows)@,
            final(windows)@,
            old(alloc).next,
            final(alloc).next,
            targets,
            output_ids@,
            *commands,
            split_ratio,
            e,
        ),
        *final(mode) == mode_after(action, *old(mode)),
{
    proof {
        assert(has_focus(*workspaces));
    }
    match action {
        Action::Close => close_focused(workspaces, windows),
        Action::ToggleFullscreen => toggle_fullscreen(workspaces, windows, output_ids),
        Action::ToggleFloat => {
            toggle_float(workspaces, windows);
            Effect::Nothing
        },
        Action::ToggleSplit => {
            toggle_split(workspaces);
            Effect::Nothing
        },
        Action::FocusDirection(_) => {
            focus_direction(workspaces, targets);
            Effect::Nothing
        },
        Action::FocusNextTab => {
            cycle_tab(workspaces, true);
            Effect::Nothing
        },
        Action::FocusPrevTab => {
            cycle_tab(workspaces, false);
            Effect::Nothing
        },
        Action::FocusParent => Effect::Nothing,
        Action::MoveDirection(_) => {
            move_direction(workspaces, windows, targets);
            Effect::Nothing
        },
        Action::MoveToWorkspace(name) => {
            move_to_workspace(workspaces, windows, name.as_str());
            Effect::Nothing
        },
        Action::SplitHorizontal => {
            perform_split(workspaces, windows, Orientation::Horizontal, split_ratio, alloc);
            Effect::Nothing
        },
        Action::SplitVertical => {
            perform_split(workspaces, windows, Orientation::Vertical, split_ratio, alloc);
            Effect::Nothing
        },
        Action::Unsplit => {
            perform_unsplit(workspaces);
            Effect::Nothing
        },
        Action::SwitchWorkspace(name) => {
            workspaces.switch_workspace(name.as_str());
            Effect::Nothing
        },
        Action::EnterResizeMode => {
            *mode = InputMode::Resize;
            Effect::Nothing
        },
        Action::ExitResizeMode => {
            *mode = InputMode::Normal;
            Effect::Nothing
        },
        Action::Resize(dir) => {
            let fid = workspaces.workspaces[workspaces.focused_workspace.0].focused_frame;
            Effect::ResizeFrame(fid, dir)
        },
        Action::SpawnTerminal => {
            let mut v: Vec<String> = Vec::new();
            v.push(commands.terminal.clone());
            proof {
                assert(v@ =~= seq![commands.terminal]);
            }
            Effect::Spawn(v)
        },
        Action::SpawnLauncher => {
            if commands.launcher.len() == 0 {
                Effect::Nothing
            } else {
                Effect::Spawn(crate::actions::copy_strings(commands.launcher.as_slice()))
            }
        },
        Action::SpawnWindowSwitcher => {
            if commands.window_switcher.len() == 0 {
                Effect::Nothing
            } else {
                Effect::Spawn(crate::actions::copy_strings(commands.window_switcher.as_slice()))
            }
        },
        Action::Spawn(args) => {
            if args.len() == 0 {
                Effect::Nothing
            } else {
                Effect::Spawn(args)
            }
        },
        Action::Exit => Effect::ExitSession,
        Action::ReloadConfig => Effect::ReloadConfig,
        Action::Restart => Effect::Restart,
        Action::ToggleAppBinding => Effect::ToggleAppBinding,
        Action::BindAppExclusive => Effect::BindAppExclusive,
        Action::Noop => Effect::Nothing,
    }
}

// ── Windows never change the layout ──────────────────────────────────────

proof fn lemma_replace_keeps_frames<R>(t: Tree<R>, id: FrameId, fv: FrameView)
    requires
        fv.id == id,
    ensures
        skeleton(replace_leaf(t, id, fv)) == skeleton(t),
        leaf_ids(replace_leaf(t, id, fv)) == leaf_ids(t),
    decreases t,
{
    match t {
        Tree::Leaf(f) => {
            if f.id == id {
                assert(leaf_ids(replace_leaf(t, id, fv)) =~= seq![id]);
            }
        },
        Tree::Split { orientation, ratio, first, second } => {
            lemma_replace_keeps_frames(*first, id, fv);
            lemma_replace_keeps_frames(*second, id, fv);
        },
    }
}

proof fn lemma_find_leaf_id<R>(t: Tree<R>, id: FrameId)
    ensures
        find_leaf(t, id) matches Some(f) ==> f.id == id,
{
    crate::seqs::lemma_first_match(crate::layout::leaves(t), crate::layout::frame_is(id));
}

/// Opening, closing or moving a window never changes the layout: taking a
/// window out of a frame or putting one in keeps every split (orientation
/// and ratio) and every frame identifier where it was.
pub proof fn law_windows_keep_layout<R>(t: Tree<R>, fid: FrameId, wid: u64, w: WindowRef)
    ensures
        skeleton(take_from(t, fid, wid)) == skeleton(t),
        leaf_ids(take_from(t, fid, wid)) == leaf_ids(t),
        skeleton(put_into(t, fid, w)) == skeleton(t),
        leaf_ids(put_into(t, fid, w)) == leaf_ids(t),
{
    lemma_find_leaf_id(t, fid);
    if let Some(f) = find_leaf(t, fid) {
        lemma_replace_keeps_frames(t, fid, frame_without(f, wid));
        lemma_replace_keeps_frames(t, fid, frame_with(f, w));
    }
}

// ── Closed windows ────────────────────────────────────────────────────────

/// The identifiers of the windows marked closed, in order.
pub open spec fn closed_ids(ws: Seq<ManagedWindow>) -> Seq<u64>
    decreases ws.len(),
{
    if ws.len() == 0 {
        Seq::empty()
    } else if ws.last().closed {
        closed_ids(ws.drop_last()).push(ws.last().id)
    } else {
        closed_ids(ws.drop_last())
    }
}

/// The windows not marked closed, in order.
pub open spec fn open_windows(ws: Seq<ManagedWindow>) -> Seq<ManagedWindow>
    decreases ws.len(),
{
    if ws.len() == 0 {
        Seq::empty()
    } else if ws.last().closed {
        open_windows(ws.drop_last())
    } else {
        open_windows(ws.drop_last()).push(ws.last())
    }
}

/// The tree after window `wid` left the frame that holds it.
pub open spec fn drop_window<R>(t: Tree<R>, wid: u64) -> Tree<R> {
    match frame_with_window(t, wid) {
        Some(fid) => take_from(t, fid, wid),
        None => t,
    }
}

/// The tree after each of `ids` left the frame that holds it, in turn.
pub open spec fn without_windows<R>(t: Tree<R>, ids: Seq<u64>) -> Tree<R>
    decreases ids.len(),
{
    if ids.len() == 0 {
        t
    } else {
        drop_window(without_windows(t, ids.drop_last()), ids.last())
    }
}

/// Whether a seat's pointer operation is about window `id`.
pub open spec fn op_on_window(op: SeatOp, id: u64) -> bool {
    match op {
        SeatOp::Move { window_id, .. } => window_id == id,
        SeatOp::Resize { window_id, .. } => window_id == id,
        _ => false,
    }
}

/// Whether a seat's pointer operation is about window `id` (such an
/// operation ends when the window closes).
pub fn op_references_window(op: &SeatOp, id: u64) -> (b: bool)
    ensures
        b == op_on_window(*op, id),
{
    match op {
        SeatOp::Move { window_id, .. } => *window_id == id,
        SeatOp::Resize { window_id, .. } => *window_id == id,
        _ => false,
    }
}

fn drop_window_in<R: Copy>(m: &mut WorkspaceManager<R>, i: usize, wid: u64)
    requires
        i < old(m).workspaces@.len(),
    ensures
        relayout(*old(m), *final(m), roots_of(*old(m)).update(i as int, drop_window(old(m).workspaces@[i as int].root@, wid)), focus_of(*old(m))),
        final(m).focused_workspace == old(m).focused_workspace,
{
    if let Some(fid) = m.workspaces[i].root.find_frame_with_window(wid) {
        take_window_in(m, i, fid, wid);
    } else {
        proof {
            assert(roots_of(*m).update(i as int, drop_window(m.workspaces@[i as int].root@, wid)) =~= roots_of(*m));
        }
    }
}

/// Take the windows marked closed out of their frames and out of `windows`;
/// gives their identifiers, in order, so that the pointer operations on
/// them can be ended.
pub fn remove_closed_windows<R: Copy>(workspaces: &mut WorkspaceManager<R>, windows: &mut Vec<ManagedWindow>) -> (ids: Vec<u64>)
    ensures
        ids@ == closed_ids(old(windows)@),
        relayout(
            *old(workspaces),
            *final(workspaces),
            roots_of(*old(workspaces)).map_values(|t: Tree<R>| without_windows(t, ids@)),
            focus_of(*old(workspaces)),
        ),
        final(workspaces).focused_workspace == old(workspaces).focused_workspace,
        final(windows)@ == open_windows(old(windows)@),
{
    let ghost w0 = windows@;
    let mut ids: Vec<u64> = Vec::new();
    let mut i: usize = 0;
    while i < windows.len()
        invariant
            i <= w0.len(),
            windows@ == w0,
            ids@ == closed_ids(w0.take(i as int)),
        decreases w0.len() - i,
    {
        proof {
            assert(w0.take(i + 1).drop_last() =~= w0.take(i as int));
        }
        if windows[i].closed {
            ids.push(windows[i].id);
        }
        i += 1;
    }
    proof {
        assert(w0.take(i as int) =~= w0);
    }
    let ghost m0 = *workspaces;
    let n = workspaces.workspaces.len();
    proof {
        let none = ids@.take(0);
        assert(roots_of(m0).map_values(|t: Tree<R>| without_windows(t, none)) =~= roots_of(m0));
    }
    let mut j: usize = 0;
    while j < ids.len()
        invariant
            j <= ids@.len(),
            n == m0.workspaces@.len(),
            relayout(m0, *workspaces, roots_of(m0).map_values(|t: Tree<R>| without_windows(t, ids@.take(j as int))), focus_of(m0)),
            workspaces.focused_workspace == m0.focused_workspace,
        decreases ids@.len() - j,
    {
        let id = ids[j];
        let ghost before = ids@.take(j as int);
        let ghost after = ids@.take(j + 1);
        proof {
            assert(after.drop_last() =~= before);
            assert(after.last() == id);
            assert(Seq::new(n as nat, |x: int| if x < 0 { without_windows(roots_of(m0)[x], after) } else { without_windows(roots_of(m0)[x], before) })
                =~= roots_of(m0).map_values(|t: Tree<R>| without_windows(t, before)));
        }
        let mut k: usize = 0;
        while k < n
            invariant
                k <= n,
                n == m0.workspaces@.len(),
                after.drop_last() == before,
                after.last() == id,
                after.len() > 0,
                relayout(
                    m0,
                    *workspaces,
                    Seq::new(n as nat, |x: int| if x < k { without_windows(roots_of(m0)[x], after) } else { without_windows(roots_of(m0)[x], before) }),
                    focus_of(m0),
                ),
                workspaces.focused_workspace == m0.focused_workspace,
            decreases n - k,
        {
            let ghost mk = *workspaces;
            drop_window_in(workspaces, k, id);
            proof {
                let target = Seq::new(n as nat, |x: int| if x < k + 1 { without_windows(roots_of(m0)[x], after) } else { without_windows(roots_of(m0)[x], before) });
                assert(roots_of(mk)[k as int] == mk.workspaces@[k as int].root@);
                assert(roots_of(mk)[k as int] == without_windows(roots_of(m0)[k as int], before));
                assert(drop_window(without_windows(roots_of(m0)[k as int], before), id) == without_windows(roots_of(m0)[k as int], after));
                assert(roots_of(*workspaces) =~= target);
                assert forall|x: int| 0 <= x < n implies same_but_layout(#[trigger] workspaces.workspaces@[x], m0.workspaces@[x]) by {
                    assert(same_but_layout(workspaces.workspaces@[x], mk.workspaces@[x]));
                    assert(same_but_layout(mk.workspaces@[x], m0.workspaces@[x]));
                }
            }
            k += 1;
        }
        proof {
            assert(roots_of(*workspaces) =~= roots_of(m0).map_values(|t: Tree<R>| without_windows(t, after)));
        }
        j += 1;
    }
    proof {
        assert(ids@.take(j as int) =~= ids@);
    }
    let mut r: usize = 0;
    let ghost mut seen: int = 0;
    while r < windows.len()
        invariant
            0 <= r <= seen <= w0.len(),
            windows@ == open_windows(w0.take(seen)).add(w0.skip(seen)),
            r == open_windows(w0.take(seen)).len(),
        decreases w0.len() - seen,
    {
        proof {
            assert(w0.take(seen + 1).drop_last() =~= w0.take(seen));
            assert(w0.skip(seen)[0] == w0[seen]);
            assert(windows@[r as int] == w0[seen]);
        }
        if windows[r].closed {
            windows.remove(r);
            proof {
                assert(windows@ =~= open_windows(w0.take(seen + 1)).add(w0.skip(seen + 1)));
                seen = seen + 1;
            }
        } else {
            proof {
                assert(windows@ =~= open_windows(w0.take(seen + 1)).add(w0.skip(seen + 1)));
                seen = seen + 1;
            }
            r += 1;
        }
    }
    proof {
        assert(w0.take(seen) =~= w0);
    }
    ids
}


// ── Titles ────────────────────────────────────────────────────────────────

/// The frame after its reference to window `w` took the window's current
/// title and app id (when either changed).
pub open spec fn retitled_frame(f: FrameView, w: ManagedWindow) -> FrameView {
    match first_match(f.windows, has_window_id(w.id)) {
        Some(p) => if f.windows[p].title@ != w.title@ || f.windows[p].app_id@ != w.app_id@ {
            FrameView { windows: f.windows.update(p, WindowRef { app_id: w.app_id, title: w.title, ..f.windows[p] }), ..f }
        } else {
            f
        },
        None => f,
    }
}

/// The tree after the frame holding window `w` updated its reference.
pub open spec fn retitle_tree<R>(t: Tree<R>, w: ManagedWindow) -> Tree<R> {
    match frame_with_window(t, w.id) {
        Some(fid) => match find_leaf(t, fid) {
            Some(f) => replace_leaf(t, fid, retitled_frame(f, w)),
            None => t,
        },
        None => t,
    }
}

/// The tree after each of `wins`, in turn, updated its reference.
pub open spec fn retitle_all<R>(t: Tree<R>, wins: Seq<ManagedWindow>) -> Tree<R>
    decreases wins.len(),
{
    if wins.len() == 0 {
        t
    } else {
        retitle_tree(retitle_all(t, wins.drop_last()), wins.last())
    }
}

fn retitle_in<R: Copy>(m: &mut WorkspaceManager<R>, i: usize, win: &ManagedWindow)
    requires
        i < old(m).workspaces@.len(),
    ensures
        relayout(*old(m), *final(m), roots_of(*old(m)).update(i as int, retitle_tree(old(m).workspaces@[i as int].root@, *win)), focus_of(*old(m))),
        final(m).focused_workspace == old(m).focused_workspace,
{
    let ghost m0 = *m;
    let w = &mut m.workspaces[i];
    if let Some(fid) = w.root.find_frame_with_window(win.id) {
        match w.root.find_frame_mut(fid) {
            Some(f) => {
                let ghost f0 = f@;
                proof {
                    lemma_first_match(f.windows@, has_window_id(win.id));
                }
                match f.position_of(win.id) {
                    Some(p) => {
                        proof {
                            let q = first_match(f0.windows, has_window_id(win.id))->0;
                            assert(f.windows@.len() == f.windows.len());
                            assert(0 <= q < f0.windows.len());
                            assert(p as int == q);
                        }
                        if f.windows[p].title != win.title || f.windows[p].app_id != win.app_id {
                            let r = WindowRef { window_id: f.windows[p].window_id, app_id: win.app_id.clone(), title: win.title.clone() };
                            f.windows.set(p, r);
                            proof {
                                assert(r == WindowRef { app_id: win.app_id, title: win.title, ..f0.windows[p as int] });
                                assert(f.windows@ =~= f0.windows.update(p as int, r));
                            }
                        } else {
                            proof {
                                assert(f.windows@ =~= f0.windows);
                            }
                        }
                    },
                    None => {},
                }
                proof {
                    assert(f@ == retitled_frame(f0, *win));
                }
            },
            None => {},
        }
    }
    proof {
        assert(roots_of(*m) =~= roots_of(m0).update(i as int, retitle_tree(m0.workspaces@[i as int].root@, *win)));
        assert(focus_of(*m) =~= focus_of(m0));
    }
}

/// Bring the title and app id that each frame shows for a window up to
/// date with the window's own.
pub fn sync_window_titles<R: Copy>(workspaces: &mut WorkspaceManager<R>, windows: &Vec<ManagedWindow>)
    ensures
        relayout(*old(workspaces), *final(workspaces), roots_of(*old(workspaces)).map_values(|t: Tree<R>| retitle_all(t, windows@)), focus_of(*old(workspaces))),
        final(workspaces).focused_workspace == old(workspaces).focused_workspace,
{
    let ghost m0 = *workspaces;
    let n = workspaces.workspaces.len();
    proof {
        assert(roots_of(m0).map_values(|t: Tree<R>| retitle_all(t, windows@.take(0))) =~= roots_of(m0));
    }
    let mut j: usize = 0;
    while j < windows.len()
        invariant
            j <= windows@.len(),
            n == m0.workspaces@.len(),
            relayout(m0, *workspaces, roots_of(m0).map_values(|t: Tree<R>| retitle_all(t, windows@.take(j as int))), focus_of(m0)),
            workspaces.focused_workspace == m0.focused_workspace,
        decreases windows@.len() - j,
    {
        let win = &windows[j];
        let ghost before = windows@.take(j as int);
        let ghost after = windows@.take(j + 1);
        proof {
            assert(after.drop_last() =~= before);
            assert(after.last() == *win);
            assert(Seq::new(n as nat, |x: int| if x < 0 { retitle_all(roots_of(m0)[x], after) } else { retitle_all(roots_of(m0)[x], before) })
                =~= roots_of(m0).map_values(|t: Tree<R>| retitle_all(t, before)));
        }
        let mut k: usize = 0;
        while k < n
            invariant
                k <= n,
                n == m0.workspaces@.len(),
                after.drop_last() == before,
                after.last() == *win,
                after.len() > 0,
                relayout(
                    m0,
                    *workspaces,
                    Seq::new(n as nat, |x: int| if x < k { retitle_all(roots_of(m0)[x], after) } else { retitle_all(roots_of(m0)[x], before) }),
                    focus_of(m0),
                ),
                workspaces.focused_workspace == m0.focused_workspace,
            decreases n - k,
        {
            let ghost mk = *workspaces;
            retitle_in(workspaces, k, win);
            proof {
                let target = Seq::new(n as nat, |x: int| if x < k + 1 { retitle_all(roots_of(m0)[x], after) } else { retitle_all(roots_of(m0)[x], before) });
                assert(roots_of(mk)[k as int] == mk.workspaces@[k as int].root@);
                assert(roots_of(mk)[k as int] == retitle_all(roots_of(m0)[k as int], before));
                assert(retitle_tree(retitle_all(roots_of(m0)[k as int], before), *win) == retitle_all(roots_of(m0)[k as int], after));
                assert(roots_of(*workspaces) =~= target);
                assert forall|x: int| 0 <= x < n implies same_but_layout(#[trigger] workspaces.workspaces@[x], m0.workspaces@[x]) by {
                    assert(same_but_layout(workspaces.workspaces@[x], mk.workspaces@[x]));
                    assert(same_but_layout(mk.workspaces@[x], m0.workspaces@[x]));
                }
            }
            k += 1;
        }
        proof {
            assert(roots_of(*workspaces) =~= roots_of(m0).map_values(|t: Tree<R>| retitle_all(t, after)));
        }
        j += 1;
    }
    proof {
        assert(windows@.take(j as int) =~= windows@);
    }
}

} // verus!
