//! The manage cycle's decisions about windows: which size each tiled window
//! is offered, which tabs are shown, which windows are hidden, and which
//! window has keyboard focus. The caller sends the commands to the
//! compositor in order.

use vstd::prelude::*;
use crate::app_bindings::{dims_for, frame_id_is, AppBindings, LocView};
use crate::layout::{find_leaf, leaf_ids, FrameId, FrameView, Rect, WindowRef};
use crate::requests::window_index;
use crate::seqs::{first_match, lemma_first_match, lemma_first_match_none, lemma_first_match_unique};
use crate::window_actions::window_is;
use crate::wm::{half_toward_zero, ManagedWindow};
use crate::workspace::{id_is, Workspace, WorkspaceManager};

verus! {

/// Height of the tab bar drawn above each frame's windows.
pub const TAB_BAR_HEIGHT: i32 = 24;

/// What the compositor is told about a window.
#[derive(Debug, Clone, Copy, PartialEq, Eq, Structural)]
pub enum WindowCommand {
    /// Offer the window this size.
    Propose { window: u64, width: i32, height: i32 },
    /// Show the window.
    Show(u64),
    /// Hide the window.
    Hide(u64),
    /// Give the window keyboard focus.
    Focus(u64),
    /// Take keyboard focus from every window.
    ClearFocus,
}

/// The window with identifier `id` is managed.
pub open spec fn managed(wins: Seq<ManagedWindow>, id: u64) -> bool {
    first_match(wins, window_is(id)) is Some
}

/// Show the active tab and hide the others, for the tabs that are managed
/// windows, in tab order.
pub open spec fn tab_cmds(wins: Seq<ManagedWindow>, refs: Seq<WindowRef>, active: usize) -> Seq<WindowCommand>
    decreases refs.len(),
{
    if refs.len() == 0 {
        Seq::empty()
    } else {
        let i = refs.len() - 1;
        let id = refs.last().window_id;
        tab_cmds(wins, refs.drop_last(), active) + if managed(wins, id) {
            seq![if i == active { WindowCommand::Show(id) } else { WindowCommand::Hide(id) }]
        } else {
            Seq::empty()
        }
    }
}

/// The size the active window of frame `fid` (laid out at `rect`) is
/// offered: the fixed dimensions bound for its app at that frame, else the
/// frame less its borders and the tab bar.
pub open spec fn offered_size<R>(v: Seq<(Seq<char>, Seq<LocView>)>, w: Workspace<R>, fid: FrameId, app: Seq<char>, rect: Rect, border: i32) -> (int, int) {
    let fixed = match first_match(leaf_ids(w.root@), frame_id_is(fid)) {
        Some(p) => dims_for(v, app, w.name@, p as usize),
        None => None,
    };
    match fixed {
        Some((fw, fh)) => (fw as int, fh as int),
        None => (rect.width - 2 * border, rect.height - 2 * border - TAB_BAR_HEIGHT),
    }
}

/// The commands for one frame of a shown workspace: its active window (when
/// managed) is offered its size, then its tabs are shown or hidden.
pub open spec fn frame_cmds<R>(wins: Seq<ManagedWindow>, v: Seq<(Seq<char>, Seq<LocView>)>, w: Workspace<R>, entry: (FrameId, Rect), border: i32) -> Seq<WindowCommand> {
    match find_leaf(w.root@, entry.0) {
        None => Seq::empty(),
        Some(f) => {
            let propose = if f.active_tab < f.windows.len() && managed(wins, f.windows[f.active_tab as int].window_id) {
                let a = f.windows[f.active_tab as int];
                let size = offered_size(v, w, entry.0, a.app_id@, entry.1, border);
                seq![WindowCommand::Propose { window: a.window_id, width: size.0 as i32, height: size.1 as i32 }]
            } else {
                Seq::empty()
            };
            propose + tab_cmds(wins, f.windows, f.active_tab)
        },
    }
}

/// The commands for the frames of one workspace's layout, in layout order.
pub open spec fn layout_cmds<R>(wins: Seq<ManagedWindow>, v: Seq<(Seq<char>, Seq<LocView>)>, w: Workspace<R>, entries: Seq<(FrameId, Rect)>, border: i32) -> Seq<WindowCommand>
    decreases entries.len(),
{
    if entries.len() == 0 {
        Seq::empty()
    } else {
        layout_cmds(wins, v, w, entries.drop_last(), border) + frame_cmds(wins, v, w, entries.last(), border)
    }
}

/// The workspace is shown on an output that exists.
pub open spec fn on_output<R>(m: WorkspaceManager<R>, w: Workspace<R>) -> bool {
    w.active_output matches Some(o) && first_match(m.outputs@, id_is(o)) is Some
}

/// The commands for the tiled windows of the first `n` workspaces, in
/// order; hidden workspaces give none. `layouts[k]` is the layout of
/// workspace `k`.
pub open spec fn tiled_cmds<R>(m: WorkspaceManager<R>, wins: Seq<ManagedWindow>, v: Seq<(Seq<char>, Seq<LocView>)>, layouts: Seq<Seq<(FrameId, Rect)>>, border: i32, n: int) -> Seq<WindowCommand>
    decreases n,
{
    if n <= 0 {
        Seq::empty()
    } else {
        tiled_cmds(m, wins, v, layouts, border, n - 1) + if on_output(m, m.workspaces@[n - 1]) {
            layout_cmds(wins, v, m.workspaces@[n - 1], layouts[n - 1], border)
        } else {
            Seq::empty()
        }
    }
}

/// Every frame rectangle leaves room for the borders and the tab bar
/// within `i32`.
pub open spec fn sizes_fit(layouts: Seq<Seq<(FrameId, Rect)>>, border: i32) -> bool {
    forall|k: int, j: int| 0 <= k < layouts.len() && 0 <= j < layouts[k].len() ==> {
        &&& i32::MIN <= (#[trigger] layouts[k][j]).1.width - 2 * border
        &&& i32::MIN <= layouts[k][j].1.height - 2 * border - TAB_BAR_HEIGHT
    }
}

fn tab_commands(windows: &Vec<ManagedWindow>, f: &crate::layout::Frame, cmds: &mut Vec<WindowCommand>)
    ensures
        final(cmds)@ == old(cmds)@ + tab_cmds(windows@, f@.windows, f@.active_tab),
{
    let ghost start = old(cmds)@;
    let mut i: usize = 0;
    while i < f.windows.len()
        invariant
            i <= f.windows@.len(),
            cmds@ == start + tab_cmds(windows@, f@.windows.take(i as int), f@.active_tab),
        decreases f.windows@.len() - i,
    {
        let id = f.windows[i].window_id;
        proof {
            assert(f@.windows.take(i + 1).drop_last() =~= f@.windows.take(i as int));
            assert(f@.windows.take(i + 1).last() == f@.windows[i as int]);
        }
        if window_index(windows, id).is_some() {
            if i == f.active_tab {
                cmds.push(WindowCommand::Show(id));
            } else {
                cmds.push(WindowCommand::Hide(id));
            }
        }
        proof {
            assert(cmds@ =~= start + tab_cmds(windows@, f@.windows.take(i + 1), f@.active_tab));
        }
        i += 1;
    }
    proof {
        assert(f@.windows.take(i as int) =~= f@.windows);
    }
}

fn frame_position<R: Copy>(w: &Workspace<R>, fid: FrameId) -> (r: Option<usize>)
    ensures
        r == (match first_match(leaf_ids(w.root@), frame_id_is(fid)) {
            Some(p) => Some(p as usize),
            None => None,
        }),
{
    let ids = w.root.all_frame_ids();
    let ghost q = frame_id_is(fid);
    let mut i: usize = 0;
    while i < ids.len()
        invariant
            i <= ids@.len(),
            ids@ == leaf_ids(w.root@),
            q == frame_id_is(fid),
            forall|j: int| 0 <= j < i ==> !q(#[trigger] ids@[j]),
        decreases ids@.len() - i,
    {
        if ids[i] == fid {
            proof {
                lemma_first_match_unique(ids@, q, i as int);
            }
            return Some(i);
        }
        i += 1;
    }
    proof {
        lemma_first_match_none(ids@, q);
    }
    None
}

fn frame_commands<R: Copy>(
    w: &Workspace<R>,
    windows: &Vec<ManagedWindow>,
    bindings: &AppBindings,
    fid: FrameId,
    rect: Rect,
    border: i32,
    cmds: &mut Vec<WindowCommand>,
)
    requires
        0 <= border <= 0x3fff_ffff,
        i32::MIN <= rect.width - 2 * border,
        i32::MIN <= rect.height - 2 * border - TAB_BAR_HEIGHT,
    ensures
        final(cmds)@ == old(cmds)@ + frame_cmds(windows@, bindings@, *w, (fid, rect), border),
{
    let ghost start = old(cmds)@;
    match w.root.find_frame(fid) {
        Some(f) => {
            if let Some(a) = f.active_window() {
                if window_index(windows, a.window_id).is_some() {
                    let fixed = match frame_position(w, fid) {
                        Some(p) => bindings.fixed_dimensions_for(a.app_id.as_str(), w.name.as_str(), p),
                        None => None,
                    };
                    let (width, height) = match fixed {
                        Some((fw, fh)) => (fw, fh),
                        None => (rect.width - 2 * border, rect.height - 2 * border - TAB_BAR_HEIGHT),
                    };
                    cmds.push(WindowCommand::Propose { window: a.window_id, width, height });
                }
            }
            let ghost mid = cmds@;
            tab_commands(windows, f, cmds);
            proof {
                assert(cmds@ =~= start + frame_cmds(windows@, bindings@, *w, (fid, rect), border));
            }
        },
        None => {
            proof {
                assert(cmds@ =~= start + frame_cmds(windows@, bindings@, *w, (fid, rect), border));
            }
        },
    }
}

/// The commands for the tiled windows (see `tiled_cmds`): for each shown
/// workspace, in order, and each frame of its layout, in layout order, the
/// active window is offered its size (the fixed dimensions bound for its
/// app at that frame, else the frame less twice `border` and the tab bar),
/// and the frame's tabs are shown (the active one) or hidden (the others).
pub fn window_management_plan<R: Copy>(
    workspaces: &WorkspaceManager<R>,
    layouts: &Vec<Vec<(FrameId, Rect)>>,
    windows: &Vec<ManagedWindow>,
    bindings: &AppBindings,
    border: i32,
) -> (cmds: Vec<WindowCommand>)
    requires
        workspaces.wf(),
        layouts@.len() == workspaces.workspaces@.len(),
        0 <= border <= 0x3fff_ffff,
        sizes_fit(layouts@.map_values(|l: Vec<(FrameId, Rect)>| l@), border),
    ensures
        cmds@ == tiled_cmds(*workspaces, windows@, bindings@, layouts@.map_values(|l: Vec<(FrameId, Rect)>| l@), border, workspaces.workspaces@.len() as int),
{
    let ghost lv = layouts@.map_values(|l: Vec<(FrameId, Rect)>| l@);
    let mut cmds: Vec<WindowCommand> = Vec::new();
    let mut k: usize = 0;
    while k < workspaces.workspaces.len()
        invariant
            k <= workspaces.workspaces@.len(),
            layouts@.len() == workspaces.workspaces@.len(),
            lv == layouts@.map_values(|l: Vec<(FrameId, Rect)>| l@),
            0 <= border <= 0x3fff_ffff,
            sizes_fit(lv, border),
            cmds@ == tiled_cmds(*workspaces, windows@, bindings@, lv, border, k as int),
        decreases workspaces.workspaces@.len() - k,
    {
        let w = &workspaces.workspaces[k];
        let shown = match w.active_output {
            Some(oid) => workspaces.output(oid).is_some(),
            None => false,
        };
        proof {
            assert(lv[k as int] == layouts@[k as int]@);
        }
        if shown {
            let ghost before = cmds@;
            let layout = &layouts[k];
            let mut j: usize = 0;
            while j < layout.len()
                invariant
                    j <= layout@.len(),
                    layout@ == lv[k as int],
                    k < lv.len(),
                    0 <= border <= 0x3fff_ffff,
                    sizes_fit(lv, border),
                    cmds@ == before + layout_cmds(windows@, bindings@, *w, layout@.take(j as int), border),
                decreases layout@.len() - j,
            {
                let (fid, rect) = layout[j];
                proof {
                    assert(lv[k as int][j as int] == layout@[j as int]);
                    assert(layout@.take(j + 1).drop_last() =~= layout@.take(j as int));
                    assert(layout@.take(j + 1).last() == layout@[j as int]);
                }
                frame_commands(w, windows, bindings, fid, rect, border, &mut cmds);
                proof {
                    assert(cmds@ =~= before + layout_cmds(windows@, bindings@, *w, layout@.take(j + 1), border));
                }
                j += 1;
            }
            proof {
                assert(layout@.take(j as int) =~= layout@);
                assert(cmds@ =~= tiled_cmds(*workspaces, windows@, bindings@, lv, border, k + 1));
            }
        } else {
            proof {
                assert(cmds@ =~= tiled_cmds(*workspaces, windows@, bindings@, lv, border, k + 1));
            }
        }
        k += 1;
    }
    cmds
}


/// Some shown workspace (one with an output) has frame `fid`.
pub open spec fn frame_shown<R>(ws: Seq<Workspace<R>>, fid: FrameId) -> bool {
    exists|k: int| 0 <= k < ws.len() && (#[trigger] ws[k]).active_output is Some && find_leaf(ws[k].root@, fid) is Some
}

/// Hide the tiled windows whose frame is on no shown workspace, in the
/// order of `wins`.
pub open spec fn hidden_cmds<R>(ws: Seq<Workspace<R>>, wins: Seq<ManagedWindow>) -> Seq<WindowCommand>
    decreases wins.len(),
{
    if wins.len() == 0 {
        Seq::empty()
    } else {
        let w = wins.last();
        hidden_cmds(ws, wins.drop_last()) + if !w.floating && (w.frame_id matches Some(f) && !frame_shown(ws, f)) {
            seq![WindowCommand::Hide(w.id)]
        } else {
            Seq::empty()
        }
    }
}

/// The floating focus, kept only while it names a managed floating window
/// that is not closed.
pub open spec fn floating_focus_after(wins: Seq<ManagedWindow>, ff: Option<u64>) -> Option<u64> {
    match ff {
        Some(id) => match first_match(wins, window_is(id)) {
            Some(i) => if wins[i].floating && !wins[i].closed { Some(id) } else { None },
            None => None,
        },
        None => None,
    }
}

/// Who gets keyboard focus: the floating window with floating focus, else
/// the active window of the focused frame (when managed); an empty focused
/// frame takes focus from everything.
pub open spec fn focus_cmds<R>(m: WorkspaceManager<R>, wins: Seq<ManagedWindow>, ff: Option<u64>) -> Seq<WindowCommand> {
    match ff {
        Some(id) => seq![WindowCommand::Focus(id)],
        None => {
            let w = m.workspaces@[m.focused_workspace.0 as int];
            match find_leaf(w.root@, w.focused_frame) {
                Some(f) => if f.active_tab < f.windows.len() {
                    let id = f.windows[f.active_tab as int].window_id;
                    if managed(wins, id) { seq![WindowCommand::Focus(id)] } else { Seq::empty() }
                } else {
                    seq![WindowCommand::ClearFocus]
                },
                None => Seq::empty(),
            }
        },
    }
}

fn frame_is_shown<R: Copy>(m: &WorkspaceManager<R>, fid: FrameId) -> (b: bool)
    ensures
        b == frame_shown(m.workspaces@, fid),
{
    let mut k: usize = 0;
    while k < m.workspaces.len()
        invariant
            k <= m.workspaces@.len(),
            forall|j: int| 0 <= j < k ==> !((#[trigger] m.workspaces@[j]).active_output is Some && find_leaf(m.workspaces@[j].root@, fid) is Some),
        decreases m.workspaces@.len() - k,
    {
        if m.workspaces[k].active_output.is_some() && m.workspaces[k].root.find_frame(fid).is_some() {
            proof {
                assert(m.workspaces@[k as int].active_output is Some && find_leaf(m.workspaces@[k as int].root@, fid) is Some);
            }
            return true;
        }
        k += 1;
    }
    false
}

/// After the tiled windows: hide the tiled windows whose frame is on no
/// shown workspace, then give keyboard focus (see `focus_cmds`). Returns
/// the commands and the floating focus, dropped when its window is gone,
/// closed or no longer floating.
pub fn visibility_and_focus_plan<R: Copy>(workspaces: &WorkspaceManager<R>, windows: &Vec<ManagedWindow>, floating_focus: Option<u64>) -> (r: (Vec<WindowCommand>, Option<u64>))
    requires
        workspaces.wf(),
        workspaces.workspaces@.len() > 0,
    ensures
        r.1 == floating_focus_after(windows@, floating_focus),
        r.0@ == hidden_cmds(workspaces.workspaces@, windows@) + focus_cmds(*workspaces, windows@, r.1),
{
    let ghost ws = workspaces.workspaces@;
    let mut cmds: Vec<WindowCommand> = Vec::new();
    let mut i: usize = 0;
    while i < windows.len()
        invariant
            i <= windows@.len(),
            ws == workspaces.workspaces@,
            cmds@ == hidden_cmds(ws, windows@.take(i as int)),
        decreases windows@.len() - i,
    {
        proof {
            assert(windows@.take(i + 1).drop_last() =~= windows@.take(i as int));
            assert(windows@.take(i + 1).last() == windows@[i as int]);
        }
        let w = &windows[i];
        if !w.floating {
            if let Some(f) = w.frame_id {
                if !frame_is_shown(workspaces, f) {
                    cmds.push(WindowCommand::Hide(w.id));
                }
            }
        }
        proof {
            assert(cmds@ =~= hidden_cmds(ws, windows@.take(i + 1)));
        }
        i += 1;
    }
    proof {
        assert(windows@.take(i as int) =~= windows@);
    }
    let ghost hidden = cmds@;
    let ff = match floating_focus {
        Some(id) => match window_index(windows, id) {
            Some(x) => if windows[x].floating && !windows[x].closed { Some(id) } else { None },
            None => None,
        },
        None => None,
    };
    match ff {
        Some(id) => cmds.push(WindowCommand::Focus(id)),
        None => {
            let w = &workspaces.workspaces[workspaces.focused_workspace.0];
            match w.root.find_frame(w.focused_frame) {
                Some(f) => match f.active_window() {
                    Some(a) => {
                        if window_index(windows, a.window_id).is_some() {
                            cmds.push(WindowCommand::Focus(a.window_id));
                        }
                    },
                    None => cmds.push(WindowCommand::ClearFocus),
                },
                None => {},
            }
        },
    }
    proof {
        assert(cmds@ =~= hidden + focus_cmds(*workspaces, windows@, ff));
    }
    (cmds, ff)
}


// ── Floating windows ──────────────────────────────────────────────────────

/// The floating window has its real size but was not placed with it yet.
pub open spec fn needs_settling(w: ManagedWindow) -> bool {
    w.floating && w.width > 0 && w.height > 0 && !w.float_positioned
}

/// A floating window once settled: centered in `area` (when there is one)
/// now that its size is known, and marked positioned.
pub open spec fn settled(w: ManagedWindow, area: Option<Rect>) -> ManagedWindow {
    if needs_settling(w) {
        match area {
            Some(a) => ManagedWindow {
                float_x: (a.x + half_toward_zero(a.width - w.width)) as i32,
                float_y: (a.y + half_toward_zero(a.height - w.height)) as i32,
                float_positioned: true,
                ..w
            },
            None => ManagedWindow { float_positioned: true, ..w },
        }
    } else {
        w
    }
}

/// The sums that settling computes fit `i32`: the spare room, the centered
/// position, and the window's center that the pointer is warped to.
pub open spec fn settle_fits(w: ManagedWindow, area: Option<Rect>) -> bool {
    needs_settling(w) ==> {
        &&& (area matches Some(a) ==> {
            &&& i32::MIN <= a.width - w.width <= i32::MAX
            &&& i32::MIN <= a.height - w.height <= i32::MAX
            &&& i32::MIN <= a.x + half_toward_zero(a.width - w.width) <= i32::MAX
            &&& i32::MIN <= a.y + half_toward_zero(a.height - w.height) <= i32::MAX
        })
        &&& i32::MIN <= settled(w, area).float_x + w.width / 2 <= i32::MAX
        &&& i32::MIN <= settled(w, area).float_y + w.height / 2 <= i32::MAX
    }
}

/// What a floating window is told: offered its own size and shown once the
/// size is known, offered 0 x 0 (the client's choice) before.
pub open spec fn float_cmds(wins: Seq<ManagedWindow>) -> Seq<WindowCommand>
    decreases wins.len(),
{
    if wins.len() == 0 {
        Seq::empty()
    } else {
        let w = wins.last();
        float_cmds(wins.drop_last()) + if !w.floating {
            Seq::empty()
        } else if w.width > 0 && w.height > 0 {
            seq![WindowCommand::Propose { window: w.id, width: w.width, height: w.height }, WindowCommand::Show(w.id)]
        } else {
            seq![WindowCommand::Propose { window: w.id, width: 0, height: 0 }]
        }
    }
}

/// The last window that settling placed, with its center.
pub open spec fn newly_placed(wins: Seq<ManagedWindow>, area: Option<Rect>) -> Option<(u64, i32, i32)>
    decreases wins.len(),
{
    if wins.len() == 0 {
        None
    } else {
        let w = wins.last();
        if needs_settling(w) {
            let s = settled(w, area);
            Some((w.id, (s.float_x + w.width / 2) as i32, (s.float_y + w.height / 2) as i32))
        } else {
            newly_placed(wins.drop_last(), area)
        }
    }
}

/// Settle the floating windows: center those whose size just became known
/// in `area` (the focused output's usable area), and tell each floating
/// window its size (see `float_cmds`). Returns the commands and the last
/// window placed now, with its center: it takes the floating focus and the
/// pointer is warped there.
pub fn settle_floating_windows(windows: &mut Vec<ManagedWindow>, area: Option<Rect>) -> (r: (Vec<WindowCommand>, Option<(u64, i32, i32)>))
    requires
        forall|i: int| 0 <= i < old(windows)@.len() ==> settle_fits(#[trigger] old(windows)@[i], area),
    ensures
        final(windows)@ == old(windows)@.map_values(|w: ManagedWindow| settled(w, area)),
        r.0@ == float_cmds(old(windows)@),
        r.1 == newly_placed(old(windows)@, area),
{
    let ghost w0 = windows@;
    let mut cmds: Vec<WindowCommand> = Vec::new();
    let mut newly: Option<(u64, i32, i32)> = None;
    let mut k: usize = 0;
    while k < windows.len()
        invariant
            k <= w0.len(),
            windows@.len() == w0.len(),
            forall|i: int| 0 <= i < w0.len() ==> settle_fits(#[trigger] w0[i], area),
            forall|i: int| 0 <= i < k ==> windows@[i] == settled(#[trigger] w0[i], area),
            forall|i: int| k <= i < w0.len() ==> #[trigger] windows@[i] == w0[i],
            cmds@ == float_cmds(w0.take(k as int)),
            newly == newly_placed(w0.take(k as int), area),
        decreases w0.len() - k,
    {
        proof {
            assert(w0.take(k + 1).drop_last() =~= w0.take(k as int));
            assert(w0.take(k + 1).last() == w0[k as int]);
            assert(settle_fits(w0[k as int], area));
        }
        let w = &mut windows[k];
        if w.floating {
            if w.width > 0 && w.height > 0 {
                if !w.float_positioned {
                    if let Some(a) = area {
                        w.float_x = a.x + (a.width - w.width) / 2;
                        w.float_y = a.y + (a.height - w.height) / 2;
                    }
                    w.float_positioned = true;
                    newly = Some((w.id, w.float_x + w.width / 2, w.float_y + w.height / 2));
                }
                cmds.push(WindowCommand::Propose { window: w.id, width: w.width, height: w.height });
                cmds.push(WindowCommand::Show(w.id));
            } else {
                cmds.push(WindowCommand::Propose { window: w.id, width: 0, height: 0 });
            }
        }
        proof {
            assert(windows@[k as int] == settled(w0[k as int], area));
            assert(cmds@ =~= float_cmds(w0.take(k + 1)));
        }
        k += 1;
    }
    proof {
        assert(w0.take(k as int) =~= w0);
        assert(windows@ =~= w0.map_values(|w: ManagedWindow| settled(w, area)));
    }
    (cmds, newly)
}


// ── Positions, borders and empty frames ───────────────────────────────────

/// Which border colour a window gets.
#[derive(Debug, Clone, Copy, PartialEq, Eq, Structural)]
pub enum BorderColour {
    /// The focused frame in resize mode.
    Resize,
    /// The focused frame.
    Active,
    /// Every other frame.
    Inactive,
}

/// Where a frame's active window goes and how it is drawn.
#[derive(Debug, Clone, Copy, PartialEq, Eq, Structural)]
pub struct WindowPlacement {
    pub window: u64,
    pub frame: FrameId,
    /// Position of the window: inside the border, below the tab bar.
    pub x: i32,
    pub y: i32,
    /// Width of the frame (for the tab bar).
    pub frame_width: i32,
    pub focused: bool,
    pub colour: BorderColour,
}

/// An empty frame to draw a placeholder for.
#[derive(Debug, Clone, Copy, PartialEq, Eq, Structural)]
pub struct EmptyFrame {
    pub frame: FrameId,
    pub rect: Rect,
    pub focused: bool,
}

pub open spec fn colour_for(focused: bool, resize_mode: bool) -> BorderColour {
    if focused && resize_mode {
        BorderColour::Resize
    } else if focused {
        BorderColour::Active
    } else {
        BorderColour::Inactive
    }
}

/// The placement of a frame's active window (when it has one that is
/// managed); `focused` compares the frame with the focused workspace's
/// focused frame.
pub open spec fn frame_placement<R>(wins: Seq<ManagedWindow>, w: Workspace<R>, entry: (FrameId, Rect), border: i32, focused_frame: FrameId, resize_mode: bool) -> Seq<WindowPlacement> {
    match find_leaf(w.root@, entry.0) {
        Some(f) => if f.active_tab < f.windows.len() && managed(wins, f.windows[f.active_tab as int].window_id) {
            let focused = entry.0 == focused_frame;
            seq![WindowPlacement {
                window: f.windows[f.active_tab as int].window_id,
                frame: entry.0,
                x: (entry.1.x + border) as i32,
                y: (entry.1.y + border + TAB_BAR_HEIGHT) as i32,
                frame_width: entry.1.width,
                focused,
                colour: colour_for(focused, resize_mode),
            }]
        } else {
            Seq::empty()
        },
        None => Seq::empty(),
    }
}

pub open spec fn layout_placements<R>(wins: Seq<ManagedWindow>, w: Workspace<R>, entries: Seq<(FrameId, Rect)>, border: i32, ff: FrameId, rm: bool) -> Seq<WindowPlacement>
    decreases entries.len(),
{
    if entries.len() == 0 {
        Seq::empty()
    } else {
        layout_placements(wins, w, entries.drop_last(), border, ff, rm) + frame_placement(wins, w, entries.last(), border, ff, rm)
    }
}

/// The placements of the active windows of the shown workspaces' frames,
/// workspace by workspace, in layout order.
pub open spec fn placements<R>(m: WorkspaceManager<R>, wins: Seq<ManagedWindow>, layouts: Seq<Seq<(FrameId, Rect)>>, border: i32, rm: bool, n: int) -> Seq<WindowPlacement>
    decreases n,
{
    if n <= 0 {
        Seq::empty()
    } else {
        let ff = m.workspaces@[m.focused_workspace.0 as int].focused_frame;
        placements(m, wins, layouts, border, rm, n - 1) + if on_output(m, m.workspaces@[n - 1]) {
            layout_placements(wins, m.workspaces@[n - 1], layouts[n - 1], border, ff, rm)
        } else {
            Seq::empty()
        }
    }
}

pub open spec fn layout_empties<R>(w: Workspace<R>, entries: Seq<(FrameId, Rect)>, ff: FrameId) -> Seq<EmptyFrame>
    decreases entries.len(),
{
    if entries.len() == 0 {
        Seq::empty()
    } else {
        let e = entries.last();
        layout_empties(w, entries.drop_last(), ff) + match find_leaf(w.root@, e.0) {
            Some(f) => if f.windows.len() == 0 { seq![EmptyFrame { frame: e.0, rect: e.1, focused: e.0 == ff }] } else { Seq::empty() },
            None => Seq::empty(),
        }
    }
}

/// The empty frames of the shown workspaces, in order.
pub open spec fn empties<R>(m: WorkspaceManager<R>, layouts: Seq<Seq<(FrameId, Rect)>>, n: int) -> Seq<EmptyFrame>
    decreases n,
{
    if n <= 0 {
        Seq::empty()
    } else {
        let ff = m.workspaces@[m.focused_workspace.0 as int].focused_frame;
        empties(m, layouts, n - 1) + if on_output(m, m.workspaces@[n - 1]) {
            layout_empties(m.workspaces@[n - 1], layouts[n - 1], ff)
        } else {
            Seq::empty()
        }
    }
}

/// Every frame's window position fits `i32`.
pub open spec fn positions_fit(layouts: Seq<Seq<(FrameId, Rect)>>, border: i32) -> bool {
    forall|k: int, j: int| 0 <= k < layouts.len() && 0 <= j < layouts[k].len() ==> {
        &&& i32::MIN <= (#[trigger] layouts[k][j]).1.x + border <= i32::MAX
        &&& i32::MIN <= layouts[k][j].1.y + border <= i32::MAX
        &&& i32::MIN <= layouts[k][j].1.y + border + TAB_BAR_HEIGHT <= i32::MAX
    }
}

/// Where each shown frame's active window goes, with its border colour
/// (see `placements`), and the shown frames that are empty (see
/// `empties`).
pub fn layout_positions<R: Copy>(
    workspaces: &WorkspaceManager<R>,
    layouts: &Vec<Vec<(FrameId, Rect)>>,
    windows: &Vec<ManagedWindow>,
    border: i32,
    resize_mode: bool,
) -> (r: (Vec<WindowPlacement>, Vec<EmptyFrame>))
    requires
        workspaces.wf(),
        workspaces.workspaces@.len() > 0,
        layouts@.len() == workspaces.workspaces@.len(),
        positions_fit(layouts@.map_values(|l: Vec<(FrameId, Rect)>| l@), border),
    ensures
        r.0@ == placements(*workspaces, windows@, layouts@.map_values(|l: Vec<(FrameId, Rect)>| l@), border, resize_mode, workspaces.workspaces@.len() as int),
        r.1@ == empties(*workspaces, layouts@.map_values(|l: Vec<(FrameId, Rect)>| l@), workspaces.workspaces@.len() as int),
{
    let ghost lv = layouts@.map_values(|l: Vec<(FrameId, Rect)>| l@);
    let ff = workspaces.workspaces[workspaces.focused_workspace.0].focused_frame;
    let mut out: Vec<WindowPlacement> = Vec::new();
    let mut empty: Vec<EmptyFrame> = Vec::new();
    let mut k: usize = 0;
    while k < workspaces.workspaces.len()
        invariant
            k <= workspaces.workspaces@.len(),
            workspaces.wf(),
            workspaces.workspaces@.len() > 0,
            ff == workspaces.workspaces@[workspaces.focused_workspace.0 as int].focused_frame,
            layouts@.len() == workspaces.workspaces@.len(),
            lv == layouts@.map_values(|l: Vec<(FrameId, Rect)>| l@),
            positions_fit(lv, border),
            out@ == placements(*workspaces, windows@, lv, border, resize_mode, k as int),
            empty@ == empties(*workspaces, lv, k as int),
        decreases workspaces.workspaces@.len() - k,
    {
        let w = &workspaces.workspaces[k];
        let shown = match w.active_output {
            Some(oid) => workspaces.output(oid).is_some(),
            None => false,
        };
        proof {
            assert(lv[k as int] == layouts@[k as int]@);
        }
        if shown {
            let ghost out0 = out@;
            let ghost empty0 = empty@;
            let layout = &layouts[k];
            let mut j: usize = 0;
            while j < layout.len()
                invariant
                    j <= layout@.len(),
                    layout@ == lv[k as int],
                    k < lv.len(),
                    positions_fit(lv, border),
                    out@ == out0 + layout_placements(windows@, *w, layout@.take(j as int), border, ff, resize_mode),
                    empty@ == empty0 + layout_empties(*w, layout@.take(j as int), ff),
                decreases layout@.len() - j,
            {
                let (fid, rect) = layout[j];
                proof {
                    assert(lv[k as int][j as int] == layout@[j as int]);
                    assert(layout@.take(j + 1).drop_last() =~= layout@.take(j as int));
                    assert(layout@.take(j + 1).last() == layout@[j as int]);
                }
                match w.root.find_frame(fid) {
                    Some(f) => {
                        if let Some(a) = f.active_window() {
                            if window_index(windows, a.window_id).is_some() {
                                let focused = fid == ff;
                                let colour = if focused && resize_mode {
                                    BorderColour::Resize
                                } else if focused {
                                    BorderColour::Active
                                } else {
                                    BorderColour::Inactive
                                };
                                out.push(WindowPlacement {
                                    window: a.window_id,
                                    frame: fid,
                                    x: rect.x + border,
                                    y: rect.y + border + TAB_BAR_HEIGHT,
                                    frame_width: rect.width,
                                    focused,
                                    colour,
                                });
                            }
                        }
                        if f.windows.len() == 0 {
                            empty.push(EmptyFrame { frame: fid, rect, focused: fid == ff });
                        }
                    },
                    None => {},
                }
                proof {
                    assert(out@ =~= out0 + layout_placements(windows@, *w, layout@.take(j + 1), border, ff, resize_mode));
                    assert(empty@ =~= empty0 + layout_empties(*w, layout@.take(j + 1), ff));
                }
                j += 1;
            }
            proof {
                assert(layout@.take(j as int) =~= layout@);
                assert(out@ =~= placements(*workspaces, windows@, lv, border, resize_mode, k + 1));
                assert(empty@ =~= empties(*workspaces, lv, k + 1));
            }
        } else {
            proof {
                assert(out@ =~= placements(*workspaces, windows@, lv, border, resize_mode, k + 1));
                assert(empty@ =~= empties(*workspaces, lv, k + 1));
            }
        }
        k += 1;
    }
    (out, empty)
}

} // verus!
