//! Placing a newly announced window: floating popups near the focused
//! output's corner or center, tiled windows into their restored, bound or
//! focused frame.

use vstd::prelude::*;
use crate::app_bindings::{any_target, bound_target, entry_for, open_target, target_of, AppBindings, LocView};
use crate::layout::{find_leaf, replace_leaf, FrameId, FrameView, Rect, Tree, WindowRef};
use crate::seqs::{first_match, lemma_first_match};
use crate::state::same_but_layout;
use crate::text::str_eq;
use crate::window_actions::{focus_of, frame_with, relayout, roots_of};
use crate::wm::{float_fits, float_position, float_size, should_reveal_bound_workspace, FloatingKind, ManagedWindow};
use crate::workspace::{id_is, same_but_active, switched, ws_named, Output, Workspace, WorkspaceId, WorkspaceManager};

verus! {

/// What the compositor must be told about a window that was just placed:
/// a floating window gets the proposed size (0 x 0 while its own is
/// unknown); a tiled one is told it is tiled.
#[derive(Debug, Clone, Copy, PartialEq, Eq, Structural)]
pub enum Placement {
    Floating { width: i32, height: i32 },
    Tiled,
}

/// An untitled window of an app that already has a window looks like a
/// popup or a notification.
pub open spec fn auto_floats(w: ManagedWindow, existing: Seq<Seq<char>>) -> bool {
    !w.floating && w.app_id@.len() > 0 && w.title@.len() == 0 && existing.contains(w.app_id@)
}

/// The window after the popup rule: such a window floats as a notification.
pub open spec fn floated(w: ManagedWindow, existing: Seq<Seq<char>>) -> ManagedWindow {
    if auto_floats(w, existing) {
        ManagedWindow { floating: true, floating_kind: FloatingKind::Notification, ..w }
    } else {
        w
    }
}

/// The area of an output that windows may use.
pub open spec fn usable_area(o: Output) -> Rect {
    if o.has_exclusive_zone {
        Rect { x: o.usable_x, y: o.usable_y, width: o.usable_width, height: o.usable_height }
    } else {
        Rect { x: o.x, y: o.y, width: o.width, height: o.height }
    }
}

/// The area of the output showing the focused workspace, if any.
pub open spec fn focused_area<R>(m: WorkspaceManager<R>) -> Option<Rect> {
    match m.workspaces@[m.focused_workspace.0 as int].active_output {
        Some(oid) => match first_match(m.outputs@, id_is(oid)) {
            Some(o) => Some(usable_area(m.outputs@[o])),
            None => None,
        },
        None => None,
    }
}

/// Whether the window's own size is known.
pub open spec fn size_known(w: ManagedWindow) -> bool {
    w.width > 0 && w.height > 0
}

/// A floating window after placement: in the focused frame when it had no
/// frame, positioned on the focused output (when there is one and the
/// position fits the coordinates), and no longer new.
pub open spec fn floating_placed<R>(m: WorkspaceManager<R>, w: ManagedWindow) -> ManagedWindow {
    let fw = m.workspaces@[m.focused_workspace.0 as int];
    let w2 = if w.frame_id is None { ManagedWindow { frame_id: Some(fw.focused_frame), ..w } } else { w };
    match focused_area(m) {
        Some(area) => if float_fits(w2, area) {
            let (x, y) = float_position(w2, area);
            ManagedWindow { float_x: x as i32, float_y: y as i32, float_positioned: size_known(w), new: false, ..w2 }
        } else {
            ManagedWindow { new: false, ..w2 }
        },
        None => ManagedWindow { new: false, ..w2 },
    }
}

/// Where the bindings send a new window of `app`.
pub open spec fn binding_target_of<R>(v: Seq<(Seq<char>, Seq<LocView>)>, ws: Seq<Workspace<R>>, app: Seq<char>) -> Option<(WorkspaceId, FrameId)> {
    match entry_for(v, app) {
        Some(i) => bound_target(ws, v[i].1, app),
        None => None,
    }
}

/// The workspace (by position) and frame a tiled window goes to: where the
/// saved state puts it, else where its app is bound, else the focused frame.
pub open spec fn tiled_target<R>(m: WorkspaceManager<R>, restored: Option<(WorkspaceId, FrameId)>, bt: Option<(WorkspaceId, FrameId)>) -> (int, FrameId) {
    match restored {
        Some((wid, f)) => (wid.0 as int, f),
        None => match bt {
            Some((wid, f)) => (wid.0 as int, f),
            None => (m.focused_workspace.0 as int, m.workspaces@[m.focused_workspace.0 as int].focused_frame),
        },
    }
}

/// The tree with `r` added to frame `fid`: quietly (keeping the active tab)
/// or as the new active tab.
pub open spec fn added_in_tree<R>(t: Tree<R>, fid: FrameId, r: WindowRef, quiet: bool) -> Tree<R> {
    match find_leaf(t, fid) {
        Some(f) => replace_leaf(t, fid, if quiet { FrameView { windows: f.windows.push(r), ..f } } else { frame_with(f, r) }),
        None => t,
    }
}

pub open spec fn window_ref_of(w: ManagedWindow) -> WindowRef {
    WindowRef { window_id: w.id, app_id: w.app_id, title: w.title }
}

/// Placing the tiled window `w` from `m0`: `m1` is `m0`, or `m0` switched to
/// the target workspace when a binding sends the window to a hidden one;
/// `m` is `m1` with the window added to the target frame (quietly when
/// restored, which keeps the saved active tab).
pub open spec fn placed_tiled<R>(
    m0: WorkspaceManager<R>,
    m1: WorkspaceManager<R>,
    m: WorkspaceManager<R>,
    w: ManagedWindow,
    restored: Option<(WorkspaceId, FrameId)>,
    v: Seq<(Seq<char>, Seq<LocView>)>,
) -> bool {
    let bt = binding_target_of(v, m0.workspaces@, w.app_id@);
    let (k, fid) = tiled_target(m0, restored, bt);
    let target = m0.workspaces@[k];
    let reveal = restored is None && bt is Some && target.active_output is None;
    &&& (if reveal { switched(m0, m1, target.name@) } else { m1 == m0 })
    &&& relayout(m1, m, roots_of(m1).update(k, added_in_tree(target.root@, fid, window_ref_of(w), restored is Some)), focus_of(m1))
    &&& m.focused_workspace == m1.focused_workspace
}

/// The tiled window after placement: recorded in its target frame (when
/// that frame exists) and no longer new.
pub open spec fn tiled_window<R>(m0: WorkspaceManager<R>, w: ManagedWindow, restored: Option<(WorkspaceId, FrameId)>, v: Seq<(Seq<char>, Seq<LocView>)>) -> ManagedWindow {
    let bt = binding_target_of(v, m0.workspaces@, w.app_id@);
    let (k, fid) = tiled_target(m0, restored, bt);
    let found = find_leaf(m0.workspaces@[k].root@, fid) is Some;
    ManagedWindow { frame_id: if found { Some(fid) } else { w.frame_id }, new: false, ..w }
}

fn contains_str(v: &Vec<String>, s: &str) -> (b: bool)
    ensures
        b == v@.map_values(|x: String| x@).contains(s@),
{
    let ghost vv = v@.map_values(|x: String| x@);
    let mut i: usize = 0;
    while i < v.len()
        invariant
            i <= v@.len(),
            vv == v@.map_values(|x: String| x@),
            forall|j: int| 0 <= j < i ==> vv[j] != s@,
        decreases v@.len() - i,
    {
        if str_eq(v[i].as_str(), s) {
            assert(vv[i as int] == s@);
            return true;
        }
        i += 1;
    }
    proof {
        assert forall|j: int| 0 <= j < vv.len() implies vv[j] != s@ by {}
    }
    false
}

fn float_fits_exec(w: &ManagedWindow, area: &Rect) -> (b: bool)
    ensures
        b == float_fits(*w, *area),
{
    let (fw, fh) = w.floating_dimensions();
    let (ax, ay, aw, ah) = (area.x as i64, area.y as i64, area.width as i64, area.height as i64);
    let (fw, fh) = (fw as i64, fh as i64);
    let lo = i32::MIN as i64;
    let hi = i32::MAX as i64;
    match w.floating_kind {
        FloatingKind::Notification => {
            let right = ax + aw;
            let left_edge = ax + aw - fw;
            let px = left_edge - 20;
            let py = ay + 20;
            lo <= right && right <= hi && lo <= left_edge && left_edge <= hi && lo <= px && px <= hi && lo <= py && py <= hi
        },
        FloatingKind::Dialog => {
            let spare_w = aw - fw;
            let spare_h = ah - fh;
            let px = ax + spare_w / 2;
            let py = ay + spare_h / 2;
            lo <= spare_w && spare_w <= hi && lo <= spare_h && spare_h <= hi && lo <= px && px <= hi && lo <= py && py <= hi
        },
    }
}

fn add_to_frame<R: Copy>(m: &mut WorkspaceManager<R>, k: usize, fid: FrameId, r: WindowRef, quiet: bool) -> (found: bool)
    requires
        k < old(m).workspaces@.len(),
    ensures
        found == (find_leaf(old(m).workspaces@[k as int].root@, fid) is Some),
        relayout(*old(m), *final(m), roots_of(*old(m)).update(k as int, added_in_tree(old(m).workspaces@[k as int].root@, fid, r, quiet)), focus_of(*old(m))),
        final(m).focused_workspace == old(m).focused_workspace,
{
    let ghost m0 = *m;
    let w = &mut m.workspaces[k];
    let found = match w.root.find_frame_mut(fid) {
        Some(f) => {
            if quiet {
                f.add_window_quiet(r);
            } else {
                f.add_window(r);
            }
            true
        },
        None => false,
    };
    proof {
        assert(roots_of(*m) =~= roots_of(m0).update(k as int, added_in_tree(m0.workspaces@[k as int].root@, fid, r, quiet)));
        assert(focus_of(*m) =~= focus_of(m0));
    }
    found
}

/// Place a newly announced window. An untitled window of an app that
/// already has a window (`existing_app_ids`) floats as a notification. A
/// floating window is positioned on the focused output and keeps the
/// workspaces as they are. A tiled window goes where the saved state put
/// it (`restored`), else where its app is bound, else into the focused
/// frame; a binding that sends it to a hidden workspace shows that
/// workspace first.
pub fn init_new_window<R: Copy>(
    workspaces: &mut WorkspaceManager<R>,
    window: &mut ManagedWindow,
    existing_app_ids: &Vec<String>,
    restored: Option<(WorkspaceId, FrameId)>,
    bindings: &AppBindings,
) -> (p: Placement)
    requires
        old(workspaces).wf(),
        old(workspaces).workspaces@.len() > 0,
        restored matches Some((wid, _f)) ==> wid.0 < old(workspaces).workspaces@.len(),
    ensures
        final(workspaces).wf(),
        ({
            let w1 = floated(*old(window), existing_app_ids@.map_values(|x: String| x@));
            if w1.floating {
                &&& *final(workspaces) == *old(workspaces)
                &&& *final(window) == floating_placed(*old(workspaces), w1)
                &&& p == (if size_known(w1) {
                    Placement::Floating { width: w1.width, height: w1.height }
                } else {
                    Placement::Floating { width: 0, height: 0 }
                })
            } else {
                &&& exists|m1: WorkspaceManager<R>| #[trigger] placed_tiled(*old(workspaces), m1, *final(workspaces), w1, restored, bindings@)
                &&& *final(window) == tiled_window(*old(workspaces), w1, restored, bindings@)
                &&& p == Placement::Tiled
            }
        }),
{
    let ghost m0 = *workspaces;
    let ghost existing = existing_app_ids@.map_values(|x: String| x@);
    if !window.floating && window.app_id.as_str().unicode_len() > 0 && window.title.as_str().unicode_len() == 0
        && contains_str(existing_app_ids, window.app_id.as_str()) {
        window.floating = true;
        window.floating_kind = FloatingKind::Notification;
    }
    let ghost w1 = *window;
    if window.floating {
        let fidx = workspaces.focused_workspace.0;
        if window.frame_id.is_none() {
            window.frame_id = Some(workspaces.workspaces[fidx].focused_frame);
        }
        let known = window.width > 0 && window.height > 0;
        let (pw, ph) = if known { (window.width, window.height) } else { (0, 0) };
        let area = match workspaces.workspaces[fidx].active_output {
            Some(oid) => match workspaces.output(oid) {
                Some(o) => Some(o.usable_rect()),
                None => None,
            },
            None => None,
        };
        if let Some(a) = area {
            if float_fits_exec(window, &a) {
                window.position_floating(a);
                window.float_positioned = known;
            }
        }
        window.new = false;
        return Placement::Floating { width: pw, height: ph };
    }
    let bt = bindings.find_target(window.app_id.as_str(), workspaces);
    proof {
        // a bound target is a workspace of the manager
        if let Some((wid, _f)) = bt {
            assert(wid.0 < m0.workspaces@.len()) by {
                lemma_bound_target_in_range(m0, bindings@, w1.app_id@);
            }
        }
    }
    let from_binding = restored.is_none() && bt.is_some();
    let (k, fid) = match restored {
        Some((wid, f)) => (wid.0, f),
        None => match bt {
            Some((wid, f)) => (wid.0, f),
            None => {
                let f = workspaces.focused_workspace.0;
                (f, workspaces.workspaces[f].focused_frame)
            },
        },
    };
    if should_reveal_bound_workspace(restored.is_some(), from_binding, workspaces.workspaces[k].active_output.is_some()) {
        let name = workspaces.workspaces[k].name.as_str().to_string();
        workspaces.switch_workspace(name.as_str());
    }
    let ghost m1 = *workspaces;
    proof {
        assert(same_but_active(m1.workspaces@[k as int], m0.workspaces@[k as int]));
    }
    let r = WindowRef { window_id: window.id, app_id: window.app_id.clone(), title: window.title.clone() };
    let found = add_to_frame(workspaces, k, fid, r, restored.is_some());
    if found {
        window.frame_id = Some(fid);
    }
    window.new = false;
    proof {
        assert forall|i: int| 0 <= i < workspaces.workspaces@.len() implies (#[trigger] workspaces.workspaces@[i]).id.0 == i by {
            assert(same_but_layout(workspaces.workspaces@[i], m1.workspaces@[i]));
            assert(m1.workspaces@[i].id.0 == i);
        }
        assert(placed_tiled(m0, m1, *workspaces, w1, restored, bindings@));
    }
    Placement::Tiled
}

proof fn lemma_bound_target_in_range<R>(m: WorkspaceManager<R>, v: Seq<(Seq<char>, Seq<LocView>)>, app: Seq<char>)
    requires
        m.wf(),
    ensures
        binding_target_of(v, m.workspaces@, app) matches Some((wid, _f)) ==> wid.0 < m.workspaces@.len(),
{
    if let Some(e) = entry_for(v, app) {
        let locs = v[e].1;
        let ws = m.workspaces@;
        lemma_first_match(locs, open_target(ws, app));
        lemma_first_match(locs, any_target(ws));
        let pick = match first_match(locs, open_target(ws, app)) {
            Some(i) => Some(i),
            None => first_match(locs, any_target(ws)),
        };
        if let Some(i) = pick {
            let l = locs[i];
            lemma_first_match(ws, ws_named::<R>(l.0));
            assert(target_of(ws, l) is Some);
            let k = first_match(ws, ws_named::<R>(l.0))->0;
            assert(ws[k].id.0 == k);
        }
    }
}


// ── After the new windows are placed ──────────────────────────────────────

/// The frame with active tab `tab`, when it has that many windows.
pub open spec fn with_tab(f: FrameView, tab: usize) -> FrameView {
    if tab < f.windows.len() {
        FrameView { active_tab: tab, ..f }
    } else {
        f
    }
}

/// The tree with frame `fid` showing tab `tab` (when it has it).
pub open spec fn tab_applied<R>(t: Tree<R>, fid: FrameId, tab: usize) -> Tree<R> {
    match find_leaf(t, fid) {
        Some(f) => replace_leaf(t, fid, with_tab(f, tab)),
        None => t,
    }
}

/// The tree after each of the (frame, active tab) pairs was applied in turn.
pub open spec fn tabs_applied<R>(t: Tree<R>, tabs: Seq<(FrameId, usize)>) -> Tree<R>
    decreases tabs.len(),
{
    if tabs.len() == 0 {
        t
    } else {
        tab_applied(tabs_applied(t, tabs.drop_last()), tabs.last().0, tabs.last().1)
    }
}

fn apply_tab_in<R: Copy>(m: &mut WorkspaceManager<R>, i: usize, fid: FrameId, tab: usize)
    requires
        i < old(m).workspaces@.len(),
    ensures
        relayout(*old(m), *final(m), roots_of(*old(m)).update(i as int, tab_applied(old(m).workspaces@[i as int].root@, fid, tab)), focus_of(*old(m))),
        final(m).focused_workspace == old(m).focused_workspace,
{
    let ghost m0 = *m;
    let w = &mut m.workspaces[i];
    match w.root.find_frame_mut(fid) {
        Some(f) => {
            if tab < f.windows.len() {
                f.set_active_tab(tab);
            }
        },
        None => {},
    }
    proof {
        assert(roots_of(*m) =~= roots_of(m0).update(i as int, tab_applied(m0.workspaces@[i as int].root@, fid, tab)));
        assert(focus_of(*m) =~= focus_of(m0));
    }
}

/// Give the frames restored from the saved state their saved active tabs,
/// now that their windows are back: each (frame, tab) pair in turn, in
/// every workspace, where the frame has that many windows.
pub fn apply_saved_active_tabs<R: Copy>(workspaces: &mut WorkspaceManager<R>, tabs: &Vec<(FrameId, usize)>)
    ensures
        relayout(*old(workspaces), *final(workspaces), roots_of(*old(workspaces)).map_values(|t: Tree<R>| tabs_applied(t, tabs@)), focus_of(*old(workspaces))),
        final(workspaces).focused_workspace == old(workspaces).focused_workspace,
{
    let ghost m0 = *workspaces;
    let n = workspaces.workspaces.len();
    proof {
        assert(roots_of(m0).map_values(|t: Tree<R>| tabs_applied(t, tabs@.take(0))) =~= roots_of(m0));
    }
    let mut j: usize = 0;
    while j < tabs.len()
        invariant
            j <= tabs@.len(),
            n == m0.workspaces@.len(),
            relayout(m0, *workspaces, roots_of(m0).map_values(|t: Tree<R>| tabs_applied(t, tabs@.take(j as int))), focus_of(m0)),
            workspaces.focused_workspace == m0.focused_workspace,
        decreases tabs@.len() - j,
    {
        let (fid, tab) = tabs[j];
        let ghost before = tabs@.take(j as int);
        let ghost after = tabs@.take(j + 1);
        proof {
            assert(after.drop_last() =~= before);
            assert(after.last() == (fid, tab));
            assert(Seq::new(n as nat, |x: int| if x < 0 { tabs_applied(roots_of(m0)[x], after) } else { tabs_applied(roots_of(m0)[x], before) })
                =~= roots_of(m0).map_values(|t: Tree<R>| tabs_applied(t, before)));
        }
        let mut k: usize = 0;
        while k < n
            invariant
                k <= n,
                n == m0.workspaces@.len(),
                after.drop_last() == before,
                after.last() == (fid, tab),
                after.len() > 0,
                relayout(
                    m0,
                    *workspaces,
                    Seq::new(n as nat, |x: int| if x < k { tabs_applied(roots_of(m0)[x], after) } else { tabs_applied(roots_of(m0)[x], before) }),
                    focus_of(m0),
                ),
                workspaces.focused_workspace == m0.focused_workspace,
            decreases n - k,
        {
            let ghost mk = *workspaces;
            apply_tab_in(workspaces, k, fid, tab);
            proof {
                let target = Seq::new(n as nat, |x: int| if x < k + 1 { tabs_applied(roots_of(m0)[x], after) } else { tabs_applied(roots_of(m0)[x], before) });
                assert(roots_of(mk)[k as int] == mk.workspaces@[k as int].root@);
                assert(roots_of(mk)[k as int] == tabs_applied(roots_of(m0)[k as int], before));
                assert(tab_applied(tabs_applied(roots_of(m0)[k as int], before), fid, tab) == tabs_applied(roots_of(m0)[k as int], after));
                assert(roots_of(*workspaces) =~= target);
                assert forall|x: int| 0 <= x < n implies same_but_layout(#[trigger] workspaces.workspaces@[x], m0.workspaces@[x]) by {
                    assert(same_but_layout(workspaces.workspaces@[x], mk.workspaces@[x]));
                    assert(same_but_layout(mk.workspaces@[x], m0.workspaces@[x]));
                }
            }
            k += 1;
        }
        proof {
            assert(roots_of(*workspaces) =~= roots_of(m0).map_values(|t: Tree<R>| tabs_applied(t, after)));
        }
        j += 1;
    }
    proof {
        assert(tabs@.take(j as int) =~= tabs@);
    }
}

/// The bookkeeping of a restore after a manage cycle: the count of cycles
/// without new windows (reset by a new window), and whether the saved state
/// is done with (no saved slot can match any more, or more than two cycles
/// passed without new windows).
pub fn restore_progress(had_new_windows: bool, cycles_without_new: u32, remaining_matches: bool) -> (r: (u32, bool))
    requires
        had_new_windows || cycles_without_new < u32::MAX,
    ensures
        r.0 == (if had_new_windows { 0 } else { cycles_without_new + 1 }),
        r.1 == (!remaining_matches || r.0 > 2),
{
    let cycles = if had_new_windows { 0 } else { cycles_without_new + 1 };
    (cycles, !remaining_matches || cycles > 2)
}

} // verus!
