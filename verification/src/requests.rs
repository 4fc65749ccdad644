//! Carrying out what control clients ask: focusing a window, switching
//! workspace, and changing app bindings.

use vstd::prelude::*;
use crate::app_bindings::{after_toggle, frame_id_is, kept_dims, after_set_dims, app_is, exact_locs, loc_view, locs_view, with_entry, without_entry, AppBindings, LocView};
use crate::bound_windows::{current_place, current_place_of};
use crate::control::ControlRequest;
use crate::layout::{leaf_ids, find_leaf, frame_with_window, has_window_id, replace_leaf, FrameId, FrameView, Tree};
use crate::pointer_ops::{frame_owner, has_frame, holds_window};
use crate::seqs::{first_match, lemma_first_match, lemma_first_match_none, lemma_first_match_unique};
use crate::state::same_but_layout;
use crate::window_actions::{focused_window, focus_of, lemma_roots_index, relayout, roots_of, window_is};
use crate::wm::{ManagedWindow, SeatOp};
use crate::actions::Action;
use crate::text::str_eq;
use crate::workspace::{same_but_active, switched, Workspace, WorkspaceManager};

verus! {

/// The frame with window `id` as its active tab (unchanged without it).
pub open spec fn tab_shown(f: FrameView, id: u64) -> FrameView {
    match first_match(f.windows, has_window_id(id)) {
        Some(p) => FrameView { active_tab: p as usize, ..f },
        None => f,
    }
}

/// The tree with window `id` shown in frame `fid`.
pub open spec fn shown_in_tree<R>(t: Tree<R>, fid: FrameId, id: u64) -> Tree<R> {
    match find_leaf(t, fid) {
        Some(f) => replace_leaf(t, fid, tab_shown(f, id)),
        None => t,
    }
}

/// With window `id` in frame `fid` of workspace `k` (the first to hold it):
/// `m1` shows that workspace (switching to it when hidden), and `m` is `m1`
/// with frame `fid` focused, window `id` its active tab, and the workspace
/// focused.
pub open spec fn brought_forward<R>(m0: WorkspaceManager<R>, m1: WorkspaceManager<R>, m: WorkspaceManager<R>, id: u64) -> bool {
    let (k, fid) = current_place(m0.workspaces@, id).unwrap();
    let w = m0.workspaces@[k];
    &&& (if w.active_output is Some { m1 == m0 } else { switched(m0, m1, w.name@) })
    &&& relayout(m1, m, roots_of(m1).update(k, shown_in_tree(w.root@, fid, id)), focus_of(m1).update(k, fid))
    &&& m.focused_workspace == w.id
}

/// `m` is `m0` with window `id` brought forward: its workspace shown (by
/// switching to it when hidden), its frame focused with the window as the
/// active tab, and its workspace focused. Unchanged when no frame holds it.
pub open spec fn focused_on_window<R>(m0: WorkspaceManager<R>, m: WorkspaceManager<R>, id: u64) -> bool {
    if current_place(m0.workspaces@, id) is None {
        m == m0
    } else {
        exists|m1: WorkspaceManager<R>| #[trigger] brought_forward(m0, m1, m, id)
    }
}

fn show_window_in<R: Copy>(m: &mut WorkspaceManager<R>, i: usize, fid: FrameId, id: u64)
    requires
        i < old(m).workspaces@.len(),
    ensures
        relayout(
            *old(m),
            *final(m),
            roots_of(*old(m)).update(i as int, shown_in_tree(old(m).workspaces@[i as int].root@, fid, id)),
            focus_of(*old(m)).update(i as int, fid),
        ),
        final(m).focused_workspace == old(m).focused_workspace,
{
    let ghost m0 = *m;
    let w = &mut m.workspaces[i];
    match w.root.find_frame_mut(fid) {
        Some(f) => {
            proof {
                lemma_first_match(f.windows@, has_window_id(id));
            }
            match f.position_of(id) {
                Some(p) => f.set_active_tab(p),
                None => {},
            }
        },
        None => {},
    }
    w.focused_frame = fid;
    proof {
        assert(roots_of(*m) =~= roots_of(m0).update(i as int, shown_in_tree(m0.workspaces@[i as int].root@, fid, id)));
        assert(focus_of(*m) =~= focus_of(m0).update(i as int, fid));
    }
}

/// Bring window `id` forward: show its workspace, focus its frame with the
/// window as the active tab, and focus the workspace.
pub fn focus_window_by_id<R: Copy>(workspaces: &mut WorkspaceManager<R>, id: u64)
    requires
        old(workspaces).wf(),
    ensures
        final(workspaces).wf(),
        focused_on_window(*old(workspaces), *final(workspaces), id),
{
    let ghost m0 = *workspaces;
    let (k, fid) = match current_place_of(workspaces, id) {
        Some(p) => p,
        None => return,
    };
    if workspaces.workspaces[k].active_output.is_none() {
        let name = workspaces.workspaces[k].name.as_str().to_string();
        workspaces.switch_workspace(name.as_str());
    }
    let ghost m1 = *workspaces;
    proof {
        if m0.workspaces@[k as int].active_output is Some {
            assert(m1 == m0);
        } else {
            assert(switched(m0, m1, m0.workspaces@[k as int].name@));
        }
        assert(same_but_active(m1.workspaces@[k as int], m0.workspaces@[k as int]));
        assert(m1.workspaces@[k as int].root@ == m0.workspaces@[k as int].root@);
    }
    show_window_in(workspaces, k, fid, id);
    workspaces.focused_workspace = workspaces.workspaces[k].id;
    proof {
        assert(workspaces.workspaces@[k as int].id == m0.workspaces@[k as int].id);
        assert(m0.workspaces@[k as int].id.0 == k);
        assert forall|i: int| 0 <= i < workspaces.workspaces@.len() implies (#[trigger] workspaces.workspaces@[i]).id.0 == i by {
            assert(same_but_layout(workspaces.workspaces@[i], m1.workspaces@[i]));
            assert(m1.workspaces@[i].id.0 == i);
        }
        let w = m0.workspaces@[k as int];
        assert(current_place(m0.workspaces@, id) == Some((k as int, fid)));
        assert(relayout(m1, *workspaces, roots_of(m1).update(k as int, shown_in_tree(w.root@, fid, id)), focus_of(m1).update(k as int, fid)));
        assert(workspaces.focused_workspace == w.id);
        assert(brought_forward(m0, m1, *workspaces, id));
    }
}

/// The bindings after the fixed dimensions of the first `n` of `locs` were
/// set to `dims` for `app`.
pub open spec fn dims_set_all(v: Seq<(Seq<char>, Seq<LocView>)>, app: Seq<char>, locs: Seq<LocView>, dims: Option<(i32, i32)>, n: int) -> Seq<(Seq<char>, Seq<LocView>)>
    decreases n,
{
    if n <= 0 {
        v
    } else {
        after_set_dims(dims_set_all(v, app, locs, dims, n - 1), app, locs[n - 1].0, locs[n - 1].1, dims)
    }
}

/// Set the fixed dimensions of every location bound to `app_id` (exactly,
/// no patterns). Returns whether it had any, so that the bindings are
/// written back.
pub fn set_dimensions_everywhere(bindings: &mut AppBindings, app_id: &str, dims: Option<(i32, i32)>) -> (changed: bool)
    requires
        old(bindings).wf(),
    ensures
        final(bindings).wf(),
        final(bindings)@ == dims_set_all(old(bindings)@, app_id@, exact_locs(old(bindings)@, app_id@), dims, exact_locs(old(bindings)@, app_id@).len() as int),
        changed == (exact_locs(old(bindings)@, app_id@).len() > 0),
{
    let ghost v0 = bindings@;
    let mut pairs: Vec<(String, usize)> = Vec::new();
    let ghost locs = exact_locs(v0, app_id@);
    match bindings.position(app_id) {
        Some(k) => {
            proof {
                lemma_first_match(v0, app_is(app_id@));
                assert(v0[k as int] == (bindings.bindings@[k as int].0@, locs_view(bindings.bindings@[k as int].1@)));
            }
            let ls = &bindings.bindings[k].1;
            let mut i: usize = 0;
            while i < ls.len()
                invariant
                    i <= ls@.len(),
                    locs == locs_view(ls@),
                    pairs@.len() == i,
                    forall|j: int| 0 <= j < i ==> (#[trigger] pairs@[j]).0@ == locs[j].0 && pairs@[j].1 == locs[j].1,
                decreases ls@.len() - i,
            {
                proof {
                    assert(locs[i as int] == loc_view(ls@[i as int]));
                }
                pairs.push((ls[i].workspace.as_str().to_string(), ls[i].frame_index));
                i += 1;
            }
        },
        None => {},
    }
    let n = pairs.len();
    let mut j: usize = 0;
    while j < n
        invariant
            j <= n,
            n == pairs@.len(),
            n == locs.len(),
            locs == exact_locs(v0, app_id@),
            forall|x: int| 0 <= x < n ==> (#[trigger] pairs@[x]).0@ == locs[x].0 && pairs@[x].1 == locs[x].1,
            bindings.wf(),
            bindings@ == dims_set_all(v0, app_id@, locs, dims, j as int),
        decreases n - j,
    {
        let (ws, fi) = &pairs[j];
        proof {
            assert(pairs@[j as int].0@ == locs[j as int].0);
        }
        bindings.set_fixed_dimensions(app_id, ws.as_str(), *fi, dims);
        j += 1;
    }
    n > 0
}

/// Carry out a control request that needs no compositor round trip: focus
/// a window, switch workspace, or change the app bindings. Returns whether
/// the bindings changed and should be written back (fixing dimensions
/// writes them back when the app has bound locations).
pub fn handle_control_request<R: Copy>(workspaces: &mut WorkspaceManager<R>, bindings: &mut AppBindings, req: ControlRequest) -> (save: bool)
    requires
        old(workspaces).wf(),
        old(bindings).wf(),
    ensures
        final(workspaces).wf(),
        final(bindings).wf(),
        match req {
            ControlRequest::FocusWindow(id) => {
                &&& focused_on_window(*old(workspaces), *final(workspaces), id)
                &&& *final(bindings) == *old(bindings)
                &&& !save
            },
            ControlRequest::SwitchWorkspace(name) => {
                &&& switched(*old(workspaces), *final(workspaces), name@)
                &&& *final(bindings) == *old(bindings)
                &&& !save
            },
            ControlRequest::Bind { app_id, workspace, frame_index, dimensions } => {
                &&& *final(workspaces) == *old(workspaces)
                &&& final(bindings)@ == with_entry(old(bindings)@, app_id@, seq![(workspace@, frame_index, dimensions)])
                &&& save
            },
            ControlRequest::Unbind(app_id) => {
                &&& *final(workspaces) == *old(workspaces)
                &&& final(bindings)@ == without_entry(old(bindings)@, app_id@)
                &&& save
            },
            ControlRequest::SetFixedDimensions(app_id, dims) => {
                let locs = exact_locs(old(bindings)@, app_id@);
                &&& *final(workspaces) == *old(workspaces)
                &&& final(bindings)@ == dims_set_all(old(bindings)@, app_id@, locs, dims, locs.len() as int)
                &&& save == (locs.len() > 0)
            },
        },
{
    match req {
        ControlRequest::FocusWindow(id) => {
            focus_window_by_id(workspaces, id);
            false
        },
        ControlRequest::SwitchWorkspace(name) => {
            workspaces.switch_workspace(name.as_str());
            false
        },
        ControlRequest::Bind { app_id, workspace, frame_index, dimensions } => {
            bindings.bind(app_id.as_str(), workspace.as_str(), frame_index, dimensions);
            true
        },
        ControlRequest::Unbind(app_id) => {
            bindings.unbind(app_id.as_str());
            true
        },
        ControlRequest::SetFixedDimensions(app_id, dims) => {
            set_dimensions_everywhere(bindings, app_id.as_str(), dims)
        },
    }
}


// ── Clicking a window ─────────────────────────────────────────────────────

/// The first managed window with identifier `wid` floats.
pub open spec fn is_floating_window(wins: Seq<ManagedWindow>, wid: u64) -> bool {
    first_match(wins, window_is(wid)) matches Some(k) && wins[k].floating
}

/// A tiled window of `app` (other than `wid`) recorded in a frame that some
/// workspace has.
pub open spec fn parent_candidate<R>(ws: Seq<Workspace<R>>, wid: u64, app: Seq<char>) -> spec_fn(ManagedWindow) -> bool {
    |w: ManagedWindow| w.id != wid && w.app_id@ == app && !w.floating
        && (w.frame_id matches Some(f) && first_match(ws, has_frame::<R>(f)) is Some)
}

/// The workspace (by position) of the first tiled window of the same app as
/// the floating window `wid`.
pub open spec fn parent_workspace<R>(ws: Seq<Workspace<R>>, wins: Seq<ManagedWindow>, wid: u64) -> Option<int> {
    match first_match(wins, window_is(wid)) {
        Some(k) => match first_match(wins, parent_candidate(ws, wid, wins[k].app_id@)) {
            Some(j) => first_match(ws, has_frame::<R>(wins[j].frame_id.unwrap())),
            None => None,
        },
        None => None,
    }
}

/// What clicking window `wid` does. A floating window takes the floating
/// focus, and the workspace of its app's first tiled window is shown when
/// hidden. A tiled window clears the floating focus and, unless a window is
/// being moved, becomes the active tab of its frame, which takes focus with
/// its workspace.
pub open spec fn clicked<R>(
    m0: WorkspaceManager<R>,
    m: WorkspaceManager<R>,
    wins: Seq<ManagedWindow>,
    wid: u64,
    moving: bool,
    floating_focus: Option<u64>,
) -> bool {
    let ws = m0.workspaces@;
    if is_floating_window(wins, wid) {
        &&& floating_focus == Some(wid)
        &&& match parent_workspace(ws, wins, wid) {
            Some(k) => if ws[k].active_output is None { switched(m0, m, ws[k].name@) } else { m == m0 },
            None => m == m0,
        }
    } else {
        &&& floating_focus is None
        &&& match current_place(ws, wid) {
            Some((k, fid)) => if moving {
                m == m0
            } else {
                &&& relayout(m0, m, roots_of(m0).update(k, shown_in_tree(ws[k].root@, fid, wid)), focus_of(m0).update(k, fid))
                &&& m.focused_workspace == ws[k].id
            },
            None => m == m0,
        }
    }
}

pub(crate) fn window_index(windows: &Vec<ManagedWindow>, wid: u64) -> (r: Option<usize>)
    ensures
        match r {
            Some(k) => first_match(windows@, window_is(wid)) == Some(k as int) && k < windows@.len(),
            None => first_match(windows@, window_is(wid)) is None,
        },
{
    let ghost p = window_is(wid);
    let mut k: usize = 0;
    while k < windows.len()
        invariant
            k <= windows@.len(),
            p == window_is(wid),
            forall|j: int| 0 <= j < k ==> !p(#[trigger] windows@[j]),
        decreases windows@.len() - k,
    {
        if windows[k].id == wid {
            proof {
                lemma_first_match_unique(windows@, p, k as int);
            }
            return Some(k);
        }
        k += 1;
    }
    proof {
        lemma_first_match_none(windows@, p);
    }
    None
}

fn parent_workspace_of<R: Copy>(m: &WorkspaceManager<R>, windows: &Vec<ManagedWindow>, k: usize, wid: u64) -> (r: Option<usize>)
    requires
        k < windows@.len(),
        first_match(windows@, window_is(wid)) == Some(k as int),
    ensures
        match r {
            Some(x) => parent_workspace(m.workspaces@, windows@, wid) == Some(x as int) && x < m.workspaces@.len(),
            None => parent_workspace(m.workspaces@, windows@, wid) is None,
        },
{
    let app = windows[k].app_id.as_str();
    let ghost q = parent_candidate(m.workspaces@, wid, app@);
    let mut j: usize = 0;
    while j < windows.len()
        invariant
            j <= windows@.len(),
            k < windows@.len(),
            first_match(windows@, window_is(wid)) == Some(k as int),
            app@ == windows@[k as int].app_id@,
            q == parent_candidate(m.workspaces@, wid, app@),
            forall|i: int| 0 <= i < j ==> !q(#[trigger] windows@[i]),
        decreases windows@.len() - j,
    {
        let w = &windows[j];
        if w.id != wid && str_eq(w.app_id.as_str(), app) && !w.floating {
            if let Some(f) = w.frame_id {
                if let Some(x) = frame_owner(m, f) {
                    proof {
                        assert(q(windows@[j as int]));
                        lemma_first_match_unique(windows@, q, j as int);
                        assert(windows@[j as int].frame_id.unwrap() == f);
                        assert(parent_candidate(m.workspaces@, wid, windows@[k as int].app_id@) == q);
                        assert(first_match(windows@, q) == Some(j as int));
                        assert(first_match(m.workspaces@, has_frame::<R>(f)) == Some(x as int));
                        assert(parent_workspace(m.workspaces@, windows@, wid) == Some(x as int));
                    }
                    return Some(x);
                }
            }
        }
        j += 1;
    }
    proof {
        lemma_first_match_none(windows@, q);
    }
    None
}

/// Handle a click on window `wid` (see `clicked`); `moving` tells whether a
/// window is being moved, and `floating_focus` is the floating window that
/// has focus.
pub fn click_window<R: Copy>(
    workspaces: &mut WorkspaceManager<R>,
    windows: &Vec<ManagedWindow>,
    floating_focus: &mut Option<u64>,
    wid: u64,
    moving: bool,
)
    requires
        old(workspaces).wf(),
    ensures
        final(workspaces).wf(),
        clicked(*old(workspaces), *final(workspaces), windows@, wid, moving, *final(floating_focus)),
{
    let ghost m0 = *workspaces;
    let idx = window_index(windows, wid);
    let floating = match idx {
        Some(k) => windows[k].floating,
        None => false,
    };
    if floating {
        *floating_focus = Some(wid);
        let k = idx.unwrap();
        if let Some(x) = parent_workspace_of(workspaces, windows, k, wid) {
            if workspaces.workspaces[x].active_output.is_none() {
                let name = workspaces.workspaces[x].name.as_str().to_string();
                workspaces.switch_workspace(name.as_str());
            }
        }
    } else {
        *floating_focus = None;
        if !moving {
            if let Some((k, fid)) = current_place_of(workspaces, wid) {
                show_window_in(workspaces, k, fid, wid);
                workspaces.focused_workspace = workspaces.workspaces[k].id;
                proof {
                    assert(m0.workspaces@[k as int].id.0 == k);
                    assert forall|i: int| 0 <= i < workspaces.workspaces@.len() implies (#[trigger] workspaces.workspaces@[i]).id.0 == i by {
                        assert(same_but_layout(workspaces.workspaces@[i], m0.workspaces@[i]));
                    }
                }
            }
        }
    }
}


// ── App binding from the focused window ───────────────────────────────────

/// The app of the focused window, the focused workspace's name and the
/// focused frame's position in it, when there is a focused window.
pub open spec fn binding_place<R>(m: WorkspaceManager<R>) -> Option<(Seq<char>, Seq<char>, usize)> {
    let k = m.focused_workspace.0 as int;
    if k < m.workspaces@.len() {
        let w = m.workspaces@[k];
        match (focused_window(m), first_match(leaf_ids(w.root@), frame_id_is(w.focused_frame))) {
            (Some(win), Some(p)) => Some((win.app_id@, w.name@, p as usize)),
            _ => None,
        }
    } else {
        None
    }
}

/// The bindings after the focused window's app is bound to the focused
/// frame: exclusively (keeping fixed dimensions set there) or by toggling
/// that location; unchanged without a focused window.
pub open spec fn focus_bound<R>(m: WorkspaceManager<R>, v: Seq<(Seq<char>, Seq<LocView>)>, exclusive: bool) -> Seq<(Seq<char>, Seq<LocView>)> {
    match binding_place(m) {
        Some((app, ws, p)) => if exclusive {
            with_entry(v, app, seq![(ws, p, kept_dims(v, app, ws, p))])
        } else {
            after_toggle(v, app, (ws, p, None))
        },
        None => v,
    }
}

/// Bind the focused window's app to the focused frame (see `focus_bound`).
/// Returns whether there was a focused window, so that the bindings are
/// written back.
pub fn bind_focused_app<R: Copy>(workspaces: &WorkspaceManager<R>, bindings: &mut AppBindings, exclusive: bool) -> (done: bool)
    requires
        workspaces.wf(),
        old(bindings).wf(),
    ensures
        final(bindings).wf(),
        final(bindings)@ == focus_bound(*workspaces, old(bindings)@, exclusive),
        done == (binding_place(*workspaces) is Some),
{
    let k = workspaces.focused_workspace.0;
    if k >= workspaces.workspaces.len() {
        return false;
    }
    let w = &workspaces.workspaces[k];
    let fid = w.focused_frame;
    let app = match w.root.find_frame(fid) {
        Some(f) => match f.active_window() {
            Some(r) => r.app_id.as_str().to_string(),
            None => return false,
        },
        None => return false,
    };
    let p = match AppBindings::frame_index(workspaces, w.id, fid) {
        Some(p) => p,
        None => return false,
    };
    if exclusive {
        bindings.bind_exclusive(app.as_str(), w.name.as_str(), p);
    } else {
        bindings.toggle_binding(app.as_str(), w.name.as_str(), p);
    }
    true
}


// ── What the pending actions of the seats lead to ─────────────────────────

/// The windows clicked, in seat order; none while interaction is
/// suppressed (a tab click was just handled).
pub open spec fn clicks_of(interactions: Seq<Option<u64>>, suppress: bool) -> Seq<u64>
    decreases interactions.len(),
{
    if suppress || interactions.len() == 0 {
        Seq::empty()
    } else {
        clicks_of(interactions.drop_last(), suppress) + match interactions.last() {
            Some(w) => seq![w],
            None => Seq::empty(),
        }
    }
}

/// Some seat has a key action to perform.
pub open spec fn has_key_action(actions: Seq<Action>) -> bool {
    exists|i: int| 0 <= i < actions.len() && !(#[trigger] actions[i] is Noop)
}

/// Focus follows the mouse this cycle: it is configured and no key action
/// is pending.
pub fn follows_mouse(actions: &Vec<Action>, focus_follows_mouse: bool) -> (b: bool)
    ensures
        b == (focus_follows_mouse && !has_key_action(actions@)),
{
    let mut i: usize = 0;
    while i < actions.len()
        invariant
            i <= actions@.len(),
            forall|j: int| 0 <= j < i ==> (#[trigger] actions@[j]) is Noop,
        decreases actions@.len() - i,
    {
        if !matches!(actions[i], Action::Noop) {
            assert(!(actions@[i as int] is Noop));
            return false;
        }
        i += 1;
    }
    focus_follows_mouse
}

/// The windows clicked since the last cycle, to be handled in order (see
/// `click_window`): none while interaction is suppressed.
pub fn clicked_windows(interactions: &Vec<Option<u64>>, suppress: bool) -> (r: Vec<u64>)
    ensures
        r@ == clicks_of(interactions@, suppress),
{
    let mut r: Vec<u64> = Vec::new();
    if suppress {
        return r;
    }
    let mut i: usize = 0;
    while i < interactions.len()
        invariant
            i <= interactions@.len(),
            !suppress,
            r@ == clicks_of(interactions@.take(i as int), suppress),
        decreases interactions@.len() - i,
    {
        proof {
            assert(interactions@.take(i + 1).drop_last() =~= interactions@.take(i as int));
            assert(interactions@.take(i + 1).last() == interactions@[i as int]);
        }
        if let Some(w) = interactions[i] {
            r.push(w);
        }
        proof {
            assert(r@ =~= clicks_of(interactions@.take(i + 1), suppress));
        }
        i += 1;
    }
    proof {
        assert(interactions@.take(i as int) =~= interactions@);
    }
    r
}

/// The first hovered window (in seat order) that floats.
pub open spec fn hovered_floating_of(hovered: Seq<Option<u64>>, wins: Seq<ManagedWindow>) -> Option<u64>
    decreases hovered.len(),
{
    if hovered.len() == 0 {
        None
    } else {
        let rest = hovered_floating_of(hovered.drop_last(), wins);
        if rest is Some {
            rest
        } else {
            match hovered.last() {
                Some(w) => if is_floating_window(wins, w) { Some(w) } else { None },
                None => None,
            }
        }
    }
}

/// The floating window under some seat's pointer (the first seat's), which
/// then takes the floating focus; when there is none, the pointer is over
/// the tiled area and focus follows it there.
pub fn hovered_floating(hovered: &Vec<Option<u64>>, windows: &Vec<ManagedWindow>) -> (r: Option<u64>)
    ensures
        r == hovered_floating_of(hovered@, windows@),
{
    let mut r: Option<u64> = None;
    let mut i: usize = 0;
    while i < hovered.len()
        invariant
            i <= hovered@.len(),
            r == hovered_floating_of(hovered@.take(i as int), windows@),
        decreases hovered@.len() - i,
    {
        proof {
            assert(hovered@.take(i + 1).drop_last() =~= hovered@.take(i as int));
            assert(hovered@.take(i + 1).last() == hovered@[i as int]);
        }
        if r.is_none() {
            if let Some(w) = hovered[i] {
                match window_index(windows, w) {
                    Some(k) => {
                        if windows[k].floating {
                            r = Some(w);
                        }
                    },
                    None => {},
                }
            }
        }
        i += 1;
    }
    proof {
        assert(hovered@.take(i as int) =~= hovered@);
    }
    r
}

/// The released moves of tiled windows, with the pointer position of the
/// release, in seat order: they are dropped onto frames.
pub open spec fn tiled_drops_of(releases: Seq<(SeatOp, i32, i32)>, wins: Seq<ManagedWindow>) -> Seq<(u64, i32, i32)>
    decreases releases.len(),
{
    if releases.len() == 0 {
        Seq::empty()
    } else {
        let (op, x, y) = releases.last();
        tiled_drops_of(releases.drop_last(), wins) + match op {
            SeatOp::Move { window_id, .. } => if is_floating_window(wins, window_id) { Seq::empty() } else { seq![(window_id, x, y)] },
            _ => Seq::empty(),
        }
    }
}

/// Of the operations released this cycle (each with the pointer position),
/// the moves of tiled windows to drop onto frames.
pub fn tiled_drops(releases: &Vec<(SeatOp, i32, i32)>, windows: &Vec<ManagedWindow>) -> (r: Vec<(u64, i32, i32)>)
    ensures
        r@ == tiled_drops_of(releases@, windows@),
{
    let mut r: Vec<(u64, i32, i32)> = Vec::new();
    let mut i: usize = 0;
    while i < releases.len()
        invariant
            i <= releases@.len(),
            r@ == tiled_drops_of(releases@.take(i as int), windows@),
        decreases releases@.len() - i,
    {
        proof {
            assert(releases@.take(i + 1).drop_last() =~= releases@.take(i as int));
            assert(releases@.take(i + 1).last() == releases@[i as int]);
        }
        let x = releases[i].1;
        let y = releases[i].2;
        match &releases[i].0 {
            SeatOp::Move { window_id, .. } => {
                let floating = match window_index(windows, *window_id) {
                    Some(k) => windows[k].floating,
                    None => false,
                };
                if !floating {
                    r.push((*window_id, x, y));
                }
            },
            _ => {},
        }
        proof {
            assert(r@ =~= tiled_drops_of(releases@.take(i + 1), windows@));
        }
        i += 1;
    }
    proof {
        assert(releases@.take(i as int) =~= releases@);
    }
    r
}

// ── One cycle of pending input ─────────────────────────────────────────────

/// A step of handling the input gathered since the last cycle.
#[derive(Debug, Clone, Copy, PartialEq, Eq, Structural)]
pub enum CycleStep {
    /// A click on the window (see `click_window`).
    Click(u64),
    /// The hovered floating window takes the floating focus.
    FocusFloating(u64),
    /// The floating focus is cleared and focus follows the pointers over
    /// the tiled area (see `apply_focus_follows_mouse`).
    FollowMouse,
    /// The pending action at this position.
    Perform(usize),
    /// The released moves of tiled windows are dropped onto frames (see
    /// `tiled_drops` and `handle_move_drop`), over the windows as the
    /// actions left them.
    DropReleased,
}

pub open spec fn click_steps(clicks: Seq<u64>) -> Seq<CycleStep> {
    clicks.map_values(|w: u64| CycleStep::Click(w))
}

pub open spec fn perform_steps(n: nat) -> Seq<CycleStep> {
    Seq::new(n, |i: int| CycleStep::Perform(i as usize))
}

/// The steps of one cycle, in order: the clicks (none right after a tab
/// click); then, when focus follows the mouse and no key action is
/// pending, the hovered floating window takes the floating focus, or focus
/// follows the pointers; then each pending action; then the drops.
pub open spec fn cycle_steps(
    actions: Seq<Action>,
    interactions: Seq<Option<u64>>,
    suppress: bool,
    focus_follows_mouse: bool,
    hovered: Seq<Option<u64>>,
    wins: Seq<ManagedWindow>,
) -> Seq<CycleStep> {
    click_steps(clicks_of(interactions, suppress)) + (if focus_follows_mouse && !has_key_action(actions) {
        match hovered_floating_of(hovered, wins) {
            Some(w) => seq![CycleStep::FocusFloating(w)],
            None => seq![CycleStep::FollowMouse],
        }
    } else {
        Seq::empty()
    }) + perform_steps(actions.len()) + seq![CycleStep::DropReleased]
}

/// The order in which one cycle handles the input gathered since the last
/// one (see `cycle_steps`): `interactions` holds each seat's clicked
/// window, `hovered` each seat's hovered window, and `suppress` whether a
/// tab click was just handled.
pub fn cycle_plan(
    actions: &Vec<Action>,
    interactions: &Vec<Option<u64>>,
    suppress: bool,
    focus_follows_mouse: bool,
    hovered: &Vec<Option<u64>>,
    windows: &Vec<ManagedWindow>,
) -> (steps: Vec<CycleStep>)
    ensures
        steps@ == cycle_steps(actions@, interactions@, suppress, focus_follows_mouse, hovered@, windows@),
{
    let clicks = clicked_windows(interactions, suppress);
    let mut steps: Vec<CycleStep> = Vec::new();
    let mut i: usize = 0;
    while i < clicks.len()
        invariant
            i <= clicks@.len(),
            steps@ == click_steps(clicks@.take(i as int)),
        decreases clicks@.len() - i,
    {
        steps.push(CycleStep::Click(clicks[i]));
        proof {
            assert(steps@ =~= click_steps(clicks@.take(i + 1)));
        }
        i += 1;
    }
    proof {
        assert(clicks@.take(i as int) =~= clicks@);
    }
    let ghost front = steps@;
    if follows_mouse(actions, focus_follows_mouse) {
        match hovered_floating(hovered, windows) {
            Some(w) => steps.push(CycleStep::FocusFloating(w)),
            None => steps.push(CycleStep::FollowMouse),
        }
    }
    let ghost mid = steps@;
    proof {
        assert(mid =~= front + (if focus_follows_mouse && !has_key_action(actions@) {
            match hovered_floating_of(hovered@, windows@) {
                Some(w) => seq![CycleStep::FocusFloating(w)],
                None => seq![CycleStep::FollowMouse],
            }
        } else {
            Seq::empty()
        }));
    }
    let mut j: usize = 0;
    while j < actions.len()
        invariant
            j <= actions@.len(),
            steps@ == mid + perform_steps(j as nat),
        decreases actions@.len() - j,
    {
        steps.push(CycleStep::Perform(j));
        proof {
            assert(steps@ =~= mid + perform_steps((j + 1) as nat));
        }
        j += 1;
    }
    steps.push(CycleStep::DropReleased);
    proof {
        assert(steps@ =~= cycle_steps(actions@, interactions@, suppress, focus_follows_mouse, hovered@, windows@));
    }
    steps
}

} // verus!
