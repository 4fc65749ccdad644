//! Focus follows the mouse: which frame to focus for the pointer's state.

use vstd::prelude::*;
use crate::layout::{frame_with_window, FrameId, Rect};
use crate::matching::first_ready;
use crate::seqs::{first_match, is_first, lemma_first_match, lemma_first_match_agree, lemma_first_match_none, lemma_first_match_unique};
use crate::state::same_but_layout;
use crate::window_actions::{focus_of, relayout, roots_of, set_focus};
use crate::workspace::{id_is, ids_are_positions, Output, OutputId, Workspace, WorkspaceId, WorkspaceManager};

verus! {

/// The pointer's state.
pub struct FocusInput {
    /// The window the pointer hovers, if any.
    pub hovered_window_id: Option<u64>,
    /// Absolute pointer position; (0, 0) until a position is known.
    pub pointer_x: i32,
    pub pointer_y: i32,
}

/// The frame to focus.
#[derive(Debug, PartialEq, Eq, Structural)]
pub struct FocusResult {
    pub workspace: WorkspaceId,
    pub frame: FrameId,
}

/// The workspace is shown and one of its frames holds window `wid`.
pub open spec fn hover_hit<R>(wid: u64) -> spec_fn(Workspace<R>) -> bool {
    |w: Workspace<R>| w.active_output is Some && frame_with_window(w.root@, wid) is Some
}

/// The point lies inside the rectangle, at least `margin` from its edges.
pub open spec fn inside_margin(px: int, py: int, r: Rect, margin: int) -> bool {
    &&& px >= r.x + margin
    &&& px < r.x + r.width - margin
    &&& py >= r.y + margin
    &&& py < r.y + r.height - margin
}

pub open spec fn entry_holds(px: int, py: int, margin: int) -> spec_fn((FrameId, Rect)) -> bool {
    |e: (FrameId, Rect)| inside_margin(px, py, e.1, margin)
}

/// The workspace is shown on an output that exists.
pub open spec fn shown_on_output<R>(w: Workspace<R>, outs: Seq<Output>) -> bool {
    w.active_output matches Some(o) && first_match(outs, id_is(o)) is Some
}

/// Workspace `k` is shown and some frame of its layout holds the point.
pub open spec fn point_hit<R>(ws: Seq<Workspace<R>>, outs: Seq<Output>, layouts: Seq<Seq<(FrameId, Rect)>>, px: int, py: int, margin: int) -> spec_fn(int) -> bool {
    |k: int| 0 <= k < ws.len() && shown_on_output(ws[k], outs) && first_match(layouts[k], entry_holds(px, py, margin)) is Some
}

pub open spec fn indices(n: nat) -> Seq<int> {
    Seq::new(n, |i: int| i)
}

/// Focus `frame` of workspace `w`, unless it is already the focused frame
/// of the focused workspace.
pub open spec fn change_to<R>(m: WorkspaceManager<R>, w: Workspace<R>, frame: FrameId) -> Option<FocusResult> {
    if w.focused_frame != frame || m.focused_workspace != w.id {
        Some(FocusResult { workspace: w.id, frame })
    } else {
        None
    }
}

/// What focus-follows-mouse decides. A hovered window in a shown workspace
/// decides first. Otherwise the pointer position (when known) picks the
/// first frame, of the first shown workspace, that holds the point at least
/// `margin` inside its edges; `layouts[k]` is the layout of workspace `k`.
pub open spec fn focus_decision<R>(input: FocusInput, m: WorkspaceManager<R>, layouts: Seq<Seq<(FrameId, Rect)>>, margin: int) -> Option<FocusResult> {
    let ws = m.workspaces@;
    let hovered = match input.hovered_window_id {
        Some(h) => match first_match(ws, hover_hit::<R>(h)) {
            Some(k) => Some(change_to(m, ws[k], frame_with_window(ws[k].root@, h).unwrap())),
            None => None,
        },
        None => None,
    };
    match hovered {
        Some(d) => d,
        None => if input.pointer_x == 0 && input.pointer_y == 0 {
            None
        } else {
            let px = input.pointer_x as int;
            let py = input.pointer_y as int;
            match first_match(indices(ws.len()), point_hit(ws, m.outputs@, layouts, px, py, margin)) {
                Some(k) => {
                    let e = first_match(layouts[k], entry_holds(px, py, margin)).unwrap();
                    change_to(m, ws[k], layouts[k][e].0)
                },
                None => None,
            }
        },
    }
}

fn inside_margin_exec(px: i32, py: i32, r: &Rect, margin: i32) -> (b: bool)
    ensures
        b == inside_margin(px as int, py as int, *r, margin as int),
{
    let (px, py, m) = (px as i64, py as i64, margin as i64);
    px >= r.x as i64 + m && px < r.x as i64 + r.width as i64 - m && py >= r.y as i64 + m
        && py < r.y as i64 + r.height as i64 - m
}

fn first_entry_inside(layout: &Vec<(FrameId, Rect)>, px: i32, py: i32, margin: i32) -> (r: Option<usize>)
    ensures
        match r {
            Some(e) => first_match(layout@, entry_holds(px as int, py as int, margin as int)) == Some(e as int) && e < layout@.len(),
            None => first_match(layout@, entry_holds(px as int, py as int, margin as int)) is None,
        },
{
    let ghost q = entry_holds(px as int, py as int, margin as int);
    let mut i: usize = 0;
    while i < layout.len()
        invariant
            i <= layout@.len(),
            q == entry_holds(px as int, py as int, margin as int),
            forall|j: int| 0 <= j < i ==> !q(#[trigger] layout@[j]),
        decreases layout@.len() - i,
    {
        if inside_margin_exec(px, py, &layout[i].1, margin) {
            proof {
                lemma_first_match_unique(layout@, q, i as int);
            }
            return Some(i);
        }
        i += 1;
    }
    proof {
        lemma_first_match_none(layout@, q);
    }
    None
}

/// Which frame to focus for the pointer's state: `None` when focus should
/// stay. `layouts[k]` is the computed layout of workspace `k` on its output.
pub fn compute_focus<R: Copy>(input: &FocusInput, workspaces: &WorkspaceManager<R>, layouts: &Vec<Vec<(FrameId, Rect)>>, margin: i32) -> (r: Option<FocusResult>)
    requires
        layouts@.len() == workspaces.workspaces@.len(),
    ensures
        r == focus_decision(*input, *workspaces, layouts@.map_values(|l: Vec<(FrameId, Rect)>| l@), margin as int),
{
    let ghost ws = workspaces.workspaces@;
    let ghost lv = layouts@.map_values(|l: Vec<(FrameId, Rect)>| l@);
    if let Some(hovered_id) = input.hovered_window_id {
        let ghost q = hover_hit::<R>(hovered_id);
        let mut i: usize = 0;
        while i < workspaces.workspaces.len()
            invariant
                i <= ws.len(),
                ws == workspaces.workspaces@,
                q == hover_hit::<R>(hovered_id),
                input.hovered_window_id == Some(hovered_id),
                forall|j: int| 0 <= j < i ==> !q(#[trigger] ws[j]),
            decreases ws.len() - i,
        {
            let w = &workspaces.workspaces[i];
            if w.active_output.is_some() {
                if let Some(frame_id) = w.root.find_frame_with_window(hovered_id) {
                    proof {
                        lemma_first_match_unique(ws, q, i as int);
                    }
                    if w.focused_frame != frame_id || workspaces.focused_workspace != w.id {
                        return Some(FocusResult { workspace: w.id, frame: frame_id });
                    }
                    return None;
                }
            }
            i += 1;
        }
        proof {
            lemma_first_match_none(ws, q);
        }
    }
    let (px, py) = (input.pointer_x, input.pointer_y);
    if px == 0 && py == 0 {
        return None;
    }
    let ghost q = point_hit(ws, workspaces.outputs@, lv, px as int, py as int, margin as int);
    let ghost idx = indices(ws.len());
    let mut i: usize = 0;
    while i < workspaces.workspaces.len()
        invariant
            i <= ws.len(),
            ws == workspaces.workspaces@,
            layouts@.len() == ws.len(),
            px == input.pointer_x && py == input.pointer_y,
            !(px == 0 && py == 0),
            match input.hovered_window_id {
                Some(h) => first_match(ws, hover_hit::<R>(h)) is None,
                None => true,
            },
            lv == layouts@.map_values(|l: Vec<(FrameId, Rect)>| l@),
            q == point_hit(ws, workspaces.outputs@, lv, px as int, py as int, margin as int),
            idx == indices(ws.len()),
            forall|j: int| 0 <= j < i ==> !q(#[trigger] idx[j]),
        decreases ws.len() - i,
    {
        let w = &workspaces.workspaces[i];
        proof {
            assert(idx[i as int] == i);
            assert(lv[i as int] == layouts@[i as int]@);
        }
        if let Some(oid) = w.active_output {
            if workspaces.output(oid).is_some() {
                if let Some(e) = first_entry_inside(&layouts[i], px, py, margin) {
                    proof {
                        assert(q(idx[i as int]));
                        lemma_first_match_unique(idx, q, i as int);
                    }
                    let frame_id = layouts[i][e].0;
                    if w.focused_frame != frame_id || workspaces.focused_workspace != w.id {
                        return Some(FocusResult { workspace: w.id, frame: frame_id });
                    }
                    return None;
                }
            }
        }
        i += 1;
    }
    proof {
        lemma_first_match_none(idx, q);
    }
    None
}

// ── Applying the decisions ────────────────────────────────────────────────

/// Focus `frame` of workspace `k`, unless it is already the focused frame
/// (`focus[k]`) of the focused workspace `fw`.
pub open spec fn change_with<R>(focus: Seq<FrameId>, fw: WorkspaceId, w: Workspace<R>, k: int, frame: FrameId) -> Option<FocusResult> {
    if focus[k] != frame || fw != w.id {
        Some(FocusResult { workspace: w.id, frame })
    } else {
        None
    }
}

/// The decision of `focus_decision`, with the focused frames and the focused
/// workspace given apart from the workspaces.
pub open spec fn decide_with<R>(
    input: FocusInput,
    m: WorkspaceManager<R>,
    focus: Seq<FrameId>,
    fw: WorkspaceId,
    layouts: Seq<Seq<(FrameId, Rect)>>,
    margin: int,
) -> Option<FocusResult> {
    let ws = m.workspaces@;
    let hovered = match input.hovered_window_id {
        Some(h) => match first_match(ws, hover_hit::<R>(h)) {
            Some(k) => Some(change_with(focus, fw, ws[k], k, frame_with_window(ws[k].root@, h).unwrap())),
            None => None,
        },
        None => None,
    };
    match hovered {
        Some(d) => d,
        None => if input.pointer_x == 0 && input.pointer_y == 0 {
            None
        } else {
            let px = input.pointer_x as int;
            let py = input.pointer_y as int;
            match first_match(indices(ws.len()), point_hit(ws, m.outputs@, layouts, px, py, margin)) {
                Some(k) => {
                    let e = first_match(layouts[k], entry_holds(px, py, margin)).unwrap();
                    change_with(focus, fw, ws[k], k, layouts[k][e].0)
                },
                None => None,
            }
        },
    }
}

/// The focused frames and the focused workspace after the first `n` pointer
/// states were followed (with no margin), starting from `m`.
pub open spec fn follow_all<R>(m: WorkspaceManager<R>, inputs: Seq<FocusInput>, layouts: Seq<Seq<(FrameId, Rect)>>, n: int) -> (Seq<FrameId>, WorkspaceId)
    decreases n,
{
    if n <= 0 {
        (focus_of(m), m.focused_workspace)
    } else {
        let (f, w) = follow_all(m, inputs, layouts, n - 1);
        match decide_with(inputs[n - 1], m, f, w, layouts, 0) {
            Some(r) => (f.update(r.workspace.0 as int, r.frame), r.workspace),
            None => (f, w),
        }
    }
}

proof fn lemma_decide_with<R>(input: FocusInput, m: WorkspaceManager<R>, m0: WorkspaceManager<R>, layouts: Seq<Seq<(FrameId, Rect)>>, margin: int)
    requires
        m.workspaces@.len() == m0.workspaces@.len(),
        roots_of(m) == roots_of(m0),
        forall|j: int| 0 <= j < m0.workspaces@.len() ==> same_but_layout(#[trigger] m.workspaces@[j], m0.workspaces@[j]),
        m.outputs == m0.outputs,
        ids_are_positions(m0.workspaces@),
    ensures
        focus_decision(input, m, layouts, margin) == decide_with(input, m0, focus_of(m), m.focused_workspace, layouts, margin),
        decide_with(input, m0, focus_of(m), m.focused_workspace, layouts, margin) matches Some(r) ==> r.workspace.0 < m0.workspaces@.len(),
{
    let ws = m.workspaces@;
    let ws0 = m0.workspaces@;
    assert forall|j: int| 0 <= j < ws.len() implies ws[j].root@ == ws0[j].root@ by {
        assert(roots_of(m)[j] == roots_of(m0)[j]);
        assert(roots_of(m)[j] == ws[j].root@);
        assert(roots_of(m0)[j] == ws0[j].root@);
    }
    if let Some(h) = input.hovered_window_id {
        lemma_first_match_agree(ws, hover_hit::<R>(h), ws0, hover_hit::<R>(h));
        lemma_first_match(ws0, hover_hit::<R>(h));
    }
    let px = input.pointer_x as int;
    let py = input.pointer_y as int;
    let idx = indices(ws.len());
    let q = point_hit(ws, m.outputs@, layouts, px, py, margin);
    let q0 = point_hit(ws0, m0.outputs@, layouts, px, py, margin);
    assert forall|i: int| 0 <= i < idx.len() implies q(#[trigger] idx[i]) == q0(idx[i]) by {
        assert(same_but_layout(ws[i], ws0[i]));
    }
    lemma_first_match_agree(idx, q, idx, q0);
    lemma_first_match(idx, q0);
}

/// Follow each pointer state in turn (with no margin: focus changes at the
/// exact frame boundary); `layouts[k]` is the layout of workspace `k`.
pub fn apply_focus_follows_mouse<R: Copy>(workspaces: &mut WorkspaceManager<R>, inputs: &[FocusInput], layouts: &Vec<Vec<(FrameId, Rect)>>)
    requires
        old(workspaces).wf(),
        layouts@.len() == old(workspaces).workspaces@.len(),
    ensures
        relayout(
            *old(workspaces),
            *final(workspaces),
            roots_of(*old(workspaces)),
            follow_all(*old(workspaces), inputs@, layouts@.map_values(|l: Vec<(FrameId, Rect)>| l@), inputs@.len() as int).0,
        ),
        final(workspaces).focused_workspace == follow_all(
            *old(workspaces),
            inputs@,
            layouts@.map_values(|l: Vec<(FrameId, Rect)>| l@),
            inputs@.len() as int,
        ).1,
        final(workspaces).wf(),
{
    let ghost m0 = *workspaces;
    let ghost lv = layouts@.map_values(|l: Vec<(FrameId, Rect)>| l@);
    let mut i: usize = 0;
    while i < inputs.len()
        invariant
            i <= inputs@.len(),
            m0.wf(),
            layouts@.len() == m0.workspaces@.len(),
            lv == layouts@.map_values(|l: Vec<(FrameId, Rect)>| l@),
            relayout(m0, *workspaces, roots_of(m0), follow_all(m0, inputs@, lv, i as int).0),
            workspaces.focused_workspace == follow_all(m0, inputs@, lv, i as int).1,
            workspaces.wf(),
        decreases inputs@.len() - i,
    {
        let ghost mi = *workspaces;
        let d = compute_focus(&inputs[i], workspaces, layouts, 0);
        proof {
            lemma_decide_with(inputs@[i as int], mi, m0, lv, 0);
        }
        if let Some(r) = d {
            set_focus(workspaces, r.workspace.0, r.frame);
            workspaces.focused_workspace = r.workspace;
            proof {
                assert forall|j: int| 0 <= j < m0.workspaces@.len() implies same_but_layout(#[trigger] workspaces.workspaces@[j], m0.workspaces@[j]) by {
                    assert(same_but_layout(workspaces.workspaces@[j], mi.workspaces@[j]));
                    assert(same_but_layout(mi.workspaces@[j], m0.workspaces@[j]));
                }
                assert(workspaces.workspaces@[r.workspace.0 as int].id.0 == r.workspace.0);
            }
        }
        i += 1;
    }
}

} // verus!
