//! Where a dragged window lands: the drop zones of a frame.
//!
//! Each edge of a frame owns a narrow band that splits the frame on drop; in
//! the corners the proportionally nearest edge wins. The rest is the center,
//! whose upper half adds the window as a tab and whose lower half swaps it
//! with the frame's active window.

use vstd::prelude::*;
use crate::focus::{indices, shown_on_output};
use crate::layout::{
    bump, find_leaf, frame_with_window, has_id, has_window_id, replace_leaf, replaced_in, split_at_side, FrameId,
    FrameIdAlloc, FrameView, Orientation, overlap_len, Rect, Tree, WindowRef,
};
use crate::seqs::{first_match, is_first, lemma_first_match, lemma_first_match_none, lemma_first_match_unique};
use crate::state::same_but_layout;
use crate::window_actions::{
    window_is, focus_of, lemma_relayout_trans, lemma_roots_index, place_window, placed_in, put_into, put_window_in, relayout, roots_of, set_focus,
    take_from, take_window_in,
};
use crate::manage::TAB_BAR_HEIGHT;
use crate::wm::{ManagedWindow, SeatOp};
use crate::requests::{is_floating_window, window_index};
use crate::workspace::{ids_are_positions, Output, Workspace, WorkspaceId, WorkspaceManager};

verus! {

/// Floor for an edge band, so split zones stay hittable in small frames.
pub const SPLIT_BAND_MIN: i32 = 10;
/// Ceiling for an edge band, so huge frames don't get a huge split target.
pub const SPLIT_BAND_MAX: i32 = 60;
/// An edge band is this fraction (one twentieth) of the frame's extent.
pub const SPLIT_BAND_DIVISOR: i32 = 20;
/// Breathing room between the tab/swap preview boxes and the split bands.
pub const PREVIEW_GUTTER: i32 = 5;

/// Thickness of the split band along an extent: a twentieth of it, kept
/// within 10..=60 pixels, but never more than a third of the extent (and at
/// least one pixel), so the two opposing bands never eat the whole frame.
pub open spec fn band(extent: int) -> int {
    let twentieth = if extent >= 0 { extent / 20 } else { -((-extent) / 20) };
    let clamped = if twentieth < 10 { 10 } else if twentieth > 60 { 60 } else { twentieth };
    let third = if extent >= 0 { extent / 3 } else { -((-extent) / 3) };
    let cap = if third > 1 { third } else { 1 };
    if clamped < cap { clamped } else { cap }
}

fn band_of(extent: i32) -> (b: i32)
    ensures
        b == band(extent as int),
        1 <= b <= 60,
{
    let clamped: i32 = if extent < 200 {
        SPLIT_BAND_MIN
    } else if extent / SPLIT_BAND_DIVISOR > SPLIT_BAND_MAX {
        SPLIT_BAND_MAX
    } else {
        extent / SPLIT_BAND_DIVISOR
    };
    let cap: i32 = if extent < 6 { 1 } else { extent / 3 };
    if clamped < cap {
        clamped
    } else {
        cap
    }
}

/// Thickness of the horizontal and vertical split bands of a frame.
pub fn split_bands(rect: &Rect) -> (r: (i32, i32))
    ensures
        r == (band(rect.width as int) as i32, band(rect.height as int) as i32),
{
    (band_of(rect.width), band_of(rect.height))
}

/// Where within a frame a drop will land.
#[derive(Debug, Clone, Copy, PartialEq, Eq, Structural)]
pub enum DropZone {
    /// Add as a tab (upper half of the center area).
    Tab,
    /// Trade places with the target frame's active window (lower half of center).
    Swap,
    /// Split and place on top.
    Top,
    /// Split and place on bottom.
    Bottom,
    /// Split and place on left.
    Left,
    /// Split and place on right.
    Right,
}

/// The point lies inside the rectangle.
pub open spec fn point_in(px: int, py: int, r: Rect) -> bool {
    r.x <= px < r.x + r.width && r.y <= py < r.y + r.height
}

/// The four edge candidates, in the order they are considered: distance
/// from the edge and thickness of that edge's band.
pub open spec fn edge_candidates(px: int, py: int, r: Rect) -> Seq<(int, int, DropZone)> {
    let bx = band(r.width as int);
    let by = band(r.height as int);
    seq![
        (py - r.y, by, DropZone::Top),
        (r.y + r.height - 1 - py, by, DropZone::Bottom),
        (px - r.x, bx, DropZone::Left),
        (r.x + r.width - 1 - px, bx, DropZone::Right),
    ]
}

/// Edge `k` is within its band.
pub open spec fn in_band(c: Seq<(int, int, DropZone)>, k: int) -> bool {
    0 <= k < c.len() && c[k].0 < c[k].1
}

/// Candidate `a` is strictly nearer (relative to its band) than `b`.
pub open spec fn nearer(a: (int, int, DropZone), b: (int, int, DropZone)) -> bool {
    a.0 * b.1 < b.0 * a.1
}

/// The zone a drop at `(px, py)` inside `r` lands in: the edge whose band
/// holds the point and that is proportionally nearest (the first such edge
/// on ties); otherwise the upper half of the center tabs and the lower half
/// swaps.
pub open spec fn drop_zone(px: int, py: int, r: Rect) -> DropZone {
    let c = edge_candidates(px, py, r);
    if exists|k: int| #[trigger] in_band(c, k) {
        let k = choose|k: int| #[trigger] in_band(c, k)
            && (forall|j: int| #[trigger] in_band(c, j) ==> !nearer(c[j], c[k]))
            && (forall|j: int| 0 <= j < k && #[trigger] in_band(c, j) ==> nearer(c[k], c[j]));
        c[k].2
    } else if py < r.y + r.height / 2 {
        DropZone::Tab
    } else {
        DropZone::Swap
    }
}

/// `k` is the chosen edge among `c`.
pub open spec fn is_chosen_edge(c: Seq<(int, int, DropZone)>, k: int) -> bool {
    &&& in_band(c, k)
    &&& forall|j: int| #[trigger] in_band(c, j) ==> !nearer(c[j], c[k])
    &&& forall|j: int| 0 <= j < k && #[trigger] in_band(c, j) ==> nearer(c[k], c[j])
}

proof fn lemma_chosen_unique(c: Seq<(int, int, DropZone)>, k: int, m: int)
    requires
        is_chosen_edge(c, k),
        is_chosen_edge(c, m),
        forall|j: int| 0 <= j < c.len() ==> #[trigger] c[j].1 > 0,
    ensures
        k == m,
{
    if k < m {
        assert(nearer(c[m], c[k]));
        assert(!nearer(c[m], c[k]));
    } else if m < k {
        assert(nearer(c[k], c[m]));
        assert(!nearer(c[k], c[m]));
    }
}

impl DropZone {
    /// The drop zone for a pointer position inside a frame rectangle.
    pub fn from_position(px: i32, py: i32, rect: &Rect) -> (z: DropZone)
        requires
            point_in(px as int, py as int, *rect),
            rect.x + rect.width <= i32::MAX,
            rect.y + rect.height <= i32::MAX,
        ensures
            z == drop_zone(px as int, py as int, *rect),
    {
        let (band_x, band_y) = split_bands(rect);
        let ghost c = edge_candidates(px as int, py as int, *rect);
        let d_top = (py - rect.y) as i64;
        let d_bottom = (rect.y + rect.height - 1 - py) as i64;
        let d_left = (px - rect.x) as i64;
        let d_right = (rect.x + rect.width - 1 - px) as i64;
        let ds: [(i64, i64, DropZone); 4] = [
            (d_top, band_y as i64, DropZone::Top),
            (d_bottom, band_y as i64, DropZone::Bottom),
            (d_left, band_x as i64, DropZone::Left),
            (d_right, band_x as i64, DropZone::Right),
        ];
        proof {
            assert(c.len() == 4);
            assert forall|j: int| 0 <= j < 4 implies ds@[j].0 == c[j].0 && ds@[j].1 == c[j].1 && ds@[j].2 == c[j].2
                && 0 <= ds@[j].0 < 0x1_0000_0000 && 1 <= ds@[j].1 <= 60 by {}
        }
        let mut best: Option<usize> = None;
        let mut i: usize = 0;
        while i < 4
            invariant
                i <= 4,
                c == edge_candidates(px as int, py as int, *rect),
                c.len() == 4,
                forall|j: int| 0 <= j < 4 ==> ds@[j].0 == c[j].0 && ds@[j].1 == c[j].1 && ds@[j].2 == c[j].2
                    && 0 <= ds@[j].0 < 0x1_0000_0000 && 1 <= ds@[j].1 <= 60,
                match best {
                    None => forall|j: int| 0 <= j < i ==> !#[trigger] in_band(c, j),
                    Some(k) => {
                        &&& k < i
                        &&& in_band(c, k as int)
                        &&& forall|j: int| 0 <= j < i && #[trigger] in_band(c, j) ==> !nearer(c[j], c[k as int])
                        &&& forall|j: int| 0 <= j < k && #[trigger] in_band(c, j) ==> nearer(c[k as int], c[j])
                    },
                },
            decreases 4 - i,
        {
            let (d, b, _) = ds[i];
            if d < b {
                match best {
                    None => {
                        best = Some(i);
                    },
                    Some(k) => {
                        let (dk, bk, _) = ds[k];
                        assert(0 <= d * bk <= 0x1_0000_0000 * 60) by (nonlinear_arith)
                            requires
                                0 <= d < 0x1_0000_0000,
                                1 <= bk <= 60,
                        ;
                        assert(0 <= dk * b <= 0x1_0000_0000 * 60) by (nonlinear_arith)
                            requires
                                0 <= dk < 0x1_0000_0000,
                                1 <= b <= 60,
                        ;
                        if d * bk < dk * b {
                            best = Some(i);
                        }
                    },
                }
            }
            i += 1;
        }
        proof {
            assert forall|j: int| 0 <= j < c.len() implies #[trigger] c[j].1 > 0 by {}
        }
        match best {
            Some(k) => {
                proof {
                    assert(is_chosen_edge(c, k as int));
                    let m = choose|m: int| #[trigger] in_band(c, m)
                        && (forall|j: int| #[trigger] in_band(c, j) ==> !nearer(c[j], c[m]))
                        && (forall|j: int| 0 <= j < m && #[trigger] in_band(c, j) ==> nearer(c[m], c[j]));
                    assert(is_chosen_edge(c, m));
                    lemma_chosen_unique(c, k as int, m);
                }
                ds[k].2
            },
            None => {
                proof {
                    assert(!exists|k: int| #[trigger] in_band(c, k));
                }
                if py < rect.y + rect.height / 2 {
                    DropZone::Tab
                } else {
                    DropZone::Swap
                }
            },
        }
    }

    /// Short human-readable name of the action this zone performs, shown in
    /// the drag preview box.
    pub fn label(&self) -> (s: &'static str)
        ensures
            s@ == zone_label(*self),
    {
        match self {
            DropZone::Tab => "Add as tab",
            DropZone::Swap => "Swap windows",
            DropZone::Top => "Split top",
            DropZone::Bottom => "Split bottom",
            DropZone::Left => "Split left",
            DropZone::Right => "Split right",
        }
    }
}

/// The label text of each zone.
pub open spec fn zone_label(z: DropZone) -> Seq<char> {
    match z {
        DropZone::Tab => "Add as tab"@,
        DropZone::Swap => "Swap windows"@,
        DropZone::Top => "Split top"@,
        DropZone::Bottom => "Split bottom"@,
        DropZone::Left => "Split left"@,
        DropZone::Right => "Split right"@,
    }
}

/// The far edges of the rectangle are within the coordinate range.
pub open spec fn fits(r: Rect) -> bool {
    i32::MIN <= r.x + r.width <= i32::MAX && i32::MIN <= r.y + r.height <= i32::MAX
}

pub open spec fn holds_point(px: int, py: int) -> spec_fn((FrameId, Rect)) -> bool {
    |e: (FrameId, Rect)| point_in(px, py, e.1)
}

/// The first frame of a layout whose rectangle holds the point, with the
/// drop zone the point falls in.
pub open spec fn drop_target_of(layout: Seq<(FrameId, Rect)>, px: int, py: int) -> Option<(FrameId, Rect, DropZone)> {
    match first_match(layout, holds_point(px, py)) {
        Some(k) => Some((layout[k].0, layout[k].1, drop_zone(px, py, layout[k].1))),
        None => None,
    }
}

/// The first frame of a computed layout whose rectangle holds the point,
/// with the drop zone the point falls in.
pub fn drop_target_in_layout(layout: &Vec<(FrameId, Rect)>, px: i32, py: i32) -> (r: Option<(FrameId, Rect, DropZone)>)
    requires
        forall|k: int| 0 <= k < layout@.len() ==> fits(#[trigger] layout@[k].1),
    ensures
        r == drop_target_of(layout@, px as int, py as int),
{
    let ghost q = holds_point(px as int, py as int);
    let mut i: usize = 0;
    while i < layout.len()
        invariant
            i <= layout@.len(),
            q == holds_point(px as int, py as int),
            forall|j: int| 0 <= j < i ==> !q(#[trigger] layout@[j]),
            forall|k: int| 0 <= k < layout@.len() ==> fits(#[trigger] layout@[k].1),
        decreases layout@.len() - i,
    {
        let (id, rect) = layout[i];
        assert(fits(layout@[i as int].1));
        if px >= rect.x && px < rect.x + rect.width && py >= rect.y && py < rect.y + rect.height {
            let zone = DropZone::from_position(px, py, &rect);
            proof {
                assert(q(layout@[i as int]));
                lemma_first_match_unique(layout@, q, i as int);
            }
            return Some((id, rect, zone));
        }
        i += 1;
    }
    proof {
        lemma_first_match_none(layout@, q);
    }
    None
}

/// Workspace `k` is shown and some frame of its layout holds the point.
pub open spec fn drop_hit<R>(ws: Seq<Workspace<R>>, outs: Seq<Output>, layouts: Seq<Seq<(FrameId, Rect)>>, px: int, py: int) -> spec_fn(int) -> bool {
    |k: int| 0 <= k < ws.len() && shown_on_output(ws[k], outs) && drop_target_of(layouts[k], px, py) is Some
}

/// Where a window dragged to `(px, py)` lands: the first shown workspace
/// with a frame holding the point, that frame, its rectangle and the drop
/// zone; `layouts[k]` is the layout of workspace `k`.
pub open spec fn drop_point<R>(m: WorkspaceManager<R>, layouts: Seq<Seq<(FrameId, Rect)>>, px: int, py: int) -> Option<(WorkspaceId, FrameId, Rect, DropZone)> {
    let ws = m.workspaces@;
    match first_match(indices(ws.len()), drop_hit(ws, m.outputs@, layouts, px, py)) {
        Some(k) => {
            let t = drop_target_of(layouts[k], px, py).unwrap();
            Some((ws[k].id, t.0, t.1, t.2))
        },
        None => None,
    }
}

/// Where a window dragged to `(px, py)` lands: the first shown workspace
/// with a frame holding the point, that frame, its rectangle and the drop
/// zone. `layouts[k]` is the computed layout of workspace `k`.
pub fn find_drop_target<R: Copy>(workspaces: &WorkspaceManager<R>, layouts: &Vec<Vec<(FrameId, Rect)>>, px: i32, py: i32) -> (r: Option<(WorkspaceId, FrameId, Rect, DropZone)>)
    requires
        layouts@.len() == workspaces.workspaces@.len(),
        forall|k: int, j: int| 0 <= k < layouts@.len() && 0 <= j < layouts@[k]@.len() ==> fits(#[trigger] layouts@[k]@[j].1),
    ensures
        r == drop_point(*workspaces, layouts@.map_values(|l: Vec<(FrameId, Rect)>| l@), px as int, py as int),
{
    let ghost ws = workspaces.workspaces@;
    let ghost lv = layouts@.map_values(|l: Vec<(FrameId, Rect)>| l@);
    let ghost q = drop_hit(ws, workspaces.outputs@, lv, px as int, py as int);
    let ghost idx = indices(ws.len());
    let mut i: usize = 0;
    while i < workspaces.workspaces.len()
        invariant
            i <= ws.len(),
            ws == workspaces.workspaces@,
            layouts@.len() == ws.len(),
            lv == layouts@.map_values(|l: Vec<(FrameId, Rect)>| l@),
            q == drop_hit(ws, workspaces.outputs@, lv, px as int, py as int),
            idx == indices(ws.len()),
            forall|k: int, j: int| 0 <= k < layouts@.len() && 0 <= j < layouts@[k]@.len() ==> fits(#[trigger] layouts@[k]@[j].1),
            forall|j: int| 0 <= j < i ==> !q(#[trigger] idx[j]),
        decreases ws.len() - i,
    {
        let w = &workspaces.workspaces[i];
        proof {
            assert(idx[i as int] == i);
            assert(lv[i as int] == layouts@[i as int]@);
            assert forall|j: int| 0 <= j < layouts@[i as int]@.len() implies fits(#[trigger] layouts@[i as int]@[j].1) by {}
        }
        if let Some(oid) = w.active_output {
            if workspaces.output(oid).is_some() {
                if let Some((frame_id, rect, zone)) = drop_target_in_layout(&layouts[i], px, py) {
                    proof {
                        assert(q(idx[i as int]));
                        lemma_first_match_unique(idx, q, i as int);
                    }
                    return Some((w.id, frame_id, rect, zone));
                }
            }
        }
        i += 1;
    }
    proof {
        lemma_first_match_none(idx, q);
    }
    None
}

// ── Dropping a dragged window ─────────────────────────────────────────────

/// One of the workspace's frames holds window `wid`.
pub open spec fn holds_window<R>(wid: u64) -> spec_fn(Workspace<R>) -> bool {
    |w: Workspace<R>| frame_with_window(w.root@, wid) is Some
}

/// The workspace has a frame with identifier `fid`.
pub open spec fn has_frame<R>(fid: FrameId) -> spec_fn(Workspace<R>) -> bool {
    |w: Workspace<R>| find_leaf(w.root@, fid) is Some
}

/// The frame holding window `wid`, in the first workspace that has one.
pub open spec fn source_frame<R>(ws: Seq<Workspace<R>>, wid: u64) -> Option<FrameId> {
    match first_match(ws, holds_window::<R>(wid)) {
        Some(k) => frame_with_window(ws[k].root@, wid),
        None => None,
    }
}

/// Frame `fid` of the first workspace that has it.
pub open spec fn frame_anywhere<R>(ws: Seq<Workspace<R>>, fid: FrameId) -> Option<FrameView> {
    match first_match(ws, has_frame::<R>(fid)) {
        Some(k) => find_leaf(ws[k].root@, fid),
        None => None,
    }
}

/// The reference to window `wid` in frame `fid`.
pub open spec fn ref_in<R>(ws: Seq<Workspace<R>>, fid: FrameId, wid: u64) -> Option<WindowRef> {
    match frame_anywhere(ws, fid) {
        Some(f) => match first_match(f.windows, has_window_id(wid)) {
            Some(p) => Some(f.windows[p]),
            None => None,
        },
        None => None,
    }
}

/// The active window of frame `fid`.
pub open spec fn active_ref<R>(ws: Seq<Workspace<R>>, fid: FrameId) -> Option<WindowRef> {
    match frame_anywhere(ws, fid) {
        Some(f) => if f.active_tab < f.windows.len() {
            Some(f.windows[f.active_tab as int])
        } else {
            None
        },
        None => None,
    }
}

/// The tree with `w` in the place of window `id` of frame `fid`.
pub open spec fn replace_in_tree<R>(t: Tree<R>, fid: FrameId, id: u64, w: WindowRef) -> Tree<R> {
    match find_leaf(t, fid) {
        Some(f) => replace_leaf(t, fid, replaced_in(f, id, w)),
        None => t,
    }
}

/// A dragged window can trade places with the target frame's active window:
/// the frames differ, the dragged window is in its frame and the target
/// frame has an active window.
pub open spec fn swap_possible<R>(ws: Seq<Workspace<R>>, src: FrameId, dst: FrameId, wid: u64) -> bool {
    src != dst && ref_in(ws, src, wid) is Some && active_ref(ws, dst) is Some
}

/// The trees after the dragged window `wid` of frame `src` and the active
/// window of frame `dst` traded places (tab order and active tabs kept).
pub open spec fn swap_trees<R>(m: WorkspaceManager<R>, src: FrameId, dst: FrameId, wid: u64) -> Seq<Tree<R>> {
    let ws = m.workspaces@;
    let dragged = ref_in(ws, src, wid).unwrap();
    let displaced = active_ref(ws, dst).unwrap();
    let dk = first_match(ws, has_frame::<R>(dst)).unwrap();
    let sk = first_match(ws, has_frame::<R>(src)).unwrap();
    let r1 = roots_of(m).update(dk, replace_in_tree(roots_of(m)[dk], dst, displaced.window_id, dragged));
    r1.update(sk, replace_in_tree(r1[sk], src, wid, displaced))
}

pub open spec fn swap_placed(wid: u64, did: u64, src: FrameId, dst: FrameId) -> spec_fn(ManagedWindow) -> ManagedWindow {
    |w: ManagedWindow| if w.id == wid {
        ManagedWindow { frame_id: Some(dst), ..w }
    } else if w.id == did {
        ManagedWindow { frame_id: Some(src), ..w }
    } else {
        w
    }
}

/// The managed windows after window `wid` went to frame `dst` and window
/// `did` to frame `src`.
pub open spec fn swapped_windows(ws: Seq<ManagedWindow>, wid: u64, did: u64, src: FrameId, dst: FrameId) -> Seq<ManagedWindow> {
    ws.map_values(swap_placed(wid, did, src, dst))
}

/// The split a drop on an edge zone makes: top and bottom stack the frames,
/// left and right put them side by side.
pub open spec fn zone_orientation(z: DropZone) -> Orientation {
    match z {
        DropZone::Top | DropZone::Bottom => Orientation::Vertical,
        _ => Orientation::Horizontal,
    }
}

/// The dropped window takes the side the pointer was on.
pub open spec fn zone_new_first(z: DropZone) -> bool {
    z is Top || z is Left
}

/// What dropping window `wid` on frame `target` of workspace `k`, in drop
/// zone `zone`, gives: the new trees, focused frames and managed windows,
/// and the next frame identifier; `None` when nothing changes (the window
/// is in no frame). A swap with nothing to trade with is a tab move; an
/// edge zone splits the target frame and puts the window in the new frame.
pub open spec fn drop_outcome<R>(
    m: WorkspaceManager<R>,
    w0: Seq<ManagedWindow>,
    n0: u64,
    k: int,
    target: FrameId,
    zone: DropZone,
    wid: u64,
    ratio: R,
) -> Option<(Seq<Tree<R>>, Seq<FrameId>, Seq<ManagedWindow>, u64)> {
    let ws = m.workspaces@;
    match source_frame(ws, wid) {
        None => None,
        Some(src) => if zone is Swap && swap_possible(ws, src, target, wid) {
            Some((
                swap_trees(m, src, target, wid),
                focus_of(m),
                swapped_windows(w0, wid, active_ref(ws, target).unwrap().window_id, src, target),
                n0,
            ))
        } else {
            match ref_in(ws, src, wid) {
                None => None,
                Some(wr) => {
                    let r1 = roots_of(m).map_values(|t: Tree<R>| take_from(t, src, wid));
                    let nid = FrameId(n0);
                    let r2 = if zone is Tab || zone is Swap {
                        r1.update(k, put_into(r1[k], target, wr))
                    } else if has_id(r1[k], target) {
                        r1.update(k, put_into(split_at_side(r1[k], target, zone_orientation(zone), ratio, nid, zone_new_first(zone)), nid, wr))
                    } else {
                        r1
                    };
                    let f2 = if zone is Tab || zone is Swap {
                        focus_of(m).update(k, target)
                    } else if has_id(r1[k], target) {
                        focus_of(m).update(k, nid)
                    } else {
                        focus_of(m)
                    };
                    let n1 = if !(zone is Tab || zone is Swap) && has_id(r1[k], target) {
                        bump(n0)
                    } else {
                        n0
                    };
                    Some((r2, f2, placed_in(w0, wid, f2[k]), n1))
                },
            }
        },
    }
}

pub(crate) fn source_frame_of<R: Copy>(m: &WorkspaceManager<R>, wid: u64) -> (r: Option<FrameId>)
    ensures
        r == source_frame(m.workspaces@, wid),
{
    let ghost q = holds_window::<R>(wid);
    let mut i: usize = 0;
    while i < m.workspaces.len()
        invariant
            i <= m.workspaces@.len(),
            q == holds_window::<R>(wid),
            forall|j: int| 0 <= j < i ==> !q(#[trigger] m.workspaces@[j]),
        decreases m.workspaces@.len() - i,
    {
        if let Some(fid) = m.workspaces[i].root.find_frame_with_window(wid) {
            proof {
                lemma_first_match_unique(m.workspaces@, q, i as int);
            }
            return Some(fid);
        }
        i += 1;
    }
    proof {
        lemma_first_match_none(m.workspaces@, q);
    }
    None
}

pub(crate) fn frame_owner<R: Copy>(m: &WorkspaceManager<R>, fid: FrameId) -> (r: Option<usize>)
    ensures
        match r {
            Some(k) => first_match(m.workspaces@, has_frame::<R>(fid)) == Some(k as int) && k < m.workspaces@.len(),
            None => first_match(m.workspaces@, has_frame::<R>(fid)) is None,
        },
{
    let ghost q = has_frame::<R>(fid);
    let mut i: usize = 0;
    while i < m.workspaces.len()
        invariant
            i <= m.workspaces@.len(),
            q == has_frame::<R>(fid),
            forall|j: int| 0 <= j < i ==> !q(#[trigger] m.workspaces@[j]),
        decreases m.workspaces@.len() - i,
    {
        if m.workspaces[i].root.find_frame(fid).is_some() {
            proof {
                lemma_first_match_unique(m.workspaces@, q, i as int);
            }
            return Some(i);
        }
        i += 1;
    }
    proof {
        lemma_first_match_none(m.workspaces@, q);
    }
    None
}

pub(crate) fn ref_in_frame<R: Copy>(m: &WorkspaceManager<R>, fid: FrameId, wid: u64) -> (r: Option<WindowRef>)
    ensures
        r == ref_in(m.workspaces@, fid, wid),
{
    proof {
        lemma_first_match(m.workspaces@, has_frame::<R>(fid));
    }
    match frame_owner(m, fid) {
        Some(k) => match m.workspaces[k].root.find_frame(fid) {
            Some(f) => {
                proof {
                    lemma_first_match(f.windows@, has_window_id(wid));
                    assert(frame_anywhere(m.workspaces@, fid) == Some(f@));
                }
                match f.position_of(wid) {
                    Some(p) => {
                        let w = f.windows[p].duplicate();
                        proof {
                            let i = first_match(f.windows@, has_window_id(wid))->0;
                            assert(is_first(f.windows@, has_window_id(wid), i));
                            assert(0 <= i < f.windows@.len());
                            assert(f.windows@.len() == f.windows.len());
                            assert(p as int == i);
                            assert(w == f@.windows[i]);
                        }
                        assert(w == f@.windows[p as int]);
                        Some(w)
                    },
                    None => None,
                }
            },
            None => None,
        },
        None => None,
    }
}

fn active_ref_in<R: Copy>(m: &WorkspaceManager<R>, fid: FrameId) -> (r: Option<WindowRef>)
    ensures
        r == active_ref(m.workspaces@, fid),
{
    match frame_owner(m, fid) {
        Some(k) => match m.workspaces[k].root.find_frame(fid) {
            Some(f) => match f.active_window() {
                Some(w) => Some(w.duplicate()),
                None => None,
            },
            None => None,
        },
        None => None,
    }
}

fn replace_in<R: Copy>(m: &mut WorkspaceManager<R>, i: usize, fid: FrameId, id: u64, w: WindowRef)
    requires
        i < old(m).workspaces@.len(),
    ensures
        relayout(*old(m), *final(m), roots_of(*old(m)).update(i as int, replace_in_tree(old(m).workspaces@[i as int].root@, fid, id, w)), focus_of(*old(m))),
        final(m).focused_workspace == old(m).focused_workspace,
{
    let ghost m0 = *m;
    let ws = &mut m.workspaces[i];
    match ws.root.find_frame_mut(fid) {
        Some(f) => {
            let _ = f.replace_window(id, w);
        },
        None => {},
    }
    proof {
        assert(roots_of(*m) =~= roots_of(m0).update(i as int, replace_in_tree(m0.workspaces@[i as int].root@, fid, id, w)));
        assert(focus_of(*m) =~= focus_of(m0));
    }
}

fn split_in<R: Copy>(m: &mut WorkspaceManager<R>, i: usize, fid: FrameId, o: Orientation, ratio: R, new_first: bool, alloc: &mut FrameIdAlloc) -> (r: Option<FrameId>)
    requires
        i < old(m).workspaces@.len(),
    ensures
        has_id(old(m).workspaces@[i as int].root@, fid) ==> {
            &&& r == Some(FrameId(old(alloc).next))
            &&& relayout(*old(m), *final(m), roots_of(*old(m)).update(i as int, split_at_side(old(m).workspaces@[i as int].root@, fid, o, ratio, FrameId(old(alloc).next), new_first)), focus_of(*old(m)))
            &&& final(alloc).next == bump(old(alloc).next)
        },
        !has_id(old(m).workspaces@[i as int].root@, fid) ==> {
            &&& r is None
            &&& relayout(*old(m), *final(m), roots_of(*old(m)), focus_of(*old(m)))
            &&& final(alloc).next == old(alloc).next
        },
        final(m).focused_workspace == old(m).focused_workspace,
{
    let ghost m0 = *m;
    let ws = &mut m.workspaces[i];
    let r = ws.root.split_frame_at(fid, o, ratio, new_first, alloc);
    proof {
        if has_id(m0.workspaces@[i as int].root@, fid) {
            assert(roots_of(*m) =~= roots_of(m0).update(i as int, split_at_side(m0.workspaces@[i as int].root@, fid, o, ratio, FrameId(old(alloc).next), new_first)));
        } else {
            assert(roots_of(*m) =~= roots_of(m0));
        }
        assert(focus_of(*m) =~= focus_of(m0));
    }
    r
}


fn update_swapped(windows: &mut Vec<ManagedWindow>, wid: u64, did: u64, src: FrameId, dst: FrameId)
    ensures
        final(windows)@ == swapped_windows(old(windows)@, wid, did, src, dst),
{
    let ghost w0 = windows@;
    let ghost f = swap_placed(wid, did, src, dst);
    let mut k: usize = 0;
    while k < windows.len()
        invariant
            k <= w0.len(),
            windows@.len() == w0.len(),
            f == swap_placed(wid, did, src, dst),
            forall|j: int| 0 <= j < k ==> windows@[j] == f(#[trigger] w0[j]),
            forall|j: int| k <= j < w0.len() ==> #[trigger] windows@[j] == w0[j],
        decreases w0.len() - k,
    {
        let id = windows[k].id;
        if id == wid {
            let w = &mut windows[k];
            w.frame_id = Some(dst);
        } else if id == did {
            let w = &mut windows[k];
            w.frame_id = Some(src);
        }
        k += 1;
    }
    proof {
        assert(windows@ =~= swapped_windows(w0, wid, did, src, dst));
    }
}

/// Trade the dragged window `wid` (in frame `src`) with the active window of
/// frame `dst`, leaving both frames' tab order and active tabs intact.
/// Returns false, changing nothing, when there is nothing to trade with:
/// the target is the source frame, or it holds no windows.
fn swap_dropped_window<R: Copy>(m: &mut WorkspaceManager<R>, windows: &mut Vec<ManagedWindow>, src: FrameId, dst: FrameId, wid: u64) -> (swapped: bool)
    ensures
        swapped == swap_possible(old(m).workspaces@, src, dst, wid),
        swapped ==> {
            &&& relayout(*old(m), *final(m), swap_trees(*old(m), src, dst, wid), focus_of(*old(m)))
            &&& final(windows)@ == swapped_windows(old(windows)@, wid, active_ref(old(m).workspaces@, dst).unwrap().window_id, src, dst)
        },
        !swapped ==> *final(m) == *old(m) && final(windows)@ == old(windows)@,
        final(m).focused_workspace == old(m).focused_workspace,
{
    if src == dst {
        return false;
    }
    let dragged = ref_in_frame(m, src, wid);
    let displaced = active_ref_in(m, dst);
    let (d, p) = match (dragged, displaced) {
        (Some(d), Some(p)) => (d, p),
        _ => return false,
    };
    let did = p.window_id;
    let (dk, sk) = match (frame_owner(m, dst), frame_owner(m, src)) {
        (Some(a), Some(b)) => (a, b),
        _ => return false,
    };
    let ghost m0 = *m;
    replace_in(m, dk, dst, did, d);
    let ghost m1 = *m;
    proof {
        lemma_roots_index(m1, sk as int);
    }
    replace_in(m, sk, src, wid, p);
    proof {
        lemma_relayout_trans(m0, m1, *m);
        assert(roots_of(*m) == swap_trees(m0, src, dst, wid));
    }
    update_swapped(windows, wid, did, src, dst);
    true
}

pub(crate) fn take_everywhere<R: Copy>(m: &mut WorkspaceManager<R>, src: FrameId, wid: u64)
    ensures
        relayout(*old(m), *final(m), roots_of(*old(m)).map_values(|t: Tree<R>| take_from(t, src, wid)), focus_of(*old(m))),
        final(m).focused_workspace == old(m).focused_workspace,
{
    let ghost m0 = *m;
    let n = m.workspaces.len();
    proof {
        assert(Seq::new(n as nat, |x: int| if x < 0 { take_from(roots_of(m0)[x], src, wid) } else { roots_of(m0)[x] }) =~= roots_of(m0));
        assert(focus_of(m0) == focus_of(m0));
    }
    let mut i: usize = 0;
    while i < n
        invariant
            i <= n,
            n == m0.workspaces@.len(),
            relayout(m0, *m, Seq::new(n as nat, |x: int| if x < i { take_from(roots_of(m0)[x], src, wid) } else { roots_of(m0)[x] }), focus_of(m0)),
            m.focused_workspace == m0.focused_workspace,
        decreases n - i,
    {
        let ghost mi = *m;
        proof {
            lemma_roots_index(mi, i as int);
        }
        take_window_in(m, i, src, wid);
        proof {
            lemma_relayout_trans(m0, mi, *m);
            assert(roots_of(*m) =~= Seq::new(n as nat, |x: int| if x < i + 1 { take_from(roots_of(m0)[x], src, wid) } else { roots_of(m0)[x] }));
        }
        i += 1;
    }
    proof {
        assert(roots_of(*m) =~= roots_of(m0).map_values(|t: Tree<R>| take_from(t, src, wid)));
    }
}

fn drop_window_on<R: Copy>(
    m: &mut WorkspaceManager<R>,
    windows: &mut Vec<ManagedWindow>,
    k: usize,
    target: FrameId,
    zone: DropZone,
    wid: u64,
    ratio: R,
    alloc: &mut FrameIdAlloc,
)
    requires
        k < old(m).workspaces@.len(),
    ensures
        match drop_outcome(*old(m), old(windows)@, old(alloc).next, k as int, target, zone, wid, ratio) {
            Some((r, f, w, n)) => {
                &&& relayout(*old(m), *final(m), r, f)
                &&& final(windows)@ == w
                &&& final(alloc).next == n
            },
            None => *final(m) == *old(m) && final(windows)@ == old(windows)@ && final(alloc).next == old(alloc).next,
        },
        final(m).focused_workspace == old(m).focused_workspace,
{
    let ghost m0 = *m;
    let ghost w0 = windows@;
    let ghost n0 = alloc.next;
    let src = match source_frame_of(m, wid) {
        Some(s) => s,
        None => return,
    };
    if matches!(zone, DropZone::Swap) {
        if swap_dropped_window(m, windows, src, target, wid) {
            return;
        }
    }
    let wr = match ref_in_frame(m, src, wid) {
        Some(w) => w,
        None => return,
    };
    take_everywhere(m, src, wid);
    let ghost m1 = *m;
    let ghost r1 = roots_of(m0).map_values(|t: Tree<R>| take_from(t, src, wid));
    proof {
        lemma_roots_index(m1, k as int);
        assert(m1.workspaces@[k as int].root@ == r1[k as int]);
    }
    if matches!(zone, DropZone::Tab) || matches!(zone, DropZone::Swap) {
        put_window_in(m, k, target, wr);
        let ghost m2 = *m;
        proof {
            lemma_relayout_trans(m0, m1, m2);
        }
        set_focus(m, k, target);
        proof {
            lemma_relayout_trans(m0, m2, *m);
            lemma_roots_index(m2, k as int);
            assert(focus_of(*m) == focus_of(m0).update(k as int, target));
        }
    } else {
        let o = if matches!(zone, DropZone::Top) || matches!(zone, DropZone::Bottom) {
            Orientation::Vertical
        } else {
            Orientation::Horizontal
        };
        let new_first = matches!(zone, DropZone::Top) || matches!(zone, DropZone::Left);
        match split_in(m, k, target, o, ratio, new_first, alloc) {
            Some(nid) => {
                let ghost m2 = *m;
                proof {
                    lemma_relayout_trans(m0, m1, m2);
                    lemma_roots_index(m2, k as int);
                }
                put_window_in(m, k, nid, wr);
                let ghost m3 = *m;
                proof {
                    lemma_relayout_trans(m0, m2, m3);
                }
                set_focus(m, k, nid);
                proof {
                    lemma_relayout_trans(m0, m3, *m);
                    lemma_roots_index(m3, k as int);
                    assert(focus_of(*m) == focus_of(m0).update(k as int, nid));
                }
            },
            None => {
                proof {
                    lemma_relayout_trans(m0, m1, *m);
                }
            },
        }
    }
    let ghost mf = *m;
    proof {
        lemma_roots_index(mf, k as int);
    }
    let f = m.workspaces[k].focused_frame;
    place_window(windows, wid, f);
    proof {
        let ws0 = m0.workspaces@;
        assert(source_frame(ws0, wid) == Some(src));
        assert(!(zone is Swap && swap_possible(ws0, src, target, wid)));
        assert(ref_in(ws0, src, wid) == Some(wr));
        assert(relayout(m0, mf, roots_of(mf), focus_of(mf)));
        let o = drop_outcome(m0, w0, n0, k as int, target, zone, wid, ratio);
        assert(o is Some);
        let (r2, f2, w2, n2) = o->0;
        assert(r2 == roots_of(mf));
        assert(f2 == focus_of(mf));
        assert(n2 == alloc.next);
        assert(w2 == windows@);
    }
}

/// Drop the dragged window `window_id` at `(drop_x, drop_y)`: on the tabs
/// of the frame under the point, in a new frame split off on the side the
/// point is on, or in trade with the frame's active window (see
/// `drop_outcome`). Nothing changes when the point is over no shown frame
/// or the window is in no frame. `layouts[k]` is the layout of workspace
/// `k`; new frames split at `ratio` and take their identifier from `alloc`.
pub fn handle_move_drop<R: Copy>(
    workspaces: &mut WorkspaceManager<R>,
    windows: &mut Vec<ManagedWindow>,
    layouts: &Vec<Vec<(FrameId, Rect)>>,
    window_id: u64,
    drop_x: i32,
    drop_y: i32,
    ratio: R,
    alloc: &mut FrameIdAlloc,
)
    requires
        old(workspaces).wf(),
        layouts@.len() == old(workspaces).workspaces@.len(),
        forall|k: int, j: int| 0 <= k < layouts@.len() && 0 <= j < layouts@[k]@.len() ==> fits(#[trigger] layouts@[k]@[j].1),
    ensures
        final(workspaces).wf(),
        match drop_point(*old(workspaces), layouts@.map_values(|l: Vec<(FrameId, Rect)>| l@), drop_x as int, drop_y as int) {
            Some((ws_id, target, _rect, zone)) => match drop_outcome(*old(workspaces), old(windows)@, old(alloc).next, ws_id.0 as int, target, zone, window_id, ratio) {
                Some((r, f, w, n)) => {
                    &&& relayout(*old(workspaces), *final(workspaces), r, f)
                    &&& final(workspaces).focused_workspace == old(workspaces).focused_workspace
                    &&& final(windows)@ == w
                    &&& final(alloc).next == n
                },
                None => *final(workspaces) == *old(workspaces) && final(windows)@ == old(windows)@ && final(alloc).next == old(alloc).next,
            },
            None => *final(workspaces) == *old(workspaces) && final(windows)@ == old(windows)@ && final(alloc).next == old(alloc).next,
        },
{
    let ghost m0 = *workspaces;
    match find_drop_target(workspaces, layouts, drop_x, drop_y) {
        Some((ws_id, target, _rect, zone)) => {
            proof {
                let lv = layouts@.map_values(|l: Vec<(FrameId, Rect)>| l@);
                let ws = m0.workspaces@;
                let q = drop_hit(ws, m0.outputs@, lv, drop_x as int, drop_y as int);
                let kk = first_match(indices(ws.len()), q)->0;
                lemma_first_match(indices(ws.len()), q);
                assert(indices(ws.len())[kk] == kk);
                assert(ws[kk].id.0 == kk);
            }
            drop_window_on(workspaces, windows, ws_id.0, target, zone, window_id, ratio, alloc);
            proof {
                assert forall|i: int| 0 <= i < workspaces.workspaces@.len() implies (#[trigger] workspaces.workspaces@[i]).id.0 == i by {
                    if *workspaces != m0 {
                        assert(same_but_layout(workspaces.workspaces@[i], m0.workspaces@[i]));
                    }
                }
            }
        },
        None => {},
    }
}


// ── Starting a pointer operation ──────────────────────────────────────────

/// What pressing a pointer binding starts.
#[derive(Debug, Clone, Copy, PartialEq, Eq, Structural)]
pub enum PointerStart {
    /// Drag the window, which started at (`start_x`, `start_y`).
    Move { window: u64, start_x: i32, start_y: i32 },
    /// Resize the split boundaries around a tiled window (in `frame`), on
    /// the axes `resize_h` (side by side) and `resize_v` (stacked).
    ResizeWindow {
        window: u64,
        frame: Option<FrameId>,
        start_x: i32,
        start_y: i32,
        width: i32,
        height: i32,
        resize_h: bool,
        resize_v: bool,
    },
    /// Resize the split boundaries around an empty spot of `frame`.
    ResizeEmpty { frame: FrameId, resize_h: bool, resize_v: bool },
    /// Nothing to do.
    Nothing,
}

pub open spec fn entry_of(fid: FrameId) -> spec_fn((FrameId, Rect)) -> bool {
    |e: (FrameId, Rect)| e.0 == fid
}

/// Workspace `k` is shown, one of its frames holds window `wid`, and its
/// layout has that frame.
pub open spec fn window_spot<R>(ws: Seq<Workspace<R>>, outs: Seq<Output>, layouts: Seq<Seq<(FrameId, Rect)>>, wid: u64) -> spec_fn(int) -> bool {
    |k: int| 0 <= k < ws.len() && shown_on_output(ws[k], outs)
        && (frame_with_window(ws[k].root@, wid) matches Some(f) && first_match(layouts[k], entry_of(f)) is Some)
}

/// Where a tiled window's content starts: inside the border and below the
/// tab bar of its frame, in the first shown workspace laying it out.
pub open spec fn tiled_origin<R>(m: WorkspaceManager<R>, layouts: Seq<Seq<(FrameId, Rect)>>, wid: u64, border: i32) -> Option<(int, int)> {
    let ws = m.workspaces@;
    match first_match(indices(ws.len()), window_spot(ws, m.outputs@, layouts, wid)) {
        Some(k) => {
            let f = frame_with_window(ws[k].root@, wid).unwrap();
            let r = layouts[k][first_match(layouts[k], entry_of(f)).unwrap()].1;
            Some((r.x + border, r.y + border + TAB_BAR_HEIGHT))
        },
        None => None,
    }
}

/// Where the operation on window `w` starts: a floating window at its
/// position, a tiled one at its content's origin (its floating position
/// when no shown frame lays it out).
pub open spec fn start_point<R>(m: WorkspaceManager<R>, layouts: Seq<Seq<(FrameId, Rect)>>, w: ManagedWindow, border: i32) -> (int, int) {
    if w.floating {
        (w.float_x as int, w.float_y as int)
    } else {
        match tiled_origin(m, layouts, w.id, border) {
            Some(p) => p,
            None => (w.float_x as int, w.float_y as int),
        }
    }
}

/// What a press starts. A move always takes the hovered window, the one
/// that is visible; a resize takes the clicked tab's window when the press
/// is on a tab, else the hovered window. With a (managed) window: a move drags
/// it; a resize works on a tiled window's frame and does nothing for a
/// floating one. Without one, a resize works on the shown frame under the
/// pointer, and a move does nothing. A resize moves the axes that
/// `resize_axes` picks for its frame in the focused workspace's layout.
pub open spec fn pointer_start<R>(
    m: WorkspaceManager<R>,
    layouts: Seq<Seq<(FrameId, Rect)>>,
    wins: Seq<ManagedWindow>,
    hovered: Option<u64>,
    clicked_tab: Option<u64>,
    is_move: bool,
    px: int,
    py: int,
    border: i32,
    gap: i32,
) -> PointerStart {
    let focused = layouts[m.focused_workspace.0 as int];
    let target = if is_move { hovered } else if clicked_tab is Some { clicked_tab } else { hovered };
    let win = match target {
        Some(id) => match first_match(wins, window_is(id)) {
            Some(i) => Some(wins[i]),
            None => None,
        },
        None => None,
    };
    match win {
        Some(w) => {
            let (sx, sy) = start_point(m, layouts, w, border);
            if is_move {
                PointerStart::Move { window: w.id, start_x: sx as i32, start_y: sy as i32 }
            } else if !w.floating {
                let frame = match first_match(m.workspaces@, holds_window::<R>(w.id)) {
                    Some(k) => frame_with_window(m.workspaces@[k].root@, w.id),
                    None => None,
                };
                let (rh, rv) = match frame {
                    Some(f) => resize_axes(focused, f, px as i32, py as i32, gap),
                    None => (true, true),
                };
                PointerStart::ResizeWindow {
                    window: w.id,
                    frame,
                    start_x: sx as i32,
                    start_y: sy as i32,
                    width: w.width,
                    height: w.height,
                    resize_h: rh,
                    resize_v: rv,
                }
            } else {
                PointerStart::Nothing
            }
        },
        None => if is_move {
            PointerStart::Nothing
        } else {
            match drop_point(m, layouts, px, py) {
                Some((_w, f, _r, _z)) => {
                    let (rh, rv) = resize_axes(focused, f, px as i32, py as i32, gap);
                    PointerStart::ResizeEmpty { frame: f, resize_h: rh, resize_v: rv }
                },
                None => PointerStart::Nothing,
            }
        },
    }
}

/// Every frame's content origin fits `i32`.
pub open spec fn origins_fit(layouts: Seq<Seq<(FrameId, Rect)>>, border: i32) -> bool {
    forall|k: int, j: int| 0 <= k < layouts.len() && 0 <= j < layouts[k].len() ==> {
        &&& i32::MIN <= (#[trigger] layouts[k][j]).1.x + border <= i32::MAX
        &&& i32::MIN <= layouts[k][j].1.y + border <= i32::MAX
        &&& i32::MIN <= layouts[k][j].1.y + border + TAB_BAR_HEIGHT <= i32::MAX
    }
}

fn entry_index(layout: &Vec<(FrameId, Rect)>, fid: FrameId) -> (r: Option<usize>)
    ensures
        match r {
            Some(j) => first_match(layout@, entry_of(fid)) == Some(j as int) && j < layout@.len(),
            None => first_match(layout@, entry_of(fid)) is None,
        },
{
    let ghost q = entry_of(fid);
    let mut j: usize = 0;
    while j < layout.len()
        invariant
            j <= layout@.len(),
            q == entry_of(fid),
            forall|i: int| 0 <= i < j ==> !q(#[trigger] layout@[i]),
        decreases layout@.len() - j,
    {
        if layout[j].0 == fid {
            proof {
                lemma_first_match_unique(layout@, q, j as int);
            }
            return Some(j);
        }
        j += 1;
    }
    proof {
        lemma_first_match_none(layout@, q);
    }
    None
}

fn tiled_origin_of<R: Copy>(m: &WorkspaceManager<R>, layouts: &Vec<Vec<(FrameId, Rect)>>, wid: u64, border: i32) -> (r: Option<(i32, i32)>)
    requires
        layouts@.len() == m.workspaces@.len(),
        origins_fit(layouts@.map_values(|l: Vec<(FrameId, Rect)>| l@), border),
    ensures
        match r {
            Some((x, y)) => tiled_origin(*m, layouts@.map_values(|l: Vec<(FrameId, Rect)>| l@), wid, border) == Some((x as int, y as int)),
            None => tiled_origin(*m, layouts@.map_values(|l: Vec<(FrameId, Rect)>| l@), wid, border) is None,
        },
{
    let ghost ws = m.workspaces@;
    let ghost lv = layouts@.map_values(|l: Vec<(FrameId, Rect)>| l@);
    let ghost q = window_spot(ws, m.outputs@, lv, wid);
    let ghost idx = indices(ws.len());
    let mut k: usize = 0;
    while k < m.workspaces.len()
        invariant
            k <= ws.len(),
            ws == m.workspaces@,
            layouts@.len() == ws.len(),
            lv == layouts@.map_values(|l: Vec<(FrameId, Rect)>| l@),
            origins_fit(lv, border),
            q == window_spot(ws, m.outputs@, lv, wid),
            idx == indices(ws.len()),
            forall|j: int| 0 <= j < k ==> !q(#[trigger] idx[j]),
        decreases ws.len() - k,
    {
        let w = &m.workspaces[k];
        proof {
            assert(idx[k as int] == k);
            assert(lv[k as int] == layouts@[k as int]@);
        }
        let shown = match w.active_output {
            Some(oid) => m.output(oid).is_some(),
            None => false,
        };
        if shown {
            if let Some(f) = w.root.find_frame_with_window(wid) {
                if let Some(j) = entry_index(&layouts[k], f) {
                    proof {
                        assert(q(idx[k as int]));
                        lemma_first_match_unique(idx, q, k as int);
                        assert(lv[k as int][j as int] == layouts@[k as int]@[j as int]);
                    }
                    let r = layouts[k][j].1;
                    return Some((r.x + border, r.y + border + TAB_BAR_HEIGHT));
                }
            }
        }
        k += 1;
    }
    proof {
        lemma_first_match_none(idx, q);
    }
    None
}

/// Decide what pressing a pointer binding starts (see `pointer_start`), at
/// pointer (`px`, `py`), with the window `hovered` under the pointer and
/// the window of the tab `clicked_tab` when the press is on a tab bar;
/// `layouts` holds each workspace's frames laid out with gap `gap` (none
/// for a workspace on no output). A floating window that starts moving
/// takes the floating focus.
pub fn pointer_op_start<R: Copy>(
    workspaces: &WorkspaceManager<R>,
    layouts: &Vec<Vec<(FrameId, Rect)>>,
    windows: &Vec<ManagedWindow>,
    hovered: Option<u64>,
    clicked_tab: Option<u64>,
    is_move: bool,
    px: i32,
    py: i32,
    border: i32,
    gap: i32,
    floating_focus: &mut Option<u64>,
) -> (op: PointerStart)
    requires
        layouts@.len() == workspaces.workspaces@.len(),
        workspaces.focused_workspace.0 < workspaces.workspaces@.len(),
        origins_fit(layouts@.map_values(|l: Vec<(FrameId, Rect)>| l@), border),
        forall|k: int, j: int| 0 <= k < layouts@.len() && 0 <= j < layouts@[k]@.len() ==> fits(#[trigger] layouts@[k]@[j].1),
    ensures
        op == pointer_start(*workspaces, layouts@.map_values(|l: Vec<(FrameId, Rect)>| l@), windows@, hovered, clicked_tab, is_move, px as int, py as int, border, gap),
        *final(floating_focus) == (match op {
            PointerStart::Move { window, .. } => if is_floating_window(windows@, window) { Some(window) } else { *old(floating_focus) },
            _ => *old(floating_focus),
        }),
{
    let target = if is_move { hovered } else if clicked_tab.is_some() { clicked_tab } else { hovered };
    let idx = match target {
        Some(id) => window_index(windows, id),
        None => None,
    };
    match idx {
        Some(i) => {
            let w = &windows[i];
            proof {
                lemma_first_match(windows@, window_is(target.unwrap()));
                assert(w.id == target.unwrap());
            }
            let (sx, sy) = if w.floating {
                (w.float_x, w.float_y)
            } else {
                match tiled_origin_of(workspaces, layouts, w.id, border) {
                    Some(p) => p,
                    None => (w.float_x, w.float_y),
                }
            };
            if is_move {
                if w.floating {
                    *floating_focus = Some(w.id);
                }
                proof {
                    assert(is_floating_window(windows@, w.id) == w.floating);
                }
                PointerStart::Move { window: w.id, start_x: sx, start_y: sy }
            } else if !w.floating {
                let frame = match source_frame_of(workspaces, w.id) {
                    Some(f) => Some(f),
                    None => None,
                };
                let (rh, rv) = match frame {
                    Some(f) => detect_resize_axes(&layouts[workspaces.focused_workspace.0], f, px, py, gap),
                    None => (true, true),
                };
                PointerStart::ResizeWindow {
                    window: w.id,
                    frame,
                    start_x: sx,
                    start_y: sy,
                    width: w.width,
                    height: w.height,
                    resize_h: rh,
                    resize_v: rv,
                }
            } else {
                PointerStart::Nothing
            }
        },
        None => {
            if is_move {
                PointerStart::Nothing
            } else {
                match find_drop_target(workspaces, layouts, px, py) {
                    Some((_w, f, _r, _z)) => {
                        let (rh, rv) = detect_resize_axes(&layouts[workspaces.focused_workspace.0], f, px, py, gap);
                        PointerStart::ResizeEmpty { frame: f, resize_h: rh, resize_v: rv }
                    },
                    None => PointerStart::Nothing,
                }
            }
        },
    }
}


// ── Dragging a floating window ────────────────────────────────────────────

/// A floating window moved to where the drag started plus the pointer's
/// travel since then.
pub open spec fn dragged(w: ManagedWindow, start_x: i32, start_y: i32, dx: i32, dy: i32) -> ManagedWindow {
    ManagedWindow { float_x: (start_x + dx) as i32, float_y: (start_y + dy) as i32, ..w }
}

/// The windows after a drag step of `op`: a move of a floating window puts
/// it at its start position plus the travel (dx, dy); every other operation,
/// and a move of a tiled window (which only shows a preview), changes
/// nothing.
pub open spec fn drag_step(wins: Seq<ManagedWindow>, op: SeatOp, dx: i32, dy: i32) -> Seq<ManagedWindow> {
    match op {
        SeatOp::Move { window_id, start_x, start_y } => match first_match(wins, window_is(window_id)) {
            Some(k) => if wins[k].floating {
                wins.update(k, dragged(wins[k], start_x, start_y, dx, dy))
            } else {
                wins
            },
            None => wins,
        },
        _ => wins,
    }
}

/// The new position of a move fits `i32`.
pub open spec fn drag_fits(op: SeatOp, dx: i32, dy: i32) -> bool {
    op matches SeatOp::Move { start_x, start_y, .. } ==> {
        &&& i32::MIN <= start_x + dx <= i32::MAX
        &&& i32::MIN <= start_y + dy <= i32::MAX
    }
}

/// One step of a seat's ongoing operation, with the pointer's travel since
/// it began: a floating window being moved follows the pointer (see
/// `drag_step`). Returns whether a window moved.
pub fn drag_floating_window(windows: &mut Vec<ManagedWindow>, op: &SeatOp, dx: i32, dy: i32) -> (moved: bool)
    requires
        drag_fits(*op, dx, dy),
    ensures
        final(windows)@ == drag_step(old(windows)@, *op, dx, dy),
        moved == (*op matches SeatOp::Move { window_id, .. } && is_floating_window(old(windows)@, window_id)),
{
    match op {
        SeatOp::Move { window_id, start_x, start_y } => {
            match window_index(windows, *window_id) {
                Some(k) => {
                    if windows[k].floating {
                        let w = &mut windows[k];
                        w.float_x = *start_x + dx;
                        w.float_y = *start_y + dy;
                        proof {
                            assert(windows@ =~= drag_step(old(windows)@, *op, dx, dy));
                        }
                        true
                    } else {
                        false
                    }
                },
                None => false,
            }
        },
        _ => false,
    }
}

// ── Which boundaries a resize drag moves ──────────────────────────────────

/// `other` lies beside frame `fid` (at `me`): they share some height, and
/// it ends at `me`'s left edge (within the gap) or starts at its right edge.
pub open spec fn side_neighbor(fid: FrameId, me: Rect, other: (FrameId, Rect), gap: int) -> bool {
    &&& other.0 != fid
    &&& overlap_len(me.y as int, me.height as int, other.1.y as int, other.1.height as int) > 0
    &&& (other.1.x + other.1.width <= me.x + gap || other.1.x >= me.x + me.width - gap)
}

/// `other` lies above or below frame `fid` (at `me`): they share some
/// width, and it ends at `me`'s top edge (within the gap) or starts at its
/// bottom edge.
pub open spec fn stacked_neighbor(fid: FrameId, me: Rect, other: (FrameId, Rect), gap: int) -> bool {
    &&& other.0 != fid
    &&& overlap_len(me.x as int, me.width as int, other.1.x as int, other.1.width as int) > 0
    &&& (other.1.y + other.1.height <= me.y + gap || other.1.y >= me.y + me.height - gap)
}

pub open spec fn abs_int(n: int) -> int {
    if n < 0 { -n } else { n }
}

pub open spec fn min_int(a: int, b: int) -> int {
    if a <= b { a } else { b }
}

/// A quarter of `n`, rounded toward zero.
pub open spec fn quarter(n: int) -> int {
    if n >= 0 { n / 4 } else { -((-n) / 4) }
}

/// Which axes a resize drag started at (`px`, `py`) in frame `fid` moves,
/// (side by side, stacked), given the laid-out frames: an axis only where
/// the frame has a neighbor across it. With neighbors on both axes, both
/// move near a corner (within a quarter of the frame's size of both
/// nearest edges); elsewhere the axis whose nearest edge is proportionally
/// closer, the stacked one on a tie. A frame that is not laid out moves
/// both.
pub open spec fn resize_axes(layout: Seq<(FrameId, Rect)>, fid: FrameId, px: i32, py: i32, gap: i32) -> (bool, bool) {
    match first_match(layout, entry_of(fid)) {
        None => (true, true),
        Some(k) => {
            let r = layout[k].1;
            let h = exists|i: int| 0 <= i < layout.len() && side_neighbor(fid, r, #[trigger] layout[i], gap as int);
            let v = exists|i: int| 0 <= i < layout.len() && stacked_neighbor(fid, r, #[trigger] layout[i], gap as int);
            if h && v {
                let dh = min_int(abs_int(px - r.x), abs_int(r.x + r.width - px));
                let dv = min_int(abs_int(py - r.y), abs_int(r.y + r.height - py));
                if dh < quarter(r.width as int) && dv < quarter(r.height as int) {
                    (true, true)
                } else {
                    let w: int = if r.width >= 1 { r.width as int } else { 1 };
                    let hh: int = if r.height >= 1 { r.height as int } else { 1 };
                    (dh * hh < dv * w, dv * w <= dh * hh)
                }
            } else {
                (h, v)
            }
        },
    }
}

fn overlaps(s1: i64, l1: i64, s2: i64, l2: i64) -> (b: bool)
    requires
        i32::MIN <= s1 <= i32::MAX,
        i32::MIN <= l1 <= i32::MAX,
        i32::MIN <= s2 <= i32::MAX,
        i32::MIN <= l2 <= i32::MAX,
    ensures
        b == (overlap_len(s1 as int, l1 as int, s2 as int, l2 as int) > 0),
{
    let lo = if s1 >= s2 { s1 } else { s2 };
    let hi = if s1 + l1 <= s2 + l2 { s1 + l1 } else { s2 + l2 };
    hi - lo > 0
}

fn neighbors(layout: &Vec<(FrameId, Rect)>, fid: FrameId, me: Rect, gap: i32) -> (r: (bool, bool))
    ensures
        r.0 == exists|i: int| 0 <= i < layout@.len() && side_neighbor(fid, me, #[trigger] layout@[i], gap as int),
        r.1 == exists|i: int| 0 <= i < layout@.len() && stacked_neighbor(fid, me, #[trigger] layout@[i], gap as int),
{
    let mut h = false;
    let mut v = false;
    let mut i: usize = 0;
    while i < layout.len()
        invariant
            i <= layout@.len(),
            h == exists|j: int| 0 <= j < i && side_neighbor(fid, me, #[trigger] layout@[j], gap as int),
            v == exists|j: int| 0 <= j < i && stacked_neighbor(fid, me, #[trigger] layout@[j], gap as int),
        decreases layout@.len() - i,
    {
        let (id, o) = layout[i];
        if id != fid {
            let g = gap as i64;
            if overlaps(me.y as i64, me.height as i64, o.y as i64, o.height as i64)
                && (o.x as i64 + o.width as i64 <= me.x as i64 + g || o.x as i64 >= me.x as i64 + me.width as i64 - g) {
                h = true;
            }
            if overlaps(me.x as i64, me.width as i64, o.x as i64, o.width as i64)
                && (o.y as i64 + o.height as i64 <= me.y as i64 + g || o.y as i64 >= me.y as i64 + me.height as i64 - g) {
                v = true;
            }
        }
        proof {
            let e = layout@[i as int];
            assert(e == (id, o));
            if !h {
                assert forall|j: int| 0 <= j < i + 1 implies !side_neighbor(fid, me, #[trigger] layout@[j], gap as int) by {
                    if j < i {
                    }
                }
            }
            if !v {
                assert forall|j: int| 0 <= j < i + 1 implies !stacked_neighbor(fid, me, #[trigger] layout@[j], gap as int) by {
                    if j < i {
                    }
                }
            }
        }
        i += 1;
    }
    (h, v)
}

fn abs_min(a: i64, b: i64) -> (r: i64)
    requires
        -0x2_0000_0000 <= a <= 0x2_0000_0000,
        -0x2_0000_0000 <= b <= 0x2_0000_0000,
    ensures
        r == min_int(abs_int(a as int), abs_int(b as int)),
        0 <= r <= 0x2_0000_0000,
{
    let x = if a < 0 { -a } else { a };
    let y = if b < 0 { -b } else { b };
    if x <= y { x } else { y }
}

/// Which axes a resize drag started at (`px`, `py`) in frame `frame_id`
/// moves, given the laid-out frames of the focused workspace (empty when it
/// is on no output): see `resize_axes`.
pub fn detect_resize_axes(layout: &Vec<(FrameId, Rect)>, frame_id: FrameId, px: i32, py: i32, gap: i32) -> (r: (bool, bool))
    ensures
        r == resize_axes(layout@, frame_id, px, py, gap),
{
    let k = match entry_index(layout, frame_id) {
        Some(k) => k,
        None => return (true, true),
    };
    let me = layout[k].1;
    let (h, v) = neighbors(layout, frame_id, me, gap);
    if h && v {
        let dh = abs_min(px as i64 - me.x as i64, me.x as i64 + me.width as i64 - px as i64);
        let dv = abs_min(py as i64 - me.y as i64, me.y as i64 + me.height as i64 - py as i64);
        let ch = (me.width / 4) as i64;
        let cv = (me.height / 4) as i64;
        proof {
            assert(ch == quarter(me.width as int));
            assert(cv == quarter(me.height as int));
        }
        if dh < ch && dv < cv {
            (true, true)
        } else {
            let w: i128 = if me.width >= 1 { me.width as i128 } else { 1 };
            let hh: i128 = if me.height >= 1 { me.height as i128 } else { 1 };
            let a = dh as i128;
            let b = dv as i128;
            assert(0 <= a * hh <= 0x2_0000_0000 * 0x8000_0000) by (nonlinear_arith)
                requires 0 <= a <= 0x2_0000_0000, 1 <= hh <= 0x8000_0000;
            assert(0 <= b * w <= 0x2_0000_0000 * 0x8000_0000) by (nonlinear_arith)
                requires 0 <= b <= 0x2_0000_0000, 1 <= w <= 0x8000_0000;
            let lhs = a * hh;
            let rhs = b * w;
            (lhs < rhs, rhs <= lhs)
        }
    } else {
        (h, v)
    }
}

} // verus!
