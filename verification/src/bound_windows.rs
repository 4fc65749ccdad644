//! Keeping the windows of bound apps in their bound frames.

use vstd::prelude::*;
use crate::app_bindings::{locate, loc_view, locs_view, target_of, AppBindings, BoundLocation, LocView};
use crate::layout::{find_leaf, frame_with_window, has_window_id, FrameId, Tree, WindowRef};
use crate::pointer_ops::{has_frame, holds_window, ref_in, ref_in_frame, take_everywhere};
use crate::seqs::{first_match, lemma_first_match, lemma_first_match_agree, lemma_first_match_none, lemma_first_match_unique};
use crate::state::same_but_layout;
use crate::text::str_eq;
use crate::window_actions::{
    focus_of, lemma_relayout_trans, lemma_roots_index, place_window, placed_in, put_into, put_window_in, relayout,
    roots_of, take_from,
};
use crate::wm::ManagedWindow;
use crate::workspace::{Workspace, WorkspaceManager};

verus! {

/// Location `l` names a frame on a shown workspace.
pub open spec fn shown_target<R>(ws: Seq<Workspace<R>>) -> spec_fn(LocView) -> bool {
    |l: LocView| target_of(ws, l) matches Some((k, _f)) && ws[k].active_output is Some
}

/// The first of `locs` that names a frame on a shown workspace, as the
/// workspace's position and the frame.
pub open spec fn shown_bound<R>(ws: Seq<Workspace<R>>, locs: Seq<LocView>) -> Option<(int, FrameId)> {
    match first_match(locs, shown_target(ws)) {
        Some(i) => target_of(ws, locs[i]),
        None => None,
    }
}

/// The position of the first workspace with a frame holding window `wid`,
/// and that frame.
pub open spec fn current_place<R>(ws: Seq<Workspace<R>>, wid: u64) -> Option<(int, FrameId)> {
    match first_match(ws, holds_window::<R>(wid)) {
        Some(k) => Some((k, frame_with_window(ws[k].root@, wid).unwrap())),
        None => None,
    }
}

/// The moves (window, frame it leaves, workspace position and frame it
/// goes to) that bring the tiled windows of `app` not yet in frame `tgt`
/// there, in the order of `wins`.
pub open spec fn app_moves<R>(ws: Seq<Workspace<R>>, wins: Seq<ManagedWindow>, app: Seq<char>, tgt: (int, FrameId)) -> Seq<(u64, FrameId, int, FrameId)>
    decreases wins.len(),
{
    if wins.len() == 0 {
        Seq::empty()
    } else {
        let rest = app_moves(ws, wins.drop_last(), app, tgt);
        let w = wins.last();
        if w.app_id@ == app && !w.floating {
            match current_place(ws, w.id) {
                Some((ck, cf)) => if ck != tgt.0 || cf != tgt.1 {
                    rest.push((w.id, cf, tgt.0, tgt.1))
                } else {
                    rest
                },
                None => rest,
            }
        } else {
            rest
        }
    }
}

/// The moves for every binding, in order: each app whose bound locations
/// name a frame on a shown workspace gets its windows moved to the first
/// such frame.
pub open spec fn binding_moves<R>(ws: Seq<Workspace<R>>, wins: Seq<ManagedWindow>, v: Seq<(Seq<char>, Seq<LocView>)>) -> Seq<(u64, FrameId, int, FrameId)>
    decreases v.len(),
{
    if v.len() == 0 {
        Seq::empty()
    } else {
        binding_moves(ws, wins, v.drop_last()) + match shown_bound(ws, v.last().1) {
            Some(t) => app_moves(ws, wins, v.last().0, t),
            None => Seq::empty(),
        }
    }
}

pub open spec fn tree_has_frame<R>(fid: FrameId) -> spec_fn(Tree<R>) -> bool {
    |t: Tree<R>| find_leaf(t, fid) is Some
}

/// The reference to window `wid` in frame `fid` of the first tree that has
/// that frame.
pub open spec fn ref_in_trees<R>(roots: Seq<Tree<R>>, fid: FrameId, wid: u64) -> Option<WindowRef> {
    match first_match(roots, tree_has_frame::<R>(fid)) {
        Some(k) => match find_leaf(roots[k], fid) {
            Some(f) => match first_match(f.windows, has_window_id(wid)) {
                Some(p) => Some(f.windows[p]),
                None => None,
            },
            None => None,
        },
        None => None,
    }
}

/// Carrying out one move on the trees and the managed windows: the window
/// leaves its frame (in every tree) and joins the target frame as its
/// active tab; nothing happens when the window is no longer in that frame.
pub open spec fn apply_move<R>(roots: Seq<Tree<R>>, wins: Seq<ManagedWindow>, mv: (u64, FrameId, int, FrameId)) -> (Seq<Tree<R>>, Seq<ManagedWindow>) {
    match ref_in_trees(roots, mv.1, mv.0) {
        Some(r) => {
            let t = roots.map_values(|x: Tree<R>| take_from(x, mv.1, mv.0));
            (t.update(mv.2, put_into(t[mv.2], mv.3, r)), placed_in(wins, mv.0, mv.3))
        },
        None => (roots, wins),
    }
}

/// Carrying out the first `n` moves in order.
pub open spec fn apply_moves<R>(roots: Seq<Tree<R>>, wins: Seq<ManagedWindow>, moves: Seq<(u64, FrameId, int, FrameId)>, n: int) -> (Seq<Tree<R>>, Seq<ManagedWindow>)
    decreases n,
{
    if n <= 0 {
        (roots, wins)
    } else {
        let (r, w) = apply_moves(roots, wins, moves, n - 1);
        apply_move(r, w, moves[n - 1])
    }
}

pub open spec fn move_view(m: (u64, FrameId, usize, FrameId)) -> (u64, FrameId, int, FrameId) {
    (m.0, m.1, m.2 as int, m.3)
}

proof fn lemma_app_moves_in_range<R>(ws: Seq<Workspace<R>>, wins: Seq<ManagedWindow>, app: Seq<char>, tgt: (int, FrameId))
    ensures
        forall|i: int| 0 <= i < app_moves(ws, wins, app, tgt).len() ==> (#[trigger] app_moves(ws, wins, app, tgt)[i]).2 == tgt.0,
    decreases wins.len(),
{
    if wins.len() > 0 {
        let rest = app_moves(ws, wins.drop_last(), app, tgt);
        lemma_app_moves_in_range(ws, wins.drop_last(), app, tgt);
        let all = app_moves(ws, wins, app, tgt);
        assert forall|i: int| 0 <= i < all.len() implies (#[trigger] all[i]).2 == tgt.0 by {
            if i < rest.len() {
                assert(all[i] == rest[i]);
            }
        }
    }
}

proof fn lemma_ref_in_trees<R>(m: WorkspaceManager<R>, fid: FrameId, wid: u64)
    ensures
        ref_in(m.workspaces@, fid, wid) == ref_in_trees(roots_of(m), fid, wid),
{
    let ws = m.workspaces@;
    assert forall|k: int| 0 <= k < ws.len() implies has_frame::<R>(fid)(#[trigger] ws[k]) == tree_has_frame::<R>(fid)(roots_of(m)[k]) by {
        lemma_roots_index(m, k);
    }
    lemma_first_match_agree(ws, has_frame::<R>(fid), roots_of(m), tree_has_frame::<R>(fid));
    lemma_first_match(ws, has_frame::<R>(fid));
    if let Some(k) = first_match(ws, has_frame::<R>(fid)) {
        lemma_roots_index(m, k);
    }
}

pub(crate) fn current_place_of<R: Copy>(m: &WorkspaceManager<R>, wid: u64) -> (r: Option<(usize, FrameId)>)
    ensures
        match r {
            Some((k, f)) => current_place(m.workspaces@, wid) == Some((k as int, f)) && k < m.workspaces@.len(),
            None => current_place(m.workspaces@, wid) is None,
        },
{
    let ghost q = holds_window::<R>(wid);
    let mut i: usize = 0;
    while i < m.workspaces.len()
        invariant
            i <= m.workspaces@.len(),
            q == holds_window::<R>(wid),
            forall|j: int| 0 <= j < i ==> !q(#[trigger] m.workspaces@[j]),
        decreases m.workspaces@.len() - i,
    {
        if let Some(fid) = m.workspaces[i].root.find_frame_with_window(wid) {
            proof {
                lemma_first_match_unique(m.workspaces@, q, i as int);
            }
            return Some((i, fid));
        }
        i += 1;
    }
    proof {
        lemma_first_match_none(m.workspaces@, q);
    }
    None
}

fn shown_bound_of<R: Copy>(m: &WorkspaceManager<R>, locs: &Vec<BoundLocation>) -> (r: Option<(usize, FrameId)>)
    ensures
        match r {
            Some((k, f)) => shown_bound(m.workspaces@, locs_view(locs@)) == Some((k as int, f)) && k < m.workspaces@.len(),
            None => shown_bound(m.workspaces@, locs_view(locs@)) is None,
        },
{
    let ghost lv = locs_view(locs@);
    let ghost q = shown_target(m.workspaces@);
    let mut i: usize = 0;
    while i < locs.len()
        invariant
            i <= locs@.len(),
            lv == locs_view(locs@),
            q == shown_target(m.workspaces@),
            forall|j: int| 0 <= j < i ==> !q(#[trigger] lv[j]),
        decreases locs@.len() - i,
    {
        proof {
            assert(lv[i as int] == loc_view(locs@[i as int]));
        }
        if let Some((k, fid)) = locate(m, &locs[i]) {
            if m.workspaces[k].active_output.is_some() {
                proof {
                    lemma_first_match_unique(lv, q, i as int);
                }
                return Some((k, fid));
            }
        }
        i += 1;
    }
    proof {
        lemma_first_match_none(lv, q);
    }
    None
}

fn collect_app_moves<R: Copy>(
    m: &WorkspaceManager<R>,
    windows: &Vec<ManagedWindow>,
    app: &str,
    tgt: (usize, FrameId),
    moves: &mut Vec<(u64, FrameId, usize, FrameId)>,
)
    ensures
        final(moves)@.map_values(|x: (u64, FrameId, usize, FrameId)| move_view(x))
            == old(moves)@.map_values(|x: (u64, FrameId, usize, FrameId)| move_view(x)) + app_moves(m.workspaces@, windows@, app@, (tgt.0 as int, tgt.1)),
{
    let ghost t = (tgt.0 as int, tgt.1);
    let ghost start = old(moves)@.map_values(|x: (u64, FrameId, usize, FrameId)| move_view(x));
    let mut i: usize = 0;
    while i < windows.len()
        invariant
            i <= windows@.len(),
            t == (tgt.0 as int, tgt.1),
            moves@.map_values(|x: (u64, FrameId, usize, FrameId)| move_view(x)) == start + app_moves(m.workspaces@, windows@.take(i as int), app@, t),
        decreases windows@.len() - i,
    {
        let ghost before = moves@;
        proof {
            assert(windows@.take(i + 1).drop_last() =~= windows@.take(i as int));
            assert(windows@.take(i + 1).last() == windows@[i as int]);
        }
        let w = &windows[i];
        if str_eq(w.app_id.as_str(), app) && !w.floating {
            if let Some((ck, cf)) = current_place_of(m, w.id) {
                if ck != tgt.0 || cf != tgt.1 {
                    moves.push((w.id, cf, tgt.0, tgt.1));
                    proof {
                        assert(moves@.map_values(|x: (u64, FrameId, usize, FrameId)| move_view(x))
                            =~= before.map_values(|x: (u64, FrameId, usize, FrameId)| move_view(x)).push((w.id, cf, tgt.0 as int, tgt.1)));
                    }
                }
            }
        }
        i += 1;
    }
    proof {
        assert(windows@.take(i as int) =~= windows@);
    }
}

/// Move the tiled windows of each bound app into the first of its bound
/// frames that is on a shown workspace (see `binding_moves`), in order; a
/// window no longer in the frame it was found in stays where it is.
pub fn enforce_app_bindings<R: Copy>(workspaces: &mut WorkspaceManager<R>, windows: &mut Vec<ManagedWindow>, bindings: &AppBindings)
    ensures
        ({
            let moves = binding_moves(old(workspaces).workspaces@, old(windows)@, bindings@);
            let (r, w) = apply_moves(roots_of(*old(workspaces)), old(windows)@, moves, moves.len() as int);
            &&& relayout(*old(workspaces), *final(workspaces), r, focus_of(*old(workspaces)))
            &&& final(windows)@ == w
        }),
        final(workspaces).focused_workspace == old(workspaces).focused_workspace,
{
    let ghost m0 = *workspaces;
    let ghost w0 = windows@;
    let ghost n = m0.workspaces@.len();
    let mut moves: Vec<(u64, FrameId, usize, FrameId)> = Vec::new();
    let mut b: usize = 0;
    while b < bindings.bindings.len()
        invariant
            b <= bindings@.len(),
            bindings@.len() == bindings.bindings@.len(),
            *workspaces == m0,
            n == m0.workspaces@.len(),
            windows@ == w0,
            moves@.map_values(|x: (u64, FrameId, usize, FrameId)| move_view(x)) == binding_moves(m0.workspaces@, w0, bindings@.take(b as int)),
            forall|i: int| 0 <= i < moves@.len() ==> (#[trigger] moves@[i]).2 < n,
        decreases bindings@.len() - b,
    {
        let ghost before = moves@;
        proof {
            assert(bindings@.take(b + 1).drop_last() =~= bindings@.take(b as int));
            assert(bindings@.take(b + 1).last() == bindings@[b as int]);
            assert(bindings@[b as int] == (bindings.bindings@[b as int].0@, locs_view(bindings.bindings@[b as int].1@)));
        }
        let (app, locs) = &bindings.bindings[b];
        if let Some(t) = shown_bound_of(workspaces, locs) {
            collect_app_moves(workspaces, windows, app.as_str(), t, &mut moves);
            proof {
                let am = app_moves(m0.workspaces@, w0, app@, (t.0 as int, t.1));
                assert(shown_bound(m0.workspaces@, bindings@[b as int].1) == Some((t.0 as int, t.1)));
                assert(binding_moves(m0.workspaces@, w0, bindings@.take(b + 1)) == binding_moves(m0.workspaces@, w0, bindings@.take(b as int)) + am);
                lemma_app_moves_in_range(m0.workspaces@, w0, app@, (t.0 as int, t.1));
                let mv = moves@.map_values(|x: (u64, FrameId, usize, FrameId)| move_view(x));
                let bv = before.map_values(|x: (u64, FrameId, usize, FrameId)| move_view(x));
                assert(mv.len() == moves@.len());
                assert(bv.len() == before.len());
                assert(mv == bv + am);
                assert forall|i: int| 0 <= i < moves@.len() implies (#[trigger] moves@[i]).2 < n by {
                    assert(mv[i] == move_view(moves@[i]));
                    if i >= before.len() {
                        assert(mv[i] == am[i - before.len()]);
                        assert(am[i - before.len()].2 == t.0);
                        assert(t.0 < n);
                        assert(mv[i].2 == moves@[i].2 as int);
                    } else {
                        assert(mv[i] == bv[i]);
                        assert(bv[i] == move_view(before[i]));
                        assert(before[i].2 < n);
                    }
                }
            }
        } else {
            proof {
                assert(binding_moves(m0.workspaces@, w0, bindings@.take(b + 1)) =~= binding_moves(m0.workspaces@, w0, bindings@.take(b as int)));
            }
        }
        b += 1;
    }
    proof {
        assert(bindings@.take(b as int) =~= bindings@);
    }
    let ghost mv = moves@.map_values(|x: (u64, FrameId, usize, FrameId)| move_view(x));
    let mut j: usize = 0;
    while j < moves.len()
        invariant
            j <= moves@.len(),
            mv == moves@.map_values(|x: (u64, FrameId, usize, FrameId)| move_view(x)),
            n == m0.workspaces@.len(),
            forall|i: int| 0 <= i < moves@.len() ==> (#[trigger] moves@[i]).2 < n,
            ({
                let (r, w) = apply_moves(roots_of(m0), w0, mv, j as int);
                &&& relayout(m0, *workspaces, r, focus_of(m0))
                &&& windows@ == w
            }),
            workspaces.focused_workspace == m0.focused_workspace,
        decreases moves@.len() - j,
    {
        let (wid, src, dst_ws, dst_fid) = moves[j];
        let ghost mj = *workspaces;
        proof {
            assert(moves@[j as int].2 < n);
            assert(mv[j as int] == (wid, src, dst_ws as int, dst_fid));
            lemma_ref_in_trees(mj, src, wid);
        }
        if let Some(r) = ref_in_frame(workspaces, src, wid) {
            take_everywhere(workspaces, src, wid);
            let ghost m1 = *workspaces;
            proof {
                lemma_relayout_trans(m0, mj, m1);
                lemma_roots_index(m1, dst_ws as int);
            }
            put_window_in(workspaces, dst_ws, dst_fid, r);
            proof {
                lemma_relayout_trans(m0, m1, *workspaces);
            }
            place_window(windows, wid, dst_fid);
        }
        j += 1;
    }
}

} // verus!
