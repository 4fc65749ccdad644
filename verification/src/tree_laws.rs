//! What the edits and searches of the frame tree do, stated over positions
//! in the tree: which split a toggle flips, which split a resize moves,
//! which frame is the neighbor in a direction, and on which side of the
//! target frame an edge drop puts the dropped window.

use vstd::prelude::*;
use crate::layout::{
    flipped, has_id, ids_unique, is_candidate, is_nearest, is_neighbor_answer, leaf_ids, moves_along, neighbor_candidate,
    empty_frame, find_leaf, replace_leaf, FrameView, WindowRef, overlap_len, rect_of, resize_target, split_at_side, toggle_at, Direction, FrameId,
    Orientation, Rect, Tree,
};
use crate::pointer_ops::{drop_outcome, ref_in, source_frame, zone_new_first, zone_orientation, DropZone};
use crate::window_actions::{frame_with, law_windows_keep_layout, put_into, roots_of, take_from};
use crate::wm::ManagedWindow;
use crate::workspace::WorkspaceManager;

verus! {

/// The subtree reached from the root of `t` by the path `p` (`false` for
/// the first child, `true` for the second), if the path stays in the tree.
pub open spec fn subtree<R>(t: Tree<R>, p: Seq<bool>) -> Option<Tree<R>>
    decreases p.len(),
{
    if p.len() == 0 {
        Some(t)
    } else {
        match t {
            Tree::Leaf(_) => None,
            Tree::Split { first, second, .. } => if p[0] {
                subtree(*second, p.drop_first())
            } else {
                subtree(*first, p.drop_first())
            },
        }
    }
}

/// Side by side becomes stacked, and stacked side by side.
pub open spec fn other_orientation(o: Orientation) -> Orientation {
    if o == Orientation::Horizontal { Orientation::Vertical } else { Orientation::Horizontal }
}

/// `t` with the orientation of the split at path `p` turned, and nothing
/// else changed.
pub open spec fn flip_at<R>(t: Tree<R>, p: Seq<bool>) -> Tree<R>
    decreases p.len(),
{
    match t {
        Tree::Leaf(_) => t,
        Tree::Split { orientation, ratio, first, second } => if p.len() == 0 {
            Tree::Split { orientation: other_orientation(orientation), ratio, first, second }
        } else if p[0] {
            Tree::Split { orientation, ratio, first, second: Box::new(flip_at(*second, p.drop_first())) }
        } else {
            Tree::Split { orientation, ratio, first: Box::new(flip_at(*first, p.drop_first())), second }
        },
    }
}

/// `t` is the leaf of frame `id`.
pub open spec fn is_leaf_of<R>(t: Tree<R>, id: FrameId) -> bool {
    t matches Tree::Leaf(f) && f.id == id
}

/// The node at path `p` is a split with the leaf of frame `id` as one of
/// its two children.
pub open spec fn parent_of_leaf<R>(t: Tree<R>, p: Seq<bool>, id: FrameId) -> bool {
    subtree(t, p) matches Some(Tree::Split { first, second, .. }) && (is_leaf_of(*first, id) || is_leaf_of(*second, id))
}

proof fn lemma_subtree_prefix<R>(t: Tree<R>, side: bool, p: Seq<bool>)
    ensures
        subtree(t, seq![side] + p) == match t {
            Tree::Leaf(_) => None,
            Tree::Split { first, second, .. } => if side { subtree(*second, p) } else { subtree(*first, p) },
        },
        flip_at(t, seq![side] + p) == match t {
            Tree::Leaf(_) => t,
            Tree::Split { orientation, ratio, first, second } => if side {
                Tree::Split { orientation, ratio, first, second: Box::new(flip_at(*second, p)) }
            } else {
                Tree::Split { orientation, ratio, first: Box::new(flip_at(*first, p)), second }
            },
        },
{
    let q = seq![side] + p;
    assert(q[0] == side);
    assert(q.drop_first() =~= p);
}

/// A split that holds frame `id` is always handled by a toggle.
proof fn lemma_toggle_unhandled<R>(t: Tree<R>, id: FrameId)
    requires
        has_id(t, id),
        !toggle_at(t, id).1,
    ensures
        is_leaf_of(t, id),
{
    match t {
        Tree::Leaf(f) => {
            assert(leaf_ids(t) == seq![f.id]);
            assert(leaf_ids(t).contains(id));
            let k = choose|k: int| 0 <= k < leaf_ids(t).len() && leaf_ids(t)[k] == id;
        },
        Tree::Split { first, second, .. } => {
            crate::layout::lemma_contains_concat(leaf_ids(*first), leaf_ids(*second), id);
        },
    }
}

/// Toggling the orientation for frame `id` turns exactly one split, a split
/// with the leaf of `id` as a direct child (the innermost split holding
/// the frame), and leaves every other split as it was; when no split holds
/// the frame the tree is unchanged.
pub proof fn law_toggle_flips_parent_of_frame<R>(t: Tree<R>, id: FrameId)
    ensures
        toggle_at(t, id).1 ==> exists|p: Seq<bool>| #[trigger] parent_of_leaf(t, p, id) && toggle_at(t, id).0 == flip_at(t, p),
        !toggle_at(t, id).1 ==> toggle_at(t, id).0 == t,
    decreases t,
{
    match t {
        Tree::Leaf(_) => {},
        Tree::Split { orientation, ratio, first, second } => {
            if has_id(*first, id) || has_id(*second, id) {
                let (a, ha) = toggle_at(*first, id);
                if ha {
                    law_toggle_flips_parent_of_frame(*first, id);
                    let p = choose|p: Seq<bool>| #[trigger] parent_of_leaf(*first, p, id) && a == flip_at(*first, p);
                    lemma_subtree_prefix(t, false, p);
                    assert(parent_of_leaf(t, seq![false] + p, id));
                } else {
                    let (b, hb) = toggle_at(*second, id);
                    if hb {
                        law_toggle_flips_parent_of_frame(*second, id);
                        let p = choose|p: Seq<bool>| #[trigger] parent_of_leaf(*second, p, id) && b == flip_at(*second, p);
                        lemma_subtree_prefix(t, true, p);
                        assert(parent_of_leaf(t, seq![true] + p, id));
                    } else {
                        if has_id(*first, id) {
                            lemma_toggle_unhandled(*first, id);
                        } else {
                            lemma_toggle_unhandled(*second, id);
                        }
                        assert(subtree(t, Seq::<bool>::empty()) == Some(t));
                        assert(parent_of_leaf(t, Seq::<bool>::empty(), id));
                        assert(toggle_at(t, id).0 == flip_at(t, Seq::<bool>::empty()));
                    }
                }
            }
        },
    }
}

/// The splits whose boundary a move in direction `d` shifts: side-by-side
/// splits for left and right, stacked ones for up and down.
pub open spec fn axis_of(d: Direction) -> Orientation {
    if d == Direction::Left || d == Direction::Right { Orientation::Horizontal } else { Orientation::Vertical }
}

/// The node at path `p` is a split along `d`'s axis that holds frame `id`.
pub open spec fn axis_split_with<R>(t: Tree<R>, p: Seq<bool>, id: FrameId, d: Direction) -> bool {
    subtree(t, p) matches Some(Tree::Split { orientation, first, second, .. })
        && orientation == axis_of(d) && (has_id(*first, id) || has_id(*second, id))
}

/// A split holds a frame exactly when one of its children does.
proof fn lemma_has_id_split<R>(t: Tree<R>, id: FrameId)
    ensures
        t matches Tree::Split { first, second, .. } ==> (has_id(t, id) <==> (has_id(*first, id) || has_id(*second, id))),
{
    if let Tree::Split { first, second, .. } = t {
        crate::layout::lemma_contains_concat(leaf_ids(*first), leaf_ids(*second), id);
    }
}

/// What a subtree holds, the tree holds.
proof fn lemma_subtree_has<R>(t: Tree<R>, q: Seq<bool>, id: FrameId)
    ensures
        subtree(t, q) matches Some(s) && has_id(s, id) ==> has_id(t, id),
    decreases q.len(),
{
    if q.len() > 0 {
        if let Tree::Split { first, second, .. } = t {
            lemma_has_id_split(t, id);
            if q[0] {
                lemma_subtree_has(*second, q.drop_first(), id);
            } else {
                lemma_subtree_has(*first, q.drop_first(), id);
            }
        }
    }
}

/// No axis split holding `id` lies in a subtree that lacks `id`.
proof fn lemma_no_axis_without<R>(t: Tree<R>, q: Seq<bool>, id: FrameId, d: Direction)
    requires
        !has_id(t, id),
    ensures
        !axis_split_with(t, q, id, d),
{
    lemma_subtree_has(t, q, id);
    if let Some(s) = subtree(t, q) {
        lemma_has_id_split(s, id);
    }
}

proof fn lemma_unique_children<R>(t: Tree<R>, id: FrameId)
    requires
        ids_unique(t),
    ensures
        t matches Tree::Split { first, second, .. } ==> {
            &&& ids_unique(*first)
            &&& ids_unique(*second)
            &&& has_id(*first, id) ==> !has_id(*second, id)
        },
{
    if let Tree::Split { first, second, .. } = t {
        let a = leaf_ids(*first);
        let b = leaf_ids(*second);
        crate::layout::lemma_no_dup_concat(a, b);
        if has_id(*first, id) && has_id(*second, id) {
            let i = choose|i: int| 0 <= i < a.len() && a[i] == id;
            let j = choose|j: int| 0 <= j < b.len() && b[j] == id;
            assert(a[i] != b[j]);
        }
    }
}

proof fn lemma_axis_prefix<R>(t: Tree<R>, side: bool, q: Seq<bool>, id: FrameId, d: Direction)
    ensures
        axis_split_with(t, seq![side] + q, id, d) == match t {
            Tree::Leaf(_) => false,
            Tree::Split { first, second, .. } => if side {
                axis_split_with(*second, q, id, d)
            } else {
                axis_split_with(*first, q, id, d)
            },
        },
{
    lemma_subtree_prefix(t, side, q);
}

/// A path found in a child, prefixed with the side of that child.
proof fn lemma_child_path<R>(t: Tree<R>, side: bool, c: Tree<R>, p1: Seq<bool>, id: FrameId, d: Direction)
    requires
        t matches Tree::Split { first, second, .. } && c == if side { *second } else { *first },
        axis_split_with(c, p1, id, d),
        forall|q: Seq<bool>| q.len() > 0 ==> !#[trigger] axis_split_with(c, p1 + q, id, d),
    ensures
        axis_split_with(t, seq![side] + p1, id, d),
        forall|q: Seq<bool>| q.len() > 0 ==> !#[trigger] axis_split_with(t, (seq![side] + p1) + q, id, d),
{
    lemma_axis_prefix(t, side, p1, id, d);
    assert forall|q: Seq<bool>| q.len() > 0 implies !#[trigger] axis_split_with(t, (seq![side] + p1) + q, id, d) by {
        assert((seq![side] + p1) + q =~= seq![side] + (p1 + q));
        lemma_axis_prefix(t, side, p1 + q, id, d);
        assert(!axis_split_with(c, p1 + q, id, d));
    }
}

/// A nonempty path goes into one of the children.
proof fn lemma_path_split<R>(t: Tree<R>, p: Seq<bool>, id: FrameId, d: Direction)
    requires
        p.len() > 0,
    ensures
        axis_split_with(t, p, id, d) == match t {
            Tree::Leaf(_) => false,
            Tree::Split { first, second, .. } => if p[0] {
                axis_split_with(*second, p.drop_first(), id, d)
            } else {
                axis_split_with(*first, p.drop_first(), id, d)
            },
        },
{
    assert(p =~= seq![p[0]] + p.drop_first());
    lemma_axis_prefix(t, p[0], p.drop_first(), id, d);
}

/// Resizing frame `id` along `d` moves the innermost split along that
/// axis that holds the frame: the path it gives leads to a split along the
/// axis holding the frame, and no split below it holds the frame along the
/// same axis. When it gives no path, no split along the axis holds the
/// frame.
pub proof fn law_resize_moves_innermost_split<R>(t: Tree<R>, id: FrameId, d: Direction)
    requires
        ids_unique(t),
    ensures
        resize_target(t, id, d) matches Some(p) ==> {
            &&& axis_split_with(t, p, id, d)
            &&& forall|q: Seq<bool>| q.len() > 0 ==> !#[trigger] axis_split_with(t, p + q, id, d)
        },
        resize_target(t, id, d) is None ==> forall|p: Seq<bool>| !#[trigger] axis_split_with(t, p, id, d),
    decreases t,
{
    match t {
        Tree::Leaf(_) => {
            assert forall|p: Seq<bool>| !#[trigger] axis_split_with(t, p, id, d) by {
                if p.len() > 0 {
                    lemma_path_split(t, p, id, d);
                }
            }
        },
        Tree::Split { orientation, first, second, .. } => {
            lemma_unique_children(t, id);
            law_resize_moves_innermost_split(*first, id, d);
            law_resize_moves_innermost_split(*second, id, d);
            let e = Seq::<bool>::empty();
            assert(subtree(t, e) == Some(t));
            assert(moves_along(d, orientation) == (orientation == axis_of(d)));
            if moves_along(d, orientation) && (has_id(*first, id) || has_id(*second, id)) {
                let side = !has_id(*first, id);
                let c = if side { *second } else { *first };
                match resize_target(c, id, d) {
                    Some(p1) => lemma_child_path(t, side, c, p1, id, d),
                    None => {
                        assert forall|q: Seq<bool>| q.len() > 0 implies !#[trigger] axis_split_with(t, e + q, id, d) by {
                            assert(e + q =~= q);
                            lemma_path_split(t, q, id, d);
                            if q[0] != side {
                                if q[0] {
                                    lemma_no_axis_without(*second, q.drop_first(), id, d);
                                } else {
                                    lemma_no_axis_without(*first, q.drop_first(), id, d);
                                }
                            }
                        }
                    },
                }
            } else {
                match resize_target(*first, id, d) {
                    Some(p1) => lemma_child_path(t, false, *first, p1, id, d),
                    None => match resize_target(*second, id, d) {
                        Some(p2) => lemma_child_path(t, true, *second, p2, id, d),
                        None => {
                            assert forall|p: Seq<bool>| !#[trigger] axis_split_with(t, p, id, d) by {
                                if p.len() > 0 {
                                    lemma_path_split(t, p, id, d);
                                }
                            }
                        },
                    },
                }
            }
        },
    }
}

// ── Neighbors in a direction ──────────────────────────────────────────────

pub open spec fn left_edge(r: Rect) -> int {
    r.x as int
}

pub open spec fn right_edge(r: Rect) -> int {
    r.x + r.width
}

pub open spec fn top_edge(r: Rect) -> int {
    r.y as int
}

pub open spec fn bottom_edge(r: Rect) -> int {
    r.y + r.height
}

/// The spans `[a, a + la)` and `[b, b + lb)` share some point.
pub open spec fn spans_meet(a: int, la: int, b: int, lb: int) -> bool {
    la > 0 && lb > 0 && a < b + lb && b < a + la
}

/// `r` lies wholly beyond the edge of `from` that faces `d`, and the two
/// overlap across the other axis.
pub open spec fn lies_toward(from: Rect, r: Rect, d: Direction) -> bool {
    match d {
        Direction::Left => right_edge(r) <= left_edge(from)
            && spans_meet(top_edge(from), from.height as int, top_edge(r), r.height as int),
        Direction::Right => left_edge(r) >= right_edge(from)
            && spans_meet(top_edge(from), from.height as int, top_edge(r), r.height as int),
        Direction::Up => bottom_edge(r) <= top_edge(from)
            && spans_meet(left_edge(from), from.width as int, left_edge(r), r.width as int),
        Direction::Down => top_edge(r) >= bottom_edge(from)
            && spans_meet(left_edge(from), from.width as int, left_edge(r), r.width as int),
    }
}

/// The pixels between the edge of `from` that faces `d` and the facing
/// edge of `r`.
pub open spec fn edge_gap(from: Rect, r: Rect, d: Direction) -> int {
    match d {
        Direction::Left => left_edge(from) - right_edge(r),
        Direction::Right => left_edge(r) - right_edge(from),
        Direction::Up => top_edge(from) - bottom_edge(r),
        Direction::Down => top_edge(r) - bottom_edge(from),
    }
}

/// Entry `k` is another frame lying toward `d` from `from`, no frame lying
/// that way is closer, and none before it in the layout is as close.
pub open spec fn nearest_toward(layout: Seq<(FrameId, Rect)>, target: FrameId, from: Rect, d: Direction, k: int) -> bool {
    &&& 0 <= k < layout.len()
    &&& layout[k].0 != target
    &&& lies_toward(from, layout[k].1, d)
    &&& edge_gap(from, layout[k].1, d) >= 0
    &&& forall|j: int| 0 <= j < layout.len() && layout[j].0 != target && #[trigger] lies_toward(from, layout[j].1, d)
        ==> edge_gap(from, layout[k].1, d) <= edge_gap(from, layout[j].1, d)
    &&& forall|j: int| 0 <= j < k && layout[j].0 != target && #[trigger] lies_toward(from, layout[j].1, d)
        ==> edge_gap(from, layout[k].1, d) < edge_gap(from, layout[j].1, d)
}

proof fn lemma_candidate_is_toward(from: Rect, r: Rect, d: Direction)
    ensures
        neighbor_candidate(from, r, d).0 == lies_toward(from, r, d),
        neighbor_candidate(from, r, d).1 == edge_gap(from, r, d),
{
}

/// The neighbor of frame `target` in direction `d` is a frame lying that
/// way whose gap to the target (the pixels between the facing edges, never
/// negative) is no larger than any other such frame's, the first in the
/// layout among equally near ones; there is none only
/// when no frame lies that way, or the layout lacks the target.
pub proof fn law_neighbor_is_nearest(layout: Seq<(FrameId, Rect)>, target: FrameId, d: Direction, r: Option<FrameId>)
    requires
        is_neighbor_answer(layout, target, d, r),
    ensures
        rect_of(layout, target) is None ==> r is None,
        rect_of(layout, target) matches Some(from) ==> match r {
            None => forall|j: int| 0 <= j < layout.len() && layout[j].0 != target ==> !#[trigger] lies_toward(from, layout[j].1, d),
            Some(id) => exists|k: int| #[trigger] nearest_toward(layout, target, from, d, k) && layout[k].0 == id,
        },
{
    if let Some(from) = rect_of(layout, target) {
        match r {
            None => {
                assert forall|j: int| 0 <= j < layout.len() && layout[j].0 != target implies !#[trigger] lies_toward(from, layout[j].1, d) by {
                    lemma_candidate_is_toward(from, layout[j].1, d);
                    assert(!is_candidate(layout, target, from, d, j));
                }
            },
            Some(id) => {
                let k = choose|k: int| is_nearest(layout, target, from, d, k) && layout[k].0 == id;
                lemma_candidate_is_toward(from, layout[k].1, d);
                assert forall|j: int| 0 <= j < layout.len() && layout[j].0 != target && #[trigger] lies_toward(from, layout[j].1, d)
                    implies edge_gap(from, layout[k].1, d) <= edge_gap(from, layout[j].1, d) by {
                    lemma_candidate_is_toward(from, layout[j].1, d);
                    assert(is_candidate(layout, target, from, d, j));
                }
                assert forall|j: int| 0 <= j < k && layout[j].0 != target && #[trigger] lies_toward(from, layout[j].1, d)
                    implies edge_gap(from, layout[k].1, d) < edge_gap(from, layout[j].1, d) by {
                    lemma_candidate_is_toward(from, layout[j].1, d);
                    assert(is_candidate(layout, target, from, d, j));
                }
                assert(nearest_toward(layout, target, from, d, k));
            },
        }
    }
}

// ── The side an edge drop puts the window on ──────────────────────────────

/// The position of the first `x` in `s` (its length when `x` is absent).
pub open spec fn first_pos(s: Seq<FrameId>, x: FrameId) -> int
    decreases s.len(),
{
    if s.len() == 0 {
        0
    } else if s[0] == x {
        0
    } else {
        1 + first_pos(s.drop_first(), x)
    }
}

proof fn lemma_first_pos(s: Seq<FrameId>, x: FrameId)
    ensures
        s.contains(x) ==> 0 <= first_pos(s, x) < s.len() && s[first_pos(s, x)] == x,
        !s.contains(x) ==> first_pos(s, x) == s.len(),
    decreases s.len(),
{
    if s.len() > 0 {
        lemma_first_pos(s.drop_first(), x);
        if s[0] != x {
            if s.contains(x) {
                let i = choose|i: int| 0 <= i < s.len() && s[i] == x;
                assert(s.drop_first()[i - 1] == x);
            }
            if s.drop_first().contains(x) {
                let i = choose|i: int| 0 <= i < s.drop_first().len() && s.drop_first()[i] == x;
                assert(s[i + 1] == x);
            }
        }
    }
}

proof fn lemma_first_pos_concat(a: Seq<FrameId>, b: Seq<FrameId>, x: FrameId)
    ensures
        a.contains(x) ==> first_pos(a + b, x) == first_pos(a, x),
        !a.contains(x) ==> first_pos(a + b, x) == a.len() + first_pos(b, x),
    decreases a.len(),
{
    if a.len() > 0 {
        assert((a + b).drop_first() =~= a.drop_first() + b);
        assert((a + b)[0] == a[0]);
        lemma_first_pos_concat(a.drop_first(), b, x);
        if a[0] != x {
            if a.contains(x) {
                let i = choose|i: int| 0 <= i < a.len() && a[i] == x;
                assert(a.drop_first()[i - 1] == x);
            }
            if a.drop_first().contains(x) {
                let i = choose|i: int| 0 <= i < a.drop_first().len() && a.drop_first()[i] == x;
                assert(a[i + 1] == x);
            }
        } else {
            assert(a.contains(x)) by {
                assert(a[0] == x);
            }
        }
    } else {
        assert(a + b =~= b);
    }
}

/// Splitting frame `target` puts the new frame right before it in the
/// order of the frames when `new_first`, else right after it.
proof fn lemma_split_side_leaves<R>(t: Tree<R>, target: FrameId, o: Orientation, r: R, nid: FrameId, new_first: bool)
    requires
        has_id(t, target),
    ensures
        leaf_ids(split_at_side(t, target, o, r, nid, new_first))
            == leaf_ids(t).insert(first_pos(leaf_ids(t), target) + if new_first { 0int } else { 1int }, nid),
    decreases t,
{
    match t {
        Tree::Leaf(f) => {
            assert(leaf_ids(t) == seq![f.id]);
            let i = choose|i: int| 0 <= i < leaf_ids(t).len() && leaf_ids(t)[i] == target;
            assert(f.id == target);
            assert(first_pos(leaf_ids(t), target) == 0);
            let sp = split_at_side(t, target, o, r, nid, new_first);
            if new_first {
                assert(leaf_ids(sp) == leaf_ids(Tree::<R>::Leaf(empty_frame(nid))) + leaf_ids(t));
                assert(leaf_ids(sp) =~= seq![target].insert(0, nid));
            } else {
                assert(leaf_ids(sp) == leaf_ids(t) + leaf_ids(Tree::<R>::Leaf(empty_frame(nid))));
                assert(leaf_ids(sp) =~= seq![target].insert(1, nid));
            }
        },
        Tree::Split { orientation, ratio, first, second } => {
            let a = leaf_ids(*first);
            let b = leaf_ids(*second);
            let dl: int = if new_first { 0 } else { 1 };
            crate::layout::lemma_contains_concat(a, b, target);
            lemma_first_pos_concat(a, b, target);
            if has_id(*first, target) {
                lemma_split_side_leaves(*first, target, o, r, nid, new_first);
                lemma_first_pos(a, target);
                let j = first_pos(a, target) + dl;
                assert(a.insert(j, nid) + b =~= (a + b).insert(j, nid));
            } else {
                lemma_split_side_leaves(*second, target, o, r, nid, new_first);
                lemma_first_pos(b, target);
                let j = first_pos(b, target) + dl;
                assert(a + b.insert(j, nid) =~= (a + b).insert(a.len() + j, nid));
            }
        },
    }
}

/// The node at path `p` is a split of orientation `o` whose first child is
/// the leaf of frame `a` and whose second is the leaf of frame `b`.
pub open spec fn sibling_pair<R>(t: Tree<R>, p: Seq<bool>, o: Orientation, a: FrameId, b: FrameId) -> bool {
    subtree(t, p) matches Some(Tree::Split { orientation, first, second, .. })
        && orientation == o && is_leaf_of(*first, a) && is_leaf_of(*second, b)
}

/// Splitting frame `target` makes it and the new frame the two children of
/// a split of orientation `o`, the new frame first when `new_first`.
proof fn lemma_split_side_pair<R>(t: Tree<R>, target: FrameId, o: Orientation, r: R, nid: FrameId, new_first: bool, a: FrameId, b: FrameId)
    requires
        has_id(t, target),
        a == if new_first { nid } else { target },
        b == if new_first { target } else { nid },
    ensures
        exists|p: Seq<bool>| #[trigger] sibling_pair(split_at_side(t, target, o, r, nid, new_first), p, o, a, b),
    decreases t,
{
    let sp = split_at_side(t, target, o, r, nid, new_first);
    match t {
        Tree::Leaf(f) => {
            assert(leaf_ids(t) == seq![f.id]);
            let i = choose|i: int| 0 <= i < leaf_ids(t).len() && leaf_ids(t)[i] == target;
            assert(subtree(sp, Seq::<bool>::empty()) == Some(sp));
            assert(sibling_pair(sp, Seq::<bool>::empty(), o, a, b));
        },
        Tree::Split { orientation, ratio, first, second } => {
            crate::layout::lemma_contains_concat(leaf_ids(*first), leaf_ids(*second), target);
            let side = !has_id(*first, target);
            let c = if side { *second } else { *first };
            lemma_split_side_pair(c, target, o, r, nid, new_first, a, b);
            let p1 = choose|p1: Seq<bool>| #[trigger] sibling_pair(split_at_side(c, target, o, r, nid, new_first), p1, o, a, b);
            lemma_subtree_prefix(sp, side, p1);
            assert(sibling_pair(sp, seq![side] + p1, o, a, b));
        },
    }
}

/// Replacing the contents of a leaf keeps it a leaf of the same frame.
proof fn lemma_replace_leaf_of<R>(t: Tree<R>, a: FrameId, id: FrameId, fv: FrameView)
    requires
        is_leaf_of(t, a),
        fv.id == id,
    ensures
        is_leaf_of(replace_leaf(t, id, fv), a),
{
}

/// Replacing the contents of a frame keeps every pair of sibling leaves.
proof fn lemma_replace_keeps_pair<R>(t: Tree<R>, p: Seq<bool>, o: Orientation, a: FrameId, b: FrameId, id: FrameId, fv: FrameView)
    requires
        sibling_pair(t, p, o, a, b),
        fv.id == id,
    ensures
        sibling_pair(replace_leaf(t, id, fv), p, o, a, b),
    decreases p.len(),
{
    let t2 = replace_leaf(t, id, fv);
    if let Tree::Split { orientation, ratio, first, second } = t {
        let f2 = if has_id(*first, id) { replace_leaf(*first, id, fv) } else { *first };
        let s2 = if has_id(*first, id) { *second } else { replace_leaf(*second, id, fv) };
        assert(t2 == Tree::Split { orientation, ratio, first: Box::new(f2), second: Box::new(s2) });
        if p.len() == 0 {
            assert(subtree(t, p) == Some(t));
            assert(subtree(t2, p) == Some(t2));
            lemma_replace_leaf_of(*first, a, id, fv);
            lemma_replace_leaf_of(*second, b, id, fv);
        } else {
            let rest = p.drop_first();
            assert(p =~= seq![p[0]] + rest);
            lemma_subtree_prefix(t, p[0], rest);
            lemma_subtree_prefix(t2, p[0], rest);
            if has_id(*first, id) {
                if !p[0] {
                    lemma_replace_keeps_pair(*first, rest, o, a, b, id, fv);
                }
            } else {
                if p[0] {
                    lemma_replace_keeps_pair(*second, rest, o, a, b, id, fv);
                }
            }
        }
    }
}

/// Putting a window into a frame keeps every pair of sibling leaves.
proof fn lemma_put_keeps_pair<R>(t: Tree<R>, p: Seq<bool>, o: Orientation, a: FrameId, b: FrameId, id: FrameId, w: WindowRef)
    requires
        sibling_pair(t, p, o, a, b),
    ensures
        sibling_pair(put_into(t, id, w), p, o, a, b),
{
    crate::seqs::lemma_first_match(crate::layout::leaves(t), crate::layout::frame_is(id));
    if let Some(f) = find_leaf(t, id) {
        lemma_replace_keeps_pair(t, p, o, a, b, id, frame_with(f, w));
    }
}

/// The orientation of the split an edge band makes: stacked for the top
/// and bottom bands, side by side for the left and right ones.
pub open spec fn edge_split_axis(zone: DropZone) -> Orientation {
    if zone is Top || zone is Bottom { Orientation::Vertical } else { Orientation::Horizontal }
}

/// The frame that comes first of the two: the new one for the top and left
/// bands, the target for the bottom and right ones.
pub open spec fn edge_first(zone: DropZone, new_frame: FrameId, target: FrameId) -> FrameId {
    if zone is Top || zone is Left { new_frame } else { target }
}

pub open spec fn edge_second(zone: DropZone, new_frame: FrameId, target: FrameId) -> FrameId {
    if zone is Top || zone is Left { target } else { new_frame }
}

/// Dropping a window on an edge band of frame `target` (of workspace `k`)
/// splits the target and puts the window in the new frame, which comes
/// right before the target in the order of the workspace's frames for the
/// top and left bands (above it, or left of it) and right after it for the
/// bottom and right bands. The two frames become the children of one
/// split, stacked for the top and bottom bands and side by side for the
/// left and right ones. The new frame takes the focus.
pub proof fn law_edge_drop_side<R>(
    m: WorkspaceManager<R>,
    w0: Seq<ManagedWindow>,
    n0: u64,
    k: int,
    target: FrameId,
    zone: DropZone,
    wid: u64,
    ratio: R,
)
    requires
        0 <= k < m.workspaces@.len(),
        zone is Top || zone is Bottom || zone is Left || zone is Right,
        has_id(m.workspaces@[k].root@, target),
    ensures
        drop_outcome(m, w0, n0, k, target, zone, wid, ratio) matches Some((r2, f2, _w, _n)) ==> {
            let l = leaf_ids(m.workspaces@[k].root@);
            let before = zone is Top || zone is Left;
            &&& leaf_ids(r2[k]) == l.insert(first_pos(l, target) + if before { 0int } else { 1int }, FrameId(n0))
            &&& exists|p: Seq<bool>| #[trigger] sibling_pair(
                r2[k],
                p,
                edge_split_axis(zone),
                edge_first(zone, FrameId(n0), target),
                edge_second(zone, FrameId(n0), target),
            )
            &&& f2[k] == FrameId(n0)
        },
{
    let ws = m.workspaces@;
    if let Some(src) = source_frame(ws, wid) {
        if let Some(wr) = ref_in(ws, src, wid) {
            let roots = roots_of(m);
            assert(roots[k] == ws[k].root@);
            law_windows_keep_layout(roots[k], src, wid, wr);
            let r1 = roots.map_values(|t: Tree<R>| take_from(t, src, wid));
            assert(r1[k] == take_from(roots[k], src, wid));
            let nid = FrameId(n0);
            let sp = split_at_side(r1[k], target, zone_orientation(zone), ratio, nid, zone_new_first(zone));
            lemma_split_side_leaves(r1[k], target, zone_orientation(zone), ratio, nid, zone_new_first(zone));
            law_windows_keep_layout(sp, nid, wid, wr);
            let (a, b) = if zone_new_first(zone) { (nid, target) } else { (target, nid) };
            lemma_split_side_pair(r1[k], target, zone_orientation(zone), ratio, nid, zone_new_first(zone), a, b);
            let p = choose|p: Seq<bool>| #[trigger] sibling_pair(sp, p, zone_orientation(zone), a, b);
            lemma_put_keeps_pair(sp, p, zone_orientation(zone), a, b, nid, wr);
            if let Some((r2, f2, w, n1)) = drop_outcome(m, w0, n0, k, target, zone, wid, ratio) {
                assert(r2[k] == put_into(sp, nid, wr));
                assert(zone_orientation(zone) == edge_split_axis(zone));
                assert(a == edge_first(zone, nid, target));
                assert(b == edge_second(zone, nid, target));
                assert(sibling_pair(r2[k], p, edge_split_axis(zone), edge_first(zone, nid, target), edge_second(zone, nid, target)));
            }
        }
    }
}

} // verus!
