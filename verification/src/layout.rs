//! The static tiling tree: frames (tabbed cells) and the splits between them.
//!
//! The tree is a persistent wireframe. Frames exist independently of windows;
//! splitting creates new frames, and removing an empty frame hands its space
//! back to its sibling. Windows are placed *into* frames and never alter the
//! tree structure.
//!
//! The split ratio is carried as an opaque value `R`: the tree operations
//! here never read it, they only keep it where it belongs.

use vstd::prelude::*;
use vstd::arithmetic::div_mod::{lemma_mod_self_0, lemma_small_mod};
use crate::seqs::{
    any_match, first_match, lemma_first_match, lemma_first_match_append, lemma_first_match_none,
    lemma_first_match_single, lemma_first_match_unique,
};
use crate::text::{str_eq, to_lowercase, lowercase};

verus! {

/// Unique identifier for a frame within the layout tree.
#[derive(Debug, Clone, Copy, PartialEq, Eq, Hash, Structural)]
pub struct FrameId(pub u64);

/// Hands out frame identifiers, counting up from 1.
#[derive(Debug)]
pub struct FrameIdAlloc {
    pub next: u64,
}

impl FrameIdAlloc {
    /// A fresh allocator; its first identifier is 1.
    pub fn new() -> (a: FrameIdAlloc)
        ensures
            a.next == 1,
    {
        FrameIdAlloc { next: 1 }
    }
}

/// The value of the counter after handing out one identifier (it wraps at
/// the top of the `u64` range, as an atomic counter does).
pub open spec fn bump(n: u64) -> u64 {
    if n == u64::MAX {
        0
    } else {
        (n + 1) as u64
    }
}

impl FrameId {
    /// The next identifier of `alloc`.
    pub fn new(alloc: &mut FrameIdAlloc) -> (id: FrameId)
        ensures
            id.0 == old(alloc).next,
            final(alloc).next == bump(old(alloc).next),
    {
        let id = FrameId(alloc.next);
        alloc.next = alloc.next.wrapping_add(1);
        id
    }
}

/// A rectangle in logical pixel coordinates.
#[derive(Debug, Clone, Copy, PartialEq, Eq, Structural)]
pub struct Rect {
    pub x: i32,
    pub y: i32,
    pub width: i32,
    pub height: i32,
}

impl Rect {
    pub fn new(x: i32, y: i32, width: i32, height: i32) -> (r: Rect)
        ensures
            r == (Rect { x, y, width, height }),
    {
        Rect { x, y, width, height }
    }
}

/// Orientation of a split.
#[derive(Debug, Clone, Copy, PartialEq, Eq, Structural)]
pub enum Orientation {
    /// Children are side by side (left | right).
    Horizontal,
    /// Children are stacked (top / bottom).
    Vertical,
}

/// The other orientation.
pub open spec fn flipped(o: Orientation) -> Orientation {
    match o {
        Orientation::Horizontal => Orientation::Vertical,
        Orientation::Vertical => Orientation::Horizontal,
    }
}

/// Direction for focus/move navigation.
#[derive(Debug, Clone, Copy, PartialEq, Eq, Structural)]
pub enum Direction {
    Left,
    Right,
    Up,
    Down,
}

/// A reference to a window stored in a frame.
#[derive(Debug, Clone)]
pub struct WindowRef {
    /// The compositor's object identifier for the window.
    pub window_id: u64,
    pub app_id: String,
    pub title: String,
}

impl WindowRef {
    /// A copy of this reference.
    pub fn duplicate(&self) -> (w: WindowRef)
        ensures
            w == *self,
    {
        WindowRef { window_id: self.window_id, app_id: self.app_id.clone(), title: self.title.clone() }
    }
}

/// A frame is a single cell in the tiling grid. It holds zero or more
/// windows as tabs; only the active one is visible. A frame with no windows
/// is perfectly valid and renders as an empty cell.
#[derive(Debug)]
pub struct Frame {
    /// Unique identifier for this frame.
    pub id: FrameId,
    /// Optional name for placement rules (e.g. "browser", "terminal").
    pub name: Option<String>,
    /// Windows in this frame, in tab order.
    pub windows: Vec<WindowRef>,
    /// Index of the currently visible tab.
    pub active_tab: usize,
}

/// The mathematical content of a frame.
pub struct FrameView {
    pub id: FrameId,
    pub name: Option<Seq<char>>,
    pub windows: Seq<WindowRef>,
    pub active_tab: usize,
}

/// The view of an optional string.
pub open spec fn opt_view(s: Option<String>) -> Option<Seq<char>> {
    match s {
        Some(v) => Some(v@),
        None => None,
    }
}

impl View for Frame {
    type V = FrameView;

    open spec fn view(&self) -> FrameView {
        FrameView {
            id: self.id,
            name: opt_view(self.name),
            windows: self.windows@,
            active_tab: self.active_tab,
        }
    }
}

/// A fresh, empty, unnamed frame with the given identifier.
pub open spec fn empty_frame(id: FrameId) -> FrameView {
    FrameView { id, name: None, windows: Seq::empty(), active_tab: 0 }
}

/// The window has the given identifier.
pub open spec fn has_window_id(id: u64) -> spec_fn(WindowRef) -> bool {
    |w: WindowRef| w.window_id == id
}

/// The active tab points at a window, or the frame has none.
pub open spec fn tab_in_bounds(f: FrameView) -> bool {
    f.windows.len() > 0 ==> f.active_tab < f.windows.len()
}

/// The frame holds a window with identifier `id`.
pub open spec fn frame_has_window(f: FrameView, id: u64) -> bool {
    any_match(f.windows, has_window_id(id))
}

/// The active tab after a removal left `len` windows behind.
pub open spec fn tab_after_removal(active: usize, len: nat) -> usize {
    if active >= len && len > 0 {
        (len - 1) as usize
    } else {
        active
    }
}

/// The frame with `w` in the place of its first window with identifier
/// `id` (unchanged without one).
pub open spec fn replaced_in(f: FrameView, id: u64, w: WindowRef) -> FrameView {
    match first_match(f.windows, has_window_id(id)) {
        Some(pos) => FrameView { windows: f.windows.update(pos, w), ..f },
        None => f,
    }
}

impl Frame {
    /// An empty, unnamed frame with the next identifier of `alloc`.
    pub fn new(alloc: &mut FrameIdAlloc) -> (f: Frame)
        ensures
            f@ == empty_frame(FrameId(old(alloc).next)),
            final(alloc).next == bump(old(alloc).next),
    {
        Frame { id: FrameId::new(alloc), name: None, windows: Vec::new(), active_tab: 0 }
    }

    /// An empty frame named `name`, with the next identifier of `alloc`.
    pub fn named(alloc: &mut FrameIdAlloc, name: &str) -> (f: Frame)
        ensures
            f@ == (FrameView { name: Some(name@), ..empty_frame(FrameId(old(alloc).next)) }),
            final(alloc).next == bump(old(alloc).next),
    {
        Frame {
            id: FrameId::new(alloc),
            name: Some(name.to_owned()),
            windows: Vec::new(),
            active_tab: 0,
        }
    }

    pub fn is_empty(&self) -> (b: bool)
        ensures
            b == (self.windows@.len() == 0),
    {
        self.windows.len() == 0
    }

    pub fn window_count(&self) -> (n: usize)
        ensures
            n == self.windows@.len(),
    {
        self.windows.len()
    }

    /// The currently active window reference, if any.
    pub fn active_window(&self) -> (w: Option<&WindowRef>)
        ensures
            w == (if self.active_tab < self.windows@.len() {
                Some(&self.windows@[self.active_tab as int])
            } else {
                None
            }),
    {
        if self.active_tab < self.windows.len() {
            Some(&self.windows[self.active_tab])
        } else {
            None
        }
    }

    /// Add a window to this frame. It becomes the active tab.
    pub fn add_window(&mut self, win: WindowRef)
        ensures
            final(self)@ == (FrameView {
                windows: old(self)@.windows.push(win),
                active_tab: old(self)@.windows.len() as usize,
                ..old(self)@
            }),
    {
        self.windows.push(win);
        self.active_tab = self.windows.len() - 1;
    }

    /// Add a window without changing the active tab (used during restore).
    pub fn add_window_quiet(&mut self, win: WindowRef)
        ensures
            final(self)@ == (FrameView { windows: old(self)@.windows.push(win), ..old(self)@ }),
    {
        self.windows.push(win);
    }

    /// The position of the first window with identifier `window_id`.
    pub(crate) fn position_of(&self, window_id: u64) -> (r: Option<usize>)
        ensures
            r == (match first_match(self.windows@, has_window_id(window_id)) {
                Some(i) => Some(i as usize),
                None => None,
            }),
    {
        let ghost p = has_window_id(window_id);
        let mut i: usize = 0;
        while i < self.windows.len()
            invariant
                i <= self.windows@.len(),
                p == has_window_id(window_id),
                forall|j: int| 0 <= j < i ==> !p(#[trigger] self.windows@[j]),
            decreases self.windows@.len() - i,
        {
            if self.windows[i].window_id == window_id {
                proof {
                    lemma_first_match_unique(self.windows@, p, i as int);
                }
                return Some(i);
            }
            i += 1;
        }
        proof {
            lemma_first_match_none(self.windows@, p);
        }
        None
    }

    /// Remove a window by id. Returns the removed reference if found, and
    /// pulls the active tab back into range.
    pub fn remove_window(&mut self, window_id: u64) -> (r: Option<WindowRef>)
        ensures
            match first_match(old(self)@.windows, has_window_id(window_id)) {
                Some(pos) => {
                    &&& r == Some(old(self)@.windows[pos])
                    &&& final(self)@ == (FrameView {
                        windows: old(self)@.windows.remove(pos),
                        active_tab: tab_after_removal(
                            old(self)@.active_tab,
                            (old(self)@.windows.len() - 1) as nat,
                        ),
                        ..old(self)@
                    })
                },
                None => r is None && final(self)@ == old(self)@,
            },
    {
        let found = self.position_of(window_id);
        proof {
            lemma_first_match(self.windows@, has_window_id(window_id));
        }
        match found {
            Some(pos) => {
                let removed = self.windows.remove(pos);
                if self.active_tab >= self.windows.len() && self.windows.len() != 0 {
                    self.active_tab = self.windows.len() - 1;
                }
                Some(removed)
            },
            None => None,
        }
    }

    /// Put `win` in the place of the window with identifier `window_id`,
    /// keeping the tab order and the active tab. Returns whether there was
    /// such a window.
    pub fn replace_window(&mut self, window_id: u64, win: WindowRef) -> (found: bool)
        ensures
            found == first_match(old(self)@.windows, has_window_id(window_id)) is Some,
            final(self)@ == replaced_in(old(self)@, window_id, win),
    {
        proof {
            lemma_first_match(self.windows@, has_window_id(window_id));
        }
        match self.position_of(window_id) {
            Some(pos) => {
                self.windows.set(pos, win);
                true
            },
            None => false,
        }
    }

    /// Show tab `index`, when the frame has that many windows.
    pub fn set_active_tab(&mut self, index: usize)
        ensures
            final(self)@ == (if index < old(self)@.windows.len() {
                FrameView { active_tab: index, ..old(self)@ }
            } else {
                old(self)@
            }),
    {
        if index < self.windows.len() {
            self.active_tab = index;
        }
    }

    /// Cycle to the next tab.
    pub fn next_tab(&mut self)
        requires
            old(self).windows@.len() == 0 || old(self).active_tab < usize::MAX,
        ensures
            final(self)@ == (FrameView {
                active_tab: if old(self)@.windows.len() == 0 {
                    old(self)@.active_tab
                } else {
                    ((old(self)@.active_tab + 1) % (old(self)@.windows.len() as int)) as usize
                },
                ..old(self)@
            }),
    {
        if self.windows.len() != 0 {
            self.active_tab = (self.active_tab + 1) % self.windows.len();
        }
    }

    /// Cycle to the previous tab.
    pub fn prev_tab(&mut self)
        ensures
            final(self)@ == (FrameView {
                active_tab: if old(self)@.windows.len() == 0 {
                    old(self)@.active_tab
                } else if old(self)@.active_tab == 0 {
                    (old(self)@.windows.len() - 1) as usize
                } else {
                    (old(self)@.active_tab - 1) as usize
                },
                ..old(self)@
            }),
    {
        if self.windows.len() != 0 {
            self.active_tab = if self.active_tab == 0 {
                self.windows.len() - 1
            } else {
                self.active_tab - 1
            };
        }
    }

    pub fn contains_window(&self, window_id: u64) -> (b: bool)
        ensures
            b == frame_has_window(self@, window_id),
    {
        let r = self.position_of(window_id);
        proof {
            lemma_first_match(self.windows@, has_window_id(window_id));
        }
        r.is_some()
    }
}

/// Moving to the next tab and then back to the previous one returns to the
/// tab one started on, whenever the active tab points at a window.
pub proof fn law_prev_undoes_next(f: FrameView)
    requires
        f.windows.len() > 0,
        f.windows.len() <= usize::MAX,
        tab_in_bounds(f),
    ensures
        ({
            let n = f.windows.len();
            let after_next = ((f.active_tab + 1) % (n as int)) as usize;
            let back = if after_next == 0 { (n - 1) as usize } else { (after_next - 1) as usize };
            back == f.active_tab
        }),
{
    let n = f.windows.len() as int;
    if f.active_tab + 1 < n {
        lemma_small_mod((f.active_tab + 1) as nat, n as nat);
    } else {
        lemma_mod_self_0(n);
    }
}

/// Every tab operation keeps the active tab pointing at a window when it did
/// so before: adding (as active or quietly into a non-empty frame), removing,
/// and cycling in either direction.
pub proof fn law_tab_stays_in_bounds(f: FrameView, w: WindowRef, pos: int)
    requires
        tab_in_bounds(f),
    ensures
        tab_in_bounds(FrameView { windows: f.windows.push(w), active_tab: f.windows.len() as usize, ..f }),
        f.windows.len() > 0 ==> tab_in_bounds(FrameView { windows: f.windows.push(w), ..f }),
        0 <= pos < f.windows.len() ==> tab_in_bounds(FrameView {
            windows: f.windows.remove(pos),
            active_tab: tab_after_removal(f.active_tab, (f.windows.len() - 1) as nat),
            ..f
        }),
        f.windows.len() > 0 ==> tab_in_bounds(FrameView {
            active_tab: ((f.active_tab + 1) % (f.windows.len() as int)) as usize,
            ..f
        }),
        f.windows.len() > 0 ==> tab_in_bounds(FrameView {
            active_tab: if f.active_tab == 0 { (f.windows.len() - 1) as usize } else { (f.active_tab - 1) as usize },
            ..f
        }),
{
}

pub fn vertical_overlap(a: Rect, b: Rect) -> (r: i32)
    requires
        i32::MIN <= a.y + a.height <= i32::MAX,
        i32::MIN <= b.y + b.height <= i32::MAX,
        i32::MIN <= overlap_raw(a.y as int, a.height as int, b.y as int, b.height as int) <= i32::MAX,
    ensures
        r == overlap_len(a.y as int, a.height as int, b.y as int, b.height as int),
{
    let top = if a.y >= b.y { a.y } else { b.y };
    let a_end = a.y + a.height;
    let b_end = b.y + b.height;
    let bottom = if a_end <= b_end { a_end } else { b_end };
    let d = bottom - top;
    if d > 0 {
        d
    } else {
        0
    }
}

pub fn horizontal_overlap(a: Rect, b: Rect) -> (r: i32)
    requires
        i32::MIN <= a.x + a.width <= i32::MAX,
        i32::MIN <= b.x + b.width <= i32::MAX,
        i32::MIN <= overlap_raw(a.x as int, a.width as int, b.x as int, b.width as int) <= i32::MAX,
    ensures
        r == overlap_len(a.x as int, a.width as int, b.x as int, b.width as int),
{
    let left = if a.x >= b.x { a.x } else { b.x };
    let a_end = a.x + a.width;
    let b_end = b.x + b.width;
    let right = if a_end <= b_end { a_end } else { b_end };
    let d = right - left;
    if d > 0 {
        d
    } else {
        0
    }
}

/// The signed extent of the intersection of two intervals (negative when
/// they are apart).
pub open spec fn overlap_raw(s1: int, l1: int, s2: int, l2: int) -> int {
    let lo = if s1 >= s2 { s1 } else { s2 };
    let hi = if s1 + l1 <= s2 + l2 { s1 + l1 } else { s2 + l2 };
    hi - lo
}

/// The length of the overlap of the intervals `[s1, s1 + l1)` and
/// `[s2, s2 + l2)`, or 0 when they do not overlap.
pub open spec fn overlap_len(s1: int, l1: int, s2: int, l2: int) -> int {
    let lo = if s1 >= s2 { s1 } else { s2 };
    let hi = if s1 + l1 <= s2 + l2 { s1 + l1 } else { s2 + l2 };
    if hi - lo > 0 { hi - lo } else { 0 }
}


/// A node in the static tiling tree.
#[derive(Debug)]
pub enum SplitNode<R> {
    /// A leaf: a frame that can hold zero or more tabbed windows.
    Leaf(Frame),
    /// An interior node: two children separated by a split.
    Split {
        orientation: Orientation,
        /// Share of the space given to the first child.
        ratio: R,
        first: Box<SplitNode<R>>,
        second: Box<SplitNode<R>>,
    },
}

/// The mathematical content of a tiling tree.
pub enum Tree<R> {
    Leaf(FrameView),
    Split { orientation: Orientation, ratio: R, first: Box<Tree<R>>, second: Box<Tree<R>> },
}

pub open spec fn tree_view<R>(n: SplitNode<R>) -> Tree<R>
    decreases n,
{
    match n {
        SplitNode::Leaf(f) => Tree::Leaf(f@),
        SplitNode::Split { orientation, ratio, first, second } => Tree::Split {
            orientation,
            ratio,
            first: Box::new(tree_view(*first)),
            second: Box::new(tree_view(*second)),
        },
    }
}

impl<R> View for SplitNode<R> {
    type V = Tree<R>;

    open spec fn view(&self) -> Tree<R> {
        tree_view(*self)
    }
}

/// The identifiers of the frames of `t`, left to right (top to bottom).
pub open spec fn leaf_ids<R>(t: Tree<R>) -> Seq<FrameId>
    decreases t,
{
    match t {
        Tree::Leaf(f) => seq![f.id],
        Tree::Split { first, second, .. } => leaf_ids(*first) + leaf_ids(*second),
    }
}

/// The frames of `t`, in the same order as `leaf_ids`.
pub open spec fn leaves<R>(t: Tree<R>) -> Seq<FrameView>
    decreases t,
{
    match t {
        Tree::Leaf(f) => seq![f],
        Tree::Split { first, second, .. } => leaves(*first) + leaves(*second),
    }
}

/// `t` has a frame with identifier `id`.
pub open spec fn has_id<R>(t: Tree<R>, id: FrameId) -> bool {
    leaf_ids(t).contains(id)
}

/// No two frames of `t` share an identifier.
pub open spec fn ids_unique<R>(t: Tree<R>) -> bool {
    leaf_ids(t).no_duplicates()
}

/// Every identifier in `t` was handed out before the counter reached `next`.
pub open spec fn ids_below<R>(t: Tree<R>, next: u64) -> bool {
    forall|i: int| 0 <= i < leaf_ids(t).len() ==> (#[trigger] leaf_ids(t)[i]).0 < next
}

/// The tree after splitting the first frame with identifier `target`: that
/// frame becomes the first child of a new split whose second child is a
/// fresh empty frame `new_id`.
pub open spec fn split_at<R>(t: Tree<R>, target: FrameId, o: Orientation, r: R, new_id: FrameId) -> Tree<R>
    decreases t,
{
    match t {
        Tree::Leaf(f) => if f.id == target {
            Tree::Split {
                orientation: o,
                ratio: r,
                first: Box::new(t),
                second: Box::new(Tree::Leaf(empty_frame(new_id))),
            }
        } else {
            t
        },
        Tree::Split { orientation, ratio, first, second } => if has_id(*first, target) {
            Tree::Split { orientation, ratio, first: Box::new(split_at(*first, target, o, r, new_id)), second }
        } else {
            Tree::Split { orientation, ratio, first, second: Box::new(split_at(*second, target, o, r, new_id)) }
        },
    }
}

/// The tree after splitting the first frame with identifier `target` into
/// it and a fresh empty frame `new_id`, the fresh frame first when
/// `new_first` and second otherwise.
pub open spec fn split_at_side<R>(t: Tree<R>, target: FrameId, o: Orientation, r: R, new_id: FrameId, new_first: bool) -> Tree<R>
    decreases t,
{
    match t {
        Tree::Leaf(f) => if f.id == target {
            if new_first {
                Tree::Split { orientation: o, ratio: r, first: Box::new(Tree::Leaf(empty_frame(new_id))), second: Box::new(t) }
            } else {
                Tree::Split { orientation: o, ratio: r, first: Box::new(t), second: Box::new(Tree::Leaf(empty_frame(new_id))) }
            }
        } else {
            t
        },
        Tree::Split { orientation, ratio, first, second } => if has_id(*first, target) {
            Tree::Split { orientation, ratio, first: Box::new(split_at_side(*first, target, o, r, new_id, new_first)), second }
        } else {
            Tree::Split { orientation, ratio, first, second: Box::new(split_at_side(*second, target, o, r, new_id, new_first)) }
        },
    }
}

/// `t` is a leaf holding the empty frame `id`.
pub open spec fn is_empty_leaf<R>(t: Tree<R>, id: FrameId) -> bool {
    match t {
        Tree::Leaf(f) => f.id == id && f.windows.len() == 0,
        _ => false,
    }
}

/// Some split of `t` has the empty frame `id` as a direct child.
pub open spec fn can_remove<R>(t: Tree<R>, id: FrameId) -> bool
    decreases t,
{
    match t {
        Tree::Leaf(_) => false,
        Tree::Split { first, second, .. } => is_empty_leaf(*first, id) || is_empty_leaf(*second, id)
            || can_remove(*first, id) || can_remove(*second, id),
    }
}

/// The tree after removing the empty frame `id`: the first split (in
/// pre-order) that has it as a child is replaced by its other child.
pub open spec fn remove_leaf<R>(t: Tree<R>, id: FrameId) -> Tree<R>
    decreases t,
{
    match t {
        Tree::Leaf(_) => t,
        Tree::Split { orientation, ratio, first, second } => if is_empty_leaf(*first, id) {
            *second
        } else if is_empty_leaf(*second, id) {
            *first
        } else if can_remove(*first, id) {
            Tree::Split { orientation, ratio, first: Box::new(remove_leaf(*first, id)), second }
        } else {
            Tree::Split { orientation, ratio, first, second: Box::new(remove_leaf(*second, id)) }
        },
    }
}

/// The tree after toggling the orientation of the innermost split that
/// contains frame `id`, and whether there was one.
pub open spec fn toggle_at<R>(t: Tree<R>, id: FrameId) -> (Tree<R>, bool)
    decreases t,
{
    match t {
        Tree::Leaf(_) => (t, false),
        Tree::Split { orientation, ratio, first, second } => if has_id(*first, id) || has_id(*second, id) {
            let (a, ha) = toggle_at(*first, id);
            if ha {
                (Tree::Split { orientation, ratio, first: Box::new(a), second }, true)
            } else {
                let (b, hb) = toggle_at(*second, id);
                if hb {
                    (Tree::Split { orientation, ratio, first, second: Box::new(b) }, true)
                } else {
                    (Tree::Split { orientation: flipped(orientation), ratio, first, second }, true)
                }
            }
        } else {
            (t, false)
        },
    }
}

/// The frame has identifier `id`.
pub open spec fn frame_is(id: FrameId) -> spec_fn(FrameView) -> bool {
    |f: FrameView| f.id == id
}

/// The frame holds window `wid`.
pub open spec fn frame_holds(wid: u64) -> spec_fn(FrameView) -> bool {
    |f: FrameView| frame_has_window(f, wid)
}

/// The frame is named `name`.
pub open spec fn frame_named_as(name: Seq<char>) -> spec_fn(FrameView) -> bool {
    |f: FrameView| f.name == Some(name)
}

/// The first frame (in tree order) with identifier `id`.
pub open spec fn find_leaf<R>(t: Tree<R>, id: FrameId) -> Option<FrameView> {
    match first_match(leaves(t), frame_is(id)) {
        Some(i) => Some(leaves(t)[i]),
        None => None,
    }
}

/// The first frame (in tree order) that holds window `wid`.
pub open spec fn frame_with_window<R>(t: Tree<R>, wid: u64) -> Option<FrameId> {
    match first_match(leaves(t), frame_holds(wid)) {
        Some(i) => Some(leaves(t)[i].id),
        None => None,
    }
}

/// The first frame (in tree order) named `name`.
pub open spec fn frame_named<R>(t: Tree<R>, name: Seq<char>) -> Option<FrameId> {
    match first_match(leaves(t), frame_named_as(name)) {
        Some(i) => Some(leaves(t)[i].id),
        None => None,
    }
}

pub proof fn lemma_leaf_ids_match<R>(t: Tree<R>)
    ensures
        leaf_ids(t).len() == leaves(t).len(),
        forall|i: int| 0 <= i < leaves(t).len() ==> #[trigger] leaf_ids(t)[i] == leaves(t)[i].id,
        leaves(t).len() >= 1,
    decreases t,
{
    match t {
        Tree::Leaf(f) => {},
        Tree::Split { first, second, .. } => {
            lemma_leaf_ids_match(*first);
            lemma_leaf_ids_match(*second);
            let a = leaves(*first);
            let b = leaves(*second);
            assert forall|i: int| 0 <= i < leaves(t).len() implies #[trigger] leaf_ids(t)[i] == leaves(t)[i].id by {
                if i < a.len() {
                    assert(leaf_ids(t)[i] == leaf_ids(*first)[i]);
                } else {
                    assert(leaf_ids(t)[i] == leaf_ids(*second)[i - a.len()]);
                }
            }
        },
    }
}


/// The tree after putting `fv` in place of the first frame with identifier `id`.
pub open spec fn replace_leaf<R>(t: Tree<R>, id: FrameId, fv: FrameView) -> Tree<R>
    decreases t,
{
    match t {
        Tree::Leaf(f) => if f.id == id { Tree::Leaf(fv) } else { t },
        Tree::Split { orientation, ratio, first, second } => if has_id(*first, id) {
            Tree::Split { orientation, ratio, first: Box::new(replace_leaf(*first, id, fv)), second }
        } else {
            Tree::Split { orientation, ratio, first, second: Box::new(replace_leaf(*second, id, fv)) }
        },
    }
}

proof fn lemma_find_leaf_split<R>(t: Tree<R>, id: FrameId)
    requires
        t is Split,
    ensures
        find_leaf(t, id) == (if has_id(*t->first, id) {
            find_leaf(*t->first, id)
        } else {
            find_leaf(*t->second, id)
        }),
{
    let p = frame_is(id);
    let a = leaves(*t->first);
    let b = leaves(*t->second);
    assert(leaves(t) == a + b);
    lemma_first_match_append(a, b, p);
    lemma_leaf_ids_match(*t->first);
    lemma_first_match(a, p);
    lemma_first_match(b, p);
    if has_id(*t->first, id) {
        let k = choose|k: int| 0 <= k < leaf_ids(*t->first).len() && leaf_ids(*t->first)[k] == id;
        assert(p(a[k]));
        let i = first_match(a, p)->0;
        assert((a + b)[i] == a[i]);
    } else {
        assert forall|k: int| 0 <= k < a.len() implies !p(#[trigger] a[k]) by {
            assert(leaf_ids(*t->first)[k] == a[k].id);
            assert(leaf_ids(*t->first).contains(a[k].id));
        }
        lemma_first_match_none(a, p);
        match first_match(b, p) {
            Some(j) => {
                assert((a + b)[j + a.len()] == b[j]);
            },
            None => {},
        }
    }
}

proof fn lemma_find_leaf_leaf<R>(t: Tree<R>, id: FrameId)
    requires
        t is Leaf,
    ensures
        find_leaf(t, id) == (if t->Leaf_0.id == id { Some(t->Leaf_0) } else { None }),
{
    lemma_first_match_single(t->Leaf_0, frame_is(id));
    assert(leaves(t) == seq![t->Leaf_0]);
}

impl<R: Copy> SplitNode<R> {
    /// A throwaway leaf used while a subtree is taken apart.
    fn placeholder() -> (n: SplitNode<R>)
        ensures
            n@ == Tree::<R>::Leaf(empty_frame(FrameId(0))),
    {
        SplitNode::Leaf(Frame { id: FrameId(0), name: None, windows: Vec::new(), active_tab: 0 })
    }

    /// A single empty frame (the default workspace layout).
    pub fn single_frame(alloc: &mut FrameIdAlloc) -> (n: SplitNode<R>)
        ensures
            n@ == Tree::<R>::Leaf(empty_frame(FrameId(old(alloc).next))),
            final(alloc).next == bump(old(alloc).next),
    {
        SplitNode::Leaf(Frame::new(alloc))
    }

    /// A horizontal split (side by side) of two empty frames.
    pub fn hsplit(alloc: &mut FrameIdAlloc, ratio: R) -> (n: SplitNode<R>)
        ensures
            n@ == (Tree::Split {
                orientation: Orientation::Horizontal,
                ratio,
                first: Box::new(Tree::<R>::Leaf(empty_frame(FrameId(old(alloc).next)))),
                second: Box::new(Tree::<R>::Leaf(empty_frame(FrameId(bump(old(alloc).next))))),
            }),
            final(alloc).next == bump(bump(old(alloc).next)),
    {
        let a = Frame::new(alloc);
        let b = Frame::new(alloc);
        let n = SplitNode::Split {
            orientation: Orientation::Horizontal,
            ratio,
            first: Box::new(SplitNode::Leaf(a)),
            second: Box::new(SplitNode::Leaf(b)),
        };
        proof {
            reveal_with_fuel(tree_view, 2);
        }
        n
    }

    /// A vertical split (stacked) of two empty frames.
    pub fn vsplit(alloc: &mut FrameIdAlloc, ratio: R) -> (n: SplitNode<R>)
        ensures
            n@ == (Tree::Split {
                orientation: Orientation::Vertical,
                ratio,
                first: Box::new(Tree::<R>::Leaf(empty_frame(FrameId(old(alloc).next)))),
                second: Box::new(Tree::<R>::Leaf(empty_frame(FrameId(bump(old(alloc).next))))),
            }),
            final(alloc).next == bump(bump(old(alloc).next)),
    {
        let a = Frame::new(alloc);
        let b = Frame::new(alloc);
        let n = SplitNode::Split {
            orientation: Orientation::Vertical,
            ratio,
            first: Box::new(SplitNode::Leaf(a)),
            second: Box::new(SplitNode::Leaf(b)),
        };
        proof {
            reveal_with_fuel(tree_view, 2);
        }
        n
    }

    /// Whether the tree has a frame with identifier `target`.
    pub fn contains_frame(&self, target: FrameId) -> (b: bool)
        ensures
            b == has_id(self@, target),
        decreases self,
    {
        match self {
            SplitNode::Leaf(frame) => {
                proof {
                    assert(leaf_ids(self@) == seq![frame.id]);
                    if frame.id == target {
                        assert(leaf_ids(self@)[0] == target);
                    }
                }
                frame.id == target
            },
            SplitNode::Split { first, second, .. } => {
                let a = first.contains_frame(target);
                let b = second.contains_frame(target);
                proof {
                    let l = leaf_ids((**first)@);
                    let r = leaf_ids((**second)@);
                    assert(leaf_ids(self@) == l + r);
                    if a {
                        let k = choose|k: int| 0 <= k < l.len() && l[k] == target;
                        assert((l + r)[k] == target);
                    } else if b {
                        let k = choose|k: int| 0 <= k < r.len() && r[k] == target;
                        assert((l + r)[k + l.len()] == target);
                    } else {
                        assert forall|k: int| 0 <= k < (l + r).len() implies (l + r)[k] != target by {
                            if k < l.len() {
                                assert((l + r)[k] == l[k]);
                            } else {
                                assert((l + r)[k] == r[k - l.len()]);
                            }
                        }
                    }
                }
                a || b
            },
        }
    }

    fn split_owned(self, target: FrameId, orientation: Orientation, ratio: R, new_id: FrameId) -> (r: (
        SplitNode<R>,
        bool,
    ))
        ensures
            r.0@ == split_at(self@, target, orientation, ratio, new_id),
            r.1 == has_id(self@, target),
        decreases self,
    {
        match self {
            SplitNode::Leaf(frame) => {
                proof {
                    assert(leaf_ids(self@) == seq![frame.id]);
                    if frame.id == target {
                        assert(leaf_ids(self@)[0] == target);
                    }
                }
                if frame.id == target {
                    let fresh = Frame { id: new_id, name: None, windows: Vec::new(), active_tab: 0 };
                    let n = SplitNode::Split {
                        orientation,
                        ratio,
                        first: Box::new(SplitNode::Leaf(frame)),
                        second: Box::new(SplitNode::Leaf(fresh)),
                    };
                    proof {
                        reveal_with_fuel(tree_view, 2);
                    }
                    (n, true)
                } else {
                    (SplitNode::Leaf(frame), false)
                }
            },
            SplitNode::Split { orientation: o, ratio: q, first, second } => {
                let ghost l = leaf_ids((*first)@);
                let ghost r = leaf_ids((*second)@);
                proof {
                    assert(leaf_ids(self@) == l + r);
                }
                if first.contains_frame(target) {
                    let (a, _) = (*first).split_owned(target, orientation, ratio, new_id);
                    proof {
                        let k = choose|k: int| 0 <= k < l.len() && l[k] == target;
                        assert((l + r)[k] == target);
                    }
                    (SplitNode::Split { orientation: o, ratio: q, first: Box::new(a), second }, true)
                } else {
                    let (b, found) = (*second).split_owned(target, orientation, ratio, new_id);
                    proof {
                        if found {
                            let k = choose|k: int| 0 <= k < r.len() && r[k] == target;
                            assert((l + r)[k + l.len()] == target);
                        } else {
                            assert forall|k: int| 0 <= k < (l + r).len() implies (l + r)[k] != target by {
                                if k < l.len() {
                                    assert((l + r)[k] == l[k]);
                                } else {
                                    assert((l + r)[k] == r[k - l.len()]);
                                }
                            }
                        }
                    }
                    (SplitNode::Split { orientation: o, ratio: q, first, second: Box::new(b) }, found)
                }
            },
        }
    }

    fn split_owned_side(self, target: FrameId, orientation: Orientation, ratio: R, new_id: FrameId, new_first: bool) -> (r: SplitNode<R>)
        ensures
            r@ == split_at_side(self@, target, orientation, ratio, new_id, new_first),
        decreases self,
    {
        match self {
            SplitNode::Leaf(frame) => {
                if frame.id == target {
                    let fresh = SplitNode::Leaf(Frame { id: new_id, name: None, windows: Vec::new(), active_tab: 0 });
                    let old = SplitNode::Leaf(frame);
                    let n = if new_first {
                        SplitNode::Split { orientation, ratio, first: Box::new(fresh), second: Box::new(old) }
                    } else {
                        SplitNode::Split { orientation, ratio, first: Box::new(old), second: Box::new(fresh) }
                    };
                    proof {
                        reveal_with_fuel(tree_view, 2);
                    }
                    n
                } else {
                    SplitNode::Leaf(frame)
                }
            },
            SplitNode::Split { orientation: o, ratio: q, first, second } => {
                if first.contains_frame(target) {
                    let a = (*first).split_owned_side(target, orientation, ratio, new_id, new_first);
                    SplitNode::Split { orientation: o, ratio: q, first: Box::new(a), second }
                } else {
                    let b = (*second).split_owned_side(target, orientation, ratio, new_id, new_first);
                    SplitNode::Split { orientation: o, ratio: q, first, second: Box::new(b) }
                }
            },
        }
    }

    /// Split the frame `target` into it and a new empty frame (with the next
    /// identifier of `alloc`), the new frame first when `new_first` and
    /// second otherwise; the existing frame keeps its identifier and windows.
    /// Returns the new frame's identifier, or `None` (leaving everything
    /// unchanged) when the tree has no such frame.
    pub fn split_frame_at(
        &mut self,
        target_id: FrameId,
        orientation: Orientation,
        ratio: R,
        new_first: bool,
        alloc: &mut FrameIdAlloc,
    ) -> (r: Option<FrameId>)
        ensures
            has_id(old(self)@, target_id) ==> {
                &&& r == Some(FrameId(old(alloc).next))
                &&& final(self)@ == split_at_side(old(self)@, target_id, orientation, ratio, FrameId(old(alloc).next), new_first)
                &&& final(alloc).next == bump(old(alloc).next)
            },
            !has_id(old(self)@, target_id) ==> {
                &&& r is None
                &&& final(self)@ == old(self)@
                &&& final(alloc).next == old(alloc).next
            },
    {
        if !self.contains_frame(target_id) {
            return None;
        }
        let new_id = FrameId::new(alloc);
        let mut tree = Self::placeholder();
        std::mem::swap(&mut tree, self);
        *self = tree.split_owned_side(target_id, orientation, ratio, new_id, new_first);
        Some(new_id)
    }

    /// Split the frame `target`. It becomes the first child of a new split;
    /// a new empty frame, with the next identifier of `alloc`, becomes the
    /// second child. Returns the new frame's identifier, or `None` (leaving
    /// everything unchanged) when the tree has no such frame. With the
    /// allocator ahead of every identifier in the tree, the new identifier
    /// is fresh and the identifiers stay unique.
    pub fn split_frame(
        &mut self,
        target_id: FrameId,
        orientation: Orientation,
        ratio: R,
        alloc: &mut FrameIdAlloc,
    ) -> (r: Option<FrameId>)
        ensures
            has_id(old(self)@, target_id) ==> {
                &&& r == Some(FrameId(old(alloc).next))
                &&& final(self)@ == split_at(old(self)@, target_id, orientation, ratio, FrameId(old(alloc).next))
                &&& final(alloc).next == bump(old(alloc).next)
            },
            !has_id(old(self)@, target_id) ==> {
                &&& r is None
                &&& final(self)@ == old(self)@
                &&& final(alloc).next == old(alloc).next
            },
            ids_below(old(self)@, old(alloc).next) ==> !has_id(old(self)@, FrameId(old(alloc).next)),
            ids_below(old(self)@, old(alloc).next) && ids_unique(old(self)@) && old(alloc).next < u64::MAX ==> {
                &&& ids_unique(final(self)@)
                &&& ids_below(final(self)@, final(alloc).next)
            },
    {
        proof {
            if ids_below(self@, alloc.next) && has_id(self@, FrameId(alloc.next)) {
                let k = choose|k: int| 0 <= k < leaf_ids(self@).len() && leaf_ids(self@)[k] == FrameId(alloc.next);
                assert(leaf_ids(self@)[k].0 < alloc.next);
            }
        }
        if !self.contains_frame(target_id) {
            return None;
        }
        proof {
            if ids_below(self@, alloc.next) && ids_unique(self@) && alloc.next < u64::MAX {
                law_split_keeps_ids_unique(self@, target_id, orientation, ratio, alloc.next);
            }
        }
        let new_id = FrameId::new(alloc);
        let mut tree = Self::placeholder();
        std::mem::swap(&mut tree, self);
        let (t, _) = tree.split_owned(target_id, orientation, ratio, new_id);
        *self = t;
        Some(new_id)
    }

    fn is_empty_leaf_node(&self, target: FrameId) -> (b: bool)
        ensures
            b == is_empty_leaf(self@, target),
    {
        match self {
            SplitNode::Leaf(frame) => frame.id == target && frame.windows.len() == 0,
            _ => false,
        }
    }

    fn remove_owned(self, target: FrameId) -> (r: (SplitNode<R>, bool))
        ensures
            r.0@ == remove_leaf(self@, target),
            r.1 == can_remove(self@, target),
        decreases self,
    {
        match self {
            SplitNode::Leaf(frame) => (SplitNode::Leaf(frame), false),
            SplitNode::Split { orientation, ratio, first, second } => {
                if first.is_empty_leaf_node(target) {
                    (*second, true)
                } else if second.is_empty_leaf_node(target) {
                    (*first, true)
                } else {
                    let (a, ok) = (*first).remove_owned(target);
                    if ok {
                        (SplitNode::Split { orientation, ratio, first: Box::new(a), second }, true)
                    } else {
                        let (b, ok2) = (*second).remove_owned(target);
                        proof {
                            lemma_remove_noop((*first)@, target);
                        }
                        (SplitNode::Split { orientation, ratio, first: Box::new(a), second: Box::new(b) }, ok2)
                    }
                }
            },
        }
    }

    /// Remove the empty frame `target_id` (unsplit): the sibling takes the
    /// parent's place. Returns whether a frame was removed; a frame that
    /// holds windows, or the root frame, is never removed.
    pub fn remove_frame(&mut self, target_id: FrameId) -> (removed: bool)
        ensures
            removed == can_remove(old(self)@, target_id),
            final(self)@ == remove_leaf(old(self)@, target_id),
    {
        let mut tree = Self::placeholder();
        std::mem::swap(&mut tree, self);
        let (t, ok) = tree.remove_owned(target_id);
        *self = t;
        ok
    }

    /// The frame with identifier `target_id`.
    pub fn find_frame(&self, target_id: FrameId) -> (r: Option<&Frame>)
        ensures
            match r {
                Some(f) => find_leaf(self@, target_id) == Some(f@),
                None => find_leaf(self@, target_id) is None,
            },
        decreases self,
    {
        match self {
            SplitNode::Leaf(frame) => {
                proof {
                    lemma_find_leaf_leaf(self@, target_id);
                }
                if frame.id == target_id {
                    Some(frame)
                } else {
                    None
                }
            },
            SplitNode::Split { first, second, .. } => {
                proof {
                    lemma_find_leaf_split(self@, target_id);
                }
                if first.contains_frame(target_id) {
                    first.find_frame(target_id)
                } else {
                    second.find_frame(target_id)
                }
            },
        }
    }
}


impl<R: Copy> SplitNode<R> {
    /// The frame with identifier `target_id`, for changing it in place.
    pub fn find_frame_mut(&mut self, target_id: FrameId) -> (r: Option<&mut Frame>)
        ensures
            match find_leaf(old(self)@, target_id) {
                Some(fv) => {
                    &&& r is Some
                    &&& (*r->0)@ == fv
                    &&& final(self)@ == replace_leaf(old(self)@, target_id, (*final(r->0))@)
                },
                None => r is None && final(self)@ == old(self)@,
            },
        decreases *old(self),
    {
        proof {
            if self@ is Leaf {
                lemma_find_leaf_leaf(self@, target_id);
            } else {
                lemma_find_leaf_split(self@, target_id);
            }
        }
        match self {
            SplitNode::Leaf(frame) => {
                if frame.id == target_id {
                    Some(frame)
                } else {
                    None
                }
            },
            SplitNode::Split { first, second, .. } => {
                if first.contains_frame(target_id) {
                    first.find_frame_mut(target_id)
                } else {
                    second.find_frame_mut(target_id)
                }
            },
        }
    }
}


impl<R: Copy> SplitNode<R> {
    /// The frame holding window `window_id` (the first one in tree order).
    pub fn find_frame_with_window(&self, window_id: u64) -> (r: Option<FrameId>)
        ensures
            r == frame_with_window(self@, window_id),
        decreases self,
    {
        match self {
            SplitNode::Leaf(frame) => {
                proof {
                    assert(leaves(self@) == seq![frame@]);
                    lemma_first_match_single(frame@, frame_holds(window_id));
                }
                if frame.contains_window(window_id) {
                    Some(frame.id)
                } else {
                    None
                }
            },
            SplitNode::Split { first, second, .. } => {
                let ghost a = leaves((**first)@);
                let ghost b = leaves((**second)@);
                proof {
                    assert(leaves(self@) == a + b);
                    lemma_first_match_append(a, b, frame_holds(window_id));
                    lemma_first_match(a, frame_holds(window_id));
                    lemma_first_match(b, frame_holds(window_id));
                }
                match first.find_frame_with_window(window_id) {
                    Some(id) => {
                        proof {
                            let i = first_match(a, frame_holds(window_id))->0;
                            assert((a + b)[i] == a[i]);
                        }
                        Some(id)
                    },
                    None => {
                        let r = second.find_frame_with_window(window_id);
                        proof {
                            if r is Some {
                                let j = first_match(b, frame_holds(window_id))->0;
                                assert((a + b)[j + a.len()] == b[j]);
                            }
                        }
                        r
                    },
                }
            },
        }
    }

    /// The frame named `name` (the first one in tree order).
    pub fn find_frame_by_name(&self, name: &str) -> (r: Option<FrameId>)
        ensures
            r == frame_named(self@, name@),
        decreases self,
    {
        match self {
            SplitNode::Leaf(frame) => {
                proof {
                    assert(leaves(self@) == seq![frame@]);
                    lemma_first_match_single(frame@, frame_named_as(name@));
                }
                let matches = match &frame.name {
                    Some(n) => str_eq(n.as_str(), name),
                    None => false,
                };
                if matches {
                    Some(frame.id)
                } else {
                    None
                }
            },
            SplitNode::Split { first, second, .. } => {
                let ghost a = leaves((**first)@);
                let ghost b = leaves((**second)@);
                proof {
                    assert(leaves(self@) == a + b);
                    lemma_first_match_append(a, b, frame_named_as(name@));
                    lemma_first_match(a, frame_named_as(name@));
                    lemma_first_match(b, frame_named_as(name@));
                }
                match first.find_frame_by_name(name) {
                    Some(id) => {
                        proof {
                            let i = first_match(a, frame_named_as(name@))->0;
                            assert((a + b)[i] == a[i]);
                        }
                        Some(id)
                    },
                    None => {
                        let r = second.find_frame_by_name(name);
                        proof {
                            if r is Some {
                                let j = first_match(b, frame_named_as(name@))->0;
                                assert((a + b)[j + a.len()] == b[j]);
                            }
                        }
                        r
                    },
                }
            },
        }
    }

    /// The identifier of the first frame (leftmost/topmost).
    pub fn first_frame_id(&self) -> (id: FrameId)
        ensures
            id == leaf_ids(self@)[0],
        decreases self,
    {
        proof {
            lemma_leaf_ids_match(self@);
        }
        match self {
            SplitNode::Leaf(frame) => frame.id,
            SplitNode::Split { first, second, .. } => {
                proof {
                    lemma_leaf_ids_match((**first)@);
                    assert(leaf_ids(self@) == leaf_ids((**first)@) + leaf_ids((**second)@));
                }
                first.first_frame_id()
            },
        }
    }

    /// All frame identifiers, in tree order.
    pub fn all_frame_ids(&self) -> (ids: Vec<FrameId>)
        ensures
            ids@ == leaf_ids(self@),
    {
        let mut ids: Vec<FrameId> = Vec::new();
        self.collect_frame_ids(&mut ids);
        ids
    }

    fn collect_frame_ids(&self, out: &mut Vec<FrameId>)
        ensures
            final(out)@ == old(out)@ + leaf_ids(self@),
        decreases self,
    {
        match self {
            SplitNode::Leaf(frame) => {
                out.push(frame.id);
            },
            SplitNode::Split { first, second, .. } => {
                first.collect_frame_ids(out);
                second.collect_frame_ids(out);
                proof {
                    assert(leaf_ids(self@) == leaf_ids((**first)@) + leaf_ids((**second)@));
                    assert(final(out)@ == old(out)@ + leaf_ids((**first)@) + leaf_ids((**second)@));
                }
            },
        }
    }

    fn toggle_owned(self, target_id: FrameId) -> (r: (SplitNode<R>, bool))
        ensures
            (r.0@, r.1) == toggle_at(self@, target_id),
        decreases self,
    {
        match self {
            SplitNode::Leaf(frame) => (SplitNode::Leaf(frame), false),
            SplitNode::Split { orientation, ratio, first, second } => {
                let in_first = first.contains_frame(target_id);
                let in_second = second.contains_frame(target_id);
                if in_first || in_second {
                    let (a, ha) = (*first).toggle_owned(target_id);
                    if ha {
                        (SplitNode::Split { orientation, ratio, first: Box::new(a), second }, true)
                    } else {
                        let (b, hb) = (*second).toggle_owned(target_id);
                        if hb {
                            (SplitNode::Split { orientation, ratio, first: Box::new(a), second: Box::new(b) }, true)
                        } else {
                            let flipped = match orientation {
                                Orientation::Horizontal => Orientation::Vertical,
                                Orientation::Vertical => Orientation::Horizontal,
                            };
                            (SplitNode::Split { orientation: flipped, ratio, first: Box::new(a), second: Box::new(b) }, true)
                        }
                    }
                } else {
                    (SplitNode::Split { orientation, ratio, first, second }, false)
                }
            },
        }
    }

    /// Toggle the orientation of the innermost split that contains frame
    /// `target_id`. Returns whether there was such a split.
    pub fn toggle_orientation(&mut self, target_id: FrameId) -> (handled: bool)
        ensures
            (final(self)@, handled) == toggle_at(old(self)@, target_id),
    {
        let mut tree = Self::placeholder();
        std::mem::swap(&mut tree, self);
        let (t, ok) = tree.toggle_owned(target_id);
        *self = t;
        ok
    }
}

/// Whether `direction` moves the boundary of a split with orientation `o`:
/// left and right move side-by-side splits, up and down stacked ones.
pub open spec fn moves_along(direction: Direction, o: Orientation) -> bool {
    match direction {
        Direction::Left | Direction::Right => o == Orientation::Horizontal,
        Direction::Up | Direction::Down => o == Orientation::Vertical,
    }
}

/// A path into a child: `side` (`false` for the first child, `true` for the
/// second) followed by the path inside it.
pub open spec fn prefixed(side: bool, p: Option<Seq<bool>>) -> Option<Seq<bool>> {
    match p {
        Some(q) => Some(seq![side] + q),
        None => None,
    }
}

/// The split whose ratio resizing frame `id` along `direction` changes, as
/// the path to it from the root: the innermost split along the direction's
/// axis that contains the frame. Where a split along the axis contains the
/// frame, the search stays in the child holding it (the first child when
/// both do) and falls back to that split; elsewhere it tries the first
/// subtree, then the second. `None` when no split qualifies.
pub open spec fn resize_target<R>(t: Tree<R>, id: FrameId, direction: Direction) -> Option<Seq<bool>>
    decreases t,
{
    match t {
        Tree::Leaf(_) => None,
        Tree::Split { orientation, first, second, .. } => {
            if moves_along(direction, orientation) && (has_id(*first, id) || has_id(*second, id)) {
                let inner = if has_id(*first, id) {
                    prefixed(false, resize_target(*first, id, direction))
                } else {
                    prefixed(true, resize_target(*second, id, direction))
                };
                if inner is Some {
                    inner
                } else {
                    Some(Seq::empty())
                }
            } else {
                let a = resize_target(*first, id, direction);
                if a is Some {
                    prefixed(false, a)
                } else {
                    prefixed(true, resize_target(*second, id, direction))
                }
            }
        },
    }
}

/// The view of an optional path.
pub open spec fn path_view(p: Option<Vec<bool>>) -> Option<Seq<bool>> {
    match p {
        Some(v) => Some(v@),
        None => None,
    }
}

fn prefix_path(side: bool, p: Option<Vec<bool>>) -> (r: Option<Vec<bool>>)
    ensures
        path_view(r) == prefixed(side, path_view(p)),
{
    match p {
        Some(mut v) => {
            let ghost q = v@;
            v.insert(0, side);
            proof {
                assert(v@ =~= seq![side] + q);
            }
            Some(v)
        },
        None => None,
    }
}

impl<R: Copy> SplitNode<R> {
    /// The path to the split that resizing frame `target_id` along
    /// `direction` changes (see `resize_target`); only its ratio is then
    /// moved.
    pub fn resize_path(&self, target_id: FrameId, direction: Direction) -> (p: Option<Vec<bool>>)
        ensures
            path_view(p) == resize_target(self@, target_id, direction),
        decreases self,
    {
        match self {
            SplitNode::Leaf(_) => None,
            SplitNode::Split { orientation, first, second, .. } => {
                let along = match direction {
                    Direction::Left | Direction::Right => *orientation == Orientation::Horizontal,
                    Direction::Up | Direction::Down => *orientation == Orientation::Vertical,
                };
                let in_first = first.contains_frame(target_id);
                let in_second = second.contains_frame(target_id);
                if along && (in_first || in_second) {
                    let inner = if in_first {
                        prefix_path(false, first.resize_path(target_id, direction))
                    } else {
                        prefix_path(true, second.resize_path(target_id, direction))
                    };
                    match inner {
                        Some(v) => Some(v),
                        None => Some(Vec::new()),
                    }
                } else {
                    let a = first.resize_path(target_id, direction);
                    match a {
                        Some(v) => prefix_path(false, Some(v)),
                        None => prefix_path(true, second.resize_path(target_id, direction)),
                    }
                }
            },
        }
    }
}

/// Removing from a tree where nothing can be removed leaves it unchanged.
pub proof fn lemma_remove_noop<R>(t: Tree<R>, id: FrameId)
    requires
        !can_remove(t, id),
    ensures
        remove_leaf(t, id) == t,
    decreases t,
{
    match t {
        Tree::Leaf(_) => {},
        Tree::Split { first, second, .. } => {
            lemma_remove_noop(*second, id);
        },
    }
}

/// A concatenation has no duplicates exactly when both parts have none and
/// they share no element.
pub proof fn lemma_no_dup_concat<A>(a: Seq<A>, b: Seq<A>)
    ensures
        (a + b).no_duplicates() <==> (a.no_duplicates() && b.no_duplicates() && forall|i: int, j: int|
            0 <= i < a.len() && 0 <= j < b.len() ==> a[i] != b[j]),
{
    let s = a + b;
    if s.no_duplicates() {
        assert forall|i: int, j: int| 0 <= i < a.len() && 0 <= j < a.len() && i != j implies a[i] != a[j] by {
            assert(s[i] == a[i] && s[j] == a[j]);
        }
        assert forall|i: int, j: int| 0 <= i < b.len() && 0 <= j < b.len() && i != j implies b[i] != b[j] by {
            assert(s[i + a.len()] == b[i] && s[j + a.len()] == b[j]);
        }
        assert forall|i: int, j: int| 0 <= i < a.len() && 0 <= j < b.len() implies a[i] != b[j] by {
            assert(s[i] == a[i] && s[j + a.len()] == b[j]);
        }
    }
    if a.no_duplicates() && b.no_duplicates() && forall|i: int, j: int|
        0 <= i < a.len() && 0 <= j < b.len() ==> a[i] != b[j] {
        assert forall|i: int, j: int| 0 <= i < s.len() && 0 <= j < s.len() && i != j implies s[i] != s[j] by {
            if i < a.len() && j < a.len() {
                assert(s[i] == a[i] && s[j] == a[j]);
            } else if i >= a.len() && j >= a.len() {
                assert(s[i] == b[i - a.len()] && s[j] == b[j - a.len()]);
            } else if i < a.len() {
                assert(s[i] == a[i] && s[j] == b[j - a.len()]);
            } else {
                assert(s[j] == a[j] && s[i] == b[i - a.len()]);
            }
        }
    }
}

/// Membership in a concatenation.
pub proof fn lemma_contains_concat<A>(a: Seq<A>, b: Seq<A>, x: A)
    ensures
        (a + b).contains(x) <==> (a.contains(x) || b.contains(x)),
{
    let s = a + b;
    if s.contains(x) {
        let k = choose|k: int| 0 <= k < s.len() && s[k] == x;
        if k < a.len() {
            assert(a[k] == x);
        } else {
            assert(b[k - a.len()] == x);
        }
    }
    if a.contains(x) {
        let k = choose|k: int| 0 <= k < a.len() && a[k] == x;
        assert(s[k] == x);
    }
    if b.contains(x) {
        let k = choose|k: int| 0 <= k < b.len() && b[k] == x;
        assert(s[k + a.len()] == x);
    }
}

/// Splitting a frame that is in the tree yields a split node whose frames
/// are the old ones plus the new one.
pub proof fn lemma_split_members<R>(t: Tree<R>, target: FrameId, o: Orientation, r: R, new_id: FrameId)
    requires
        has_id(t, target),
    ensures
        split_at(t, target, o, r, new_id) is Split,
        forall|x: FrameId| #[trigger] has_id(split_at(t, target, o, r, new_id), x) <==> (has_id(t, x) || x == new_id),
    decreases t,
{
    match t {
        Tree::Leaf(f) => {
            let n = split_at(t, target, o, r, new_id);
            assert(leaf_ids(t) == seq![f.id]);
            assert(f.id == target);
            reveal_with_fuel(leaf_ids, 2);
            assert(leaf_ids(n) =~= seq![f.id] + seq![new_id]);
            assert forall|x: FrameId| #[trigger] has_id(n, x) <==> (has_id(t, x) || x == new_id) by {
                lemma_contains_concat(seq![f.id], seq![new_id], x);
                assert(seq![f.id][0] == f.id);
                assert(seq![new_id][0] == new_id);
            }
        },
        Tree::Split { orientation, ratio, first, second } => {
            let n = split_at(t, target, o, r, new_id);
            if has_id(*first, target) {
                lemma_split_members(*first, target, o, r, new_id);
                let a2 = split_at(*first, target, o, r, new_id);
                assert forall|x: FrameId| #[trigger] has_id(n, x) <==> (has_id(t, x) || x == new_id) by {
                    lemma_contains_concat(leaf_ids(a2), leaf_ids(*second), x);
                    lemma_contains_concat(leaf_ids(*first), leaf_ids(*second), x);
                    assert(has_id(a2, x) <==> (has_id(*first, x) || x == new_id));
                }
            } else {
                lemma_contains_concat(leaf_ids(*first), leaf_ids(*second), target);
                lemma_split_members(*second, target, o, r, new_id);
                let b2 = split_at(*second, target, o, r, new_id);
                assert forall|x: FrameId| #[trigger] has_id(n, x) <==> (has_id(t, x) || x == new_id) by {
                    lemma_contains_concat(leaf_ids(*first), leaf_ids(b2), x);
                    lemma_contains_concat(leaf_ids(*first), leaf_ids(*second), x);
                    assert(has_id(b2, x) <==> (has_id(*second, x) || x == new_id));
                }
            }
        },
    }
}

/// A removable frame is in the tree.
pub proof fn lemma_can_remove_has<R>(t: Tree<R>, id: FrameId)
    requires
        can_remove(t, id),
    ensures
        has_id(t, id),
    decreases t,
{
    match t {
        Tree::Leaf(_) => {},
        Tree::Split { first, second, .. } => {
            lemma_contains_concat(leaf_ids(*first), leaf_ids(*second), id);
            if is_empty_leaf(*first, id) {
                assert(leaf_ids(*first)[0] == id);
            } else if is_empty_leaf(*second, id) {
                assert(leaf_ids(*second)[0] == id);
            } else if can_remove(*first, id) {
                lemma_can_remove_has(*first, id);
            } else {
                lemma_can_remove_has(*second, id);
            }
        },
    }
}

/// Removing a frame right after creating it by a split restores the tree:
/// splitting frame `target` and then removing the new (still empty) frame
/// gives back exactly the tree one started with.
pub proof fn law_remove_undoes_split<R>(t: Tree<R>, target: FrameId, o: Orientation, r: R, new_id: FrameId)
    requires
        has_id(t, target),
        !has_id(t, new_id),
    ensures
        can_remove(split_at(t, target, o, r, new_id), new_id),
        remove_leaf(split_at(t, target, o, r, new_id), new_id) == t,
    decreases t,
{
    match t {
        Tree::Leaf(f) => {
            assert(leaf_ids(t) == seq![f.id]);
            assert(f.id == target);
            if f.id == new_id {
                assert(leaf_ids(t)[0] == new_id);
            }
        },
        Tree::Split { orientation, ratio, first, second } => {
            lemma_contains_concat(leaf_ids(*first), leaf_ids(*second), new_id);
            lemma_contains_concat(leaf_ids(*first), leaf_ids(*second), target);
            if has_id(*first, target) {
                law_remove_undoes_split(*first, target, o, r, new_id);
                lemma_split_members(*first, target, o, r, new_id);
                if is_empty_leaf(*second, new_id) {
                    assert(leaf_ids(*second)[0] == new_id);
                }
            } else {
                law_remove_undoes_split(*second, target, o, r, new_id);
                lemma_split_members(*second, target, o, r, new_id);
                if is_empty_leaf(*first, new_id) {
                    assert(leaf_ids(*first)[0] == new_id);
                }
                if can_remove(*first, new_id) {
                    lemma_can_remove_has(*first, new_id);
                }
            }
        },
    }
}

/// Splitting keeps frame identifiers unique when the new identifier comes
/// from the allocator that handed out all the existing ones.
pub proof fn law_split_keeps_ids_unique<R>(t: Tree<R>, target: FrameId, o: Orientation, r: R, next: u64)
    requires
        ids_unique(t),
        ids_below(t, next),
        next < u64::MAX,
        has_id(t, target),
    ensures
        ids_unique(split_at(t, target, o, r, FrameId(next))),
        ids_below(split_at(t, target, o, r, FrameId(next)), bump(next)),
        has_id(split_at(t, target, o, r, FrameId(next)), FrameId(next)),
    decreases t,
{
    let new_id = FrameId(next);
    lemma_split_members(t, target, o, r, new_id);
    let n = split_at(t, target, o, r, new_id);
    match t {
        Tree::Leaf(f) => {
            assert(leaf_ids(t)[0] == f.id);
            reveal_with_fuel(leaf_ids, 2);
            assert(leaf_ids(n) =~= seq![f.id, new_id]);
        },
        Tree::Split { orientation, ratio, first, second } => {
            let a = leaf_ids(*first);
            let b = leaf_ids(*second);
            lemma_no_dup_concat(a, b);
            lemma_contains_concat(a, b, target);
            assert(ids_below(*first, next)) by {
                assert forall|i: int| 0 <= i < a.len() implies (#[trigger] a[i]).0 < next by {
                    assert((a + b)[i] == a[i]);
                }
            }
            assert(ids_below(*second, next)) by {
                assert forall|i: int| 0 <= i < b.len() implies (#[trigger] b[i]).0 < next by {
                    assert((a + b)[i + a.len()] == b[i]);
                }
            }
            if has_id(*first, target) {
                law_split_keeps_ids_unique(*first, target, o, r, next);
                let a2 = leaf_ids(split_at(*first, target, o, r, new_id));
                lemma_split_members(*first, target, o, r, new_id);
                assert forall|i: int, j: int| 0 <= i < a2.len() && 0 <= j < b.len() implies a2[i] != b[j] by {
                    assert(has_id(split_at(*first, target, o, r, new_id), a2[i]));
                    if a2[i] == new_id {
                        assert(b[j].0 < next);
                    } else {
                        assert(a.contains(a2[i]));
                        let k = choose|k: int| 0 <= k < a.len() && a[k] == a2[i];
                    }
                }
                lemma_no_dup_concat(a2, b);
                assert forall|i: int| 0 <= i < leaf_ids(n).len() implies (#[trigger] leaf_ids(n)[i]).0 < bump(next) by {
                    if i < a2.len() {
                        assert(leaf_ids(n)[i] == a2[i]);
                    } else {
                        assert(leaf_ids(n)[i] == b[i - a2.len()]);
                    }
                }
            } else {
                law_split_keeps_ids_unique(*second, target, o, r, next);
                let b2 = leaf_ids(split_at(*second, target, o, r, new_id));
                lemma_split_members(*second, target, o, r, new_id);
                assert forall|i: int, j: int| 0 <= i < a.len() && 0 <= j < b2.len() implies a[i] != b2[j] by {
                    assert(has_id(split_at(*second, target, o, r, new_id), b2[j]));
                    if b2[j] == new_id {
                        assert(a[i].0 < next);
                    } else {
                        assert(b.contains(b2[j]));
                        let k = choose|k: int| 0 <= k < b.len() && b[k] == b2[j];
                    }
                }
                lemma_no_dup_concat(a, b2);
                assert forall|i: int| 0 <= i < leaf_ids(n).len() implies (#[trigger] leaf_ids(n)[i]).0 < bump(next) by {
                    if i < a.len() {
                        assert(leaf_ids(n)[i] == a[i]);
                    } else {
                        assert(leaf_ids(n)[i] == b2[i - a.len()]);
                    }
                }
            }
        },
    }
}

/// Toggling does not change which frames the tree holds, and reports no
/// split exactly when it changed nothing.
pub proof fn lemma_toggle_keeps_ids<R>(t: Tree<R>, id: FrameId)
    ensures
        leaf_ids(toggle_at(t, id).0) == leaf_ids(t),
        !toggle_at(t, id).1 ==> toggle_at(t, id).0 == t,
    decreases t,
{
    match t {
        Tree::Leaf(_) => {},
        Tree::Split { first, second, .. } => {
            lemma_toggle_keeps_ids(*first, id);
            lemma_toggle_keeps_ids(*second, id);
        },
    }
}

/// Toggling a split's orientation twice gives back the original tree.
pub proof fn law_toggle_twice_restores<R>(t: Tree<R>, id: FrameId)
    requires
        toggle_at(t, id).1,
    ensures
        toggle_at(toggle_at(t, id).0, id) == (t, true),
    decreases t,
{
    match t {
        Tree::Leaf(_) => {},
        Tree::Split { orientation, ratio, first, second } => {
            lemma_toggle_keeps_ids(*first, id);
            lemma_toggle_keeps_ids(*second, id);
            let (a, ha) = toggle_at(*first, id);
            if ha {
                law_toggle_twice_restores(*first, id);
            } else {
                let (b, hb) = toggle_at(*second, id);
                if hb {
                    law_toggle_twice_restores(*second, id);
                }
            }
        },
    }
}

/// The direction a (lowercase) word names.
pub open spec fn direction_named(s: Seq<char>) -> Option<Direction> {
    if s == "left"@ {
        Some(Direction::Left)
    } else if s == "right"@ {
        Some(Direction::Right)
    } else if s == "up"@ {
        Some(Direction::Up)
    } else if s == "down"@ {
        Some(Direction::Down)
    } else {
        None
    }
}

impl Direction {
    /// The direction named by an already lowercased word.
    pub fn from_lowercase(s: &str) -> (d: Option<Direction>)
        ensures
            d == direction_named(s@),
    {
        if str_eq(s, "left") {
            Some(Direction::Left)
        } else if str_eq(s, "right") {
            Some(Direction::Right)
        } else if str_eq(s, "up") {
            Some(Direction::Up)
        } else if str_eq(s, "down") {
            Some(Direction::Down)
        } else {
            None
        }
    }

    /// The direction named by `s`, in any letter case.
    pub fn from_str(s: &str) -> (d: Option<Direction>)
        ensures
            d == direction_named(lowercase(s@)),
    {
        let lower = to_lowercase(s);
        Direction::from_lowercase(lower.as_str())
    }
}

/// Whether `rect` lies in `direction` of `from` (past its edge, and
/// overlapping it across the other axis), and how far away it is.
pub open spec fn neighbor_candidate(from: Rect, rect: Rect, direction: Direction) -> (bool, int) {
    match direction {
        Direction::Left => (
            rect.x + rect.width <= from.x && overlap_len(from.y as int, from.height as int, rect.y as int, rect.height as int) > 0,
            from.x - (rect.x + rect.width),
        ),
        Direction::Right => (
            rect.x >= from.x + from.width && overlap_len(from.y as int, from.height as int, rect.y as int, rect.height as int) > 0,
            rect.x - (from.x + from.width),
        ),
        Direction::Up => (
            rect.y + rect.height <= from.y && overlap_len(from.x as int, from.width as int, rect.x as int, rect.width as int) > 0,
            from.y - (rect.y + rect.height),
        ),
        Direction::Down => (
            rect.y >= from.y + from.height && overlap_len(from.x as int, from.width as int, rect.x as int, rect.width as int) > 0,
            rect.y - (from.y + from.height),
        ),
    }
}

/// The entry at `k` is a candidate neighbor of frame `target` (at `from`).
pub open spec fn is_candidate(layout: Seq<(FrameId, Rect)>, target: FrameId, from: Rect, d: Direction, k: int) -> bool {
    0 <= k < layout.len() && layout[k].0 != target && neighbor_candidate(from, layout[k].1, d).0
}

/// The entry at `k` is the nearest candidate, and the first of the nearest.
pub open spec fn is_nearest(layout: Seq<(FrameId, Rect)>, target: FrameId, from: Rect, d: Direction, k: int) -> bool {
    &&& is_candidate(layout, target, from, d, k)
    &&& forall|j: int| #[trigger] is_candidate(layout, target, from, d, j) ==>
        neighbor_candidate(from, layout[k].1, d).1 <= neighbor_candidate(from, layout[j].1, d).1
    &&& forall|j: int| 0 <= j < k && #[trigger] is_candidate(layout, target, from, d, j) ==>
        neighbor_candidate(from, layout[k].1, d).1 < neighbor_candidate(from, layout[j].1, d).1
}

/// The layout entry is for frame `id`.
pub open spec fn entry_is(id: FrameId) -> spec_fn((FrameId, Rect)) -> bool {
    |e: (FrameId, Rect)| e.0 == id
}

/// `r` is the neighbor of `target` in `d`: `None` when the target has no
/// rectangle or no frame lies that way, otherwise the nearest such frame.
pub open spec fn is_neighbor_answer(layout: Seq<(FrameId, Rect)>, target: FrameId, d: Direction, r: Option<FrameId>) -> bool {
    match rect_of(layout, target) {
        None => r is None,
        Some(from) => match r {
            None => forall|k: int| !is_candidate(layout, target, from, d, k),
            Some(id) => exists|k: int| is_nearest(layout, target, from, d, k) && layout[k].0 == id,
        },
    }
}

/// The rectangle of the first entry for frame `id`.
pub open spec fn rect_of(layout: Seq<(FrameId, Rect)>, id: FrameId) -> Option<Rect> {
    match first_match(layout, entry_is(id)) {
        Some(i) => Some(layout[i].1),
        None => None,
    }
}

fn overlap64(s1: i32, l1: i32, s2: i32, l2: i32) -> (r: i64)
    ensures
        r == overlap_len(s1 as int, l1 as int, s2 as int, l2 as int),
{
    let lo: i64 = if s1 >= s2 { s1 as i64 } else { s2 as i64 };
    let e1 = s1 as i64 + l1 as i64;
    let e2 = s2 as i64 + l2 as i64;
    let hi: i64 = if e1 <= e2 { e1 } else { e2 };
    if hi - lo > 0 { hi - lo } else { 0 }
}

fn candidate_exec(from: Rect, rect: Rect, direction: Direction) -> (r: (bool, i64))
    ensures
        r.0 == neighbor_candidate(from, rect, direction).0,
        r.1 == neighbor_candidate(from, rect, direction).1,
{
    let (fx, fy, fw, fh) = (from.x as i64, from.y as i64, from.width as i64, from.height as i64);
    let (rx, ry, rw, rh) = (rect.x as i64, rect.y as i64, rect.width as i64, rect.height as i64);
    match direction {
        Direction::Left => {
            let ov = overlap64(from.y, from.height, rect.y, rect.height);
            (rx + rw <= fx && ov > 0, fx - (rx + rw))
        },
        Direction::Right => {
            let ov = overlap64(from.y, from.height, rect.y, rect.height);
            (rx >= fx + fw && ov > 0, rx - (fx + fw))
        },
        Direction::Up => {
            let ov = overlap64(from.x, from.width, rect.x, rect.width);
            (ry + rh <= fy && ov > 0, fy - (ry + rh))
        },
        Direction::Down => {
            let ov = overlap64(from.x, from.width, rect.x, rect.width);
            (ry >= fy + fh && ov > 0, ry - (fy + fh))
        },
    }
}

/// The neighbor of frame `target_id` in `direction`, given the computed
/// frame rectangles of a workspace: among the frames past the target's edge
/// in that direction that overlap it across the other axis, the nearest one
/// (the first of the nearest, in layout order).
pub fn find_neighbor_in_layout(layout: &Vec<(FrameId, Rect)>, target_id: FrameId, direction: Direction) -> (r: Option<FrameId>)
    ensures
        is_neighbor_answer(layout@, target_id, direction, r),
{
    let ghost p = entry_is(target_id);
    let mut t: usize = 0;
    while t < layout.len() && layout[t].0 != target_id
        invariant
            t <= layout@.len(),
            p == entry_is(target_id),
            forall|j: int| 0 <= j < t ==> !p(#[trigger] layout@[j]),
        decreases layout@.len() - t,
    {
        t += 1;
    }
    if t == layout.len() {
        proof {
            lemma_first_match_none(layout@, p);
        }
        return None;
    }
    proof {
        lemma_first_match_unique(layout@, p, t as int);
    }
    let from = layout[t].1;
    let mut best: Option<(FrameId, i64)> = None;
    let ghost mut best_k: int = -1;
    let mut i: usize = 0;
    while i < layout.len()
        invariant
            i <= layout@.len(),
            from == layout@[t as int].1,
            t < layout@.len(),
            match best {
                None => forall|k: int| 0 <= k < i ==> !is_candidate(layout@, target_id, from, direction, k),
                Some((id, dist)) => {
                    &&& 0 <= best_k < i
                    &&& is_candidate(layout@, target_id, from, direction, best_k)
                    &&& layout@[best_k].0 == id
                    &&& dist == neighbor_candidate(from, layout@[best_k].1, direction).1
                    &&& forall|j: int| 0 <= j < i && #[trigger] is_candidate(layout@, target_id, from, direction, j) ==>
                        dist <= neighbor_candidate(from, layout@[j].1, direction).1
                    &&& forall|j: int| 0 <= j < best_k && #[trigger] is_candidate(layout@, target_id, from, direction, j) ==>
                        dist < neighbor_candidate(from, layout@[j].1, direction).1
                },
            },
        decreases layout@.len() - i,
    {
        let (id, rect) = layout[i];
        if id != target_id {
            let (cand, dist) = candidate_exec(from, rect, direction);
            if cand {
                match best {
                    Some((_, best_dist)) => {
                        if dist < best_dist {
                            best = Some((id, dist));
                            proof {
                                best_k = i as int;
                            }
                        }
                    },
                    None => {
                        best = Some((id, dist));
                        proof {
                            best_k = i as int;
                        }
                    },
                }
            }
        }
        i += 1;
    }
    match best {
        Some((id, _)) => {
            proof {
                assert(is_nearest(layout@, target_id, from, direction, best_k));
                assert(layout@[best_k].0 == id);
                assert(rect_of(layout@, target_id) == Some(from));
                assert(exists|k: int| is_nearest(layout@, target_id, from, direction, k) && layout@[k].0 == id);
                let f2 = rect_of(layout@, target_id)->0;
                assert(f2 == from);
                assert(is_nearest(layout@, target_id, f2, direction, best_k));
                assert(is_neighbor_answer(layout@, target_id, direction, Some(id)));
            }
            Some(id)
        },
        None => {
            proof {
                assert(rect_of(layout@, target_id) == Some(from));
            }
            None
        },
    }
}
} // verus!
