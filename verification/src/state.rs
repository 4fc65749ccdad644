//! State persistence: the layout and window placement saved across
//! restarts, and how a restart restores them.

use vstd::prelude::*;
use crate::layout::{empty_frame, leaf_ids, leaves, Frame, FrameId, FrameIdAlloc, FrameView, Orientation, SplitNode, Tree, WindowRef};
use crate::seqs::{first_match, is_first, lemma_first_match, lemma_first_match_agree, lemma_first_match_none, lemma_first_match_unique};
use crate::text::str_eq;
use crate::wm::ManagedWindow;
use crate::workspace::{bump_n, lemma_bump_n_add, ws_named, Workspace, WorkspaceId, WorkspaceManager};

verus! {

/// A window as saved: enough to recognise it when it reappears.
#[derive(Debug, Clone)]
pub struct SavedWindow {
    pub app_id: String,
    pub title: String,
    /// Stable compositor identifier (persists across reconnects).
    pub identifier: Option<String>,
}

/// A saved frame tree. Leaves keep their windows and active tab; splits
/// keep their orientation ("h" or "v") and ratio.
#[derive(Debug)]
pub enum SavedNode<R> {
    Leaf { windows: Vec<SavedWindow>, active_tab: usize },
    Split { orientation: String, ratio: R, first: Box<SavedNode<R>>, second: Box<SavedNode<R>> },
}

/// A saved workspace.
#[derive(Debug)]
pub struct SavedWorkspace<R> {
    pub name: String,
    pub root: SavedNode<R>,
    /// Position of the focused frame among the workspace's frames.
    pub focused_frame_index: usize,
}

/// Everything saved across a restart.
#[derive(Debug)]
pub struct SavedState<R> {
    pub workspaces: Vec<SavedWorkspace<R>>,
    pub focused_workspace: String,
    /// Which workspace was visible on each output: (output name, workspace name).
    pub visible_workspaces: Vec<(String, String)>,
}

/// The window lists of the leaves, left to right.
pub open spec fn saved_leaves<R>(n: SavedNode<R>) -> Seq<Seq<SavedWindow>>
    decreases n,
{
    match n {
        SavedNode::Leaf { windows, .. } => seq![windows@],
        SavedNode::Split { first, second, .. } => saved_leaves(*first) + saved_leaves(*second),
    }
}

/// The tree without its windows: leaves keep their active tab.
pub enum Shape<R> {
    Leaf(usize),
    Split(Seq<char>, R, Box<Shape<R>>, Box<Shape<R>>),
}

pub open spec fn shape<R>(n: SavedNode<R>) -> Shape<R>
    decreases n,
{
    match n {
        SavedNode::Leaf { active_tab, .. } => Shape::Leaf(active_tab),
        SavedNode::Split { orientation, ratio, first, second } => Shape::Split(orientation@, ratio, Box::new(shape(*first)), Box::new(shape(*second))),
    }
}

/// Number of leaves.
pub open spec fn leaf_count<R>(n: SavedNode<R>) -> nat
    decreases n,
{
    match n {
        SavedNode::Leaf { .. } => 1,
        SavedNode::Split { first, second, .. } => leaf_count(*first) + leaf_count(*second),
    }
}

proof fn lemma_leaf_count<R>(n: SavedNode<R>)
    ensures
        saved_leaves(n).len() == leaf_count(n),
        leaf_count(n) >= 1,
    decreases n,
{
    if let SavedNode::Split { first, second, .. } = n {
        lemma_leaf_count(*first);
        lemma_leaf_count(*second);
    }
}

/// Trees of one shape have as many leaves.
pub proof fn lemma_shape_leaf_count<R>(a: SavedNode<R>, b: SavedNode<R>)
    requires
        shape(a) == shape(b),
    ensures
        leaf_count(a) == leaf_count(b),
        saved_leaves(a).len() == saved_leaves(b).len(),
    decreases a,
{
    lemma_leaf_count(a);
    lemma_leaf_count(b);
    if let SavedNode::Split { first: f1, second: s1, .. } = a {
        if let SavedNode::Split { first: f2, second: s2, .. } = b {
            assert(shape(*f1) == shape(*f2));
            assert(shape(*s1) == shape(*s2));
            lemma_shape_leaf_count(*f1, *f2);
            lemma_shape_leaf_count(*s1, *s2);
        }
    }
}

/// Number of leaves.
pub fn count_leaves<R>(node: &SavedNode<R>) -> (c: usize)
    requires
        leaf_count(*node) <= usize::MAX,
    ensures
        c == leaf_count(*node),
    decreases node,
{
    match node {
        SavedNode::Leaf { .. } => 1,
        SavedNode::Split { first, second, .. } => count_leaves(first) + count_leaves(second),
    }
}

/// Some leaf still holds a saved window.
pub open spec fn any_saved_window<R>(n: SavedNode<R>) -> bool {
    exists|i: int| 0 <= i < saved_leaves(n).len() && (#[trigger] saved_leaves(n)[i]).len() > 0
}

/// Whether some leaf still holds a saved window.
pub fn node_has_windows<R>(node: &SavedNode<R>) -> (b: bool)
    ensures
        b == any_saved_window(*node),
    decreases node,
{
    match node {
        SavedNode::Leaf { windows, .. } => {
            proof {
                assert(saved_leaves(*node)[0] == windows@);
            }
            windows.len() > 0
        },
        SavedNode::Split { first, second, .. } => {
            let a = node_has_windows(first);
            let b = node_has_windows(second);
            proof {
                let l1 = saved_leaves(**first);
                let l2 = saved_leaves(**second);
                let l = saved_leaves(*node);
                assert(l == l1 + l2);
                if a {
                    let i = choose|i: int| 0 <= i < l1.len() && (#[trigger] l1[i]).len() > 0;
                    assert(l[i] == l1[i]);
                }
                if b {
                    let i = choose|i: int| 0 <= i < l2.len() && (#[trigger] l2[i]).len() > 0;
                    assert(l[l1.len() + i] == l2[i]);
                }
                if any_saved_window(*node) {
                    let i = choose|i: int| 0 <= i < l.len() && (#[trigger] l[i]).len() > 0;
                    if i < l1.len() {
                        assert(l[i] == l1[i]);
                    } else {
                        assert(l[i] == l2[i - l1.len()]);
                    }
                }
            }
            a || b
        },
    }
}

/// Whether the saved state still has windows to match.
pub fn has_remaining_matches<R>(state: &SavedState<R>) -> (b: bool)
    ensures
        b == exists|i: int| 0 <= i < state.workspaces@.len() && any_saved_window(#[trigger] state.workspaces@[i].root),
{
    let mut i: usize = 0;
    while i < state.workspaces.len()
        invariant
            i <= state.workspaces@.len(),
            forall|j: int| 0 <= j < i ==> !any_saved_window(#[trigger] state.workspaces@[j].root),
        decreases state.workspaces@.len() - i,
    {
        if node_has_windows(&state.workspaces[i].root) {
            return true;
        }
        i += 1;
    }
    false
}

// ── Matching reappearing windows ─────────────────────────────────────────

pub open spec fn by_identifier(id: Seq<char>) -> spec_fn(SavedWindow) -> bool {
    |w: SavedWindow| w.identifier matches Some(x) && x@ == id
}

pub open spec fn by_app_title(app: Seq<char>, title: Seq<char>) -> spec_fn(SavedWindow) -> bool {
    |w: SavedWindow| w.app_id@ == app && w.title@ == title
}

pub open spec fn by_app(app: Seq<char>) -> spec_fn(SavedWindow) -> bool {
    |w: SavedWindow| w.app_id@ == app
}

/// The saved window a reappearing window takes: with an identifier, the
/// first with that identifier (and nothing else); without, the first with
/// the same app id and title, else the first with the same app id.
pub open spec fn match_in(ws: Seq<SavedWindow>, app: Seq<char>, title: Seq<char>, ident: Option<Seq<char>>) -> Option<int> {
    match ident {
        Some(id) => first_match(ws, by_identifier(id)),
        None => match first_match(ws, by_app_title(app, title)) {
            Some(p) => Some(p),
            None => first_match(ws, by_app(app)),
        },
    }
}

pub open spec fn leaf_matches(app: Seq<char>, title: Seq<char>, ident: Option<Seq<char>>) -> spec_fn(Seq<SavedWindow>) -> bool {
    |ws: Seq<SavedWindow>| match_in(ws, app, title, ident) is Some
}

pub open spec fn opt_str_view(s: Option<&str>) -> Option<Seq<char>> {
    match s {
        Some(x) => Some(x@),
        None => None,
    }
}

fn find_saved(ws: &Vec<SavedWindow>, app_id: &str, title: &str, identifier: Option<&str>) -> (r: Option<usize>)
    ensures
        match r {
            Some(p) => match_in(ws@, app_id@, title@, opt_str_view(identifier)) == Some(p as int) && p < ws@.len(),
            None => match_in(ws@, app_id@, title@, opt_str_view(identifier)) is None,
        },
{
    match identifier {
        Some(id) => {
            let ghost q = by_identifier(id@);
            let mut i: usize = 0;
            while i < ws.len()
                invariant
                    i <= ws@.len(),
                    q == by_identifier(id@),
                    identifier == Some(id),
                    forall|j: int| 0 <= j < i ==> !q(#[trigger] ws@[j]),
                decreases ws@.len() - i,
            {
                let hit = match &ws[i].identifier {
                    Some(x) => str_eq(x.as_str(), id),
                    None => false,
                };
                if hit {
                    proof {
                        lemma_first_match_unique(ws@, q, i as int);
                    }
                    return Some(i);
                }
                i += 1;
            }
            proof {
                lemma_first_match_none(ws@, q);
            }
            None
        },
        None => {
            let ghost q1 = by_app_title(app_id@, title@);
            let mut i: usize = 0;
            while i < ws.len()
                invariant
                    i <= ws@.len(),
                    q1 == by_app_title(app_id@, title@),
                    identifier is None,
                    forall|j: int| 0 <= j < i ==> !q1(#[trigger] ws@[j]),
                decreases ws@.len() - i,
            {
                if str_eq(ws[i].app_id.as_str(), app_id) && str_eq(ws[i].title.as_str(), title) {
                    proof {
                        lemma_first_match_unique(ws@, q1, i as int);
                    }
                    return Some(i);
                }
                i += 1;
            }
            proof {
                lemma_first_match_none(ws@, q1);
            }
            let ghost q2 = by_app(app_id@);
            let mut i: usize = 0;
            while i < ws.len()
                invariant
                    i <= ws@.len(),
                    q2 == by_app(app_id@),
                    identifier is None,
                    first_match(ws@, q1) is None,
                    q1 == by_app_title(app_id@, title@),
                    forall|j: int| 0 <= j < i ==> !q2(#[trigger] ws@[j]),
                decreases ws@.len() - i,
            {
                if str_eq(ws[i].app_id.as_str(), app_id) {
                    proof {
                        lemma_first_match_unique(ws@, q2, i as int);
                    }
                    return Some(i);
                }
                i += 1;
            }
            proof {
                lemma_first_match_none(ws@, q2);
            }
            None
        },
    }
}

/// The saved leaves after the first leaf with a match gave up its matched
/// window.
pub open spec fn consumed(l: Seq<Seq<SavedWindow>>, app: Seq<char>, title: Seq<char>, ident: Option<Seq<char>>) -> Seq<Seq<SavedWindow>> {
    match first_match(l, leaf_matches(app, title, ident)) {
        Some(k) => l.update(k, l[k].remove(match_in(l[k], app, title, ident).unwrap())),
        None => l,
    }
}

/// Find the first leaf (from position `base` on) with a saved window the
/// reappearing window matches, remove that saved window so it cannot match
/// again, and give the leaf's position.
pub fn find_and_consume_match<R>(node: &mut SavedNode<R>, app_id: &str, title: &str, identifier: Option<&str>, base_index: usize) -> (r: Option<usize>)
    requires
        base_index + leaf_count(*old(node)) <= usize::MAX,
    ensures
        ({
            let l = saved_leaves(*old(node));
            let q = leaf_matches(app_id@, title@, opt_str_view(identifier));
            &&& match first_match(l, q) {
                Some(k) => r == Some((base_index + k) as usize),
                None => r is None,
            }
            &&& saved_leaves(*final(node)) == consumed(l, app_id@, title@, opt_str_view(identifier))
            &&& shape(*final(node)) == shape(*old(node))
        }),
    decreases *old(node),
{
    let ghost q = leaf_matches(app_id@, title@, opt_str_view(identifier));
    match node {
        SavedNode::Leaf { windows, .. } => {
            let ghost before = windows@;
            proof {
                assert(saved_leaves(*old(node)) == seq![before]);
                crate::seqs::lemma_first_match_single(before, q);
            }
            match find_saved(windows, app_id, title, identifier) {
                Some(pos) => {
                    windows.remove(pos);
                    proof {
                        assert(seq![before].update(0, before.remove(pos as int)) =~= seq![windows@]);
                    }
                    Some(base_index)
                },
                None => None,
            }
        },
        SavedNode::Split { first, second, .. } => {
            proof {
                lemma_leaf_count(**first);
                lemma_leaf_count(**second);
            }
            let first_count = count_leaves(first);
            let ghost a = saved_leaves(**first);
            let ghost b = saved_leaves(**second);
            proof {
                assert(saved_leaves(*old(node)) == a + b);
                crate::seqs::lemma_first_match_append(a, b, q);
                lemma_first_match(a, q);
                lemma_first_match(b, q);
            }
            match find_and_consume_match(first, app_id, title, identifier, base_index) {
                Some(i) => {
                    proof {
                        let k = first_match(a, q).unwrap();
                        assert((a + b)[k] == a[k]);
                        assert(consumed(a, app_id@, title@, opt_str_view(identifier)) + b
                            =~= consumed(a + b, app_id@, title@, opt_str_view(identifier)));
                    }
                    Some(i)
                },
                None => {
                    let r = find_and_consume_match(second, app_id, title, identifier, base_index + first_count);
                    proof {
                        assert(consumed(a, app_id@, title@, opt_str_view(identifier)) == a);
                        if let Some(k) = first_match(b, q) {
                            assert((a + b)[a.len() + k] == b[k]);
                            assert(a + consumed(b, app_id@, title@, opt_str_view(identifier))
                                =~= consumed(a + b, app_id@, title@, opt_str_view(identifier)));
                        } else {
                            assert(consumed(b, app_id@, title@, opt_str_view(identifier)) == b);
                        }
                    }
                    r
                },
            }
        },
    }
}

// ── Saving ────────────────────────────────────────────────────────────────

/// The saved shape of a live tree: leaves keep their active tab, splits
/// their orientation ("h" or "v") and ratio.
pub open spec fn tree_shape<R>(t: Tree<R>) -> Shape<R>
    decreases t,
{
    match t {
        Tree::Leaf(f) => Shape::Leaf(f.active_tab),
        Tree::Split { orientation, ratio, first, second } => Shape::Split(
            if orientation == Orientation::Horizontal { "h"@ } else { "v"@ },
            ratio,
            Box::new(tree_shape(*first)),
            Box::new(tree_shape(*second)),
        ),
    }
}

/// The identifier the compositor gave window `id`, if it is managed.
pub open spec fn identifier_of(windows: Seq<ManagedWindow>, id: u64) -> Option<Seq<char>> {
    match first_match(windows, |m: ManagedWindow| m.id == id) {
        Some(k) => match windows[k].identifier {
            Some(s) => Some(s@),
            None => None,
        },
        None => None,
    }
}

/// `s` is how window `w` is saved.
pub open spec fn saved_as(s: SavedWindow, w: WindowRef, windows: Seq<ManagedWindow>) -> bool {
    &&& s.app_id@ == w.app_id@
    &&& s.title@ == w.title@
    &&& opt_string_view(s.identifier) == identifier_of(windows, w.window_id)
}

pub open spec fn opt_string_view(s: Option<String>) -> Option<Seq<char>> {
    match s {
        Some(x) => Some(x@),
        None => None,
    }
}

/// The saved leaves record the live frames' windows, in order.
pub open spec fn saves_windows<R>(saved: Seq<Seq<SavedWindow>>, t: Tree<R>, windows: Seq<ManagedWindow>) -> bool {
    &&& saved.len() == leaves(t).len()
    &&& forall|i: int| 0 <= i < saved.len() ==> {
        &&& (#[trigger] saved[i]).len() == leaves(t)[i].windows.len()
        &&& forall|k: int| 0 <= k < saved[i].len() ==> saved_as(#[trigger] saved[i][k], leaves(t)[i].windows[k], windows)
    }
}

fn identifier_for(windows: &[ManagedWindow], id: u64) -> (r: Option<String>)
    ensures
        opt_string_view(r) == identifier_of(windows@, id),
{
    let ghost q = |m: ManagedWindow| m.id == id;
    let mut i: usize = 0;
    while i < windows.len()
        invariant
            i <= windows@.len(),
            q == (|m: ManagedWindow| m.id == id),
            forall|j: int| 0 <= j < i ==> !q(#[trigger] windows@[j]),
        decreases windows@.len() - i,
    {
        if windows[i].id == id {
            proof {
                lemma_first_match_unique(windows@, q, i as int);
            }
            return match &windows[i].identifier {
                Some(s) => Some(s.clone()),
                None => None,
            };
        }
        i += 1;
    }
    proof {
        lemma_first_match_none(windows@, q);
    }
    None
}

/// The saved form of a live frame tree; window identifiers come from the
/// managed windows.
pub fn save_node<R: Copy>(node: &SplitNode<R>, windows: &[ManagedWindow]) -> (s: SavedNode<R>)
    ensures
        shape(s) == tree_shape(node@),
        saves_windows(saved_leaves(s), node@, windows@),
    decreases node,
{
    match node {
        SplitNode::Leaf(frame) => {
            let mut saved: Vec<SavedWindow> = Vec::new();
            let mut k: usize = 0;
            while k < frame.windows.len()
                invariant
                    k <= frame.windows@.len(),
                    saved@.len() == k,
                    forall|j: int| 0 <= j < k ==> saved_as(#[trigger] saved@[j], frame.windows@[j], windows@),
                decreases frame.windows@.len() - k,
            {
                let w = &frame.windows[k];
                let sw = SavedWindow {
                    app_id: w.app_id.clone(),
                    title: w.title.clone(),
                    identifier: identifier_for(windows, w.window_id),
                };
                saved.push(sw);
                k += 1;
            }
            let s = SavedNode::Leaf { windows: saved, active_tab: frame.active_tab };
            proof {
                assert(leaves(node@) == seq![frame@]);
                assert(saved_leaves(s) == seq![saved@]);
            }
            s
        },
        SplitNode::Split { orientation, ratio, first, second } => {
            let a = save_node(first, windows);
            let b = save_node(second, windows);
            let o = match orientation {
                Orientation::Horizontal => "h".to_string(),
                Orientation::Vertical => "v".to_string(),
            };
            let s = SavedNode::Split { orientation: o, ratio: *ratio, first: Box::new(a), second: Box::new(b) };
            proof {
                let la = saved_leaves(a);
                let lb = saved_leaves(b);
                let ta = leaves((**first)@);
                let tb = leaves((**second)@);
                assert(saved_leaves(s) == la + lb);
                assert(leaves(node@) == ta + tb);
                assert forall|i: int| 0 <= i < (la + lb).len() implies {
                    &&& (#[trigger] (la + lb)[i]).len() == (ta + tb)[i].windows.len()
                    &&& forall|k: int| 0 <= k < (la + lb)[i].len() ==> saved_as(#[trigger] (la + lb)[i][k], (ta + tb)[i].windows[k], windows@)
                } by {
                    if i < la.len() {
                        assert((la + lb)[i] == la[i] && (ta + tb)[i] == ta[i]);
                    } else {
                        assert((la + lb)[i] == lb[i - la.len()] && (ta + tb)[i] == tb[i - la.len()]);
                    }
                }
            }
            s
        },
    }
}

/// The focused frame's position among a workspace's frames (0 when absent).
pub open spec fn focus_index<R>(w: Workspace<R>) -> int {
    match first_match(leaf_ids(w.root@), |f: FrameId| f == w.focused_frame) {
        Some(i) => i,
        None => 0,
    }
}

/// What is saved before a restart: every workspace's tree and focused frame
/// position, the focused workspace's name, and which workspace each named
/// output shows.
pub fn saved_state<R: Copy>(workspaces: &WorkspaceManager<R>, windows: &[ManagedWindow]) -> (s: SavedState<R>)
    ensures
        s.workspaces@.len() == workspaces.workspaces@.len(),
        forall|i: int| 0 <= i < s.workspaces@.len() ==> {
            let sw = #[trigger] s.workspaces@[i];
            let w = workspaces.workspaces@[i];
            &&& sw.name@ == w.name@
            &&& shape(sw.root) == tree_shape(w.root@)
            &&& saves_windows(saved_leaves(sw.root), w.root@, windows@)
            &&& sw.focused_frame_index == focus_index(w)
        },
        s.focused_workspace@ == (if workspaces.focused_workspace.0 < workspaces.workspaces@.len() {
            workspaces.workspaces@[workspaces.focused_workspace.0 as int].name@
        } else {
            Seq::empty()
        }),
        saved_pairs(s.visible_workspaces@) == visible_pairs(*workspaces, workspaces.workspaces@.len() as int),
{
    let mut saved: Vec<SavedWorkspace<R>> = Vec::new();
    let mut i: usize = 0;
    while i < workspaces.workspaces.len()
        invariant
            i <= workspaces.workspaces@.len(),
            saved@.len() == i,
            forall|j: int| 0 <= j < i ==> {
                let sw = #[trigger] saved@[j];
                let w = workspaces.workspaces@[j];
                &&& sw.name@ == w.name@
                &&& shape(sw.root) == tree_shape(w.root@)
                &&& saves_windows(saved_leaves(sw.root), w.root@, windows@)
                &&& sw.focused_frame_index == focus_index(w)
            },
        decreases workspaces.workspaces@.len() - i,
    {
        let w = &workspaces.workspaces[i];
        let ids = w.root.all_frame_ids();
        let ghost q = |f: FrameId| f == w.focused_frame;
        let mut idx: usize = 0;
        while idx < ids.len() && ids[idx] != w.focused_frame
            invariant
                idx <= ids@.len(),
                ids@ == leaf_ids(w.root@),
                q == (|f: FrameId| f == w.focused_frame),
                forall|j: int| 0 <= j < idx ==> !q(#[trigger] ids@[j]),
            decreases ids@.len() - idx,
        {
            idx += 1;
        }
        let focused_index = if idx < ids.len() {
            proof {
                lemma_first_match_unique(ids@, q, idx as int);
            }
            idx
        } else {
            proof {
                lemma_first_match_none(ids@, q);
            }
            0
        };
        let sw = SavedWorkspace { name: w.name.clone(), root: save_node(&w.root, windows), focused_frame_index: focused_index };
        saved.push(sw);
        i += 1;
    }
    let focused = if workspaces.focused_workspace.0 < workspaces.workspaces.len() {
        workspaces.workspaces[workspaces.focused_workspace.0].name.clone()
    } else {
        String::new()
    };
    let mut visible: Vec<(String, String)> = Vec::new();
    let mut i: usize = 0;
    while i < workspaces.workspaces.len()
        invariant
            i <= workspaces.workspaces@.len(),
            saved_pairs(visible@) == visible_pairs(*workspaces, i as int),
        decreases workspaces.workspaces@.len() - i,
    {
        let w = &workspaces.workspaces[i];
        let ghost before = visible@;
        let name = match w.active_output {
            Some(oid) => match workspaces.output(oid) {
                Some(o) => match &o.name {
                    Some(n) => Some(n.clone()),
                    None => None,
                },
                None => None,
            },
            None => None,
        };
        if let Some(n) = name {
            visible.push((n, w.name.clone()));
            proof {
                assert(saved_pairs(visible@) =~= saved_pairs(before).push((n@, w.name@)));
            }
        }
        i += 1;
    }
    SavedState { workspaces: saved, focused_workspace: focused, visible_workspaces: visible }
}

pub open spec fn saved_pairs(v: Seq<(String, String)>) -> Seq<(Seq<char>, Seq<char>)> {
    v.map_values(|p: (String, String)| (p.0@, p.1@))
}

/// (output name, workspace name) for the first `n` workspaces that are
/// shown on an output with a name.
pub open spec fn visible_pairs<R>(m: WorkspaceManager<R>, n: int) -> Seq<(Seq<char>, Seq<char>)>
    decreases n,
{
    if n <= 0 {
        Seq::empty()
    } else {
        let w = m.workspaces@[n - 1];
        let rest = visible_pairs(m, n - 1);
        match crate::control::shown_output_name(m, w) {
            Some(o) => rest.push((o, w.name@)),
            None => rest,
        }
    }
}

// ── Restoring ─────────────────────────────────────────────────────────────

/// The live tree a saved tree restores to: the same splits ("h" reads as
/// horizontal, anything else as vertical; the ratio is kept), with a fresh
/// empty frame at each leaf, numbered from `next` in leaf order.
pub open spec fn restored_tree<R>(s: SavedNode<R>, next: u64) -> Tree<R>
    decreases s,
{
    match s {
        SavedNode::Leaf { .. } => Tree::Leaf(empty_frame(FrameId(next))),
        SavedNode::Split { orientation, ratio, first, second } => Tree::Split {
            orientation: if orientation@ == "h"@ { Orientation::Horizontal } else { Orientation::Vertical },
            ratio,
            first: Box::new(restored_tree(*first, next)),
            second: Box::new(restored_tree(*second, bump_n(next, leaf_count(*first)))),
        },
    }
}

/// The identifiers handed out from `next` on, `n` of them.
pub open spec fn fresh_ids(next: u64, n: nat) -> Seq<FrameId> {
    Seq::new(n, |i: int| FrameId(bump_n(next, i as nat)))
}

/// A restored tree's frames are empty and carry the identifiers handed out
/// from `next` on, one per saved leaf.
pub proof fn lemma_restored_frames<R>(s: SavedNode<R>, next: u64)
    ensures
        leaf_ids(restored_tree(s, next)) == fresh_ids(next, leaf_count(s)),
        leaves(restored_tree(s, next)).len() == leaf_count(s),
        forall|i: int| 0 <= i < leaf_count(s) ==> (#[trigger] leaves(restored_tree(s, next))[i]) == empty_frame(FrameId(bump_n(next, i as nat))),
    decreases s,
{
    reveal_with_fuel(bump_n, 1);
    if let SavedNode::Split { first, second, .. } = s {
        let n1 = leaf_count(*first);
        let next2 = bump_n(next, n1);
        lemma_restored_frames(*first, next);
        lemma_restored_frames(*second, next2);
        let t = restored_tree(s, next);
        let a = leaves(restored_tree(*first, next));
        let b = leaves(restored_tree(*second, next2));
        assert(leaves(t) == a + b);
        assert forall|i: int| n1 <= i < leaf_count(s) implies #[trigger] bump_n(next, i as nat) == bump_n(next2, (i - n1) as nat) by {
            lemma_bump_n_add(next, n1, (i - n1) as nat);
        }
        assert(leaf_ids(t) =~= fresh_ids(next, leaf_count(s))) by {
            assert forall|i: int| 0 <= i < leaf_count(s) implies #[trigger] leaf_ids(t)[i] == fresh_ids(next, leaf_count(s))[i] by {
                if i >= n1 {
                    assert(leaf_ids(t)[i] == leaf_ids(restored_tree(*second, next2))[i - n1]);
                }
            }
        }
        assert forall|i: int| 0 <= i < leaf_count(s) implies (#[trigger] leaves(t)[i]) == empty_frame(FrameId(bump_n(next, i as nat))) by {
            if i < n1 {
                assert(leaves(t)[i] == a[i]);
            } else {
                assert(leaves(t)[i] == b[i - n1]);
            }
        }
    }
}

/// Rebuild a saved tree as a live one, taking frame identifiers from
/// `alloc` in leaf order. The frames come back empty: windows are matched
/// into them as they reappear.
pub fn restore_node<R: Copy>(saved: &SavedNode<R>, alloc: &mut FrameIdAlloc) -> (n: SplitNode<R>)
    ensures
        n@ == restored_tree(*saved, old(alloc).next),
        final(alloc).next == bump_n(old(alloc).next, leaf_count(*saved)),
    decreases saved,
{
    match saved {
        SavedNode::Leaf { .. } => {
            proof {
                reveal_with_fuel(bump_n, 2);
            }
            SplitNode::Leaf(Frame::new(alloc))
        },
        SavedNode::Split { orientation, ratio, first, second } => {
            let o = if str_eq(orientation.as_str(), "h") {
                Orientation::Horizontal
            } else {
                Orientation::Vertical
            };
            let ghost start = alloc.next;
            let a = restore_node(first, alloc);
            let b = restore_node(second, alloc);
            proof {
                lemma_bump_n_add(start, leaf_count(**first), leaf_count(**second));
            }
            SplitNode::Split { orientation: o, ratio: *ratio, first: Box::new(a), second: Box::new(b) }
        },
    }
}

/// The splits of a live tree, without its frames.
pub enum Skeleton<R> {
    Frame,
    Split(Orientation, R, Box<Skeleton<R>>, Box<Skeleton<R>>),
}

pub open spec fn skeleton<R>(t: Tree<R>) -> Skeleton<R>
    decreases t,
{
    match t {
        Tree::Leaf(_) => Skeleton::Frame,
        Tree::Split { orientation, ratio, first, second } => Skeleton::Split(
            orientation,
            ratio,
            Box::new(skeleton(*first)),
            Box::new(skeleton(*second)),
        ),
    }
}

/// Saving a live tree and restoring it gives back its splits: the same
/// orientations and ratios in the same places, and as many frames.
pub proof fn law_restore_keeps_splits<R>(t: Tree<R>, s: SavedNode<R>, next: u64)
    requires
        shape(s) == tree_shape(t),
    ensures
        skeleton(restored_tree(s, next)) == skeleton(t),
        leaf_count(s) == leaves(t).len(),
    decreases t,
{
    reveal_strlit("h");
    reveal_strlit("v");
    match t {
        Tree::Leaf(_) => {
            assert(s is Leaf);
        },
        Tree::Split { orientation, ratio, first, second } => {
            assert(s is Split);
            if let SavedNode::Split { orientation: so, first: sf, second: ss, .. } = s {
                assert(shape(*sf) == tree_shape(*first));
                assert(shape(*ss) == tree_shape(*second));
                law_restore_keeps_splits(*first, *sf, next);
                law_restore_keeps_splits(*second, *ss, bump_n(next, leaf_count(*sf)));
                assert(so@ == (if orientation == Orientation::Horizontal { "h"@ } else { "v"@ }));
                assert("v"@ != "h"@) by {
                    assert("v"@[0] != "h"@[0]);
                }
                let rt = restored_tree(s, next);
                assert(rt is Split);
                assert(skeleton(rt) == skeleton(t));
            }
        },
    }
}

/// The (frame, active tab) pairs remembered for a restored tree: one for
/// each saved leaf that held windows, paired with the frame identifier at
/// the leaf's position (counted from `base`) when there is one.
pub open spec fn tab_entries<R>(n: SavedNode<R>, ids: Seq<FrameId>, base: int) -> Seq<(FrameId, usize)>
    decreases n,
{
    match n {
        SavedNode::Leaf { windows, active_tab } => if base < ids.len() && windows.len() > 0 {
            seq![(ids[base], active_tab)]
        } else {
            Seq::empty()
        },
        SavedNode::Split { first, second, .. } => tab_entries(*first, ids, base) + tab_entries(*second, ids, base + leaf_count(*first)),
    }
}

fn collect_active_tabs<R>(node: &SavedNode<R>, frame_ids: &[FrameId], base_index: usize, out: &mut Vec<(FrameId, usize)>)
    requires
        base_index + leaf_count(*node) <= usize::MAX,
    ensures
        final(out)@ == old(out)@ + tab_entries(*node, frame_ids@, base_index as int),
    decreases node,
{
    match node {
        SavedNode::Leaf { active_tab, windows } => {
            if base_index < frame_ids.len() && windows.len() > 0 {
                out.push((frame_ids[base_index], *active_tab));
            }
            proof {
                assert(old(out)@ + Seq::<(FrameId, usize)>::empty() =~= old(out)@);
            }
        },
        SavedNode::Split { first, second, .. } => {
            proof {
                lemma_leaf_count(**first);
                lemma_leaf_count(**second);
            }
            let first_count = count_leaves(first);
            let ghost o = out@;
            collect_active_tabs(first, frame_ids, base_index, out);
            collect_active_tabs(second, frame_ids, base_index + first_count, out);
            proof {
                assert(o + tab_entries(**first, frame_ids@, base_index as int) + tab_entries(**second, frame_ids@, base_index + first_count)
                    =~= o + tab_entries(*node, frame_ids@, base_index as int));
            }
        },
    }
}

/// What restoring has built so far: each workspace's tree and focused
/// frame, the allocator's next identifier, and the remembered tabs.
pub struct Restored<R> {
    pub roots: Seq<Tree<R>>,
    pub focus: Seq<FrameId>,
    pub next: u64,
    pub tabs: Seq<(FrameId, usize)>,
}

/// The workspaces as they stand before restoring.
pub open spec fn before_restore<R>(ws: Seq<Workspace<R>>, next: u64) -> Restored<R> {
    Restored {
        roots: ws.map_values(|w: Workspace<R>| w.root@),
        focus: ws.map_values(|w: Workspace<R>| w.focused_frame),
        next,
        tabs: Seq::empty(),
    }
}

/// Restoring one saved workspace: the first workspace with its name (if
/// any) gets the restored tree, and the frame at the saved focus position
/// when there is one; the saved leaves with windows remember their tabs.
pub open spec fn restore_one<R>(ws: Seq<Workspace<R>>, sw: SavedWorkspace<R>, st: Restored<R>) -> Restored<R> {
    match first_match(ws, ws_named::<R>(sw.name@)) {
        Some(k) => {
            let t = restored_tree(sw.root, st.next);
            let ids = leaf_ids(t);
            Restored {
                roots: st.roots.update(k, t),
                focus: if sw.focused_frame_index < ids.len() {
                    st.focus.update(k, ids[sw.focused_frame_index as int])
                } else {
                    st.focus
                },
                next: bump_n(st.next, leaf_count(sw.root)),
                tabs: st.tabs + tab_entries(sw.root, ids, 0),
            }
        },
        None => st,
    }
}

/// Restoring the first `n` saved workspaces, in order.
pub open spec fn restore_all<R>(ws: Seq<Workspace<R>>, saved: Seq<SavedWorkspace<R>>, n: int, st: Restored<R>) -> Restored<R>
    decreases n,
{
    if n <= 0 {
        st
    } else {
        restore_one(ws, saved[n - 1], restore_all(ws, saved, n - 1, st))
    }
}

/// `b` is `a` with at most its tree and focused frame changed.
pub open spec fn same_but_layout<R>(a: Workspace<R>, b: Workspace<R>) -> bool {
    &&& a.id == b.id
    &&& a.name == b.name
    &&& a.preferred_output == b.preferred_output
    &&& a.active_output == b.active_output
    &&& a.auto_created == b.auto_created
}

/// Restore the saved trees into the workspaces of the same name (frame
/// identifiers come from `alloc`), put focus back on the saved frame and
/// workspace, and give the (frame, active tab) pairs to apply once the
/// windows are back.
pub fn restore_layout<R: Copy>(workspaces: &mut WorkspaceManager<R>, state: &SavedState<R>, alloc: &mut FrameIdAlloc) -> (tabs: Vec<(FrameId, usize)>)
    requires
        old(workspaces).wf(),
        forall|j: int| 0 <= j < state.workspaces@.len() ==> leaf_count(#[trigger] state.workspaces@[j].root) <= usize::MAX,
    ensures
        ({
            let ws = old(workspaces).workspaces@;
            let r = restore_all(ws, state.workspaces@, state.workspaces@.len() as int, before_restore(ws, old(alloc).next));
            &&& final(workspaces).workspaces@.len() == ws.len()
            &&& forall|k: int| 0 <= k < ws.len() ==> {
                &&& same_but_layout(#[trigger] final(workspaces).workspaces@[k], ws[k])
                &&& final(workspaces).workspaces@[k].root@ == r.roots[k]
                &&& final(workspaces).workspaces@[k].focused_frame == r.focus[k]
            }
            &&& final(alloc).next == r.next
            &&& tabs@ == r.tabs
        }),
        final(workspaces).focused_workspace == (match first_match(old(workspaces).workspaces@, ws_named::<R>(state.focused_workspace@)) {
            Some(k) => WorkspaceId(k as usize),
            None => old(workspaces).focused_workspace,
        }),
        final(workspaces).outputs == old(workspaces).outputs,
        final(workspaces).output_workspace == old(workspaces).output_workspace,
        final(workspaces).monitor_memory == old(workspaces).monitor_memory,
        final(workspaces).outputs_changed == old(workspaces).outputs_changed,
        final(workspaces).last_connected_keys == old(workspaces).last_connected_keys,
        final(workspaces).wf(),
{
    let ghost ws0 = workspaces.workspaces@;
    let ghost m0 = *workspaces;
    let ghost start = before_restore(ws0, alloc.next);
    let mut tabs: Vec<(FrameId, usize)> = Vec::new();
    let mut j: usize = 0;
    while j < state.workspaces.len()
        invariant
            j <= state.workspaces@.len(),
            forall|i: int| 0 <= i < state.workspaces@.len() ==> leaf_count(#[trigger] state.workspaces@[i].root) <= usize::MAX,
            ws0 == m0.workspaces@,
            start == before_restore(ws0, old(alloc).next),
            workspaces.workspaces@.len() == ws0.len(),
            forall|k: int| 0 <= k < ws0.len() ==> {
                &&& same_but_layout(#[trigger] workspaces.workspaces@[k], ws0[k])
                &&& workspaces.workspaces@[k].root@ == restore_all(ws0, state.workspaces@, j as int, start).roots[k]
                &&& workspaces.workspaces@[k].focused_frame == restore_all(ws0, state.workspaces@, j as int, start).focus[k]
            },
            restore_all(ws0, state.workspaces@, j as int, start).roots.len() == ws0.len(),
            restore_all(ws0, state.workspaces@, j as int, start).focus.len() == ws0.len(),
            alloc.next == restore_all(ws0, state.workspaces@, j as int, start).next,
            tabs@ == restore_all(ws0, state.workspaces@, j as int, start).tabs,
            workspaces.focused_workspace == m0.focused_workspace,
            workspaces.outputs == m0.outputs,
            workspaces.output_workspace == m0.output_workspace,
            workspaces.monitor_memory == m0.monitor_memory,
            workspaces.outputs_changed == m0.outputs_changed,
            workspaces.last_connected_keys == m0.last_connected_keys,
        decreases state.workspaces@.len() - j,
    {
        let sw = &state.workspaces[j];
        let ghost before = restore_all(ws0, state.workspaces@, j as int, start);
        let found = workspaces.workspace_index_by_name(sw.name.as_str());
        proof {
            assert forall|i: int| 0 <= i < ws0.len() implies ws_named::<R>(sw.name@)(#[trigger] workspaces.workspaces@[i]) == ws_named::<R>(sw.name@)(ws0[i]) by {
                assert(same_but_layout(workspaces.workspaces@[i], ws0[i]));
            }
            lemma_first_match_agree(workspaces.workspaces@, ws_named::<R>(sw.name@), ws0, ws_named::<R>(sw.name@));
        }
        match found {
            Some(k) => {
                let root = restore_node(&sw.root, alloc);
                let ids = root.all_frame_ids();
                proof {
                    lemma_restored_frames(sw.root, before.next);
                }
                collect_active_tabs(&sw.root, ids.as_slice(), 0, &mut tabs);
                let ghost old_ws = workspaces.workspaces@;
                let ws = &mut workspaces.workspaces[k];
                ws.root = root;
                if sw.focused_frame_index < ids.len() {
                    ws.focused_frame = ids[sw.focused_frame_index];
                }
                proof {
                    let after = restore_all(ws0, state.workspaces@, j + 1, start);
                    assert(after == restore_one(ws0, state.workspaces@[j as int], before));
                    assert forall|i: int| 0 <= i < ws0.len() implies {
                        &&& same_but_layout(#[trigger] workspaces.workspaces@[i], ws0[i])
                        &&& workspaces.workspaces@[i].root@ == after.roots[i]
                        &&& workspaces.workspaces@[i].focused_frame == after.focus[i]
                    } by {
                        if i != k {
                            assert(workspaces.workspaces@[i] == old_ws[i]);
                        }
                    }
                }
            },
            None => {},
        }
        j += 1;
    }
    proof {
        assert forall|i: int| 0 <= i < ws0.len() implies ws_named::<R>(state.focused_workspace@)(#[trigger] workspaces.workspaces@[i]) == ws_named::<R>(state.focused_workspace@)(ws0[i]) by {
            assert(same_but_layout(workspaces.workspaces@[i], ws0[i]));
        }
        lemma_first_match_agree(workspaces.workspaces@, ws_named::<R>(state.focused_workspace@), ws0, ws_named::<R>(state.focused_workspace@));
    }
    match workspaces.workspace_index_by_name(state.focused_workspace.as_str()) {
        Some(k) => {
            workspaces.focused_workspace = workspaces.workspaces[k].id;
            proof {
                assert(same_but_layout(workspaces.workspaces@[k as int], ws0[k as int]));
            }
        },
        None => {},
    }
    proof {
        assert forall|i: int| 0 <= i < workspaces.workspaces@.len() implies (#[trigger] workspaces.workspaces@[i]).id.0 == i by {
            assert(same_but_layout(workspaces.workspaces@[i], ws0[i]));
        }
    }
    tabs
}

/// A live workspace has the saved workspace's name.
pub open spec fn has_live<R>(ws: Seq<Workspace<R>>) -> spec_fn(SavedWorkspace<R>) -> bool {
    |sw: SavedWorkspace<R>| first_match(ws, ws_named::<R>(sw.name@)) is Some
}

/// The frame of the live workspace named like `sw` at the position of the
/// first saved leaf that holds a match, when both exist.
pub open spec fn place_in<R>(ws: Seq<Workspace<R>>, sw: SavedWorkspace<R>, app: Seq<char>, title: Seq<char>, ident: Option<Seq<char>>) -> Option<(WorkspaceId, FrameId)> {
    match first_match(ws, ws_named::<R>(sw.name@)) {
        Some(k) => match first_match(saved_leaves(sw.root), leaf_matches(app, title, ident)) {
            Some(i) => if i < leaf_ids(ws[k].root@).len() {
                Some((ws[k].id, leaf_ids(ws[k].root@)[i]))
            } else {
                None
            },
            None => None,
        },
        None => None,
    }
}

pub open spec fn gives_place<R>(ws: Seq<Workspace<R>>, app: Seq<char>, title: Seq<char>, ident: Option<Seq<char>>) -> spec_fn(SavedWorkspace<R>) -> bool {
    |sw: SavedWorkspace<R>| place_in(ws, sw, app, title, ident) is Some
}

/// `b` is `a` with only its saved windows changed.
pub open spec fn same_saved_shape<R>(a: SavedWorkspace<R>, b: SavedWorkspace<R>) -> bool {
    &&& a.name == b.name
    &&& a.focused_frame_index == b.focused_frame_index
    &&& shape(a.root) == shape(b.root)
}

/// Place a reappearing window where a window like it was saved: the saved
/// workspaces are tried in order; in each that a live workspace is named
/// like, the first saved leaf holding a match gives up the matched window
/// (so it is not used twice), and if that leaf's position is a frame of the
/// live workspace, that frame is the answer.
pub fn match_window_to_saved_frame<R: Copy>(
    workspaces: &WorkspaceManager<R>,
    state: &mut SavedState<R>,
    app_id: &str,
    title: &str,
    identifier: Option<&str>,
) -> (r: Option<(WorkspaceId, FrameId)>)
    requires
        forall|j: int| 0 <= j < old(state).workspaces@.len() ==> leaf_count(#[trigger] old(state).workspaces@[j].root) <= usize::MAX,
    ensures
        ({
            let ws = workspaces.workspaces@;
            let saved = old(state).workspaces@;
            let ident = opt_str_view(identifier);
            let stop = first_match(saved, gives_place(ws, app_id@, title@, ident));
            &&& r == (match stop {
                Some(j) => place_in(ws, saved[j], app_id@, title@, ident),
                None => None,
            })
            &&& final(state).workspaces@.len() == saved.len()
            &&& forall|j: int| 0 <= j < saved.len() ==> {
                &&& same_saved_shape(#[trigger] final(state).workspaces@[j], saved[j])
                &&& saved_leaves(final(state).workspaces@[j].root) == (
                    if has_live(ws)(saved[j]) && (stop is None || j <= stop.unwrap()) {
                        consumed(saved_leaves(saved[j].root), app_id@, title@, ident)
                    } else {
                        saved_leaves(saved[j].root)
                    })
            }
        }),
        final(state).focused_workspace == old(state).focused_workspace,
        final(state).visible_workspaces == old(state).visible_workspaces,
{
    let ghost ws = workspaces.workspaces@;
    let ghost saved = state.workspaces@;
    let ghost ident = opt_str_view(identifier);
    let ghost p = gives_place(ws, app_id@, title@, ident);
    let ghost q = leaf_matches(app_id@, title@, ident);
    let mut j: usize = 0;
    while j < state.workspaces.len()
        invariant
            j <= saved.len(),
            saved == old(state).workspaces@,
            ws == workspaces.workspaces@,
            ident == opt_str_view(identifier),
            p == gives_place(ws, app_id@, title@, ident),
            q == leaf_matches(app_id@, title@, ident),
            forall|i: int| 0 <= i < saved.len() ==> leaf_count(#[trigger] saved[i].root) <= usize::MAX,
            state.workspaces@.len() == saved.len(),
            forall|i: int| 0 <= i < j ==> !p(#[trigger] saved[i]),
            forall|i: int| 0 <= i < saved.len() ==> {
                &&& same_saved_shape(#[trigger] state.workspaces@[i], saved[i])
                &&& saved_leaves(state.workspaces@[i].root) == (
                    if has_live(ws)(saved[i]) && i < j {
                        consumed(saved_leaves(saved[i].root), app_id@, title@, ident)
                    } else {
                        saved_leaves(saved[i].root)
                    })
            },
            state.focused_workspace == old(state).focused_workspace,
            state.visible_workspaces == old(state).visible_workspaces,
        decreases saved.len() - j,
    {
        let found = workspaces.workspace_index_by_name(state.workspaces[j].name.as_str());
        proof {
            assert(same_saved_shape(state.workspaces@[j as int], saved[j as int]));
            assert(saved_leaves(state.workspaces@[j as int].root) == saved_leaves(saved[j as int].root));
            lemma_shape_leaf_count(state.workspaces@[j as int].root, saved[j as int].root);
        }
        match found {
            Some(k) => {
                let ghost before = state.workspaces@;
                let hit = find_and_consume_match(&mut state.workspaces[j].root, app_id, title, identifier, 0);
                proof {
                    let sj = saved[j as int];
                    assert forall|i: int| 0 <= i < saved.len() implies {
                        &&& same_saved_shape(#[trigger] state.workspaces@[i], saved[i])
                        &&& saved_leaves(state.workspaces@[i].root) == (
                            if has_live(ws)(saved[i]) && i < j + 1 {
                                consumed(saved_leaves(saved[i].root), app_id@, title@, ident)
                            } else {
                                saved_leaves(saved[i].root)
                            })
                    } by {
                        if i != j {
                            assert(state.workspaces@[i] == before[i]);
                        }
                    }
                    lemma_first_match(saved_leaves(sj.root), q);
                    lemma_leaf_count(sj.root);
                }
                match hit {
                    Some(frame_index) => {
                        let ids = workspaces.workspaces[k].root.all_frame_ids();
                        if frame_index < ids.len() {
                            proof {
                                let sj = saved[j as int];
                                assert(first_match(ws, ws_named::<R>(sj.name@)) == Some(k as int));
                                assert(first_match(saved_leaves(sj.root), q) == Some(frame_index as int));
                                assert(ids@ == leaf_ids(ws[k as int].root@));
                                assert(p(saved[j as int]));
                                lemma_first_match_unique(saved, p, j as int);
                            }
                            return Some((workspaces.workspaces[k].id, ids[frame_index]));
                        }
                        proof {
                            assert(!p(saved[j as int]));
                        }
                    },
                    None => {
                        proof {
                            assert(!p(saved[j as int]));
                        }
                    },
                }
            },
            None => {
                proof {
                    assert(!p(saved[j as int]));
                }
            },
        }
        j += 1;
    }
    proof {
        lemma_first_match_none(saved, p);
    }
    None
}

/// Number of saved windows over all leaves.
pub open spec fn window_total(l: Seq<Seq<SavedWindow>>) -> nat
    decreases l.len(),
{
    if l.len() == 0 {
        0
    } else {
        window_total(l.drop_last()) + l.last().len()
    }
}

proof fn lemma_window_total_update(l: Seq<Seq<SavedWindow>>, k: int, w: Seq<SavedWindow>)
    requires
        0 <= k < l.len(),
    ensures
        window_total(l.update(k, w)) + l[k].len() == window_total(l) + w.len(),
    decreases l.len(),
{
    let u = l.update(k, w);
    if k == l.len() - 1 {
        assert(u.drop_last() =~= l.drop_last());
    } else {
        assert(u.drop_last() =~= l.drop_last().update(k, w));
        lemma_window_total_update(l.drop_last(), k, w);
    }
}

/// A reappearing window that matches takes exactly one saved window (from
/// the first leaf holding a match, and one that matches it); one that does
/// not match changes nothing. So no saved place is handed out twice.
pub proof fn law_match_takes_one(l: Seq<Seq<SavedWindow>>, app: Seq<char>, title: Seq<char>, ident: Option<Seq<char>>)
    ensures
        match first_match(l, leaf_matches(app, title, ident)) {
            Some(k) => {
                &&& window_total(consumed(l, app, title, ident)) + 1 == window_total(l)
                &&& consumed(l, app, title, ident).len() == l.len()
                &&& forall|i: int| 0 <= i < l.len() && i != k ==> #[trigger] consumed(l, app, title, ident)[i] == l[i]
            },
            None => consumed(l, app, title, ident) == l,
        },
{
    let q = leaf_matches(app, title, ident);
    lemma_first_match(l, q);
    if let Some(k) = first_match(l, q) {
        let p = match_in(l[k], app, title, ident).unwrap();
        assert(q(l[k]));
        lemma_match_in_bounds(l[k], app, title, ident);
        lemma_window_total_update(l, k, l[k].remove(p));
    }
}

proof fn lemma_match_in_bounds(ws: Seq<SavedWindow>, app: Seq<char>, title: Seq<char>, ident: Option<Seq<char>>)
    ensures
        match match_in(ws, app, title, ident) {
            Some(p) => 0 <= p < ws.len(),
            None => true,
        },
{
    match ident {
        Some(id) => lemma_first_match(ws, by_identifier(id)),
        None => {
            lemma_first_match(ws, by_app_title(app, title));
            lemma_first_match(ws, by_app(app));
        },
    }
}

} // verus!
