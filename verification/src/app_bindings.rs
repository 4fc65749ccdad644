//! App-to-frame bindings: interactive window placement rules.
//!
//! Binding the focused window's app id to the current frame makes new
//! windows of that app open there. Several frames (on different workspaces)
//! can be bound to one app; a new window goes to the first bound frame on a
//! visible workspace that does not hold the app yet, else to the first bound
//! frame that exists at all. An app id ending in `*` is a prefix pattern.

use vstd::prelude::*;
use crate::layout::{find_leaf, leaf_ids, FrameId, FrameView, SplitNode};
use crate::seqs::{first_match, is_first, lemma_first_match, lemma_first_match_none, lemma_first_match_unique};
use crate::text::{chars_of, has_prefix, slice_chars, starts_with_chars, str_eq};
use crate::workspace::{ws_named, Workspace, WorkspaceId, WorkspaceManager};

verus! {

/// A bound location for an app: workspace name and frame index within that
/// workspace (frame identifiers change on restart; positions do not).
#[derive(Debug, Clone, PartialEq, Eq)]
pub struct BoundLocation {
    pub workspace: String,
    pub frame_index: usize,
    /// Fixed dimensions (width, height) to propose instead of the frame size.
    pub fixed_dimensions: Option<(i32, i32)>,
}

/// The content of a bound location.
pub type LocView = (Seq<char>, usize, Option<(i32, i32)>);

pub open spec fn loc_view(l: BoundLocation) -> LocView {
    (l.workspace@, l.frame_index, l.fixed_dimensions)
}

pub open spec fn locs_view(v: Seq<BoundLocation>) -> Seq<LocView> {
    v.map_values(|l: BoundLocation| loc_view(l))
}

/// All app bindings: app id (or `prefix*` pattern) and its bound locations,
/// first is primary. No app id appears twice.
#[derive(Debug, Clone, Default)]
pub struct AppBindings {
    pub bindings: Vec<(String, Vec<BoundLocation>)>,
}

pub open spec fn entry_view(e: (String, Vec<BoundLocation>)) -> (Seq<char>, Seq<LocView>) {
    (e.0@, locs_view(e.1@))
}

impl View for AppBindings {
    type V = Seq<(Seq<char>, Seq<LocView>)>;

    open spec fn view(&self) -> Seq<(Seq<char>, Seq<LocView>)> {
        self.bindings@.map_values(|e: (String, Vec<BoundLocation>)| entry_view(e))
    }
}

/// No app id appears twice.
pub open spec fn apps_distinct(v: Seq<(Seq<char>, Seq<LocView>)>) -> bool {
    forall|i: int, j: int| 0 <= i < j < v.len() ==> (#[trigger] v[i]).0 != (#[trigger] v[j]).0
}

pub open spec fn app_is(app: Seq<char>) -> spec_fn((Seq<char>, Seq<LocView>)) -> bool {
    |e: (Seq<char>, Seq<LocView>)| e.0 == app
}

/// `pattern` is a `prefix*` pattern that `app` matches.
pub open spec fn pattern_matches(pattern: Seq<char>, app: Seq<char>) -> bool {
    pattern.len() > 0 && pattern.last() == '*' && has_prefix(app, pattern.drop_last())
}

pub open spec fn pattern_for(app: Seq<char>) -> spec_fn((Seq<char>, Seq<LocView>)) -> bool {
    |e: (Seq<char>, Seq<LocView>)| pattern_matches(e.0, app)
}

/// The entry for `app`: the exact one, else the first pattern that matches.
pub open spec fn entry_for(v: Seq<(Seq<char>, Seq<LocView>)>, app: Seq<char>) -> Option<int> {
    match first_match(v, app_is(app)) {
        Some(i) => Some(i),
        None => first_match(v, pattern_for(app)),
    }
}

/// The location is at frame `index` of workspace `ws`.
pub open spec fn loc_at(ws: Seq<char>, index: usize) -> spec_fn(LocView) -> bool {
    |l: LocView| l.0 == ws && l.1 == index
}

/// The location is at the same workspace and frame index as `loc`
/// (whatever fixed dimensions either has).
pub open spec fn is_loc(loc: LocView) -> spec_fn(LocView) -> bool {
    |l: LocView| l.0 == loc.0 && l.1 == loc.1
}

/// The location list after toggling `loc`: the first location at its
/// workspace and frame index is removed, or `loc` is appended when there is
/// none.
pub open spec fn toggled(locs: Seq<LocView>, loc: LocView) -> Seq<LocView> {
    match first_match(locs, is_loc(loc)) {
        Some(p) => locs.remove(p),
        None => locs.push(loc),
    }
}

/// The bindings with `app` bound to exactly `locs`: its entry replaced, or
/// appended if it had none.
pub open spec fn with_entry(v: Seq<(Seq<char>, Seq<LocView>)>, app: Seq<char>, locs: Seq<LocView>) -> Seq<(Seq<char>, Seq<LocView>)> {
    match first_match(v, app_is(app)) {
        Some(k) => v.update(k, (app, locs)),
        None => v.push((app, locs)),
    }
}

/// The bindings without the entry for `app`.
pub open spec fn without_entry(v: Seq<(Seq<char>, Seq<LocView>)>, app: Seq<char>) -> Seq<(Seq<char>, Seq<LocView>)> {
    match first_match(v, app_is(app)) {
        Some(k) => v.remove(k),
        None => v,
    }
}

/// The locations bound for `app` exactly (no patterns).
pub open spec fn exact_locs(v: Seq<(Seq<char>, Seq<LocView>)>, app: Seq<char>) -> Seq<LocView> {
    match first_match(v, app_is(app)) {
        Some(k) => v[k].1,
        None => Seq::empty(),
    }
}

/// The fixed dimensions of the first location of `app`'s own entry at
/// frame `index` of workspace `ws` (none without one).
pub open spec fn kept_dims(v: Seq<(Seq<char>, Seq<LocView>)>, app: Seq<char>, ws: Seq<char>, index: usize) -> Option<(i32, i32)> {
    let locs = exact_locs(v, app);
    match first_match(locs, is_loc((ws, index, None))) {
        Some(p) => locs[p].2,
        None => None,
    }
}

/// The bindings after toggling location `loc` for `app`: the location is
/// removed from its list where it first occurs, appended otherwise, and an
/// app left without locations loses its entry.
pub open spec fn after_toggle(v: Seq<(Seq<char>, Seq<LocView>)>, app: Seq<char>, loc: LocView) -> Seq<(Seq<char>, Seq<LocView>)> {
    let locs = toggled(exact_locs(v, app), loc);
    if locs.len() == 0 {
        without_entry(v, app)
    } else {
        with_entry(v, app, locs)
    }
}

impl AppBindings {
    pub open spec fn wf(&self) -> bool {
        apps_distinct(self@)
    }

    pub(crate) fn position(&self, app_id: &str) -> (r: Option<usize>)
        ensures
            match r {
                Some(k) => first_match(self@, app_is(app_id@)) == Some(k as int) && k < self@.len(),
                None => first_match(self@, app_is(app_id@)) is None,
            },
    {
        let ghost p = app_is(app_id@);
        let mut i: usize = 0;
        while i < self.bindings.len()
            invariant
                i <= self@.len(),
                p == app_is(app_id@),
                forall|j: int| 0 <= j < i ==> !p(#[trigger] self@[j]),
            decreases self@.len() - i,
        {
            if str_eq(self.bindings[i].0.as_str(), app_id) {
                proof {
                    lemma_first_match_unique(self@, p, i as int);
                }
                return Some(i);
            }
            i += 1;
        }
        proof {
            lemma_first_match_none(self@, p);
        }
        None
    }
}

fn find_location(locs: &Vec<BoundLocation>, ws: &str, index: usize) -> (r: Option<usize>)
    ensures
        ({
            let loc: LocView = (ws@, index, None::<(i32, i32)>);
            match r {
                Some(p) => first_match(locs_view(locs@), is_loc(loc)) == Some(p as int) && p < locs@.len(),
                None => first_match(locs_view(locs@), is_loc(loc)) is None,
            }
        }),
{
    let ghost loc: LocView = (ws@, index, None::<(i32, i32)>);
    let ghost v = locs_view(locs@);
    let ghost p = is_loc(loc);
    let mut i: usize = 0;
    while i < locs.len()
        invariant
            i <= locs@.len(),
            v == locs_view(locs@),
            p == is_loc(loc),
            loc == (ws@, index, None::<(i32, i32)>),
            forall|j: int| 0 <= j < i ==> !p(#[trigger] v[j]),
        decreases locs@.len() - i,
    {
        if str_eq(locs[i].workspace.as_str(), ws) && locs[i].frame_index == index {
            proof {
                assert(v[i as int] == loc_view(locs@[i as int]));
                lemma_first_match_unique(v, p, i as int);
            }
            return Some(i);
        }
        i += 1;
    }
    proof {
        lemma_first_match_none(v, p);
    }
    None
}

proof fn lemma_distinct_update(v: Seq<(Seq<char>, Seq<LocView>)>, k: int, app: Seq<char>, locs: Seq<LocView>)
    requires
        apps_distinct(v),
        0 <= k < v.len(),
        v[k].0 == app,
    ensures
        apps_distinct(v.update(k, (app, locs))),
{
    let w = v.update(k, (app, locs));
    assert forall|i: int, j: int| 0 <= i < j < w.len() implies (#[trigger] w[i]).0 != (#[trigger] w[j]).0 by {
        assert(v[i].0 != v[j].0);
    }
}

proof fn lemma_distinct_push(v: Seq<(Seq<char>, Seq<LocView>)>, app: Seq<char>, locs: Seq<LocView>)
    requires
        apps_distinct(v),
        first_match(v, app_is(app)) is None,
    ensures
        apps_distinct(v.push((app, locs))),
{
    crate::seqs::lemma_first_match(v, app_is(app));
    let w = v.push((app, locs));
    assert forall|i: int, j: int| 0 <= i < j < w.len() implies (#[trigger] w[i]).0 != (#[trigger] w[j]).0 by {
        if j == v.len() {
            assert(!app_is(app)(v[i]));
        } else {
            assert(v[i].0 != v[j].0);
        }
    }
}

proof fn lemma_distinct_remove(v: Seq<(Seq<char>, Seq<LocView>)>, k: int)
    requires
        apps_distinct(v),
        0 <= k < v.len(),
    ensures
        apps_distinct(v.remove(k)),
{
    let w = v.remove(k);
    assert forall|i: int, j: int| 0 <= i < j < w.len() implies (#[trigger] w[i]).0 != (#[trigger] w[j]).0 by {
        let a = if i < k { i } else { i + 1 };
        let b = if j < k { j } else { j + 1 };
        assert(w[i] == v[a] && w[j] == v[b]);
    }
}

impl AppBindings {
    /// Toggle the binding of `app_id` to frame `frame_index` of `workspace`:
    /// remove it if present, add it otherwise. An app left without
    /// locations loses its entry.
    pub fn toggle_binding(&mut self, app_id: &str, workspace: &str, frame_index: usize)
        requires
            old(self).wf(),
        ensures
            final(self).wf(),
            final(self)@ == after_toggle(old(self)@, app_id@, (workspace@, frame_index, None)),
    {
        let ghost loc: LocView = (workspace@, frame_index, None);
        let ghost old_v = self@;
        match self.position(app_id) {
            Some(k) => {
                proof {
                    lemma_first_match(old_v, app_is(app_id@));
                }
                let mut entry = self.bindings.remove(k);
                let ghost cur = locs_view(entry.1@);
                proof {
                    assert(cur == old_v[k as int].1);
                    assert(exact_locs(old_v, app_id@) == cur);
                }
                match find_location(&entry.1, workspace, frame_index) {
                    Some(p) => {
                        entry.1.remove(p);
                        proof {
                            assert(locs_view(entry.1@) =~= cur.remove(p as int));
                        }
                    },
                    None => {
                        entry.1.push(BoundLocation { workspace: workspace.to_string(), frame_index, fixed_dimensions: None });
                        proof {
                            assert(locs_view(entry.1@) =~= cur.push(loc));
                        }
                    },
                }
                if entry.1.len() == 0 {
                    proof {
                        assert(self@ =~= old_v.remove(k as int));
                        lemma_distinct_remove(old_v, k as int);
                    }
                } else {
                    self.bindings.insert(k, entry);
                    proof {
                        assert(self@ =~= old_v.update(k as int, (app_id@, locs_view(entry.1@))));
                        lemma_distinct_update(old_v, k as int, app_id@, locs_view(entry.1@));
                    }
                }
            },
            None => {
                proof {
                    assert(exact_locs(old_v, app_id@) == Seq::<LocView>::empty());
                    assert(first_match(Seq::<LocView>::empty(), is_loc(loc)) is None) by {
                        lemma_first_match_none(Seq::<LocView>::empty(), is_loc(loc));
                    }
                }
                let mut locs: Vec<BoundLocation> = Vec::new();
                locs.push(BoundLocation { workspace: workspace.to_string(), frame_index, fixed_dimensions: None });
                self.bindings.push((app_id.to_string(), locs));
                proof {
                    assert(locs_view(locs@) =~= Seq::<LocView>::empty().push(loc));
                    assert(self@ =~= old_v.push((app_id@, Seq::<LocView>::empty().push(loc))));
                    lemma_distinct_push(old_v, app_id@, Seq::<LocView>::empty().push(loc));
                }
            },
        }
    }

    /// Bind `app_id` to frame `frame_index` of `workspace` only, with the
    /// given fixed dimensions, dropping its other locations.
    pub fn bind(&mut self, app_id: &str, workspace: &str, frame_index: usize, dimensions: Option<(i32, i32)>)
        requires
            old(self).wf(),
        ensures
            final(self).wf(),
            final(self)@ == with_entry(old(self)@, app_id@, seq![(workspace@, frame_index, dimensions)]),
    {
        let ghost old_v = self@;
        let ghost one = seq![(workspace@, frame_index, dimensions)];
        let mut locs: Vec<BoundLocation> = Vec::new();
        locs.push(BoundLocation { workspace: workspace.to_string(), frame_index, fixed_dimensions: dimensions });
        proof {
            assert(locs_view(locs@) =~= one);
        }
        match self.position(app_id) {
            Some(k) => {
                proof {
                    lemma_first_match(old_v, app_is(app_id@));
                }
                self.bindings.set(k, (app_id.to_string(), locs));
                proof {
                    assert(self@ =~= old_v.update(k as int, (app_id@, one)));
                    lemma_distinct_update(old_v, k as int, app_id@, one);
                }
            },
            None => {
                self.bindings.push((app_id.to_string(), locs));
                proof {
                    assert(self@ =~= old_v.push((app_id@, one)));
                    lemma_distinct_push(old_v, app_id@, one);
                }
            },
        }
    }

    /// Drop every binding of `app_id`.
    pub fn unbind(&mut self, app_id: &str)
        requires
            old(self).wf(),
        ensures
            final(self).wf(),
            final(self)@ == without_entry(old(self)@, app_id@),
    {
        let ghost old_v = self@;
        match self.position(app_id) {
            Some(k) => {
                proof {
                    lemma_first_match(old_v, app_is(app_id@));
                }
                self.bindings.remove(k);
                proof {
                    assert(self@ =~= old_v.remove(k as int));
                    assert forall|i: int, j: int| 0 <= i < j < self@.len() implies (#[trigger] self@[i]).0 != (#[trigger] self@[j]).0 by {
                        let ii = if i < k { i } else { i + 1 };
                        let jj = if j < k { j } else { j + 1 };
                        assert(self@[i] == old_v[ii]);
                        assert(self@[j] == old_v[jj]);
                    }
                }
            },
            None => {},
        }
    }

    /// Bind `app_id` to frame `frame_index` of `workspace` only, dropping
    /// its other locations; fixed dimensions already set for that frame are
    /// kept.
    pub fn bind_exclusive(&mut self, app_id: &str, workspace: &str, frame_index: usize)
        requires
            old(self).wf(),
        ensures
            final(self).wf(),
            final(self)@ == with_entry(old(self)@, app_id@, seq![(workspace@, frame_index, kept_dims(old(self)@, app_id@, workspace@, frame_index))]),
    {
        let ghost old_v = self@;
        let pos = self.position(app_id);
        let dims = match pos {
            Some(k) => {
                proof {
                    lemma_first_match(old_v, app_is(app_id@));
                    assert(old_v[k as int] == (self.bindings@[k as int].0@, locs_view(self.bindings@[k as int].1@)));
                    assert(exact_locs(old_v, app_id@) == locs_view(self.bindings@[k as int].1@));
                }
                match find_location(&self.bindings[k].1, workspace, frame_index) {
                    Some(p) => {
                        proof {
                            assert(locs_view(self.bindings@[k as int].1@)[p as int] == loc_view(self.bindings@[k as int].1@[p as int]));
                        }
                        self.bindings[k].1[p].fixed_dimensions
                    },
                    None => None,
                }
            },
            None => None,
        };
        let ghost one = seq![(workspace@, frame_index, dims)];
        proof {
            assert(dims == kept_dims(old_v, app_id@, workspace@, frame_index));
        }
        let mut locs: Vec<BoundLocation> = Vec::new();
        locs.push(BoundLocation { workspace: workspace.to_string(), frame_index, fixed_dimensions: dims });
        proof {
            assert(locs_view(locs@) =~= one);
        }
        match pos {
            Some(k) => {
                self.bindings.set(k, (app_id.to_string(), locs));
                proof {
                    assert(self@ =~= old_v.update(k as int, (app_id@, one)));
                    lemma_distinct_update(old_v, k as int, app_id@, one);
                }
            },
            None => {
                self.bindings.push((app_id.to_string(), locs));
                proof {
                    assert(self@ =~= old_v.push((app_id@, one)));
                    lemma_distinct_push(old_v, app_id@, one);
                }
            },
        }
    }
}

/// The workspace (by position) and frame that location `l` names, if the
/// workspace exists and has that many frames.
pub open spec fn target_of<R>(ws: Seq<Workspace<R>>, l: LocView) -> Option<(int, FrameId)> {
    match first_match(ws, ws_named::<R>(l.0)) {
        Some(k) => {
            let ids = leaf_ids(ws[k].root@);
            if l.1 < ids.len() { Some((k, ids[l.1 as int])) } else { None }
        },
        None => None,
    }
}

/// The frame holds a window of app `app`.
pub open spec fn holds_app(f: Option<FrameView>, app: Seq<char>) -> bool {
    f matches Some(fv) && exists|w: int| 0 <= w < fv.windows.len() && (#[trigger] fv.windows[w]).app_id@ == app
}

/// The location names a frame on a shown workspace that holds no window of
/// `app` yet.
pub open spec fn open_target<R>(ws: Seq<Workspace<R>>, app: Seq<char>) -> spec_fn(LocView) -> bool {
    |l: LocView| target_of(ws, l) matches Some((k, fid))
        && ws[k].active_output is Some
        && !holds_app(find_leaf(ws[k].root@, fid), app)
}

/// The location names an existing frame.
pub open spec fn any_target<R>(ws: Seq<Workspace<R>>) -> spec_fn(LocView) -> bool {
    |l: LocView| target_of(ws, l) is Some
}

pub open spec fn target_ids<R>(ws: Seq<Workspace<R>>, l: LocView) -> (WorkspaceId, FrameId) {
    let (k, fid) = target_of(ws, l).unwrap();
    (ws[k].id, fid)
}

/// Where a new window of `app` with bound locations `locs` goes: the first
/// location on a shown workspace whose frame lacks the app, else the first
/// location that exists.
pub open spec fn bound_target<R>(ws: Seq<Workspace<R>>, locs: Seq<LocView>, app: Seq<char>) -> Option<(WorkspaceId, FrameId)> {
    match first_match(locs, open_target(ws, app)) {
        Some(i) => Some(target_ids(ws, locs[i])),
        None => match first_match(locs, any_target(ws)) {
            Some(i) => Some(target_ids(ws, locs[i])),
            None => None,
        },
    }
}

/// Some location of some app is frame `index` of workspace `ws`.
pub open spec fn bound_at(v: Seq<(Seq<char>, Seq<LocView>)>, ws: Seq<char>, index: usize) -> bool {
    exists|i: int| 0 <= i < v.len() && any_match_loc(#[trigger] v[i].1, ws, index)
}

pub open spec fn any_match_loc(locs: Seq<LocView>, ws: Seq<char>, index: usize) -> bool {
    exists|p: int| 0 <= p < locs.len() && (loc_at(ws, index))(#[trigger] locs[p])
}

pub open spec fn binds_at(ws: Seq<char>, index: usize) -> spec_fn((Seq<char>, Seq<LocView>)) -> bool {
    |e: (Seq<char>, Seq<LocView>)| any_match_loc(e.1, ws, index)
}

/// The locations with `dims` as fixed dimensions wherever they are frame
/// `index` of workspace `ws`.
pub open spec fn with_dims(locs: Seq<LocView>, ws: Seq<char>, index: usize, dims: Option<(i32, i32)>) -> Seq<LocView> {
    locs.map_values(|l: LocView| if l.0 == ws && l.1 == index { (l.0, l.1, dims) } else { l })
}

/// The fixed dimensions bound for `app` at frame `index` of workspace `ws`:
/// those of the first such location in the app's entry (or pattern).
pub open spec fn dims_for(v: Seq<(Seq<char>, Seq<LocView>)>, app: Seq<char>, ws: Seq<char>, index: usize) -> Option<(i32, i32)> {
    match entry_for(v, app) {
        Some(i) => match first_match(v[i].1, loc_at(ws, index)) {
            Some(p) => v[i].1[p].2,
            None => None,
        },
        None => None,
    }
}

/// The bindings after setting `dims` on every location of `app`'s own
/// entry at frame `index` of workspace `ws`.
pub open spec fn after_set_dims(v: Seq<(Seq<char>, Seq<LocView>)>, app: Seq<char>, ws: Seq<char>, index: usize, dims: Option<(i32, i32)>) -> Seq<(Seq<char>, Seq<LocView>)> {
    match first_match(v, app_is(app)) {
        Some(k) => v.update(k, (app, with_dims(v[k].1, ws, index, dims))),
        None => v,
    }
}

fn loc_matches(l: &BoundLocation, ws: &str, index: usize) -> (b: bool)
    ensures
        b == (loc_at(ws@, index))(loc_view(*l)),
{
    str_eq(l.workspace.as_str(), ws) && l.frame_index == index
}

fn first_loc_at(locs: &Vec<BoundLocation>, ws: &str, index: usize) -> (r: Option<usize>)
    ensures
        match r {
            Some(p) => first_match(locs_view(locs@), loc_at(ws@, index)) == Some(p as int) && p < locs@.len(),
            None => first_match(locs_view(locs@), loc_at(ws@, index)) is None,
        },
{
    let ghost v = locs_view(locs@);
    let ghost q = loc_at(ws@, index);
    let mut i: usize = 0;
    while i < locs.len()
        invariant
            i <= locs@.len(),
            v == locs_view(locs@),
            q == loc_at(ws@, index),
            forall|j: int| 0 <= j < i ==> !q(#[trigger] v[j]),
        decreases locs@.len() - i,
    {
        if loc_matches(&locs[i], ws, index) {
            proof {
                lemma_first_match_unique(v, q, i as int);
            }
            return Some(i);
        }
        i += 1;
    }
    proof {
        lemma_first_match_none(v, q);
    }
    None
}

fn is_pattern_for(pattern: &str, app: &[char]) -> (b: bool)
    ensures
        b == pattern_matches(pattern@, app@),
{
    let p = chars_of(pattern);
    if p.len() == 0 || p[p.len() - 1] != '*' {
        return false;
    }
    let head = slice_chars(p.as_slice(), 0, p.len() - 1);
    proof {
        assert(head@ =~= p@.drop_last());
    }
    starts_with_chars(app, head.as_slice())
}

impl AppBindings {
    /// The locations bound for `app_id`: its own entry, else the first
    /// `prefix*` pattern that it matches.
    pub fn find_locations(&self, app_id: &str) -> (r: Option<&Vec<BoundLocation>>)
        ensures
            match entry_for(self@, app_id@) {
                Some(i) => r is Some && 0 <= i < self@.len() && locs_view(r.unwrap()@) == self@[i].1,
                None => r is None,
            },
    {
        if let Some(k) = self.position(app_id) {
            return Some(&self.bindings[k].1);
        }
        let app = chars_of(app_id);
        let ghost q = pattern_for(app_id@);
        let mut i: usize = 0;
        while i < self.bindings.len()
            invariant
                i <= self@.len(),
                app@ == app_id@,
                q == pattern_for(app_id@),
                first_match(self@, app_is(app_id@)) is None,
                forall|j: int| 0 <= j < i ==> !q(#[trigger] self@[j]),
            decreases self@.len() - i,
        {
            if is_pattern_for(self.bindings[i].0.as_str(), app.as_slice()) {
                proof {
                    lemma_first_match_unique(self@, q, i as int);
                }
                return Some(&self.bindings[i].1);
            }
            i += 1;
        }
        proof {
            lemma_first_match_none(self@, q);
        }
        None
    }

    /// Whether some app is bound to frame `frame_index` of `workspace`.
    pub fn is_bound(&self, workspace: &str, frame_index: usize) -> (b: bool)
        ensures
            b == bound_at(self@, workspace@, frame_index),
    {
        match self.app_at(workspace, frame_index) {
            Some(_) => true,
            None => false,
        }
    }

    /// The app bound to frame `frame_index` of `workspace`: the first entry
    /// with such a location.
    pub fn app_at(&self, workspace: &str, frame_index: usize) -> (r: Option<&str>)
        ensures
            match first_match(self@, binds_at(workspace@, frame_index)) {
                Some(i) => r is Some && r.unwrap()@ == self@[i].0,
                None => r is None,
            },
            r is Some <==> bound_at(self@, workspace@, frame_index),
    {
        let ghost q = binds_at(workspace@, frame_index);
        let mut i: usize = 0;
        while i < self.bindings.len()
            invariant
                i <= self@.len(),
                q == binds_at(workspace@, frame_index),
                forall|j: int| 0 <= j < i ==> !q(#[trigger] self@[j]),
            decreases self@.len() - i,
        {
            let found = first_loc_at(&self.bindings[i].1, workspace, frame_index);
            proof {
                crate::seqs::lemma_first_match(self@[i as int].1, loc_at(workspace@, frame_index));
                assert(self@[i as int].1 == locs_view(self.bindings@[i as int].1@));
            }
            if found.is_some() {
                proof {
                    lemma_first_match_unique(self@, q, i as int);
                }
                return Some(self.bindings[i].0.as_str());
            }
            i += 1;
        }
        proof {
            lemma_first_match_none(self@, q);
        }
        None
    }

    /// The fixed dimensions bound for `app_id` at frame `frame_index` of
    /// `workspace`, if its first location there has some.
    pub fn fixed_dimensions_for(&self, app_id: &str, workspace: &str, frame_index: usize) -> (r: Option<(i32, i32)>)
        ensures
            r == dims_for(self@, app_id@, workspace@, frame_index),
    {
        let locs = match self.find_locations(app_id) {
            Some(l) => l,
            None => return None,
        };
        match first_loc_at(locs, workspace, frame_index) {
            Some(p) => {
                proof {
                    assert(locs_view(locs@)[p as int] == loc_view(locs@[p as int]));
                }
                locs[p].fixed_dimensions
            },
            None => None,
        }
    }

    /// Set the fixed dimensions of every location of `app_id` (its own
    /// entry) that is frame `frame_index` of `workspace`.
    pub fn set_fixed_dimensions(&mut self, app_id: &str, workspace: &str, frame_index: usize, dims: Option<(i32, i32)>)
        requires
            old(self).wf(),
        ensures
            final(self).wf(),
            final(self)@ == after_set_dims(old(self)@, app_id@, workspace@, frame_index, dims),
    {
        let ghost old_v = self@;
        if let Some(k) = self.position(app_id) {
            proof {
                lemma_first_match(old_v, app_is(app_id@));
            }
            let mut entry = self.bindings.remove(k);
            let ghost before = locs_view(entry.1@);
            let mut i: usize = 0;
            while i < entry.1.len()
                invariant
                    i <= entry.1@.len(),
                    before.len() == entry.1@.len(),
                    forall|j: int| 0 <= j < entry.1@.len() ==> #[trigger] locs_view(entry.1@)[j] == (if j < i {
                        with_dims(before, workspace@, frame_index, dims)[j]
                    } else {
                        before[j]
                    }),
                    entry.0@ == app_id@,
                decreases entry.1@.len() - i,
            {
                let ghost pre = entry.1@;
                let hit = loc_matches(&entry.1[i], workspace, frame_index);
                if hit {
                    entry.1[i].fixed_dimensions = dims;
                }
                proof {
                    assert forall|j: int| 0 <= j < entry.1@.len() implies #[trigger] locs_view(entry.1@)[j] == (if j < i + 1 {
                        with_dims(before, workspace@, frame_index, dims)[j]
                    } else {
                        before[j]
                    }) by {
                        assert(locs_view(pre)[j] == (if j < i { with_dims(before, workspace@, frame_index, dims)[j] } else { before[j] }));
                        if j != i {
                            assert(entry.1@[j] == pre[j]);
                        } else {
                            assert(before[j] == loc_view(pre[j]));
                        }
                    }
                }
                i += 1;
            }
            proof {
                assert(locs_view(entry.1@) =~= with_dims(before, workspace@, frame_index, dims));
            }
            self.bindings.insert(k, entry);
            proof {
                assert(self@ =~= old_v.update(k as int, (app_id@, with_dims(old_v[k as int].1, workspace@, frame_index, dims))));
                lemma_distinct_update(old_v, k as int, app_id@, with_dims(old_v[k as int].1, workspace@, frame_index, dims));
            }
        }
    }
}

pub open spec fn frame_id_is(id: FrameId) -> spec_fn(FrameId) -> bool {
    |f: FrameId| f == id
}

impl AppBindings {
    /// The position of frame `frame_id` among the frames of the workspace at
    /// position `ws_id`.
    pub fn frame_index<R: Copy>(workspaces: &WorkspaceManager<R>, ws_id: WorkspaceId, frame_id: FrameId) -> (r: Option<usize>)
        ensures
            r == (if ws_id.0 < workspaces.workspaces@.len() {
                match first_match(leaf_ids(workspaces.workspaces@[ws_id.0 as int].root@), frame_id_is(frame_id)) {
                    Some(p) => Some(p as usize),
                    None => None,
                }
            } else {
                None
            }),
    {
        if ws_id.0 >= workspaces.workspaces.len() {
            return None;
        }
        let ids = workspaces.workspaces[ws_id.0].root.all_frame_ids();
        let ghost q = frame_id_is(frame_id);
        assert(ids@ == leaf_ids(workspaces.workspaces@[ws_id.0 as int].root@));
        let mut i: usize = 0;
        while i < ids.len()
            invariant
                i <= ids@.len(),
                q == frame_id_is(frame_id),
                ws_id.0 < workspaces.workspaces@.len(),
                ids@ == leaf_ids(workspaces.workspaces@[ws_id.0 as int].root@),
                forall|j: int| 0 <= j < i ==> !q(#[trigger] ids@[j]),
            decreases ids@.len() - i,
        {
            if ids[i] == frame_id {
                proof {
                    lemma_first_match_unique(ids@, q, i as int);
                }
                return Some(i);
            }
            i += 1;
        }
        proof {
            lemma_first_match_none(ids@, q);
        }
        None
    }
}

pub(crate) fn locate<R: Copy>(workspaces: &WorkspaceManager<R>, loc: &BoundLocation) -> (r: Option<(usize, FrameId)>)
    ensures
        match r {
            Some((k, f)) => target_of(workspaces.workspaces@, loc_view(*loc)) == Some((k as int, f))
                && k < workspaces.workspaces@.len(),
            None => target_of(workspaces.workspaces@, loc_view(*loc)) is None,
        },
{
    let k = match workspaces.workspace_index_by_name(loc.workspace.as_str()) {
        Some(k) => k,
        None => return None,
    };
    let ids = workspaces.workspaces[k].root.all_frame_ids();
    if loc.frame_index < ids.len() {
        Some((k, ids[loc.frame_index]))
    } else {
        None
    }
}

fn frame_holds_app<R: Copy>(root: &SplitNode<R>, fid: FrameId, app: &str) -> (b: bool)
    ensures
        b == holds_app(find_leaf(root@, fid), app@),
{
    match root.find_frame(fid) {
        Some(f) => {
            let mut i: usize = 0;
            while i < f.windows.len()
                invariant
                    i <= f.windows@.len(),
                    find_leaf(root@, fid) == Some(f@),
                    forall|j: int| 0 <= j < i ==> (#[trigger] f.windows@[j]).app_id@ != app@,
                decreases f.windows@.len() - i,
            {
                if str_eq(f.windows[i].app_id.as_str(), app) {
                    proof {
                        assert((f@).windows[i as int].app_id@ == app@);
                    }
                    return true;
                }
                i += 1;
            }
            proof {
                assert forall|w: int| 0 <= w < (f@).windows.len() implies (#[trigger] (f@).windows[w]).app_id@ != app@ by {
                    assert((f@).windows[w] == f.windows@[w]);
                }
            }
            false
        },
        None => false,
    }
}

impl AppBindings {
    /// The frame a new window of `app_id` goes to: the first bound location
    /// on a shown workspace whose frame does not hold the app yet, else the
    /// first bound location that exists (even on a hidden workspace).
    pub fn find_target<R: Copy>(&self, app_id: &str, workspaces: &WorkspaceManager<R>) -> (r: Option<(WorkspaceId, FrameId)>)
        ensures
            r == match entry_for(self@, app_id@) {
                Some(i) => bound_target(workspaces.workspaces@, self@[i].1, app_id@),
                None => None,
            },
    {
        let locations = match self.find_locations(app_id) {
            Some(l) => l,
            None => return None,
        };
        let ghost ws = workspaces.workspaces@;
        let ghost locs = locs_view(locations@);
        let ghost e = entry_for(self@, app_id@).unwrap();
        assert(self@[e].1 == locs);
        let ghost q1 = open_target(ws, app_id@);
        let ghost q2 = any_target(ws);
        let mut i: usize = 0;
        while i < locations.len()
            invariant
                i <= locations@.len(),
                ws == workspaces.workspaces@,
                locs == locs_view(locations@),
                q1 == open_target(ws, app_id@),
                entry_for(self@, app_id@) == Some(e),
                0 <= e < self@.len(),
                self@[e].1 == locs,
                forall|j: int| 0 <= j < i ==> !q1(#[trigger] locs[j]),
            decreases locations@.len() - i,
        {
            proof {
                assert(locs[i as int] == loc_view(locations@[i as int]));
            }
            if let Some((k, fid)) = locate(workspaces, &locations[i]) {
                if workspaces.workspaces[k].active_output.is_some()
                    && !frame_holds_app(&workspaces.workspaces[k].root, fid, app_id) {
                    proof {
                        lemma_first_match_unique(locs, q1, i as int);
                    }
                    return Some((workspaces.workspaces[k].id, fid));
                }
            }
            i += 1;
        }
        proof {
            lemma_first_match_none(locs, q1);
        }
        let mut i: usize = 0;
        while i < locations.len()
            invariant
                i <= locations@.len(),
                ws == workspaces.workspaces@,
                locs == locs_view(locations@),
                q2 == any_target(ws),
                q1 == open_target(ws, app_id@),
                entry_for(self@, app_id@) == Some(e),
                0 <= e < self@.len(),
                self@[e].1 == locs,
                first_match(locs, q1) is None,
                forall|j: int| 0 <= j < i ==> !q2(#[trigger] locs[j]),
            decreases locations@.len() - i,
        {
            proof {
                assert(locs[i as int] == loc_view(locations@[i as int]));
            }
            if let Some((k, fid)) = locate(workspaces, &locations[i]) {
                proof {
                    assert(q2(locs[i as int]));
                    lemma_first_match_unique(locs, q2, i as int);
                    assert(target_ids(ws, locs[i as int]) == (ws[k as int].id, fid));
                }
                return Some((workspaces.workspaces[k].id, fid));
            }
            i += 1;
        }
        proof {
            lemma_first_match_none(locs, q2);
        }
        None
    }
}

// ── Laws ────────────────────────────────────────────────────────────────

proof fn lemma_find_app_after_update(v: Seq<(Seq<char>, Seq<LocView>)>, k: int, app: Seq<char>, locs: Seq<LocView>)
    requires
        apps_distinct(v),
        first_match(v, app_is(app)) == Some(k),
    ensures
        first_match(v.update(k, (app, locs)), app_is(app)) == Some(k),
{
    lemma_first_match(v, app_is(app));
    let w = v.update(k, (app, locs));
    assert(is_first(w, app_is(app), k)) by {
        assert forall|j: int| 0 <= j < k implies !app_is(app)(#[trigger] w[j]) by {
            assert(w[j] == v[j]);
        }
    }
    lemma_first_match_unique(w, app_is(app), k);
}

/// Toggling a location that an app is not bound to, twice, leaves the
/// bindings as they were (unless the app's own entry is an empty list,
/// which the second toggle drops).
pub proof fn law_toggle_twice_restores(v: Seq<(Seq<char>, Seq<LocView>)>, app: Seq<char>, loc: LocView)
    requires
        apps_distinct(v),
        first_match(v, app_is(app)) matches Some(k) ==> v[k].1.len() > 0,
        first_match(exact_locs(v, app), is_loc(loc)) is None,
    ensures
        after_toggle(after_toggle(v, app, loc), app, loc) == v,
{
    let cur = exact_locs(v, app);
    lemma_first_match(cur, is_loc(loc));
    let added = cur.push(loc);
    assert(toggled(cur, loc) == added);
    let w = with_entry(v, app, added);
    // in the second toggle the location is found at the end
    assert(is_first(added, is_loc(loc), cur.len() as int)) by {
        assert forall|j: int| 0 <= j < cur.len() implies !is_loc(loc)(#[trigger] added[j]) by {
            assert(added[j] == cur[j]);
        }
    }
    lemma_first_match_unique(added, is_loc(loc), cur.len() as int);
    assert(added.remove(cur.len() as int) =~= cur);
    lemma_first_match(v, app_is(app));
    match first_match(v, app_is(app)) {
        Some(k) => {
            lemma_find_app_after_update(v, k, app, added);
            assert(after_toggle(v, app, loc) == w);
            assert(exact_locs(w, app) == added);
            assert(toggled(added, loc) == cur);
            assert(v[k] == (app, cur));
            if cur.len() > 0 {
                assert(with_entry(w, app, cur) == w.update(k, (app, cur)));
                assert(w.update(k, (app, cur)) =~= v);
                assert(after_toggle(w, app, loc) == with_entry(w, app, cur));
            } else {
                // an empty entry loses itself the second time
                assert(without_entry(w, app) == w.remove(k));
                assert(after_toggle(w, app, loc) == w.remove(k));
                assert(after_toggle(v, app, loc) == w);
                assert(w.remove(k) =~= v.remove(k));
            }
        },
        None => {
            assert(cur =~= Seq::<LocView>::empty());
            let n = v.len() as int;
            assert(w == v.push((app, added)));
            assert(is_first(w, app_is(app), n)) by {
                assert forall|j: int| 0 <= j < n implies !app_is(app)(#[trigger] w[j]) by {
                    assert(w[j] == v[j]);
                }
            }
            lemma_first_match_unique(w, app_is(app), n);
            assert(exact_locs(w, app) == added);
            assert(toggled(added, loc).len() == 0);
            assert(w.remove(n) =~= v);
            assert(after_toggle(v, app, loc) == w);
            assert(after_toggle(w, app, loc) == without_entry(w, app));
        },
    }
}

/// After fixed dimensions are set for a location in an app's own entry,
/// they are what the app finds there.
pub proof fn law_set_dims_then_lookup(v: Seq<(Seq<char>, Seq<LocView>)>, app: Seq<char>, ws: Seq<char>, index: usize, dims: Option<(i32, i32)>)
    requires
        apps_distinct(v),
        first_match(v, app_is(app)) is Some,
        first_match(v[first_match(v, app_is(app)).unwrap()].1, loc_at(ws, index)) is Some,
    ensures
        dims_for(after_set_dims(v, app, ws, index, dims), app, ws, index) == dims,
{
    lemma_first_match(v, app_is(app));
    let k = first_match(v, app_is(app)).unwrap();
    let locs = v[k].1;
    let nl = with_dims(locs, ws, index, dims);
    let w = v.update(k, (app, nl));
    lemma_find_app_after_update(v, k, app, nl);
    assert(entry_for(w, app) == Some(k));
    lemma_first_match(locs, loc_at(ws, index));
    let p = first_match(locs, loc_at(ws, index)).unwrap();
    assert(is_first(nl, loc_at(ws, index), p)) by {
        assert forall|j: int| 0 <= j < p implies !loc_at(ws, index)(#[trigger] nl[j]) by {
            assert(!loc_at(ws, index)(locs[j]));
        }
    }
    lemma_first_match_unique(nl, loc_at(ws, index), p);
    assert(nl[p] == (locs[p].0, locs[p].1, dims));
}

} // verus!
