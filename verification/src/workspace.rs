//! Outputs (monitors) and the rules that pick an output for a workspace.

use vstd::prelude::*;
use std::collections::HashMap;
use crate::config::WorkspaceConfig;
use crate::layout::{bump, empty_frame, leaf_ids, FrameId, FrameIdAlloc, Orientation, Rect, SplitNode, Tree};
use crate::matching::{find_preferred_output, preferred_output};
use crate::monitor_memory::{memory_key, monitor_key, MonitorMemory};
use crate::lex::{lemma_sorted_unique, strictly_sorted};
use crate::monitors::{chars_equal, insert_sorted};
use crate::text::char_vecs;
use crate::seqs::{first_match, lemma_first_match, lemma_first_match_none, lemma_first_match_unique};
use crate::text::{
    chars_of, concat_chars, decimal, decimal_chars, has_prefix, starts_with_chars, str_eq,
    string_from_chars,
};

verus! {

/// Identifies a workspace (its index in the workspace list).
#[derive(Debug, Clone, Copy, PartialEq, Eq, Hash, Structural)]
pub struct WorkspaceId(pub usize);

/// Identifier for an output (monitor), using the compositor's object id.
#[derive(Debug, Clone, Copy, PartialEq, Eq, Hash, Structural)]
pub struct OutputId(pub u64);

/// Runtime state for a connected output (monitor).
#[derive(Debug)]
pub struct Output {
    pub id: OutputId,
    /// The connector name (e.g. "HDMI-A-1").
    pub name: Option<String>,
    /// The EDID make/model/serial description; the stable monitor identity.
    pub description: Option<String>,
    /// Position in the compositor's logical coordinate space.
    pub x: i32,
    pub y: i32,
    /// Dimensions in logical pixels.
    pub width: i32,
    pub height: i32,
    /// Usable area after layer-shell exclusive zones (bars, panels).
    pub usable_x: i32,
    pub usable_y: i32,
    pub usable_width: i32,
    pub usable_height: i32,
    pub has_exclusive_zone: bool,
    /// Integer output scale factor.
    pub scale: i32,
    /// Physical mode dimensions.
    pub physical_width: i32,
    pub physical_height: i32,
    /// Output transform (0 = normal, 1..=3 rotated, 4..=7 flipped variants).
    pub transform: i32,
    /// Whether the output has been removed.
    pub removed: bool,
}

impl Output {
    pub fn new(id: OutputId) -> (o: Output)
        ensures
            o.id == id,
            o.name is None,
            o.description is None,
            o.x == 0 && o.y == 0 && o.width == 0 && o.height == 0,
            o.usable_x == 0 && o.usable_y == 0 && o.usable_width == 0 && o.usable_height == 0,
            !o.has_exclusive_zone,
            o.scale == 1,
            o.physical_width == 0 && o.physical_height == 0,
            o.transform == 0,
            !o.removed,
    {
        Output {
            id,
            name: None,
            description: None,
            x: 0,
            y: 0,
            width: 0,
            height: 0,
            usable_x: 0,
            usable_y: 0,
            usable_width: 0,
            usable_height: 0,
            has_exclusive_zone: false,
            scale: 1,
            physical_width: 0,
            physical_height: 0,
            transform: 0,
            removed: false,
        }
    }

    /// The usable area for tiling, respecting layer-shell exclusive zones.
    pub fn usable_rect(&self) -> (r: Rect)
        ensures
            r == (if self.has_exclusive_zone {
                Rect { x: self.usable_x, y: self.usable_y, width: self.usable_width, height: self.usable_height }
            } else {
                Rect { x: self.x, y: self.y, width: self.width, height: self.height }
            }),
    {
        if self.has_exclusive_zone {
            Rect::new(self.usable_x, self.usable_y, self.usable_width, self.usable_height)
        } else {
            Rect::new(self.x, self.y, self.width, self.height)
        }
    }
}

/// The geometry key of an output with known dimensions, e.g. "2560x1440@0,0".
pub open spec fn geometry_key(o: Output) -> Option<Seq<char>> {
    if o.width > 0 && o.height > 0 {
        Some(decimal(o.width as int) + seq!['x'] + decimal(o.height as int) + seq!['@'] + decimal(o.x as int)
            + seq![','] + decimal(o.y as int))
    } else {
        None
    }
}

/// A geometry key for an output, e.g. "2560x1440@0,0"; `None` while its
/// dimensions are not yet known.
pub fn output_geometry_key(output: &Output) -> (r: Option<String>)
    ensures
        match r {
            Some(s) => geometry_key(*output) == Some(s@),
            None => geometry_key(*output) is None,
        },
{
    if output.width > 0 && output.height > 0 {
        let w = decimal_chars(output.width as i64);
        let h = decimal_chars(output.height as i64);
        let x = decimal_chars(output.x as i64);
        let y = decimal_chars(output.y as i64);
        let mut sep_x: Vec<char> = Vec::new();
        sep_x.push('x');
        let mut sep_at: Vec<char> = Vec::new();
        sep_at.push('@');
        let mut sep_comma: Vec<char> = Vec::new();
        sep_comma.push(',');
        let a = concat_chars(w.as_slice(), sep_x.as_slice());
        let a = concat_chars(a.as_slice(), h.as_slice());
        let a = concat_chars(a.as_slice(), sep_at.as_slice());
        let a = concat_chars(a.as_slice(), x.as_slice());
        let a = concat_chars(a.as_slice(), sep_comma.as_slice());
        let a = concat_chars(a.as_slice(), y.as_slice());
        Some(string_from_chars(a.as_slice()))
    } else {
        None
    }
}

/// The output is connected and its dimensions are known.
pub open spec fn is_ready(o: Output) -> bool {
    !o.removed && o.width > 0 && o.height > 0
}

/// Some output is ready.
pub open spec fn any_ready(outputs: Seq<Output>) -> bool {
    exists|k: int| 0 <= k < outputs.len() && is_ready(#[trigger] outputs[k])
}

/// A workspace owns a frame tree and is shown on at most one output.
#[derive(Debug)]
pub struct Workspace<R> {
    pub id: WorkspaceId,
    pub name: String,
    /// Ordered list of output matchers from the configuration (semantic
    /// names, positions or connector names). The first that matches wins.
    pub preferred_output: Vec<String>,
    /// The output this workspace is displayed on, if any.
    pub active_output: Option<OutputId>,
    /// The static tiling tree.
    pub root: SplitNode<R>,
    /// The focused frame within this workspace.
    pub focused_frame: FrameId,
    /// Created for an output that no configured workspace could fill.
    pub auto_created: bool,
}

/// All workspaces, all outputs, and which workspace each output shows.
#[derive(Debug)]
pub struct WorkspaceManager<R> {
    pub workspaces: Vec<Workspace<R>>,
    pub outputs: Vec<Output>,
    /// The workspace shown on each output, keyed by the output's id number.
    pub output_workspace: HashMap<u64, WorkspaceId>,
    /// The globally focused workspace.
    pub focused_workspace: WorkspaceId,
    /// Which workspace was last shown on each physical monitor.
    pub monitor_memory: MonitorMemory,
    /// Set when the output layout changed; consumed by the manage cycle.
    pub outputs_changed: bool,
    /// The monitor keys that were connected at the last reassignment,
    /// sorted and without repeats.
    pub last_connected_keys: Vec<String>,
}

/// The output is plugged in and has a known width.
pub open spec fn is_connected(o: Output) -> bool {
    !o.removed && o.width > 0
}

/// No two outputs share an id.
pub open spec fn output_ids_distinct(outs: Seq<Output>) -> bool {
    forall|i: int, j: int| 0 <= i < j < outs.len() ==> (#[trigger] outs[i]).id != (#[trigger] outs[j]).id
}

/// Every workspace's id is its position in the list.
pub open spec fn ids_are_positions<R>(ws: Seq<Workspace<R>>) -> bool {
    forall|i: int| 0 <= i < ws.len() ==> (#[trigger] ws[i]).id.0 == i
}

/// Names as views.
pub open spec fn names_of<R>(ws: Seq<Workspace<R>>) -> Seq<Seq<char>> {
    ws.map_values(|w: Workspace<R>| w.name@)
}

impl<R> WorkspaceManager<R> {
    /// The manager is well formed: workspace ids are positions, output ids
    /// are distinct, the focused workspace exists (or is the first), the
    /// monitor memory has distinct keys and the key snapshot is sorted.
    pub open spec fn wf(&self) -> bool {
        &&& ids_are_positions(self.workspaces@)
        &&& output_ids_distinct(self.outputs@)
        &&& (self.focused_workspace.0 == 0 || self.focused_workspace.0 < self.workspaces@.len())
        &&& self.monitor_memory.wf()
        &&& strictly_sorted(string_views(self.last_connected_keys@))
    }
}

pub open spec fn string_views(v: Seq<String>) -> Seq<Seq<char>> {
    v.map_values(|s: String| s@)
}

/// `n` advanced by `k` identifiers.
pub open spec fn bump_n(n: u64, k: nat) -> u64
    decreases k,
{
    if k == 0 {
        n
    } else {
        bump(bump_n(n, (k - 1) as nat))
    }
}

/// The initial layout named by a configuration: "hsplit" and "vsplit" are
/// two frames, anything else one.
pub open spec fn layout_kind(l: Option<String>) -> int {
    match l {
        Some(s) => if s@ == "hsplit"@ { 1 } else if s@ == "vsplit"@ { 2 } else { 0 },
        None => 0,
    }
}

/// How many frame identifiers an initial layout takes.
pub open spec fn layout_frames(l: Option<String>) -> nat {
    if layout_kind(l) == 0 { 1 } else { 2 }
}

/// The frame tree of an initial layout whose frames are numbered from `next`.
pub open spec fn initial_tree<R>(l: Option<String>, ratio: R, next: u64) -> Tree<R> {
    let a = Tree::<R>::Leaf(empty_frame(FrameId(next)));
    let b = Tree::<R>::Leaf(empty_frame(FrameId(bump(next))));
    if layout_kind(l) == 1 {
        Tree::Split { orientation: Orientation::Horizontal, ratio, first: Box::new(a), second: Box::new(b) }
    } else if layout_kind(l) == 2 {
        Tree::Split { orientation: Orientation::Vertical, ratio, first: Box::new(a), second: Box::new(b) }
    } else {
        a
    }
}

/// Frame identifiers taken by the layouts of the first `i` configurations.
pub open spec fn frames_before(cfgs: Seq<WorkspaceConfig>, i: int) -> nat
    decreases i,
{
    if i <= 0 {
        0
    } else {
        frames_before(cfgs, i - 1) + layout_frames(cfgs[i - 1].initial_layout)
    }
}

/// The matchers a configuration lists for its workspace.
pub open spec fn config_matchers(c: WorkspaceConfig) -> Seq<String> {
    match c.output {
        Some(o) => o.matcher_views(),
        None => Seq::empty(),
    }
}

/// A fresh workspace built from configuration `c`.
pub open spec fn configured_workspace<R>(w: Workspace<R>, i: int, c: WorkspaceConfig, ratio: R, next: u64) -> bool {
    &&& w.id.0 == i
    &&& w.name@ == c.name@
    &&& w.preferred_output@ == config_matchers(c)
    &&& w.active_output is None
    &&& w.root@ == initial_tree(c.initial_layout, ratio, next)
    &&& w.focused_frame == FrameId(next)
    &&& !w.auto_created
}

fn initial_root<R: Copy>(layout: &Option<String>, ratio: R, alloc: &mut FrameIdAlloc) -> (n: SplitNode<R>)
    ensures
        n@ == initial_tree(*layout, ratio, old(alloc).next),
        final(alloc).next == bump_n(old(alloc).next, layout_frames(*layout)),
{
    proof {
        reveal_with_fuel(bump_n, 3);
    }
    match layout {
        Some(l) => {
            if str_eq(l.as_str(), "hsplit") {
                SplitNode::hsplit(alloc, ratio)
            } else if str_eq(l.as_str(), "vsplit") {
                SplitNode::vsplit(alloc, ratio)
            } else {
                SplitNode::single_frame(alloc)
            }
        },
        None => SplitNode::single_frame(alloc),
    }
}

impl<R: Copy> WorkspaceManager<R> {
    /// One workspace per configuration, in order, none of them shown yet.
    /// Layouts take their frame identifiers from `alloc`, in order.
    pub fn new(workspace_configs: &[WorkspaceConfig], default_ratio: R, monitor_memory: MonitorMemory, alloc: &mut FrameIdAlloc) -> (m: WorkspaceManager<R>)
        requires
            monitor_memory.wf(),
        ensures
            m.wf(),
            m.workspaces@.len() == workspace_configs@.len(),
            forall|i: int| 0 <= i < workspace_configs@.len() ==> configured_workspace(
                #[trigger] m.workspaces@[i],
                i,
                workspace_configs@[i],
                default_ratio,
                bump_n(old(alloc).next, frames_before(workspace_configs@, i)),
            ),
            final(alloc).next == bump_n(old(alloc).next, frames_before(workspace_configs@, workspace_configs@.len() as int)),
            m.outputs@.len() == 0,
            m.output_workspace@.len() == 0,
            m.focused_workspace == WorkspaceId(0),
            m.monitor_memory == monitor_memory,
            !m.outputs_changed,
            m.last_connected_keys@.len() == 0,
    {
        let ghost start = alloc.next;
        let mut workspaces: Vec<Workspace<R>> = Vec::new();
        let mut i: usize = 0;
        while i < workspace_configs.len()
            invariant
                i <= workspace_configs@.len(),
                workspaces@.len() == i,
                alloc.next == bump_n(start, frames_before(workspace_configs@, i as int)),
                forall|j: int| 0 <= j < i ==> configured_workspace(
                    #[trigger] workspaces@[j],
                    j,
                    workspace_configs@[j],
                    default_ratio,
                    bump_n(start, frames_before(workspace_configs@, j)),
                ),
            decreases workspace_configs@.len() - i,
        {
            let cfg = &workspace_configs[i];
            let ghost next = alloc.next;
            let root = initial_root(&cfg.initial_layout, default_ratio, alloc);
            proof {
                lemma_bump_n_add(start, frames_before(workspace_configs@, i as int), layout_frames(cfg.initial_layout));
            }
            let focused_frame = root.first_frame_id();
            proof {
                reveal_with_fuel(leaf_ids, 2);
            }
            let preferred_output = match &cfg.output {
                Some(o) => o.matchers(),
                None => Vec::new(),
            };
            let ws = Workspace {
                id: WorkspaceId(i),
                name: cfg.name.clone(),
                preferred_output,
                active_output: None,
                root,
                focused_frame,
                auto_created: false,
            };
            workspaces.push(ws);
            i += 1;
        }
        let m = WorkspaceManager {
            workspaces,
            outputs: Vec::new(),
            output_workspace: HashMap::new(),
            focused_workspace: WorkspaceId(0),
            monitor_memory,
            outputs_changed: false,
            last_connected_keys: Vec::new(),
        };
        proof {
            assert(string_views(m.last_connected_keys@) =~= Seq::<Seq<char>>::empty());
        }
        m
    }
}

/// Advancing by `a` and then by `b` is advancing by `a + b`.
pub proof fn lemma_bump_n_add(n: u64, a: nat, b: nat)
    ensures
        bump_n(bump_n(n, a), b) == bump_n(n, a + b),
    decreases b,
{
    if b > 0 {
        lemma_bump_n_add(n, a, (b - 1) as nat);
    }
}

/// Some output is not removed.
pub open spec fn any_live(outs: Seq<Output>) -> bool {
    exists|i: int| 0 <= i < outs.len() && !(#[trigger] outs[i]).removed
}

/// Every output that is not removed satisfies `p`.
pub open spec fn all_live(outs: Seq<Output>, p: spec_fn(Output) -> bool) -> bool {
    forall|i: int| 0 <= i < outs.len() && !(#[trigger] outs[i]).removed ==> p(outs[i])
}

pub open spec fn has_geometry() -> spec_fn(Output) -> bool {
    |o: Output| o.width > 0 && o.height > 0
}

pub open spec fn has_identity() -> spec_fn(Output) -> bool {
    |o: Output| memory_key(o) is Some
}

pub open spec fn has_metadata() -> spec_fn(Output) -> bool {
    |o: Output| o.width > 0 && o.height > 0 && o.physical_width > 0 && o.physical_height > 0
}

pub open spec fn id_is(id: OutputId) -> spec_fn(Output) -> bool {
    |o: Output| o.id == id
}

pub open spec fn ws_id_is<R>(id: WorkspaceId) -> spec_fn(Workspace<R>) -> bool {
    |w: Workspace<R>| w.id == id
}

pub open spec fn ws_named<R>(name: Seq<char>) -> spec_fn(Workspace<R>) -> bool {
    |w: Workspace<R>| w.name@ == name
}

/// The outputs without the one(s) with identifier `id`.
pub open spec fn without_output(outs: Seq<Output>, id: OutputId) -> Seq<Output>
    decreases outs.len(),
{
    if outs.len() == 0 {
        outs
    } else if outs.last().id == id {
        without_output(outs.drop_last(), id)
    } else {
        without_output(outs.drop_last(), id).push(outs.last())
    }
}

/// `a` and `b` agree on everything but the output they are shown on.
pub open spec fn same_but_active<R>(a: Workspace<R>, b: Workspace<R>) -> bool {
    &&& a.id == b.id
    &&& a.name == b.name
    &&& a.preferred_output == b.preferred_output
    &&& a.root == b.root
    &&& a.focused_frame == b.focused_frame
    &&& a.auto_created == b.auto_created
}

/// The monitor keys of the connected outputs that have one.
pub open spec fn connected_keys(outs: Seq<Output>) -> Set<Seq<char>> {
    Set::new(|k: Seq<char>| exists|i: int| 0 <= i < outs.len() && is_connected(#[trigger] outs[i]) && memory_key(outs[i]) == Some(k))
}

/// The workspaces that are shown on some output, in order.
pub open spec fn visible<R>(ws: Seq<Workspace<R>>) -> Seq<Workspace<R>>
    decreases ws.len(),
{
    if ws.len() == 0 {
        ws
    } else if ws.last().active_output is Some {
        visible(ws.drop_last()).push(ws.last())
    } else {
        visible(ws.drop_last())
    }
}

proof fn lemma_without_unique(outs: Seq<Output>, id: OutputId, k: int)
    requires
        0 <= k < outs.len(),
        outs[k].id == id,
        output_ids_distinct(outs),
    ensures
        without_output(outs, id) == outs.remove(k),
    decreases outs.len(),
{
    if k == outs.len() - 1 {
        lemma_without_absent(outs.drop_last(), id);
        assert(outs.drop_last() =~= outs.remove(k));
    } else {
        let d = outs.drop_last();
        assert(output_ids_distinct(d));
        assert(d[k] == outs[k]);
        lemma_without_unique(d, id, k);
        assert(outs.last().id != id);
        assert(d.remove(k).push(outs.last()) =~= outs.remove(k));
    }
}

proof fn lemma_without_absent(outs: Seq<Output>, id: OutputId)
    requires
        forall|j: int| 0 <= j < outs.len() ==> (#[trigger] outs[j]).id != id,
    ensures
        without_output(outs, id) == outs,
    decreases outs.len(),
{
    if outs.len() > 0 {
        let d = outs.drop_last();
        assert forall|j: int| 0 <= j < d.len() implies (#[trigger] d[j]).id != id by {
            assert(d[j] == outs[j]);
        }
        lemma_without_absent(d, id);
        assert(d.push(outs.last()) =~= outs);
    }
}

impl<R> WorkspaceManager<R> {
    fn output_index(&self, id: OutputId) -> (r: Option<usize>)
        ensures
            match r {
                Some(k) => first_match(self.outputs@, id_is(id)) == Some(k as int) && k < self.outputs@.len(),
                None => first_match(self.outputs@, id_is(id)) is None,
            },
    {
        let ghost p = id_is(id);
        let mut i: usize = 0;
        while i < self.outputs.len()
            invariant
                i <= self.outputs@.len(),
                p == id_is(id),
                forall|j: int| 0 <= j < i ==> !p(#[trigger] self.outputs@[j]),
            decreases self.outputs@.len() - i,
        {
            if self.outputs[i].id == id {
                proof {
                    lemma_first_match_unique(self.outputs@, p, i as int);
                }
                return Some(i);
            }
            i += 1;
        }
        proof {
            lemma_first_match_none(self.outputs@, p);
        }
        None
    }

    pub(crate) fn workspace_index(&self, id: WorkspaceId) -> (r: Option<usize>)
        ensures
            match r {
                Some(k) => first_match(self.workspaces@, ws_id_is(id)) == Some(k as int) && k < self.workspaces@.len(),
                None => first_match(self.workspaces@, ws_id_is(id)) is None,
            },
    {
        let ghost p = ws_id_is::<R>(id);
        let mut i: usize = 0;
        while i < self.workspaces.len()
            invariant
                i <= self.workspaces@.len(),
                p == ws_id_is::<R>(id),
                forall|j: int| 0 <= j < i ==> !p(#[trigger] self.workspaces@[j]),
            decreases self.workspaces@.len() - i,
        {
            if self.workspaces[i].id == id {
                proof {
                    lemma_first_match_unique(self.workspaces@, p, i as int);
                }
                return Some(i);
            }
            i += 1;
        }
        proof {
            lemma_first_match_none(self.workspaces@, p);
        }
        None
    }

    pub(crate) fn workspace_index_by_name(&self, name: &str) -> (r: Option<usize>)
        ensures
            match r {
                Some(k) => first_match(self.workspaces@, ws_named::<R>(name@)) == Some(k as int) && k < self.workspaces@.len(),
                None => first_match(self.workspaces@, ws_named::<R>(name@)) is None,
            },
    {
        let ghost p = ws_named::<R>(name@);
        let mut i: usize = 0;
        while i < self.workspaces.len()
            invariant
                i <= self.workspaces@.len(),
                p == ws_named::<R>(name@),
                forall|j: int| 0 <= j < i ==> !p(#[trigger] self.workspaces@[j]),
            decreases self.workspaces@.len() - i,
        {
            if str_eq(self.workspaces[i].name.as_str(), name) {
                proof {
                    lemma_first_match_unique(self.workspaces@, p, i as int);
                }
                return Some(i);
            }
            i += 1;
        }
        proof {
            lemma_first_match_none(self.workspaces@, p);
        }
        None
    }

    /// The output with identifier `id`.
    pub fn output(&self, id: OutputId) -> (r: Option<&Output>)
        ensures
            match first_match(self.outputs@, id_is(id)) {
                Some(k) => r == Some(&self.outputs@[k]),
                None => r is None,
            },
    {
        match self.output_index(id) {
            Some(k) => Some(&self.outputs[k]),
            None => None,
        }
    }

    /// The output with identifier `id`, for changing it.
    pub fn output_mut(&mut self, id: OutputId) -> (r: Option<&mut Output>)
        ensures
            match first_match(old(self).outputs@, id_is(id)) {
                Some(k) => r is Some && *r.unwrap() == old(self).outputs@[k]
                    && final(self).outputs@ == old(self).outputs@.update(k, *final(r.unwrap())),
                None => r is None && *final(self) == *old(self),
            },
            final(self).workspaces == old(self).workspaces,
            final(self).output_workspace == old(self).output_workspace,
            final(self).focused_workspace == old(self).focused_workspace,
            final(self).monitor_memory == old(self).monitor_memory,
            final(self).outputs_changed == old(self).outputs_changed,
            final(self).last_connected_keys == old(self).last_connected_keys,
    {
        match self.output_index(id) {
            Some(k) => Some(&mut self.outputs[k]),
            None => None,
        }
    }

    /// The workspace named `name`.
    pub fn workspace_by_name(&self, name: &str) -> (r: Option<&Workspace<R>>)
        ensures
            match first_match(self.workspaces@, ws_named::<R>(name@)) {
                Some(k) => r == Some(&self.workspaces@[k]),
                None => r is None,
            },
    {
        match self.workspace_index_by_name(name) {
            Some(k) => Some(&self.workspaces[k]),
            None => None,
        }
    }

    /// The workspace named `name`, for changing it.
    pub fn workspace_by_name_mut(&mut self, name: &str) -> (r: Option<&mut Workspace<R>>)
        ensures
            match first_match(old(self).workspaces@, ws_named::<R>(name@)) {
                Some(k) => r is Some && *r.unwrap() == old(self).workspaces@[k]
                    && final(self).workspaces@ == old(self).workspaces@.update(k, *final(r.unwrap())),
                None => r is None && *final(self) == *old(self),
            },
            final(self).outputs == old(self).outputs,
            final(self).output_workspace == old(self).output_workspace,
            final(self).focused_workspace == old(self).focused_workspace,
            final(self).monitor_memory == old(self).monitor_memory,
            final(self).outputs_changed == old(self).outputs_changed,
            final(self).last_connected_keys == old(self).last_connected_keys,
    {
        match self.workspace_index_by_name(name) {
            Some(k) => Some(&mut self.workspaces[k]),
            None => None,
        }
    }

    /// The focused workspace.
    pub fn focused_workspace(&self) -> (r: &Workspace<R>)
        requires
            self.focused_workspace.0 < self.workspaces@.len(),
        ensures
            *r == self.workspaces@[self.focused_workspace.0 as int],
    {
        &self.workspaces[self.focused_workspace.0]
    }

    /// The focused workspace, for changing it.
    pub fn focused_workspace_mut(&mut self) -> (r: &mut Workspace<R>)
        requires
            old(self).focused_workspace.0 < old(self).workspaces@.len(),
        ensures
            *r == old(self).workspaces@[old(self).focused_workspace.0 as int],
            final(self).workspaces@ == old(self).workspaces@.update(old(self).focused_workspace.0 as int, *final(r)),
            final(self).outputs == old(self).outputs,
            final(self).output_workspace == old(self).output_workspace,
            final(self).focused_workspace == old(self).focused_workspace,
            final(self).monitor_memory == old(self).monitor_memory,
            final(self).outputs_changed == old(self).outputs_changed,
            final(self).last_connected_keys == old(self).last_connected_keys,
    {
        let k = self.focused_workspace.0;
        &mut self.workspaces[k]
    }

    /// The workspaces currently shown on some output, in order.
    pub fn visible_workspaces(&self) -> (r: Vec<&Workspace<R>>)
        ensures
            r@.map_values(|w: &Workspace<R>| *w) == visible(self.workspaces@),
    {
        let mut r: Vec<&Workspace<R>> = Vec::new();
        let mut i: usize = 0;
        while i < self.workspaces.len()
            invariant
                i <= self.workspaces@.len(),
                r@.map_values(|w: &Workspace<R>| *w) == visible(self.workspaces@.take(i as int)),
            decreases self.workspaces@.len() - i,
        {
            proof {
                let t = self.workspaces@.take(i + 1);
                assert(t.drop_last() =~= self.workspaces@.take(i as int));
                assert(t.last() == self.workspaces@[i as int]);
            }
            if self.workspaces[i].active_output.is_some() {
                r.push(&self.workspaces[i]);
                proof {
                    assert(r@.map_values(|w: &Workspace<R>| *w) =~= visible(self.workspaces@.take(i as int)).push(self.workspaces@[i as int]));
                }
            }
            i += 1;
        }
        proof {
            assert(self.workspaces@.take(self.workspaces@.len() as int) =~= self.workspaces@);
        }
        r
    }

    /// True when some output is connected and every output that is not
    /// removed has known dimensions.
    pub fn all_outputs_have_geometry(&self) -> (b: bool)
        ensures
            b == (any_live(self.outputs@) && all_live(self.outputs@, has_geometry())),
    {
        self.all_live_outputs(0)
    }

    /// True when some output is connected and every output that is not
    /// removed has a stable monitor identity.
    pub fn all_outputs_have_stable_identity(&self) -> (b: bool)
        ensures
            b == (any_live(self.outputs@) && all_live(self.outputs@, has_identity())),
    {
        self.all_live_outputs(1)
    }

    /// True when some output is connected and every output that is not
    /// removed has complete metadata: logical and physical dimensions.
    pub fn all_outputs_have_metadata(&self) -> (b: bool)
        ensures
            b == (any_live(self.outputs@) && all_live(self.outputs@, has_metadata())),
    {
        self.all_live_outputs(2)
    }

    fn all_live_outputs(&self, what: u8) -> (b: bool)
        requires
            what <= 2,
        ensures
            b == (any_live(self.outputs@) && all_live(self.outputs@, live_test(what))),
    {
        let ghost p = live_test(what);
        let mut any = false;
        let mut i: usize = 0;
        while i < self.outputs.len()
            invariant
                i <= self.outputs@.len(),
                what <= 2,
                p == live_test(what),
                any == exists|j: int| 0 <= j < i && !(#[trigger] self.outputs@[j]).removed,
                forall|j: int| 0 <= j < i && !(#[trigger] self.outputs@[j]).removed ==> p(self.outputs@[j]),
            decreases self.outputs@.len() - i,
        {
            let o = &self.outputs[i];
            if !o.removed {
                any = true;
                let ok = if what == 0 {
                    o.width > 0 && o.height > 0
                } else if what == 1 {
                    monitor_key(o).is_some()
                } else {
                    o.width > 0 && o.height > 0 && o.physical_width > 0 && o.physical_height > 0
                };
                if !ok {
                    return false;
                }
            }
            i += 1;
        }
        any
    }
}

pub open spec fn live_test(what: u8) -> spec_fn(Output) -> bool {
    if what == 0 { has_geometry() } else if what == 1 { has_identity() } else { has_metadata() }
}

impl<R> WorkspaceManager<R> {
    /// Add an output, or replace the output with the same identifier. Only
    /// stores the data: reassignment is the caller's next step.
    pub fn add_output(&mut self, output: Output)
        requires
            old(self).wf(),
        ensures
            final(self).wf(),
            match first_match(old(self).outputs@, id_is(output.id)) {
                Some(k) => final(self).outputs@ == old(self).outputs@.update(k, output),
                None => final(self).outputs@ == old(self).outputs@.push(output),
            },
            final(self).workspaces == old(self).workspaces,
            final(self).output_workspace == old(self).output_workspace,
            final(self).focused_workspace == old(self).focused_workspace,
            final(self).monitor_memory == old(self).monitor_memory,
            final(self).outputs_changed == old(self).outputs_changed,
            final(self).last_connected_keys == old(self).last_connected_keys,
    {
        proof {
            lemma_first_match(self.outputs@, id_is(output.id));
        }
        match self.output_index(output.id) {
            Some(k) => {
                self.outputs.set(k, output);
            },
            None => {
                self.outputs.push(output);
            },
        }
    }

    /// Assign a workspace to an output: the first workspace with identifier
    /// `ws_id` is shown there, and the output records it.
    pub fn assign_workspace_to_output(&mut self, ws_id: WorkspaceId, output_id: OutputId)
        ensures
            match first_match(old(self).workspaces@, ws_id_is::<R>(ws_id)) {
                Some(k) => final(self).workspaces@.len() == old(self).workspaces@.len()
                    && final(self).workspaces@[k].active_output == Some(output_id)
                    && same_but_active(final(self).workspaces@[k], old(self).workspaces@[k])
                    && forall|j: int| 0 <= j < old(self).workspaces@.len() && j != k
                        ==> #[trigger] final(self).workspaces@[j] == old(self).workspaces@[j],
                None => final(self).workspaces == old(self).workspaces,
            },
            final(self).output_workspace@ == old(self).output_workspace@.insert(output_id.0, ws_id),
            final(self).outputs == old(self).outputs,
            final(self).focused_workspace == old(self).focused_workspace,
            final(self).monitor_memory == old(self).monitor_memory,
            final(self).outputs_changed == old(self).outputs_changed,
            final(self).last_connected_keys == old(self).last_connected_keys,
    {
        broadcast use vstd::std_specs::hash::group_hash_axioms;
        if let Some(k) = self.workspace_index(ws_id) {
            self.workspaces[k].active_output = Some(output_id);
        }
        self.output_workspace.insert(output_id.0, ws_id);
    }

    /// Remove an output. Its workspace stays alive but is no longer shown;
    /// every other output keeps what it shows.
    pub fn remove_output(&mut self, output_id: OutputId)
        requires
            old(self).wf(),
        ensures
            final(self).wf(),
            final(self).output_workspace@ == old(self).output_workspace@.remove(output_id.0),
            final(self).workspaces@.len() == old(self).workspaces@.len(),
            forall|i: int| 0 <= i < old(self).workspaces@.len() ==> {
                &&& same_but_active(#[trigger] final(self).workspaces@[i], old(self).workspaces@[i])
                &&& final(self).workspaces@[i].active_output == (if old(self).workspaces@[i].active_output == Some(output_id) {
                        None
                    } else {
                        old(self).workspaces@[i].active_output
                    })
            },
            final(self).outputs@ == without_output(old(self).outputs@, output_id),
            final(self).focused_workspace == old(self).focused_workspace,
            final(self).monitor_memory == old(self).monitor_memory,
            final(self).outputs_changed,
            final(self).last_connected_keys@.len() == 0,
    {
        broadcast use vstd::std_specs::hash::group_hash_axioms;
        self.output_workspace.remove(&output_id.0);
        let ghost before = self.workspaces@;
        let mut i: usize = 0;
        while i < self.workspaces.len()
            invariant
                i <= self.workspaces@.len(),
                self.workspaces@.len() == before.len(),
                ids_are_positions(before),
                self.outputs == old(self).outputs,
                self.output_workspace@ == old(self).output_workspace@.remove(output_id.0),
                self.focused_workspace == old(self).focused_workspace,
                self.monitor_memory == old(self).monitor_memory,
                before == old(self).workspaces@,
                old(self).wf(),
                forall|j: int| 0 <= j < before.len() ==> {
                    &&& same_but_active(#[trigger] self.workspaces@[j], before[j])
                    &&& self.workspaces@[j].active_output == (if j < i && before[j].active_output == Some(output_id) {
                        None
                    } else {
                        before[j].active_output
                    })
                },
            decreases self.workspaces@.len() - i,
        {
            if self.workspaces[i].active_output == Some(output_id) {
                self.workspaces[i].active_output = None;
            }
            i += 1;
        }
        proof {
            lemma_first_match(self.outputs@, id_is(output_id));
        }
        match self.output_index(output_id) {
            Some(k) => {
                proof {
                    lemma_without_unique(self.outputs@, output_id, k as int);
                }
                self.outputs.remove(k);
            },
            None => {
                proof {
                    lemma_without_absent(self.outputs@, output_id);
                }
            },
        }
        proof {
            let o = self.outputs@;
            assert(output_ids_distinct(o)) by {
                assert forall|a: int, b: int| 0 <= a < b < o.len() implies (#[trigger] o[a]).id != (#[trigger] o[b]).id by {
                    lemma_without_sub(old(self).outputs@, output_id, a, b);
                }
            }
        }
        self.last_connected_keys = Vec::new();
        proof {
            assert(string_views(self.last_connected_keys@) =~= Seq::<Seq<char>>::empty());
        }
        self.outputs_changed = true;
    }
}

/// Two positions of the filtered list come from two positions of the
/// original, in the same order.
proof fn lemma_without_sub(outs: Seq<Output>, id: OutputId, a: int, b: int)
    requires
        output_ids_distinct(outs),
        0 <= a < b < without_output(outs, id).len(),
    ensures
        without_output(outs, id)[a].id != without_output(outs, id)[b].id,
    decreases outs.len(),
{
    let d = outs.drop_last();
    assert(output_ids_distinct(d)) by {
        assert forall|x: int, y: int| 0 <= x < y < d.len() implies (#[trigger] d[x]).id != (#[trigger] d[y]).id by {
            assert(d[x] == outs[x] && d[y] == outs[y]);
        }
    }
    if outs.last().id == id {
        lemma_without_sub(d, id, a, b);
    } else if b < without_output(d, id).len() {
        lemma_without_sub(d, id, a, b);
    } else {
        lemma_without_member(d, id, a);
        let k = choose|k: int| 0 <= k < d.len() && d[k] == without_output(d, id)[a];
        assert(outs[k] == d[k]);
        assert(outs[outs.len() - 1] == outs.last());
    }
}

proof fn lemma_without_member(outs: Seq<Output>, id: OutputId, a: int)
    requires
        0 <= a < without_output(outs, id).len(),
    ensures
        exists|k: int| 0 <= k < outs.len() && outs[k] == without_output(outs, id)[a],
    decreases outs.len(),
{
    let d = outs.drop_last();
    if outs.last().id == id || a < without_output(d, id).len() {
        lemma_without_member(d, id, a);
        let k = choose|k: int| 0 <= k < d.len() && d[k] == without_output(d, id)[a];
        assert(outs[k] == d[k]);
    } else {
        assert(outs[outs.len() - 1] == without_output(outs, id)[a]);
    }
}

impl<R> WorkspaceManager<R> {
    /// The stable monitor keys of the connected outputs, sorted, each once.
    pub(crate) fn connected_monitor_keys(&self) -> (v: Vec<Vec<char>>)
        ensures
            strictly_sorted(char_vecs(v@)),
            char_vecs(v@).to_set() == connected_keys(self.outputs@),
    {
        let mut v: Vec<Vec<char>> = Vec::new();
        let mut i: usize = 0;
        proof {
            assert(char_vecs(v@).to_set() =~= connected_keys(self.outputs@.take(0)));
        }
        while i < self.outputs.len()
            invariant
                i <= self.outputs@.len(),
                strictly_sorted(char_vecs(v@)),
                char_vecs(v@).to_set() == connected_keys(self.outputs@.take(i as int)),
            decreases self.outputs@.len() - i,
        {
            let ghost pre = self.outputs@.take(i as int);
            let ghost nxt = self.outputs@.take(i + 1);
            let o = &self.outputs[i];
            proof {
                assert(nxt[i as int] == *o);
                assert forall|j: int| 0 <= j < i implies nxt[j] == pre[j] by {}
            }
            if !o.removed && o.width > 0 {
                if let Some(k) = monitor_key(o) {
                    let kc = chars_of(k.as_str());
                    insert_sorted(&mut v, kc);
                    proof {
                        assert(connected_keys(nxt) =~= connected_keys(pre).insert(k@)) by {
                            assert forall|x: Seq<char>| connected_keys(nxt).contains(x) implies connected_keys(pre).insert(k@).contains(x) by {
                                let j = choose|j: int| 0 <= j < nxt.len() && is_connected(#[trigger] nxt[j]) && memory_key(nxt[j]) == Some(x);
                                if j < i {
                                    assert(pre[j] == nxt[j]);
                                }
                            }
                            assert forall|x: Seq<char>| connected_keys(pre).insert(k@).contains(x) implies connected_keys(nxt).contains(x) by {
                                if x != k@ {
                                    let j = choose|j: int| 0 <= j < pre.len() && is_connected(#[trigger] pre[j]) && memory_key(pre[j]) == Some(x);
                                    assert(nxt[j] == pre[j]);
                                } else {
                                    assert(is_connected(nxt[i as int]));
                                }
                            }
                        }
                    }
                } else {
                    proof {
                        lemma_connected_keys_same(pre, nxt, i as int);
                    }
                }
            } else {
                proof {
                    lemma_connected_keys_same(pre, nxt, i as int);
                }
            }
            i += 1;
        }
        proof {
            assert(self.outputs@.take(self.outputs@.len() as int) =~= self.outputs@);
        }
        v
    }

    /// True when the set of connected monitor keys differs from the one at
    /// the last reassignment.
    pub fn connected_monitor_keys_changed(&self) -> (b: bool)
        requires
            self.wf(),
        ensures
            b == (connected_keys(self.outputs@) != string_views(self.last_connected_keys@).to_set()),
    {
        let now = self.connected_monitor_keys();
        let ghost a = char_vecs(now@);
        let ghost b = string_views(self.last_connected_keys@);
        let same = if now.len() != self.last_connected_keys.len() {
            false
        } else {
            let mut eq = true;
            let mut i: usize = 0;
            while i < now.len()
                invariant
                    i <= now@.len(),
                    now@.len() == self.last_connected_keys@.len(),
                    a == char_vecs(now@),
                    b == string_views(self.last_connected_keys@),
                    eq == forall|j: int| 0 <= j < i ==> a[j] == b[j],
                decreases now@.len() - i,
            {
                let lc = chars_of(self.last_connected_keys[i].as_str());
                proof {
                    assert(a[i as int] == now@[i as int]@);
                    assert(b[i as int] == self.last_connected_keys@[i as int]@);
                }
                if !chars_equal(now[i].as_slice(), lc.as_slice()) {
                    eq = false;
                }
                i += 1;
            }
            eq
        };
        proof {
            if same {
                assert(a =~= b);
            } else if a.to_set() == b.to_set() {
                lemma_sorted_unique(a, b);
                if a.len() == b.len() {
                    let j = choose|j: int| 0 <= j < a.len() && a[j] != b[j];
                }
            }
        }
        !same
    }
}

proof fn lemma_connected_keys_same(pre: Seq<Output>, nxt: Seq<Output>, i: int)
    requires
        0 <= i,
        pre.len() == i,
        nxt.len() == i + 1,
        forall|j: int| 0 <= j < i ==> nxt[j] == pre[j],
        !is_connected(nxt[i]) || memory_key(nxt[i]) is None,
    ensures
        connected_keys(nxt) == connected_keys(pre),
{
    assert(connected_keys(nxt) =~= connected_keys(pre)) by {
        assert forall|x: Seq<char>| connected_keys(nxt).contains(x) implies connected_keys(pre).contains(x) by {
            let j = choose|j: int| 0 <= j < nxt.len() && is_connected(#[trigger] nxt[j]) && memory_key(nxt[j]) == Some(x);
            assert(j < i);
            assert(pre[j] == nxt[j]);
        }
        assert forall|x: Seq<char>| connected_keys(pre).contains(x) implies connected_keys(nxt).contains(x) by {
            let j = choose|j: int| 0 <= j < pre.len() && is_connected(#[trigger] pre[j]) && memory_key(pre[j]) == Some(x);
            assert(nxt[j] == pre[j]);
        }
    }
}

/// With identifiers that are positions, the workspace with identifier `id`
/// is at position `id.0`.
pub proof fn lemma_ws_position<R>(ws: Seq<Workspace<R>>, id: WorkspaceId)
    requires
        ids_are_positions(ws),
    ensures
        first_match(ws, ws_id_is::<R>(id)) == (if id.0 < ws.len() { Some(id.0 as int) } else { None::<int> }),
{
    let p = ws_id_is::<R>(id);
    if id.0 < ws.len() {
        assert(crate::seqs::is_first(ws, p, id.0 as int));
        lemma_first_match_unique(ws, p, id.0 as int);
    } else {
        lemma_first_match_none(ws, p);
    }
}

/// The output a hidden workspace is brought to: the first of its preferred
/// outputs that is connected, else the output of the focused workspace.
pub open spec fn switch_target<R>(m: WorkspaceManager<R>, t: int) -> OutputId {
    match preferred_output(m.workspaces@[t].preferred_output@, m.outputs@) {
        Some(o) => o,
        None => match m.workspaces@[m.focused_workspace.0 as int].active_output {
            Some(o) => o,
            None => OutputId(0),
        },
    }
}

/// `m1` is `m0` after switching to the workspace named `name` (see
/// `WorkspaceManager::switch_workspace`).
pub open spec fn switched<R>(m0: WorkspaceManager<R>, m1: WorkspaceManager<R>, name: Seq<char>) -> bool {
    &&& m1.monitor_memory == m0.monitor_memory
    &&& m1.outputs == m0.outputs
    &&& m1.outputs_changed == m0.outputs_changed
    &&& m1.last_connected_keys == m0.last_connected_keys
    &&& m1.workspaces@.len() == m0.workspaces@.len()
    &&& forall|j: int| 0 <= j < m0.workspaces@.len() ==> same_but_active(#[trigger] m1.workspaces@[j], m0.workspaces@[j])
    &&& match first_match(m0.workspaces@, ws_named::<R>(name)) {
        None => m1 == m0,
        Some(t) => if m0.workspaces@[t].active_output is Some {
            &&& m1.focused_workspace == WorkspaceId(t as usize)
            &&& m1.workspaces == m0.workspaces
            &&& m1.output_workspace == m0.output_workspace
        } else {
            let o = switch_target(m0, t);
            let shown = m0.output_workspace@;
            &&& m1.focused_workspace == WorkspaceId(t as usize)
            &&& m1.output_workspace@ == shown.insert(o.0, WorkspaceId(t as usize))
            &&& m1.workspaces@[t].active_output == Some(o)
            &&& forall|j: int| 0 <= j < m0.workspaces@.len() && j != t ==>
                (#[trigger] m1.workspaces@[j]).active_output == (
                    if shown.contains_key(o.0) && shown[o.0].0 == j {
                        None
                    } else {
                        m0.workspaces@[j].active_output
                    })
        },
    }
}

impl<R> WorkspaceManager<R> {
    /// Switch to the workspace named `target_name`.
    ///
    /// A workspace already shown somewhere is just focused. A hidden one is
    /// brought to the first of its preferred outputs that is connected, or
    /// else to the output of the focused workspace; whatever was shown there
    /// becomes hidden. The monitor memory is not touched: a switch during a
    /// partial replug is often only a rescue, not a new long-term choice.
    pub fn switch_workspace(&mut self, target_name: &str)
        requires
            old(self).wf(),
        ensures
            final(self).wf(),
            switched(*old(self), *final(self), target_name@),
    {
        broadcast use vstd::std_specs::hash::group_hash_axioms;
        let t = match self.workspace_index_by_name(target_name) {
            Some(t) => t,
            None => return,
        };
        proof {
            lemma_first_match(self.workspaces@, ws_named::<R>(target_name@));
            assert(self.workspaces@[t as int].id.0 == t);
        }
        if self.workspaces[t].active_output.is_some() {
            self.focused_workspace = WorkspaceId(t);
            return;
        }
        let preferred = find_preferred_output(self.workspaces[t].preferred_output.as_slice(), self.outputs.as_slice());
        let target_output = match preferred {
            Some(o) => o,
            None => match self.workspaces[self.focused_workspace.0].active_output {
                Some(o) => o,
                None => OutputId(0),
            },
        };
        let ghost old_ws = self.workspaces@;
        let displaced = self.output_workspace.get(&target_output.0);
        if let Some(old_id) = displaced {
            let old_id = *old_id;
            proof {
                lemma_ws_position(self.workspaces@, old_id);
            }
            if let Some(d) = self.workspace_index(old_id) {
                self.workspaces[d].active_output = None;
            }
        }
        proof {
            lemma_ws_position(self.workspaces@, WorkspaceId(t));
        }
        self.assign_workspace_to_output(WorkspaceId(t), target_output);
        self.focused_workspace = WorkspaceId(t);
    }
}

} // verus!
