//! Reassigning workspaces to outputs after the set of monitors changed.
//!
//! One deterministic pass over the connected outputs in increasing id
//! order, in three tiers: first what the monitor memory remembers for each
//! physical monitor, then the workspace whose preferred-output chain picks
//! the output most strongly, then any workspace still hidden. Outputs left
//! empty get a workspace of their own.

use vstd::prelude::*;
use crate::layout::{bump, empty_frame, FrameId, FrameIdAlloc, SplitNode, Tree};
use crate::matching::{find_preferred_output_ranked, preferred_ranked};
use crate::monitor_memory::{memory_key, monitor_key, MonitorMemory};
use crate::text::char_vecs;
use crate::lex::strictly_sorted;
use crate::seqs::{first_match, is_first, lemma_first_match_none, lemma_first_match_unique};
use crate::text::{chars_of, concat_chars, decimal, decimal_chars_u64, str_eq, string_from_chars};
use crate::workspace::{without_output, all_live, any_live, has_geometry, has_identity, connected_keys, string_views, bump_n, output_ids_distinct, ids_are_positions, lemma_ws_position, id_is, is_connected, same_but_active, Output, OutputId, Workspace, WorkspaceId, WorkspaceManager};

verus! {

/// An assignment under construction: the output each workspace is shown
/// on, and the workspace each output (by id number) shows.
pub struct Placement {
    pub ws_out: Seq<Option<OutputId>>,
    pub out_ws: Map<u64, WorkspaceId>,
}

/// Nothing is shown anywhere yet.
pub open spec fn empty_placement(n: nat) -> Placement {
    Placement { ws_out: Seq::new(n, |i: int| None), out_ws: Map::empty() }
}

/// Workspace `i` is shown on output `o`.
pub open spec fn assign(p: Placement, i: int, o: OutputId) -> Placement {
    Placement { ws_out: p.ws_out.update(i, Some(o)), out_ws: p.out_ws.insert(o.0, WorkspaceId(i as usize)) }
}

pub open spec fn indices(n: nat) -> Seq<int> {
    Seq::new(n, |i: int| i)
}

pub open spec fn free_and(p: Placement, ok: spec_fn(int) -> bool) -> spec_fn(int) -> bool {
    |i: int| p.ws_out[i] is None && ok(i)
}

/// The first hidden workspace that satisfies `ok`.
pub open spec fn first_free(p: Placement, ok: spec_fn(int) -> bool) -> Option<int> {
    first_match(indices(p.ws_out.len()), free_and(p, ok))
}

/// The workspace name the monitor memory holds for output `oid`.
pub open spec fn remembered_for(outs: Seq<Output>, mem: MonitorMemory, oid: u64) -> Option<Seq<char>> {
    match first_match(outs, id_is(OutputId(oid))) {
        Some(k) => match memory_key(outs[k]) {
            Some(key) => mem.remembered(key),
            None => None,
        },
        None => None,
    }
}

pub open spec fn named_as<R>(ws: Seq<Workspace<R>>, name: Seq<char>) -> spec_fn(int) -> bool {
    |i: int| 0 <= i < ws.len() && ws[i].name@ == name
}

/// First tier, for output `oid`: the first hidden workspace with the name
/// remembered for its monitor.
pub open spec fn memory_step<R>(p: Placement, ws: Seq<Workspace<R>>, outs: Seq<Output>, mem: MonitorMemory, oid: u64) -> Placement {
    match remembered_for(outs, mem, oid) {
        Some(name) => match first_free(p, named_as(ws, name)) {
            Some(i) => assign(p, i, OutputId(oid)),
            None => p,
        },
        None => p,
    }
}

/// How strongly workspace `i` prefers output `oid`: the rank of the first
/// of its matchers that matches anything, when that match is `oid`.
pub open spec fn pref_rank<R>(ws: Seq<Workspace<R>>, outs: Seq<Output>, i: int, oid: u64) -> Option<int> {
    if 0 <= i < ws.len() {
        match preferred_ranked(ws[i].preferred_output@, outs) {
            Some((r, m)) => if m.0 == oid { Some(r) } else { None },
            None => None,
        }
    } else {
        None
    }
}

/// Workspace `i` prefers `oid` at least as strongly as every other hidden
/// workspace that prefers it.
pub open spec fn strongest<R>(p: Placement, ws: Seq<Workspace<R>>, outs: Seq<Output>, oid: u64) -> spec_fn(int) -> bool {
    |i: int| pref_rank(ws, outs, i, oid) matches Some(r) && forall|j: int|
        0 <= j < p.ws_out.len() && p.ws_out[j] is None && #[trigger] pref_rank(ws, outs, j, oid) is Some
            ==> r <= pref_rank(ws, outs, j, oid).unwrap()
}

/// Second tier, for an output still empty: the hidden workspace that
/// prefers it most strongly, the first one on ties.
pub open spec fn preference_step<R>(p: Placement, ws: Seq<Workspace<R>>, outs: Seq<Output>, oid: u64) -> Placement {
    if p.out_ws.contains_key(oid) {
        p
    } else {
        match first_free(p, strongest(p, ws, outs, oid)) {
            Some(i) => assign(p, i, OutputId(oid)),
            None => p,
        }
    }
}

pub open spec fn anything() -> spec_fn(int) -> bool {
    |i: int| true
}

/// Third tier, for an output still empty: the first hidden workspace.
pub open spec fn fallback_step(p: Placement, oid: u64) -> Placement {
    if p.out_ws.contains_key(oid) {
        p
    } else {
        match first_free(p, anything()) {
            Some(i) => assign(p, i, OutputId(oid)),
            None => p,
        }
    }
}

pub open spec fn memory_tier<R>(p: Placement, ws: Seq<Workspace<R>>, outs: Seq<Output>, mem: MonitorMemory, order: Seq<u64>) -> Placement
    decreases order.len(),
{
    if order.len() == 0 {
        p
    } else {
        memory_step(memory_tier(p, ws, outs, mem, order.drop_last()), ws, outs, mem, order.last())
    }
}

pub open spec fn preference_tier<R>(p: Placement, ws: Seq<Workspace<R>>, outs: Seq<Output>, order: Seq<u64>) -> Placement
    decreases order.len(),
{
    if order.len() == 0 {
        p
    } else {
        preference_step(preference_tier(p, ws, outs, order.drop_last()), ws, outs, order.last())
    }
}

pub open spec fn fallback_tier(p: Placement, order: Seq<u64>) -> Placement
    decreases order.len(),
{
    if order.len() == 0 {
        p
    } else {
        fallback_step(fallback_tier(p, order.drop_last()), order.last())
    }
}

/// The three tiers, over the outputs in `order`, for workspaces `ws`.
pub open spec fn placement<R>(ws: Seq<Workspace<R>>, outs: Seq<Output>, mem: MonitorMemory, order: Seq<u64>) -> Placement {
    let p1 = memory_tier(empty_placement(ws.len()), ws, outs, mem, order);
    let p2 = preference_tier(p1, ws, outs, order);
    fallback_tier(p2, order)
}

/// The sequence is strictly increasing.
pub open spec fn increasing(s: Seq<u64>) -> bool {
    forall|i: int, j: int| 0 <= i < j < s.len() ==> s[i] < s[j]
}

/// The id numbers of the connected outputs.
pub open spec fn connected_id_set(outs: Seq<Output>) -> Set<u64> {
    Set::new(|id: u64| exists|k: int| 0 <= k < outs.len() && is_connected(#[trigger] outs[k]) && outs[k].id.0 == id)
}

/// The id numbers of the connected outputs in increasing order.
pub open spec fn connected_order(outs: Seq<Output>) -> Seq<u64> {
    choose|s: Seq<u64>| increasing(s) && s.to_set() == connected_id_set(outs)
}

/// The workspaces that were not created automatically, in order.
pub open spec fn kept<R>(ws: Seq<Workspace<R>>) -> Seq<Workspace<R>>
    decreases ws.len(),
{
    if ws.len() == 0 {
        ws
    } else if ws.last().auto_created {
        kept(ws.drop_last())
    } else {
        kept(ws.drop_last()).push(ws.last())
    }
}

/// The connected outputs that the map `m` leaves without a workspace, in
/// order.
pub open spec fn unfilled(outs: Seq<Output>, m: Map<u64, WorkspaceId>) -> Seq<Output>
    decreases outs.len(),
{
    if outs.len() == 0 {
        outs
    } else if is_connected(outs.last()) && !m.contains_key(outs.last().id.0) {
        unfilled(outs.drop_last(), m).push(outs.last())
    } else {
        unfilled(outs.drop_last(), m)
    }
}

/// The name of a workspace created for output `o`: `auto:` and its connector
/// name, or its id number when it has none.
pub open spec fn auto_name(o: Output) -> Seq<char> {
    "auto:"@ + match o.name {
        Some(n) => n@,
        None => decimal(o.id.0 as int),
    }
}

/// `w` is the workspace created at position `i` for output `o`, with its
/// single frame numbered `next`.
pub open spec fn auto_workspace<R>(w: Workspace<R>, i: int, o: Output, next: u64) -> bool {
    &&& w.id.0 == i
    &&& w.name@ == auto_name(o)
    &&& w.preferred_output@.len() == 0
    &&& w.active_output == Some(o.id)
    &&& w.root@ == Tree::<R>::Leaf(empty_frame(FrameId(next)))
    &&& w.focused_frame == FrameId(0)
    &&& w.auto_created
}

/// The map `m` extended with the workspaces created for `autos`, numbered
/// from `n`.
pub open spec fn with_autos(m: Map<u64, WorkspaceId>, autos: Seq<Output>, n: int) -> Map<u64, WorkspaceId>
    decreases autos.len(),
{
    if autos.len() == 0 {
        m
    } else {
        with_autos(m, autos.drop_last(), n).insert(autos.last().id.0, WorkspaceId((n + autos.len() - 1) as usize))
    }
}

/// The placement that the manager's state holds.
pub open spec fn placement_of<R>(ws: Seq<Workspace<R>>, m: Map<u64, WorkspaceId>) -> Placement {
    Placement { ws_out: ws.map_values(|w: Workspace<R>| w.active_output), out_ws: m }
}

/// `a` and `b` agree position by position on everything but the outputs the
/// workspaces are shown on.
pub open spec fn same_statics<R>(a: Seq<Workspace<R>>, b: Seq<Workspace<R>>) -> bool {
    &&& a.len() == b.len()
    &&& forall|i: int| 0 <= i < a.len() ==> same_but_active(#[trigger] a[i], b[i])
}

/// Two strictly increasing sequences with the same elements are equal.
pub proof fn lemma_increasing_unique(s: Seq<u64>, t: Seq<u64>)
    requires
        increasing(s),
        increasing(t),
        s.to_set() == t.to_set(),
    ensures
        s == t,
    decreases s.len(),
{
    if s.len() == 0 {
        if t.len() > 0 {
            assert(t.to_set().contains(t[0]));
        }
        assert(s =~= t);
    } else if t.len() == 0 {
        assert(s.to_set().contains(s[0]));
    } else {
        assert(t.to_set().contains(s[0]));
        assert(s.to_set().contains(t[0]));
        let i = choose|i: int| 0 <= i < t.len() && t[i] == s[0];
        let j = choose|j: int| 0 <= j < s.len() && s[j] == t[0];
        if i > 0 {
            assert(t[0] < t[i]);
            if j > 0 {
                assert(s[0] < s[j]);
            }
        }
        assert(s[0] == t[0]);
        let s1 = s.drop_first();
        let t1 = t.drop_first();
        assert(s1.to_set() =~= t1.to_set()) by {
            assert forall|x: u64| s1.to_set().contains(x) implies t1.to_set().contains(x) by {
                let a = choose|a: int| 0 <= a < s1.len() && s1[a] == x;
                assert(s[a + 1] == x);
                assert(t.to_set().contains(x));
                let b = choose|b: int| 0 <= b < t.len() && t[b] == x;
                assert(s[0] < s[a + 1]);
                assert(b != 0);
                assert(t1[b - 1] == x);
            }
            assert forall|x: u64| t1.to_set().contains(x) implies s1.to_set().contains(x) by {
                let a = choose|a: int| 0 <= a < t1.len() && t1[a] == x;
                assert(t[a + 1] == x);
                assert(s.to_set().contains(x));
                let b = choose|b: int| 0 <= b < s.len() && s[b] == x;
                assert(t[0] < t[a + 1]);
                assert(b != 0);
                assert(s1[b - 1] == x);
            }
        }
        lemma_increasing_unique(s1, t1);
        assert(s =~= t) by {
            assert forall|k: int| 0 <= k < s.len() implies s[k] == t[k] by {
                if k > 0 {
                    assert(s[k] == s1[k - 1] && t[k] == t1[k - 1]);
                }
            }
        }
    }
}

/// The first position that satisfies a predicate of positions.
proof fn lemma_first_index(n: nat, q: spec_fn(int) -> bool, k: int)
    requires
        0 <= k < n,
        q(k),
        forall|j: int| 0 <= j < k ==> !#[trigger] q(j),
    ensures
        first_match(indices(n), q) == Some(k),
{
    let s = indices(n);
    assert(is_first(s, q, k)) by {
        assert forall|j: int| 0 <= j < k implies !q(#[trigger] s[j]) by {
            assert(s[j] == j);
        }
    }
    crate::seqs::lemma_first_match_unique(s, q, k);
}

/// No position satisfies the predicate.
proof fn lemma_no_index(n: nat, q: spec_fn(int) -> bool)
    requires
        forall|j: int| 0 <= j < n ==> !#[trigger] q(j),
    ensures
        first_match(indices(n), q) is None,
{
    let s = indices(n);
    assert forall|j: int| 0 <= j < s.len() implies !q(#[trigger] s[j]) by {
        assert(s[j] == j);
    }
    crate::seqs::lemma_first_match_none(s, q);
}

impl<R> WorkspaceManager<R> {
    /// The id numbers of the connected outputs, in increasing order.
    fn connected_ids_sorted(&self) -> (v: Vec<u64>)
        ensures
            increasing(v@),
            v@.to_set() == connected_id_set(self.outputs@),
            v@ == connected_order(self.outputs@),
    {
        let mut v: Vec<u64> = Vec::new();
        let mut i: usize = 0;
        proof {
            assert(v@.to_set() =~= connected_id_set(self.outputs@.take(0)));
        }
        while i < self.outputs.len()
            invariant
                i <= self.outputs@.len(),
                increasing(v@),
                v@.to_set() == connected_id_set(self.outputs@.take(i as int)),
            decreases self.outputs@.len() - i,
        {
            let ghost pre = self.outputs@.take(i as int);
            let ghost nxt = self.outputs@.take(i + 1);
            let o = &self.outputs[i];
            proof {
                assert(nxt[i as int] == *o);
                assert forall|j: int| 0 <= j < i implies nxt[j] == pre[j] by {}
            }
            if !o.removed && o.width > 0 {
                let id = o.id.0;
                let mut pos: usize = 0;
                while pos < v.len() && v[pos] < id
                    invariant
                        pos <= v@.len(),
                        forall|j: int| 0 <= j < pos ==> v@[j] < id,
                    decreases v@.len() - pos,
                {
                    pos += 1;
                }
                let ghost before = v@;
                if pos == v.len() || v[pos] != id {
                    v.insert(pos, id);
                    proof {
                        assert(v@ =~= before.insert(pos as int, id));
                        assert forall|a: int, b: int| 0 <= a < b < v@.len() implies v@[a] < v@[b] by {
                            if b < pos {
                                assert(v@[a] == before[a] && v@[b] == before[b]);
                            } else if b == pos {
                                assert(v@[a] == before[a]);
                            } else if a == pos {
                                assert(v@[b] == before[b - 1]);
                            } else if a < pos {
                                assert(v@[a] == before[a] && v@[b] == before[b - 1]);
                            } else {
                                assert(v@[a] == before[a - 1] && v@[b] == before[b - 1]);
                            }
                        }
                        assert(v@.to_set() =~= before.to_set().insert(id)) by {
                            assert forall|x: u64| v@.to_set().contains(x) implies before.to_set().insert(id).contains(x) by {
                                let m = choose|m: int| 0 <= m < v@.len() && v@[m] == x;
                                if m < pos {
                                    assert(before[m] == x);
                                } else if m > pos {
                                    assert(before[m - 1] == x);
                                }
                            }
                            assert forall|x: u64| before.to_set().insert(id).contains(x) implies v@.to_set().contains(x) by {
                                if x == id {
                                    assert(v@[pos as int] == x);
                                } else {
                                    let m = choose|m: int| 0 <= m < before.len() && before[m] == x;
                                    if m < pos {
                                        assert(v@[m] == x);
                                    } else {
                                        assert(v@[m + 1] == x);
                                    }
                                }
                            }
                        }
                    }
                } else {
                    proof {
                        assert(before.to_set().contains(id));
                        assert(before.to_set().insert(id) =~= before.to_set());
                    }
                }
                proof {
                    assert(connected_id_set(nxt) =~= connected_id_set(pre).insert(id)) by {
                        assert forall|x: u64| connected_id_set(nxt).contains(x) implies connected_id_set(pre).insert(id).contains(x) by {
                            let k = choose|k: int| 0 <= k < nxt.len() && is_connected(#[trigger] nxt[k]) && nxt[k].id.0 == x;
                            if k < i {
                                assert(pre[k] == nxt[k]);
                            }
                        }
                        assert forall|x: u64| connected_id_set(pre).insert(id).contains(x) implies connected_id_set(nxt).contains(x) by {
                            if x != id {
                                let k = choose|k: int| 0 <= k < pre.len() && is_connected(#[trigger] pre[k]) && pre[k].id.0 == x;
                                assert(nxt[k] == pre[k]);
                            } else {
                                assert(is_connected(nxt[i as int]));
                            }
                        }
                    }
                }
            } else {
                proof {
                    assert(connected_id_set(nxt) =~= connected_id_set(pre)) by {
                        assert forall|x: u64| connected_id_set(nxt).contains(x) implies connected_id_set(pre).contains(x) by {
                            let k = choose|k: int| 0 <= k < nxt.len() && is_connected(#[trigger] nxt[k]) && nxt[k].id.0 == x;
                            assert(k < i);
                            assert(pre[k] == nxt[k]);
                        }
                        assert forall|x: u64| connected_id_set(pre).contains(x) implies connected_id_set(nxt).contains(x) by {
                            let k = choose|k: int| 0 <= k < pre.len() && is_connected(#[trigger] pre[k]) && pre[k].id.0 == x;
                            assert(nxt[k] == pre[k]);
                        }
                    }
                }
            }
            i += 1;
        }
        proof {
            assert(self.outputs@.take(self.outputs@.len() as int) =~= self.outputs@);
            let c = connected_order(self.outputs@);
            assert(increasing(c) && c.to_set() == connected_id_set(self.outputs@));
            lemma_increasing_unique(c, v@);
        }
        v
    }
}

/// Everything but which workspace is shown where stays as it was.
pub open spec fn only_placement_changed<R>(a: WorkspaceManager<R>, b: WorkspaceManager<R>) -> bool {
    &&& same_statics(b.workspaces@, a.workspaces@)
    &&& b.outputs == a.outputs
    &&& b.focused_workspace == a.focused_workspace
    &&& b.monitor_memory == a.monitor_memory
    &&& b.outputs_changed == a.outputs_changed
    &&& b.last_connected_keys == a.last_connected_keys
}

impl<R> WorkspaceManager<R> {
    /// Show workspace `i` on output `oid`.
    fn place(&mut self, i: usize, oid: u64)
        requires
            ids_are_positions(old(self).workspaces@),
            i < old(self).workspaces@.len(),
        ensures
            placement_of(final(self).workspaces@, final(self).output_workspace@)
                == assign(placement_of(old(self).workspaces@, old(self).output_workspace@), i as int, OutputId(oid)),
            only_placement_changed(*old(self), *final(self)),
            ids_are_positions(final(self).workspaces@),
    {
        proof {
            lemma_ws_position(self.workspaces@, WorkspaceId(i));
        }
        self.assign_workspace_to_output(WorkspaceId(i), OutputId(oid));
        proof {
            let a = placement_of(self.workspaces@, self.output_workspace@);
            let b = assign(placement_of(old(self).workspaces@, old(self).output_workspace@), i as int, OutputId(oid));
            assert(a.ws_out =~= b.ws_out);
            assert(a.out_ws =~= b.out_ws);
        }
    }

    /// The first hidden workspace, or the first hidden one named `name`.
    fn first_hidden(&self, name: Option<&str>) -> (r: Option<usize>)
        ensures
            ({
                let p = placement_of(self.workspaces@, self.output_workspace@);
                let ok = match name {
                    Some(n) => named_as(self.workspaces@, n@),
                    None => anything(),
                };
                match r {
                    Some(i) => first_free(p, ok) == Some(i as int),
                    None => first_free(p, ok) is None,
                }
            }),
    {
        let ghost p = placement_of(self.workspaces@, self.output_workspace@);
        let ghost ok = match name {
            Some(n) => named_as(self.workspaces@, n@),
            None => anything(),
        };
        let ghost q = free_and(p, ok);
        let mut i: usize = 0;
        while i < self.workspaces.len()
            invariant
                i <= self.workspaces@.len(),
                p == placement_of(self.workspaces@, self.output_workspace@),
                ok == (match name {
                    Some(n) => named_as(self.workspaces@, n@),
                    None => anything(),
                }),
                q == free_and(p, ok),
                forall|j: int| 0 <= j < i ==> !#[trigger] q(j),
            decreases self.workspaces@.len() - i,
        {
            let hit = self.workspaces[i].active_output.is_none() && match name {
                Some(n) => str_eq(self.workspaces[i].name.as_str(), n),
                None => true,
            };
            if hit {
                proof {
                    lemma_first_index(p.ws_out.len(), q, i as int);
                }
                return Some(i);
            }
            i += 1;
        }
        proof {
            lemma_no_index(p.ws_out.len(), q);
        }
        None
    }

    /// The name the monitor memory holds for output `oid`.
    fn remembered_name(&self, oid: u64) -> (r: Option<String>)
        ensures
            match r {
                Some(n) => remembered_for(self.outputs@, self.monitor_memory, oid) == Some(n@),
                None => remembered_for(self.outputs@, self.monitor_memory, oid) is None,
            },
    {
        let key = match self.output(OutputId(oid)) {
            Some(o) => monitor_key(o),
            None => None,
        };
        match key {
            Some(k) => match self.monitor_memory.get(k.as_str()) {
                Some(n) => Some(n.to_owned()),
                None => None,
            },
            None => None,
        }
    }

    /// First tier: every output in `order` gets back the workspace that its
    /// monitor last showed, if that workspace is still hidden.
    fn assign_from_memory(&mut self, order: &Vec<u64>)
        requires
            ids_are_positions(old(self).workspaces@),
        ensures
            ids_are_positions(final(self).workspaces@),
            only_placement_changed(*old(self), *final(self)),
            placement_of(final(self).workspaces@, final(self).output_workspace@) == memory_tier(
                placement_of(old(self).workspaces@, old(self).output_workspace@),
                old(self).workspaces@,
                old(self).outputs@,
                old(self).monitor_memory,
                order@,
            ),
    {
        let ghost p0 = placement_of(self.workspaces@, self.output_workspace@);
        let ghost ws0 = self.workspaces@;
        let mut k: usize = 0;
        proof {
            assert(order@.take(0) =~= Seq::<u64>::empty());
        }
        while k < order.len()
            invariant
                k <= order@.len(),
                ws0 == old(self).workspaces@,
                p0 == placement_of(old(self).workspaces@, old(self).output_workspace@),
                ids_are_positions(self.workspaces@),
                only_placement_changed(*old(self), *self),
                placement_of(self.workspaces@, self.output_workspace@)
                    == memory_tier(p0, ws0, old(self).outputs@, old(self).monitor_memory, order@.take(k as int)),
            decreases order@.len() - k,
        {
            let oid = order[k];
            proof {
                assert(order@.take(k + 1).drop_last() =~= order@.take(k as int));
                assert(order@.take(k + 1).last() == oid);
                assert(names_agree(self.workspaces@, ws0));
            }
            if let Some(name) = self.remembered_name(oid) {
                let found = self.first_hidden(Some(name.as_str()));
                proof {
                    assert(named_as(self.workspaces@, name@) =~= named_as(ws0, name@));
                }
                if let Some(i) = found {
                    proof {
                        lemma_first_index_bound(placement_of(self.workspaces@, self.output_workspace@), named_as(ws0, name@));
                    }
                    self.place(i, oid);
                }
            }
            k += 1;
        }
        proof {
            assert(order@.take(order@.len() as int) =~= order@);
        }
    }
}

/// Two lists with the same statics hold the same names.
pub open spec fn names_agree<R>(a: Seq<Workspace<R>>, b: Seq<Workspace<R>>) -> bool {
    a.len() == b.len() && forall|i: int| 0 <= i < a.len() ==> (#[trigger] a[i]).name == b[i].name
}

pub proof fn lemma_first_index_bound(p: Placement, ok: spec_fn(int) -> bool)
    ensures
        first_free(p, ok) matches Some(i) ==> 0 <= i < p.ws_out.len() && p.ws_out[i] is None && ok(i),
{
    crate::seqs::lemma_first_match(indices(p.ws_out.len()), free_and(p, ok));
    if let Some(i) = first_free(p, ok) {
        assert(indices(p.ws_out.len())[i] == i);
    }
}

/// Same preferred-output chains, position by position.
pub open spec fn prefs_agree<R>(a: Seq<Workspace<R>>, b: Seq<Workspace<R>>) -> bool {
    a.len() == b.len() && forall|i: int| 0 <= i < a.len() ==> (#[trigger] a[i]).preferred_output == b[i].preferred_output
}

impl<R> WorkspaceManager<R> {
    /// The hidden workspace that prefers output `oid` most strongly (the
    /// first one on ties).
    fn strongest_hidden(&self, oid: u64) -> (r: Option<usize>)
        ensures
            ({
                let p = placement_of(self.workspaces@, self.output_workspace@);
                let ok = strongest(p, self.workspaces@, self.outputs@, oid);
                match r {
                    Some(i) => first_free(p, ok) == Some(i as int),
                    None => first_free(p, ok) is None,
                }
            }),
    {
        let ghost p = placement_of(self.workspaces@, self.output_workspace@);
        let ghost ws = self.workspaces@;
        let ghost outs = self.outputs@;
        let ghost cand = |j: int| 0 <= j < p.ws_out.len() && p.ws_out[j] is None && pref_rank(ws, outs, j, oid) is Some;
        let ghost q = free_and(p, strongest(p, ws, outs, oid));
        let mut best: Option<usize> = None;
        let mut best_rank: usize = 0;
        let mut i: usize = 0;
        while i < self.workspaces.len()
            invariant
                i <= self.workspaces@.len(),
                p == placement_of(self.workspaces@, self.output_workspace@),
                ws == self.workspaces@,
                outs == self.outputs@,
                p.ws_out.len() == ws.len(),
                cand == (|j: int| 0 <= j < p.ws_out.len() && p.ws_out[j] is None && pref_rank(ws, outs, j, oid) is Some),
                match best {
                    None => forall|j: int| 0 <= j < i ==> !#[trigger] cand(j),
                    Some(b) => {
                        &&& b < i
                        &&& cand(b as int)
                        &&& pref_rank(ws, outs, b as int, oid) == Some(best_rank as int)
                        &&& forall|j: int| 0 <= j < i && #[trigger] cand(j) ==> best_rank <= pref_rank(ws, outs, j, oid).unwrap()
                        &&& forall|j: int| 0 <= j < b && #[trigger] cand(j) ==> best_rank < pref_rank(ws, outs, j, oid).unwrap()
                    },
                },
            decreases self.workspaces@.len() - i,
        {
            proof {
                assert(p.ws_out[i as int] == self.workspaces@[i as int].active_output);
            }
            if self.workspaces[i].active_output.is_none() {
                let ranked = find_preferred_output_ranked(self.workspaces[i].preferred_output.as_slice(), self.outputs.as_slice());
                if let Some((rank, m)) = ranked {
                    if m.0 == oid {
                        let better = match best {
                            None => true,
                            Some(_) => rank < best_rank,
                        };
                        if better {
                            best = Some(i);
                            best_rank = rank;
                        }
                    }
                }
            }
            i += 1;
        }
        match best {
            Some(b) => {
                proof {
                    assert forall|j: int| 0 <= j < p.ws_out.len() && p.ws_out[j] is None && #[trigger] pref_rank(ws, outs, j, oid) is Some
                        implies best_rank <= pref_rank(ws, outs, j, oid).unwrap() by {
                        assert(cand(j));
                    }
                    assert(q(b as int));
                    assert forall|j: int| 0 <= j < b implies !#[trigger] q(j) by {
                        if q(j) {
                            assert(cand(j));
                            assert(cand(b as int));
                        }
                    }
                    lemma_first_index(p.ws_out.len(), q, b as int);
                }
                Some(b)
            },
            None => {
                proof {
                    assert forall|j: int| 0 <= j < p.ws_out.len() implies !#[trigger] q(j) by {
                        if q(j) {
                            assert(cand(j));
                        }
                    }
                    lemma_no_index(p.ws_out.len(), q);
                }
                None
            },
        }
    }

    /// Second tier: every output in `order` still empty gets the hidden
    /// workspace that prefers it most strongly.
    fn assign_from_preferences(&mut self, order: &Vec<u64>)
        requires
            ids_are_positions(old(self).workspaces@),
        ensures
            ids_are_positions(final(self).workspaces@),
            only_placement_changed(*old(self), *final(self)),
            placement_of(final(self).workspaces@, final(self).output_workspace@) == preference_tier(
                placement_of(old(self).workspaces@, old(self).output_workspace@),
                old(self).workspaces@,
                old(self).outputs@,
                order@,
            ),
    {
        broadcast use vstd::std_specs::hash::group_hash_axioms;
        let ghost p0 = placement_of(self.workspaces@, self.output_workspace@);
        let ghost ws0 = self.workspaces@;
        let mut k: usize = 0;
        proof {
            assert(order@.take(0) =~= Seq::<u64>::empty());
        }
        while k < order.len()
            invariant
                k <= order@.len(),
                ws0 == old(self).workspaces@,
                p0 == placement_of(old(self).workspaces@, old(self).output_workspace@),
                ids_are_positions(self.workspaces@),
                only_placement_changed(*old(self), *self),
                placement_of(self.workspaces@, self.output_workspace@)
                    == preference_tier(p0, ws0, old(self).outputs@, order@.take(k as int)),
            decreases order@.len() - k,
        {
            let oid = order[k];
            proof {
                assert(order@.take(k + 1).drop_last() =~= order@.take(k as int));
                assert(order@.take(k + 1).last() == oid);
            }
            if !self.output_workspace.contains_key(&oid) {
                let found = self.strongest_hidden(oid);
                proof {
                    let p = placement_of(self.workspaces@, self.output_workspace@);
                    assert(prefs_agree(self.workspaces@, ws0));
                    assert forall|j: int| #![trigger pref_rank(self.workspaces@, self.outputs@, j, oid)] #![trigger pref_rank(ws0, old(self).outputs@, j, oid)]
                        pref_rank(self.workspaces@, self.outputs@, j, oid) == pref_rank(ws0, old(self).outputs@, j, oid) by {
                        if 0 <= j < ws0.len() {
                            assert(self.workspaces@[j].preferred_output == ws0[j].preferred_output);
                        }
                    }
                    assert(strongest(p, self.workspaces@, self.outputs@, oid) =~= strongest(p, ws0, old(self).outputs@, oid));
                }
                if let Some(i) = found {
                    proof {
                        lemma_first_index_bound(placement_of(self.workspaces@, self.output_workspace@), strongest(placement_of(self.workspaces@, self.output_workspace@), ws0, old(self).outputs@, oid));
                    }
                    self.place(i, oid);
                }
            }
            k += 1;
        }
        proof {
            assert(order@.take(order@.len() as int) =~= order@);
        }
    }

    /// Third tier: every output in `order` still empty gets the first hidden
    /// workspace.
    fn assign_remaining(&mut self, order: &Vec<u64>)
        requires
            ids_are_positions(old(self).workspaces@),
        ensures
            ids_are_positions(final(self).workspaces@),
            only_placement_changed(*old(self), *final(self)),
            placement_of(final(self).workspaces@, final(self).output_workspace@) == fallback_tier(
                placement_of(old(self).workspaces@, old(self).output_workspace@),
                order@,
            ),
    {
        broadcast use vstd::std_specs::hash::group_hash_axioms;
        let ghost p0 = placement_of(self.workspaces@, self.output_workspace@);
        let mut k: usize = 0;
        proof {
            assert(order@.take(0) =~= Seq::<u64>::empty());
        }
        while k < order.len()
            invariant
                k <= order@.len(),
                p0 == placement_of(old(self).workspaces@, old(self).output_workspace@),
                ids_are_positions(self.workspaces@),
                only_placement_changed(*old(self), *self),
                placement_of(self.workspaces@, self.output_workspace@) == fallback_tier(p0, order@.take(k as int)),
            decreases order@.len() - k,
        {
            let oid = order[k];
            proof {
                assert(order@.take(k + 1).drop_last() =~= order@.take(k as int));
                assert(order@.take(k + 1).last() == oid);
            }
            if !self.output_workspace.contains_key(&oid) {
                if let Some(i) = self.first_hidden(None) {
                    proof {
                        lemma_first_index_bound(placement_of(self.workspaces@, self.output_workspace@), anything());
                    }
                    self.place(i, oid);
                }
            }
            k += 1;
        }
        proof {
            assert(order@.take(order@.len() as int) =~= order@);
        }
    }
}

/// The workspaces `ws` renumbered by position and all hidden.
pub open spec fn fresh<R>(ws: Seq<Workspace<R>>) -> Seq<Workspace<R>> {
    Seq::new(ws.len(), |i: int| Workspace { id: WorkspaceId(i as usize), active_output: None, ..ws[i] })
}

/// Some workspace was created automatically.
pub open spec fn any_auto<R>(ws: Seq<Workspace<R>>) -> bool {
    exists|i: int| 0 <= i < ws.len() && (#[trigger] ws[i]).auto_created
}

/// The focused workspace after the automatic ones were dropped: the first
/// one when the focused one was among those dropped past the end.
pub open spec fn healed_focus<R>(ws: Seq<Workspace<R>>, f: WorkspaceId) -> WorkspaceId {
    if any_auto(ws) && f.0 >= kept(ws).len() { WorkspaceId(0) } else { f }
}

proof fn lemma_with_autos_keys(m: Map<u64, WorkspaceId>, autos: Seq<Output>, n: int, x: u64)
    ensures
        with_autos(m, autos, n).contains_key(x) == (m.contains_key(x) || exists|k: int| 0 <= k < autos.len() && (#[trigger] autos[k]).id.0 == x),
    decreases autos.len(),
{
    if autos.len() > 0 {
        let d = autos.drop_last();
        lemma_with_autos_keys(m, d, n, x);
        if exists|k: int| 0 <= k < d.len() && (#[trigger] d[k]).id.0 == x {
            let k = choose|k: int| 0 <= k < d.len() && (#[trigger] d[k]).id.0 == x;
            assert(autos[k] == d[k]);
        }
        if exists|k: int| 0 <= k < autos.len() && (#[trigger] autos[k]).id.0 == x {
            let k = choose|k: int| 0 <= k < autos.len() && (#[trigger] autos[k]).id.0 == x;
            if k < d.len() {
                assert(d[k] == autos[k]);
            }
        }
    }
}

proof fn lemma_unfilled_from(outs: Seq<Output>, m: Map<u64, WorkspaceId>, k: int)
    requires
        0 <= k < unfilled(outs, m).len(),
    ensures
        exists|j: int| 0 <= j < outs.len() && outs[j] == unfilled(outs, m)[k],
    decreases outs.len(),
{
    let d = outs.drop_last();
    if k < unfilled(d, m).len() {
        lemma_unfilled_from(d, m, k);
        let j = choose|j: int| 0 <= j < d.len() && d[j] == unfilled(d, m)[k];
        assert(outs[j] == d[j]);
        if is_connected(outs.last()) && !m.contains_key(outs.last().id.0) {
            assert(unfilled(outs, m)[k] == unfilled(d, m)[k]);
        }
    } else {
        assert(outs[outs.len() - 1] == unfilled(outs, m)[k]);
    }
}

impl<R> WorkspaceManager<R> {
    /// Drop the automatically created workspaces, renumber the others by
    /// position and hide them all.
    fn drop_auto_workspaces(&mut self)
        requires
            old(self).wf(),
        ensures
            final(self).workspaces@ == fresh(kept(old(self).workspaces@)),
            final(self).focused_workspace == healed_focus(old(self).workspaces@, old(self).focused_workspace),
            final(self).outputs == old(self).outputs,
            final(self).output_workspace == old(self).output_workspace,
            final(self).monitor_memory == old(self).monitor_memory,
            final(self).outputs_changed == old(self).outputs_changed,
            final(self).last_connected_keys == old(self).last_connected_keys,
    {
        let mut rest: Vec<Workspace<R>> = Vec::new();
        std::mem::swap(&mut rest, &mut self.workspaces);
        let ghost orig = rest@;
        assert(orig.len() == rest.len());
        let mut found_auto = false;
        let mut c: usize = 0;
        proof {
            assert(orig.take(0) =~= Seq::<Workspace<R>>::empty());
            assert(rest@ =~= orig.skip(0));
            assert(self.workspaces@ =~= fresh(kept(orig.take(0))));
        }
        while rest.len() > 0
            invariant
                c <= orig.len(),
                orig.len() <= usize::MAX,
                rest@ == orig.skip(c as int),
                self.workspaces@ == fresh(kept(orig.take(c as int))),
                found_auto == any_auto(orig.take(c as int)),
                self.outputs == old(self).outputs,
                self.output_workspace == old(self).output_workspace,
                self.focused_workspace == old(self).focused_workspace,
                self.monitor_memory == old(self).monitor_memory,
                self.outputs_changed == old(self).outputs_changed,
                self.last_connected_keys == old(self).last_connected_keys,
            decreases rest@.len(),
        {
            proof {
                assert(orig.skip(c as int).len() == orig.len() - c);
            }
            let mut w = rest.remove(0);
            proof {
                assert(w == orig[c as int]);
                assert(rest@ =~= orig.skip(c + 1));
                let t = orig.take(c + 1);
                assert(t.drop_last() =~= orig.take(c as int));
                assert(t.last() == w);
            }
            if w.auto_created {
                found_auto = true;
                proof {
                    assert(orig.take(c + 1)[c as int] == w);
                }
            } else {
                let ghost before = self.workspaces@;
                let ghost kc = kept(orig.take(c as int));
                w.id = WorkspaceId(self.workspaces.len());
                w.active_output = None;
                self.workspaces.push(w);
                proof {
                    let kn = kept(orig.take(c + 1));
                    assert(kn == kc.push(orig[c as int]));
                    assert(self.workspaces@ =~= fresh(kn));
                }
            }
            proof {
                let t = orig.take(c + 1);
                let pre = orig.take(c as int);
                assert(any_auto(t) == (any_auto(pre) || t[c as int].auto_created)) by {
                    if any_auto(pre) {
                        let i = choose|i: int| 0 <= i < pre.len() && (#[trigger] pre[i]).auto_created;
                        assert(t[i] == pre[i]);
                    }
                    if any_auto(t) {
                        let i = choose|i: int| 0 <= i < t.len() && (#[trigger] t[i]).auto_created;
                        if i < c {
                            assert(pre[i] == t[i]);
                        }
                    }
                }
            }
            c += 1;
        }
        proof {
            assert(orig.take(c as int) =~= orig);
        }
        if found_auto && self.focused_workspace.0 >= self.workspaces.len() {
            self.focused_workspace = WorkspaceId(0);
        }
    }
}

impl<R: Copy> WorkspaceManager<R> {
    /// Give every connected output that shows nothing a workspace of its
    /// own, named after the output.
    fn ensure_all_outputs_have_workspace(&mut self, alloc: &mut FrameIdAlloc)
        requires
            ids_are_positions(old(self).workspaces@),
            output_ids_distinct(old(self).outputs@),
        ensures
            ({
                let n = old(self).workspaces@.len() as int;
                let autos = unfilled(old(self).outputs@, old(self).output_workspace@);
                &&& final(self).workspaces@.len() == n + autos.len()
                &&& forall|i: int| 0 <= i < n ==> #[trigger] final(self).workspaces@[i] == old(self).workspaces@[i]
                &&& forall|k: int| 0 <= k < autos.len() ==> auto_workspace(
                    #[trigger] final(self).workspaces@[n + k],
                    n + k,
                    autos[k],
                    bump_n(old(alloc).next, k as nat),
                )
                &&& final(self).output_workspace@ == with_autos(old(self).output_workspace@, autos, n)
                &&& final(alloc).next == bump_n(old(alloc).next, autos.len())
            }),
            ids_are_positions(final(self).workspaces@),
            final(self).outputs == old(self).outputs,
            final(self).focused_workspace == old(self).focused_workspace,
            final(self).monitor_memory == old(self).monitor_memory,
            final(self).outputs_changed == old(self).outputs_changed,
            final(self).last_connected_keys == old(self).last_connected_keys,
    {
        broadcast use vstd::std_specs::hash::group_hash_axioms;
        let ghost n = self.workspaces@.len() as int;
        let ghost outs = self.outputs@;
        let ghost m0 = self.output_workspace@;
        let ghost ws0 = self.workspaces@;
        let ghost start = alloc.next;
        let mut j: usize = 0;
        proof {
            assert(outs.take(0) =~= Seq::<Output>::empty());
        }
        while j < self.outputs.len()
            invariant
                j <= outs.len(),
                outs == self.outputs@,
                output_ids_distinct(outs),
                ids_are_positions(self.workspaces@),
                ({
                    let autos = unfilled(outs.take(j as int), m0);
                    &&& self.workspaces@.len() == n + autos.len()
                    &&& forall|i: int| 0 <= i < n ==> #[trigger] self.workspaces@[i] == ws0[i]
                    &&& forall|k: int| 0 <= k < autos.len() ==> auto_workspace(
                        #[trigger] self.workspaces@[n + k],
                        n + k,
                        autos[k],
                        bump_n(start, k as nat),
                    )
                    &&& self.output_workspace@ == with_autos(m0, autos, n)
                    &&& alloc.next == bump_n(start, autos.len())
                }),
                n == ws0.len(),
                self.outputs == old(self).outputs,
                self.focused_workspace == old(self).focused_workspace,
                self.monitor_memory == old(self).monitor_memory,
                self.outputs_changed == old(self).outputs_changed,
                self.last_connected_keys == old(self).last_connected_keys,
            decreases outs.len() - j,
        {
            let ghost pre = outs.take(j as int);
            let ghost nxt = outs.take(j + 1);
            let ghost autos = unfilled(pre, m0);
            proof {
                assert(nxt.drop_last() =~= pre);
                assert(nxt.last() == outs[j as int]);
            }
            let o = &self.outputs[j];
            let oid = o.id;
            let connected = !o.removed && o.width > 0;
            proof {
                lemma_with_autos_keys(m0, autos, n, oid.0);
                if exists|k: int| 0 <= k < autos.len() && (#[trigger] autos[k]).id.0 == oid.0 {
                    let k = choose|k: int| 0 <= k < autos.len() && (#[trigger] autos[k]).id.0 == oid.0;
                    lemma_unfilled_from(pre, m0, k);
                    let q = choose|q: int| 0 <= q < pre.len() && pre[q] == autos[k];
                    assert(outs[q] == pre[q]);
                    assert(false);
                }
            }
            if connected && !self.output_workspace.contains_key(&oid.0) {
                let label: Vec<char> = match &o.name {
                    Some(name) => chars_of(name.as_str()),
                    None => decimal_chars_u64(oid.0),
                };
                let head = chars_of("auto:");
                let full = concat_chars(head.as_slice(), label.as_slice());
                let name = string_from_chars(full.as_slice());
                let ghost next = alloc.next;
                let root = SplitNode::single_frame(alloc);
                let id = WorkspaceId(self.workspaces.len());
                let ws = Workspace {
                    id,
                    name,
                    preferred_output: Vec::new(),
                    active_output: None,
                    root,
                    focused_frame: FrameId(0),
                    auto_created: true,
                };
                self.workspaces.push(ws);
                proof {
                    lemma_ws_position(self.workspaces@, id);
                }
                self.assign_workspace_to_output(id, oid);
                proof {
                    let na = autos.push(outs[j as int]);
                    assert(unfilled(nxt, m0) == na);
                    assert(bump_n(start, na.len()) == bump(bump_n(start, autos.len())));
                    assert(self.workspaces@.len() == n + na.len());
                    assert(na.drop_last() =~= autos);
                    assert(id.0 == n + autos.len());
                    assert(with_autos(m0, na, n) == with_autos(m0, autos, n).insert(oid.0, id));
                    assert(self.output_workspace@ == with_autos(m0, na, n));
                    assert forall|i: int| 0 <= i < n implies #[trigger] self.workspaces@[i] == ws0[i] by {}
                    assert forall|k: int| 0 <= k < na.len() implies auto_workspace(
                        #[trigger] self.workspaces@[n + k],
                        n + k,
                        na[k],
                        bump_n(start, k as nat),
                    ) by {
                        if k == autos.len() {
                            assert(na[k] == outs[j as int]);
                            assert(self.workspaces@[n + k].name@ == auto_name(outs[j as int]));
                            assert(self.workspaces@[n + k].root@ == Tree::<R>::Leaf(empty_frame(FrameId(bump_n(start, k as nat)))));
                        } else {
                            assert(na[k] == autos[k]);
                        }
                    }
                }
            } else {
                proof {
                    assert(unfilled(nxt, m0) == autos);
                }
            }
            j += 1;
        }
        proof {
            assert(outs.take(outs.len() as int) =~= outs);
        }
    }
}

/// The monitor key of output `oid`.
pub open spec fn output_key(outs: Seq<Output>, oid: u64) -> Option<Seq<char>> {
    match first_match(outs, id_is(OutputId(oid))) {
        Some(i) => memory_key(outs[i]),
        None => None,
    }
}

/// What monitor `key` remembers once the placements `shown` of the outputs
/// in `order` were recorded in turn (the name of the workspace each output
/// shows, under the output's monitor key).
pub open spec fn recorded<R>(mem: MonitorMemory, ws: Seq<Workspace<R>>, outs: Seq<Output>, shown: Map<u64, WorkspaceId>, order: Seq<u64>, key: Seq<char>) -> Option<Seq<char>>
    decreases order.len(),
{
    if order.len() == 0 {
        mem.remembered(key)
    } else {
        let oid = order.last();
        if output_key(outs, oid) == Some(key) && shown.contains_key(oid) && shown[oid].0 < ws.len() {
            Some(ws[shown[oid].0 as int].name@)
        } else {
            recorded(mem, ws, outs, shown, order.drop_last(), key)
        }
    }
}

proof fn lemma_recorded_names<R>(mem: MonitorMemory, a: Seq<Workspace<R>>, b: Seq<Workspace<R>>, outs: Seq<Output>, shown: Map<u64, WorkspaceId>, order: Seq<u64>, key: Seq<char>)
    requires
        a.len() == b.len(),
        forall|i: int| 0 <= i < a.len() ==> (#[trigger] a[i]).name@ == b[i].name@,
    ensures
        recorded(mem, a, outs, shown, order, key) == recorded(mem, b, outs, shown, order, key),
    decreases order.len(),
{
    if order.len() > 0 {
        lemma_recorded_names(mem, a, b, outs, shown, order.drop_last(), key);
    }
}

/// `b` is what reassignment makes of `a`, with frame identifiers for the
/// new workspaces taken from `next0` on (leaving `next1`).
///
/// The configured workspaces keep their order and contents, renumbered by
/// position, and are shown where `placement` puts them; each connected
/// output left empty gets an `auto:` workspace, in output order; the monitor
/// memory records, for each connected output with a monitor key, the
/// workspace placed on it (see `recorded`); outputs are unchanged; the
/// connected keys are remembered.
pub open spec fn reassigned<R>(a: WorkspaceManager<R>, b: WorkspaceManager<R>, next0: u64, next1: u64) -> bool {
    let kw = fresh(kept(a.workspaces@));
    let n = kw.len() as int;
    let p = placement(kw, a.outputs@, a.monitor_memory, connected_order(a.outputs@));
    let autos = unfilled(a.outputs@, p.out_ws);
    &&& increasing(connected_order(a.outputs@))
    &&& connected_order(a.outputs@).to_set() == connected_id_set(a.outputs@)
    &&& b.workspaces@.len() == n + autos.len()
    &&& forall|i: int| 0 <= i < n ==> {
        &&& same_but_active(#[trigger] b.workspaces@[i], kw[i])
        &&& b.workspaces@[i].active_output == p.ws_out[i]
    }
    &&& forall|k: int| 0 <= k < autos.len() ==> auto_workspace(
        #[trigger] b.workspaces@[n + k],
        n + k,
        autos[k],
        bump_n(next0, k as nat),
    )
    &&& b.output_workspace@ == with_autos(p.out_ws, autos, n)
    &&& next1 == bump_n(next0, autos.len())
    &&& b.outputs == a.outputs
    &&& forall|k: Seq<char>| #[trigger] b.monitor_memory.remembered(k) == recorded(a.monitor_memory, kw, a.outputs@, p.out_ws, connected_order(a.outputs@), k)
    &&& b.focused_workspace == healed_focus(a.workspaces@, a.focused_workspace)
    &&& b.outputs_changed
    &&& string_views(b.last_connected_keys@).to_set() == connected_keys(a.outputs@)
}

fn strings_of(v: &Vec<Vec<char>>) -> (r: Vec<String>)
    ensures
        string_views(r@) == char_vecs(v@),
{
    let mut r: Vec<String> = Vec::new();
    let mut i: usize = 0;
    while i < v.len()
        invariant
            i <= v@.len(),
            r@.len() == i,
            string_views(r@) == char_vecs(v@).take(i as int),
        decreases v@.len() - i,
    {
        let ghost before = r@;
        let st = string_from_chars(v[i].as_slice());
        r.push(st);
        proof {
            assert(r@ == before.push(st));
            assert(string_views(r@) =~= char_vecs(v@).take(i + 1)) by {
                assert forall|k: int| 0 <= k < i + 1 implies string_views(r@)[k] == char_vecs(v@).take(i + 1)[k] by {
                    if k < i {
                        assert(r@[k] == before[k]);
                        assert(string_views(before)[k] == char_vecs(v@).take(i as int)[k]);
                    }
                }
            }
        }
        i += 1;
    }
    proof {
        assert(char_vecs(v@).take(v@.len() as int) =~= char_vecs(v@));
    }
    r
}

impl<R: Copy> WorkspaceManager<R> {
    /// Record in the monitor memory, for each output of `order` that has a
    /// monitor key and shows a workspace, the workspace's name.
    fn record_placements(&mut self, order: &Vec<u64>)
        requires
            old(self).monitor_memory.wf(),
        ensures
            final(self).monitor_memory.wf(),
            forall|k: Seq<char>| #[trigger] final(self).monitor_memory.remembered(k) == recorded(
                old(self).monitor_memory,
                old(self).workspaces@,
                old(self).outputs@,
                old(self).output_workspace@,
                order@,
                k,
            ),
            final(self).workspaces == old(self).workspaces,
            final(self).outputs == old(self).outputs,
            final(self).output_workspace == old(self).output_workspace,
            final(self).focused_workspace == old(self).focused_workspace,
            final(self).outputs_changed == old(self).outputs_changed,
            final(self).last_connected_keys == old(self).last_connected_keys,
    {
        broadcast use vstd::std_specs::hash::group_hash_axioms;
        let ghost m0 = *self;
        let mut i: usize = 0;
        while i < order.len()
            invariant
                i <= order@.len(),
                self.monitor_memory.wf(),
                forall|k: Seq<char>| #[trigger] self.monitor_memory.remembered(k) == recorded(m0.monitor_memory, m0.workspaces@, m0.outputs@, m0.output_workspace@, order@.take(i as int), k),
                self.workspaces == m0.workspaces,
                self.outputs == m0.outputs,
                self.output_workspace == m0.output_workspace,
                self.focused_workspace == m0.focused_workspace,
                self.outputs_changed == m0.outputs_changed,
                self.last_connected_keys == m0.last_connected_keys,
            decreases order@.len() - i,
        {
            let oid = order[i];
            let ghost before = order@.take(i as int);
            let ghost after = order@.take(i + 1);
            proof {
                assert(after.drop_last() =~= before);
                assert(after.last() == oid);
            }
            let key = match self.output(OutputId(oid)) {
                Some(o) => monitor_key(o),
                None => None,
            };
            let shown = match self.output_workspace.get(&oid) {
                Some(w) => Some(*w),
                None => None,
            };
            let ghost mi = self.monitor_memory;
            if let (Some(key), Some(wid)) = (key, shown) {
                if wid.0 < self.workspaces.len() {
                    let name = self.workspaces[wid.0].name.clone();
                    let ghost kk = key@;
                    let _ = self.monitor_memory.record(key, name);
                    proof {
                        assert forall|k: Seq<char>| #[trigger] self.monitor_memory.remembered(k) == recorded(m0.monitor_memory, m0.workspaces@, m0.outputs@, m0.output_workspace@, after, k) by {
                            if k != kk {
                                assert(self.monitor_memory.remembered(k) == mi.remembered(k));
                            }
                        }
                    }
                } else {
                    proof {
                        assert forall|k: Seq<char>| #[trigger] self.monitor_memory.remembered(k) == recorded(m0.monitor_memory, m0.workspaces@, m0.outputs@, m0.output_workspace@, after, k) by {}
                    }
                }
            } else {
                proof {
                    assert forall|k: Seq<char>| #[trigger] self.monitor_memory.remembered(k) == recorded(m0.monitor_memory, m0.workspaces@, m0.outputs@, m0.output_workspace@, after, k) by {}
                }
            }
            i += 1;
        }
        proof {
            assert(order@.take(i as int) =~= order@);
        }
    }
}

impl<R: Copy> WorkspaceManager<R> {
    /// Reassign workspaces to outputs.
    ///
    /// Assignments are wiped first (automatically created workspaces are
    /// dropped, the others renumbered and hidden), so the result depends only
    /// on the configured workspaces, the outputs and the monitor memory. Then
    /// one pass over the connected outputs in increasing id order, in three
    /// tiers: what the monitor memory remembers for each physical monitor;
    /// for each output still empty, the hidden workspace whose preferred-output
    /// chain picks it at the earliest rank (the first such workspace on
    /// ties); then the first hidden workspace. Outputs still empty get an
    /// `auto:` workspace of their own. Outputs that gain a placement have it
    /// recorded in the monitor memory.
    pub fn reassign_outputs(&mut self, alloc: &mut FrameIdAlloc)
        requires
            old(self).wf(),
        ensures
            final(self).wf(),
            reassigned(*old(self), *final(self), old(alloc).next, final(alloc).next),
    {
        broadcast use vstd::std_specs::hash::group_hash_axioms;
        let keys = self.connected_monitor_keys();
        self.output_workspace.clear();
        self.drop_auto_workspaces();
        let ghost kw = fresh(kept(old(self).workspaces@));
        let wl = self.workspaces.len();
        proof {
            assert forall|i: int| 0 <= i < wl implies (#[trigger] self.workspaces@[i]).id.0 == i by {
                assert(self.workspaces@[i] == kw[i]);
            }
            let p = placement_of(self.workspaces@, self.output_workspace@);
            assert(p.ws_out =~= empty_placement(kw.len()).ws_out);
            assert(p.out_ws =~= empty_placement(kw.len()).out_ws);
            assert(kw.len() == self.workspaces@.len());
        }
        let order = self.connected_ids_sorted();
        let ghost mid0 = *self;
        self.assign_from_memory(&order);
        let ghost mid1 = *self;
        self.assign_from_preferences(&order);
        proof {
            assert(prefs_agree(mid1.workspaces@, kw)) by {
                assert forall|i: int| 0 <= i < kw.len() implies (#[trigger] mid1.workspaces@[i]).preferred_output == kw[i].preferred_output by {
                    assert(same_but_active(mid1.workspaces@[i], mid0.workspaces@[i]));
                }
            }
            assert forall|j: int, oid: u64| #![trigger pref_rank(mid1.workspaces@, old(self).outputs@, j, oid)] #![trigger pref_rank(kw, old(self).outputs@, j, oid)]
                pref_rank(mid1.workspaces@, old(self).outputs@, j, oid) == pref_rank(kw, old(self).outputs@, j, oid) by {
                if 0 <= j < kw.len() {
                    assert(mid1.workspaces@[j].preferred_output == kw[j].preferred_output);
                }
            }
            lemma_preference_tier_ws(placement_of(mid1.workspaces@, mid1.output_workspace@), mid1.workspaces@, kw, old(self).outputs@, order@);
        }
        self.assign_remaining(&order);
        let ghost mid3 = *self;
        self.record_placements(&order);
        self.ensure_all_outputs_have_workspace(alloc);
        proof {
            let p = placement(kw, old(self).outputs@, old(self).monitor_memory, connected_order(old(self).outputs@));
            assert(placement_of(mid3.workspaces@, mid3.output_workspace@) == p);
            assert forall|k: Seq<char>| #[trigger] self.monitor_memory.remembered(k) == recorded(old(self).monitor_memory, kw, old(self).outputs@, p.out_ws, connected_order(old(self).outputs@), k) by {
                assert forall|i: int| 0 <= i < kw.len() implies (#[trigger] mid3.workspaces@[i]).name@ == kw[i].name@ by {
                    assert(same_but_active(mid3.workspaces@[i], mid0.workspaces@[i]));
                }
                lemma_recorded_names(old(self).monitor_memory, mid3.workspaces@, kw, old(self).outputs@, p.out_ws, connected_order(old(self).outputs@), k);
            }
            assert forall|i: int| 0 <= i < kw.len() implies {
                &&& same_but_active(#[trigger] self.workspaces@[i], kw[i])
                &&& self.workspaces@[i].active_output == p.ws_out[i]
            } by {
                assert(self.workspaces@[i] == mid3.workspaces@[i]);
                assert(same_but_active(mid3.workspaces@[i], mid0.workspaces@[i]));
                assert(placement_of(mid3.workspaces@, mid3.output_workspace@).ws_out[i] == mid3.workspaces@[i].active_output);
            }
        }
        let strs = strings_of(&keys);
        self.last_connected_keys = strs;
        self.outputs_changed = true;
        proof {
            lemma_kept_len(old(self).workspaces@);
            assert(ids_are_positions(self.workspaces@));
            assert(output_ids_distinct(self.outputs@));
            assert(self.focused_workspace.0 == 0 || self.focused_workspace.0 < self.workspaces@.len());
            assert(self.monitor_memory.wf());
            assert(strictly_sorted(string_views(self.last_connected_keys@)));
        }
    }
}

/// The preference tier reads the workspaces only through their preferred
/// outputs.
proof fn lemma_preference_tier_ws<R>(p: Placement, a: Seq<Workspace<R>>, b: Seq<Workspace<R>>, outs: Seq<Output>, order: Seq<u64>)
    requires
        forall|j: int, oid: u64| #![trigger pref_rank(a, outs, j, oid)] #![trigger pref_rank(b, outs, j, oid)]
            pref_rank(a, outs, j, oid) == pref_rank(b, outs, j, oid),
    ensures
        preference_tier(p, a, outs, order) == preference_tier(p, b, outs, order),
    decreases order.len(),
{
    if order.len() > 0 {
        lemma_preference_tier_ws(p, a, b, outs, order.drop_last());
        let q = preference_tier(p, a, outs, order.drop_last());
        let oid = order.last();
        assert(strongest(q, a, outs, oid) =~= strongest(q, b, outs, oid));
    }
}

proof fn lemma_kept_len<R>(ws: Seq<Workspace<R>>)
    ensures
        kept(ws).len() <= ws.len(),
        !any_auto(ws) ==> kept(ws).len() == ws.len(),
    decreases ws.len(),
{
    if ws.len() > 0 {
        let d = ws.drop_last();
        lemma_kept_len(d);
        if any_auto(d) {
            let i = choose|i: int| 0 <= i < d.len() && (#[trigger] d[i]).auto_created;
            assert(ws[i] == d[i]);
        }
        if !any_auto(ws) {
            assert(!ws[ws.len() - 1].auto_created);
        }
    }
}

impl<R: Copy> WorkspaceManager<R> {
    /// Reassign only when every live output has known dimensions and a
    /// stable monitor identity, and the set of connected monitor keys
    /// differs from the one at the last reassignment; otherwise nothing
    /// changes.
    pub fn maybe_reassign_outputs(&mut self, alloc: &mut FrameIdAlloc)
        requires
            old(self).wf(),
        ensures
            final(self).wf(),
            if any_live(old(self).outputs@) && all_live(old(self).outputs@, has_geometry())
                && all_live(old(self).outputs@, has_identity())
                && connected_keys(old(self).outputs@) != string_views(old(self).last_connected_keys@).to_set() {
                reassigned(*old(self), *final(self), old(alloc).next, final(alloc).next)
            } else {
                *final(self) == *old(self) && final(alloc).next == old(alloc).next
            },
    {
        if !self.all_outputs_have_geometry() {
            return;
        }
        if !self.all_outputs_have_stable_identity() {
            return;
        }
        if !self.connected_monitor_keys_changed() {
            return;
        }
        self.reassign_outputs(alloc);
    }
}

// ── Dropping the outputs that went away ───────────────────────────────────

/// The ids of the outputs marked removed, in order.
pub open spec fn removed_output_ids(outs: Seq<Output>) -> Seq<OutputId>
    decreases outs.len(),
{
    if outs.len() == 0 {
        Seq::empty()
    } else if outs.last().removed {
        removed_output_ids(outs.drop_last()).push(outs.last().id)
    } else {
        removed_output_ids(outs.drop_last())
    }
}

/// The outputs left after taking out each of `ids` in turn.
pub open spec fn without_outputs(outs: Seq<Output>, ids: Seq<OutputId>) -> Seq<Output>
    decreases ids.len(),
{
    if ids.len() == 0 {
        outs
    } else {
        without_output(without_outputs(outs, ids.drop_last()), ids.last())
    }
}

pub open spec fn number_at(ids: Seq<OutputId>, k: int) -> u64 {
    ids[k].0
}

/// The id numbers of `ids`.
pub open spec fn id_numbers(ids: Seq<OutputId>) -> Set<u64> {
    Set::new(|n: u64| exists|k: int| 0 <= k < ids.len() && #[trigger] number_at(ids, k) == n)
}

/// `m1` is `m0` with the outputs `ids` taken out: gone from the outputs and
/// from the output-to-workspace map, and no workspace shown on them.
pub open spec fn outputs_dropped<R>(m0: WorkspaceManager<R>, m1: WorkspaceManager<R>, ids: Seq<OutputId>) -> bool {
    &&& m1.wf()
    &&& m1.outputs@ == without_outputs(m0.outputs@, ids)
    &&& m1.output_workspace@ == m0.output_workspace@.remove_keys(id_numbers(ids))
    &&& m1.workspaces@.len() == m0.workspaces@.len()
    &&& forall|i: int| 0 <= i < m0.workspaces@.len() ==> {
        &&& same_but_active(#[trigger] m1.workspaces@[i], m0.workspaces@[i])
        &&& m1.workspaces@[i].active_output == (if m0.workspaces@[i].active_output matches Some(o) && ids.contains(o) {
                None
            } else {
                m0.workspaces@[i].active_output
            })
    }
    &&& m1.focused_workspace == m0.focused_workspace
    &&& m1.monitor_memory == m0.monitor_memory
    &&& m1.outputs_changed == (m0.outputs_changed || ids.len() > 0)
    &&& ids.len() > 0 ==> m1.last_connected_keys@.len() == 0
    &&& ids.len() == 0 ==> m1.last_connected_keys == m0.last_connected_keys
}

/// What `maybe_reassign_outputs` does to `m0`.
pub open spec fn reassigned_if_due<R>(m0: WorkspaceManager<R>, m1: WorkspaceManager<R>, n0: u64, n1: u64) -> bool {
    if any_live(m0.outputs@) && all_live(m0.outputs@, has_geometry()) && all_live(m0.outputs@, has_identity())
        && connected_keys(m0.outputs@) != string_views(m0.last_connected_keys@).to_set() {
        reassigned(m0, m1, n0, n1)
    } else {
        m1 == m0 && n1 == n0
    }
}

pub open spec fn is_visible<R>() -> spec_fn(Workspace<R>) -> bool {
    |w: Workspace<R>| w.active_output is Some
}

/// The focused workspace once focus is made to land on something visible:
/// kept when it is shown, else the first shown workspace, else kept.
pub open spec fn visible_focus<R>(m: WorkspaceManager<R>) -> WorkspaceId {
    let f = m.focused_workspace;
    if f.0 < m.workspaces@.len() && m.workspaces@[f.0 as int].active_output is Some {
        f
    } else {
        match first_match(m.workspaces@, is_visible::<R>()) {
            Some(k) => m.workspaces@[k].id,
            None => f,
        }
    }
}

impl<R: Copy> WorkspaceManager<R> {
    fn removed_ids(&self) -> (ids: Vec<OutputId>)
        ensures
            ids@ == removed_output_ids(self.outputs@),
    {
        let mut ids: Vec<OutputId> = Vec::new();
        let mut i: usize = 0;
        while i < self.outputs.len()
            invariant
                i <= self.outputs@.len(),
                ids@ == removed_output_ids(self.outputs@.take(i as int)),
            decreases self.outputs@.len() - i,
        {
            proof {
                assert(self.outputs@.take(i + 1).drop_last() =~= self.outputs@.take(i as int));
            }
            if self.outputs[i].removed {
                ids.push(self.outputs[i].id);
            }
            i += 1;
        }
        proof {
            assert(self.outputs@.take(i as int) =~= self.outputs@);
        }
        ids
    }

    /// Drop the outputs marked removed, give the freed slots a chance to be
    /// filled again (see `maybe_reassign_outputs`), and make focus land on a
    /// shown workspace. Nothing changes when no output was removed.
    pub fn remove_closed_outputs(&mut self, alloc: &mut FrameIdAlloc)
        requires
            old(self).wf(),
        ensures
            final(self).wf(),
            removed_output_ids(old(self).outputs@).len() == 0 ==> *final(self) == *old(self) && final(alloc).next == old(alloc).next,
            removed_output_ids(old(self).outputs@).len() > 0 ==> exists|m1: WorkspaceManager<R>, m2: WorkspaceManager<R>| {
                &&& outputs_dropped(*old(self), m1, removed_output_ids(old(self).outputs@))
                &&& reassigned_if_due(m1, m2, old(alloc).next, final(alloc).next)
                &&& final(self).workspaces == m2.workspaces
                &&& final(self).outputs == m2.outputs
                &&& final(self).output_workspace == m2.output_workspace
                &&& final(self).monitor_memory == m2.monitor_memory
                &&& final(self).outputs_changed == m2.outputs_changed
                &&& final(self).last_connected_keys == m2.last_connected_keys
                &&& final(self).focused_workspace == visible_focus(m2)
            },
    {
        let ids = self.removed_ids();
        if ids.len() == 0 {
            return;
        }
        let ghost m0 = *self;
        let ghost a0 = alloc.next;
        proof {
            let none = ids@.take(0);
            assert(m0.output_workspace@.remove_keys(id_numbers(none)) =~= m0.output_workspace@);
            assert(outputs_dropped(m0, m0, none));
        }
        let mut j: usize = 0;
        while j < ids.len()
            invariant
                j <= ids@.len(),
                ids@ == removed_output_ids(m0.outputs@),
                ids@.len() > 0,
                m0.wf(),
                outputs_dropped(m0, *self, ids@.take(j as int)),
            decreases ids@.len() - j,
        {
            let ghost mj = *self;
            let ghost before = ids@.take(j as int);
            let ghost after = ids@.take(j + 1);
            self.remove_output(ids[j]);
            proof {
                assert(after.drop_last() =~= before);
                assert(after.last() == ids@[j as int]);
                assert forall|x: OutputId| after.contains(x) <==> (before.contains(x) || x == ids@[j as int]) by {
                    if after.contains(x) {
                        let k = choose|k: int| 0 <= k < after.len() && after[k] == x;
                        if k < j {
                            assert(before[k] == x);
                        }
                    }
                    if before.contains(x) {
                        let k = choose|k: int| 0 <= k < before.len() && before[k] == x;
                        assert(after[k] == x);
                    }
                    if x == ids@[j as int] {
                        assert(after[j as int] == x);
                    }
                }
                let kb = id_numbers(before);
                let ka = id_numbers(after);
                assert(ka =~= kb.insert(ids@[j as int].0)) by {
                    assert forall|n: u64| ka.contains(n) <==> kb.contains(n) || n == ids@[j as int].0 by {
                        if ka.contains(n) {
                            let k = choose|k: int| 0 <= k < after.len() && #[trigger] number_at(after, k) == n;
                            if k < j {
                                assert(number_at(before, k) == n);
                            }
                        }
                        if kb.contains(n) {
                            let k = choose|k: int| 0 <= k < before.len() && #[trigger] number_at(before, k) == n;
                            assert(number_at(after, k) == n);
                        }
                        if n == ids@[j as int].0 {
                            assert(number_at(after, j as int) == n);
                        }
                    }
                }
                assert(self.output_workspace@ =~= m0.output_workspace@.remove_keys(ka));
                assert(self.outputs@ == without_outputs(m0.outputs@, after));
                assert(outputs_dropped(m0, *self, after));
            }
            j += 1;
        }
        proof {
            assert(ids@.take(j as int) =~= ids@);
        }
        let ghost m1 = *self;
        self.maybe_reassign_outputs(alloc);
        let ghost m2 = *self;
        let f = self.focused_workspace;
        let focused_visible = f.0 < self.workspaces.len() && self.workspaces[f.0].active_output.is_some();
        if !focused_visible {
            let mut found: Option<usize> = None;
            let mut k: usize = 0;
            while k < self.workspaces.len()
                invariant_except_break
                    k <= self.workspaces@.len(),
                    found is None,
                    forall|i: int| 0 <= i < k ==> !is_visible::<R>()(#[trigger] self.workspaces@[i]),
                invariant
                    *self == m2,
                ensures
                    match found {
                        Some(x) => first_match(m2.workspaces@, is_visible::<R>()) == Some(x as int) && x < m2.workspaces@.len(),
                        None => first_match(m2.workspaces@, is_visible::<R>()) is None,
                    },
                decreases self.workspaces@.len() - k,
            {
                if self.workspaces[k].active_output.is_some() {
                    proof {
                        lemma_first_match_unique(self.workspaces@, is_visible::<R>(), k as int);
                    }
                    found = Some(k);
                    break;
                }
                k += 1;
            }
            proof {
                if found is None {
                    lemma_first_match_none(m2.workspaces@, is_visible::<R>());
                }
            }
            if let Some(x) = found {
                self.focused_workspace = self.workspaces[x].id;
            }
        }
        proof {
            assert(outputs_dropped(m0, m1, removed_output_ids(m0.outputs@)));
            assert(reassigned_if_due(m1, m2, a0, alloc.next));
            assert(self.focused_workspace == visible_focus(m2));
        }
    }
}

} // verus!
