//! What reassignment guarantees: every connected output ends up showing
//! exactly one workspace, the assignment records agree with each other, a
//! remembered monitor gets its workspace back, and the result does not
//! depend on the previous assignment (so running it twice changes nothing).

use vstd::prelude::*;
use crate::assignment::{
    anything, assign, free_and, indices, output_key, pref_rank, recorded, connected_id_set, fresh, kept, reassigned, same_statics, unfilled, with_autos, connected_order, empty_placement, fallback_tier, first_free,
    increasing, lemma_first_index_bound, memory_tier, named_as, placement, preference_tier, remembered_for,
    strongest, Placement,
};
use crate::matching::spec_matches;
use crate::workspace::{
    is_connected, output_ids_distinct, same_but_active, Output, OutputId, Workspace, WorkspaceId,
    WorkspaceManager,
};

verus! {

/// The two records of a placement agree: a workspace is shown on an output
/// exactly when that output shows the workspace.
pub open spec fn consistent(p: Placement) -> bool {
    &&& forall|i: int| 0 <= i < p.ws_out.len() && (#[trigger] p.ws_out[i]) is Some ==> {
        let o = p.ws_out[i].unwrap();
        p.out_ws.contains_key(o.0) && p.out_ws[o.0].0 == i
    }
    &&& forall|k: u64| #[trigger] p.out_ws.contains_key(k) ==> {
        let i = p.out_ws[k].0 as int;
        0 <= i < p.ws_out.len() && p.ws_out[i] == Some(OutputId(k))
    }
}

/// `q` keeps every assignment that `p` made.
pub open spec fn extends(p: Placement, q: Placement) -> bool {
    &&& q.ws_out.len() == p.ws_out.len()
    &&& forall|i: int| 0 <= i < p.ws_out.len() && (#[trigger] p.ws_out[i]) is Some ==> q.ws_out[i] == p.ws_out[i]
    &&& forall|k: u64| #[trigger] p.out_ws.contains_key(k) ==> q.out_ws.contains_key(k) && q.out_ws[k] == p.out_ws[k]
}

/// Every output that `q` shows is one `p` shows, or is in `s`.
pub open spec fn keys_within(p: Placement, q: Placement, s: Set<u64>) -> bool {
    forall|k: u64| #[trigger] q.out_ws.contains_key(k) ==> p.out_ws.contains_key(k) || s.contains(k)
}

proof fn lemma_extends_trans(p: Placement, q: Placement, r: Placement)
    requires
        extends(p, q),
        extends(q, r),
    ensures
        extends(p, r),
{
    assert forall|i: int| 0 <= i < p.ws_out.len() && (#[trigger] p.ws_out[i]) is Some implies r.ws_out[i] == p.ws_out[i] by {
        assert(q.ws_out[i] == p.ws_out[i]);
    }
    assert forall|k: u64| #[trigger] p.out_ws.contains_key(k) implies r.out_ws.contains_key(k) && r.out_ws[k] == p.out_ws[k] by {
        assert(q.out_ws.contains_key(k));
    }
}

proof fn lemma_extends_refl(p: Placement)
    ensures
        extends(p, p),
{
}

proof fn lemma_assign(p: Placement, i: int, o: OutputId)
    requires
        consistent(p),
        0 <= i < p.ws_out.len() <= usize::MAX,
        p.ws_out[i] is None,
        !p.out_ws.contains_key(o.0),
    ensures
        consistent(assign(p, i, o)),
        extends(p, assign(p, i, o)),
        keys_within(p, assign(p, i, o), set![o.0]),
{
    let q = assign(p, i, o);
    assert forall|j: int| 0 <= j < q.ws_out.len() && (#[trigger] q.ws_out[j]) is Some implies {
        let x = q.ws_out[j].unwrap();
        q.out_ws.contains_key(x.0) && q.out_ws[x.0].0 == j
    } by {
        if j != i {
            let x = p.ws_out[j].unwrap();
            assert(p.out_ws.contains_key(x.0));
            assert(x.0 != o.0);
        }
    }
    assert forall|k: u64| #[trigger] q.out_ws.contains_key(k) implies {
        let j = q.out_ws[k].0 as int;
        0 <= j < q.ws_out.len() && q.ws_out[j] == Some(OutputId(k))
    } by {
        if k != o.0 {
            assert(p.out_ws.contains_key(k));
            let j = p.out_ws[k].0 as int;
            assert(j != i);
        }
    }
    assert forall|j: int| 0 <= j < p.ws_out.len() && (#[trigger] p.ws_out[j]) is Some implies q.ws_out[j] == p.ws_out[j] by {}
}

/// A step that assigns a workspace picked by `first_free` keeps the
/// placement consistent.
proof fn lemma_free_assign(p: Placement, ok: spec_fn(int) -> bool, o: OutputId)
    requires
        consistent(p),
        p.ws_out.len() <= usize::MAX,
        !p.out_ws.contains_key(o.0),
    ensures
        ({
            let q = match first_free(p, ok) {
                Some(i) => assign(p, i, o),
                None => p,
            };
            consistent(q) && extends(p, q) && keys_within(p, q, set![o.0])
        }),
{
    lemma_first_index_bound(p, ok);
    if let Some(i) = first_free(p, ok) {
        lemma_assign(p, i, o);
    }
}

proof fn lemma_memory_tier<R>(p: Placement, ws: Seq<Workspace<R>>, outs: Seq<Output>, mem: crate::monitor_memory::MonitorMemory, order: Seq<u64>)
    requires
        consistent(p),
        p.ws_out.len() <= usize::MAX,
        increasing(order),
        forall|j: int| 0 <= j < order.len() ==> !p.out_ws.contains_key(#[trigger] order[j]),
    ensures
        consistent(memory_tier(p, ws, outs, mem, order)),
        extends(p, memory_tier(p, ws, outs, mem, order)),
        keys_within(p, memory_tier(p, ws, outs, mem, order), order.to_set()),
    decreases order.len(),
{
    if order.len() > 0 {
        let d = order.drop_last();
        assert(increasing(d));
        lemma_memory_tier(p, ws, outs, mem, d);
        let q = memory_tier(p, ws, outs, mem, d);
        let oid = order.last();
        assert(!q.out_ws.contains_key(oid)) by {
            if q.out_ws.contains_key(oid) {
                assert(!p.out_ws.contains_key(order[order.len() - 1]));
                assert(d.to_set().contains(oid));
                let j = choose|j: int| 0 <= j < d.len() && d[j] == oid;
                assert(order[j] < order[order.len() - 1]);
            }
        }
        match remembered_for(outs, mem, oid) {
            Some(name) => lemma_free_assign(q, named_as(ws, name), OutputId(oid)),
            None => {},
        }
        let r = memory_tier(p, ws, outs, mem, order);
        lemma_extends_trans(p, q, r);
        assert forall|k: u64| #[trigger] r.out_ws.contains_key(k) implies p.out_ws.contains_key(k) || order.to_set().contains(k) by {
            if !q.out_ws.contains_key(k) {
                assert(k == oid);
                assert(order[order.len() - 1] == oid);
            } else if !p.out_ws.contains_key(k) {
                assert(d.to_set().contains(k));
                let j = choose|j: int| 0 <= j < d.len() && d[j] == k;
                assert(order[j] == k);
            }
        }
    }
}

proof fn lemma_preference_tier<R>(p: Placement, ws: Seq<Workspace<R>>, outs: Seq<Output>, order: Seq<u64>)
    requires
        consistent(p),
        p.ws_out.len() <= usize::MAX,
    ensures
        consistent(preference_tier(p, ws, outs, order)),
        extends(p, preference_tier(p, ws, outs, order)),
        keys_within(p, preference_tier(p, ws, outs, order), order.to_set()),
    decreases order.len(),
{
    if order.len() > 0 {
        let d = order.drop_last();
        lemma_preference_tier(p, ws, outs, d);
        let q = preference_tier(p, ws, outs, d);
        let oid = order.last();
        if !q.out_ws.contains_key(oid) {
            lemma_free_assign(q, strongest(q, ws, outs, oid), OutputId(oid));
        }
        let r = preference_tier(p, ws, outs, order);
        lemma_extends_trans(p, q, r);
        assert forall|k: u64| #[trigger] r.out_ws.contains_key(k) implies p.out_ws.contains_key(k) || order.to_set().contains(k) by {
            if !q.out_ws.contains_key(k) {
                assert(order[order.len() - 1] == k);
            } else if !p.out_ws.contains_key(k) {
                let j = choose|j: int| 0 <= j < d.len() && d[j] == k;
                assert(order[j] == k);
            }
        }
    }
}

proof fn lemma_fallback_tier(p: Placement, order: Seq<u64>)
    requires
        consistent(p),
        p.ws_out.len() <= usize::MAX,
    ensures
        consistent(fallback_tier(p, order)),
        extends(p, fallback_tier(p, order)),
        keys_within(p, fallback_tier(p, order), order.to_set()),
    decreases order.len(),
{
    if order.len() > 0 {
        let d = order.drop_last();
        lemma_fallback_tier(p, d);
        let q = fallback_tier(p, d);
        let oid = order.last();
        if !q.out_ws.contains_key(oid) {
            lemma_free_assign(q, anything(), OutputId(oid));
        }
        let r = fallback_tier(p, order);
        lemma_extends_trans(p, q, r);
        assert forall|k: u64| #[trigger] r.out_ws.contains_key(k) implies p.out_ws.contains_key(k) || order.to_set().contains(k) by {
            if !q.out_ws.contains_key(k) {
                assert(order[order.len() - 1] == k);
            } else if !p.out_ws.contains_key(k) {
                let j = choose|j: int| 0 <= j < d.len() && d[j] == k;
                assert(order[j] == k);
            }
        }
    }
}

/// The three tiers build a consistent placement that shows only outputs of
/// `order`.
pub proof fn lemma_placement_consistent<R>(ws: Seq<Workspace<R>>, outs: Seq<Output>, mem: crate::monitor_memory::MonitorMemory, order: Seq<u64>)
    requires
        ws.len() <= usize::MAX,
        increasing(order),
    ensures
        consistent(placement(ws, outs, mem, order)),
        placement(ws, outs, mem, order).ws_out.len() == ws.len(),
        forall|k: u64| #[trigger] placement(ws, outs, mem, order).out_ws.contains_key(k) ==> order.to_set().contains(k),
{
    let e = empty_placement(ws.len());
    assert(consistent(e));
    lemma_memory_tier(e, ws, outs, mem, order);
    let p1 = memory_tier(e, ws, outs, mem, order);
    lemma_preference_tier(p1, ws, outs, order);
    let p2 = preference_tier(p1, ws, outs, order);
    lemma_fallback_tier(p2, order);
    let p3 = fallback_tier(p2, order);
    lemma_extends_trans(e, p1, p2);
    lemma_extends_trans(e, p2, p3);
    assert forall|k: u64| #[trigger] p3.out_ws.contains_key(k) implies order.to_set().contains(k) by {
        if !p2.out_ws.contains_key(k) {
        } else if !p1.out_ws.contains_key(k) {
        } else {
            assert(!e.out_ws.contains_key(k));
        }
    }
}

proof fn lemma_unfilled_props(outs: Seq<Output>, m: Map<u64, WorkspaceId>)
    requires
        output_ids_distinct(outs),
    ensures
        forall|k: int| 0 <= k < unfilled(outs, m).len() ==> {
            &&& is_connected(#[trigger] unfilled(outs, m)[k])
            &&& !m.contains_key(unfilled(outs, m)[k].id.0)
            &&& exists|j: int| 0 <= j < outs.len() && outs[j] == unfilled(outs, m)[k]
        },
        forall|k1: int, k2: int| 0 <= k1 < k2 < unfilled(outs, m).len() ==>
            (#[trigger] unfilled(outs, m)[k1]).id != (#[trigger] unfilled(outs, m)[k2]).id,
        forall|j: int| 0 <= j < outs.len() && is_connected(#[trigger] outs[j]) && !m.contains_key(outs[j].id.0) ==>
            exists|k: int| 0 <= k < unfilled(outs, m).len() && unfilled(outs, m)[k] == outs[j],
    decreases outs.len(),
{
    if outs.len() > 0 {
        let d = outs.drop_last();
        assert(output_ids_distinct(d)) by {
            assert forall|x: int, y: int| 0 <= x < y < d.len() implies (#[trigger] d[x]).id != (#[trigger] d[y]).id by {
                assert(d[x] == outs[x] && d[y] == outs[y]);
            }
        }
        lemma_unfilled_props(d, m);
        let u = unfilled(outs, m);
        let ud = unfilled(d, m);
        let last = outs.last();
        assert forall|k: int| 0 <= k < u.len() implies {
            &&& is_connected(#[trigger] u[k])
            &&& !m.contains_key(u[k].id.0)
            &&& exists|j: int| 0 <= j < outs.len() && outs[j] == u[k]
        } by {
            if k < ud.len() {
                assert(u[k] == ud[k]);
                let j = choose|j: int| 0 <= j < d.len() && d[j] == ud[k];
                assert(outs[j] == d[j]);
            } else {
                assert(u[k] == last);
                assert(outs[outs.len() - 1] == last);
            }
        }
        assert forall|k1: int, k2: int| 0 <= k1 < k2 < u.len() implies (#[trigger] u[k1]).id != (#[trigger] u[k2]).id by {
            if k2 < ud.len() {
                assert(u[k1] == ud[k1] && u[k2] == ud[k2]);
            } else {
                assert(u[k1] == ud[k1]);
                let j = choose|j: int| 0 <= j < d.len() && d[j] == ud[k1];
                assert(outs[j] == d[j]);
                assert(u[k2] == outs[outs.len() - 1]);
            }
        }
        assert forall|j: int| 0 <= j < outs.len() && is_connected(#[trigger] outs[j]) && !m.contains_key(outs[j].id.0) implies
            exists|k: int| 0 <= k < u.len() && u[k] == outs[j] by {
            if j < d.len() {
                assert(d[j] == outs[j]);
                let k = choose|k: int| 0 <= k < ud.len() && ud[k] == d[j];
                assert(u[k] == ud[k]);
            } else {
                assert(u[u.len() - 1] == outs[j]);
            }
        }
    }
}

proof fn lemma_with_autos_value(m: Map<u64, WorkspaceId>, autos: Seq<Output>, n: int, x: u64)
    requires
        forall|k1: int, k2: int| 0 <= k1 < k2 < autos.len() ==> (#[trigger] autos[k1]).id != (#[trigger] autos[k2]).id,
        0 <= n,
        n + autos.len() <= usize::MAX,
    ensures
        with_autos(m, autos, n).contains_key(x) == (m.contains_key(x) || exists|k: int| 0 <= k < autos.len() && (#[trigger] autos[k]).id.0 == x),
        forall|k: int| 0 <= k < autos.len() && (#[trigger] autos[k]).id.0 == x ==> with_autos(m, autos, n)[x] == WorkspaceId((n + k) as usize),
        (forall|k: int| 0 <= k < autos.len() ==> (#[trigger] autos[k]).id.0 != x) && m.contains_key(x) ==> with_autos(m, autos, n)[x] == m[x],
    decreases autos.len(),
{
    if autos.len() > 0 {
        let d = autos.drop_last();
        lemma_with_autos_value(m, d, n, x);
        assert forall|k: int| 0 <= k < autos.len() && (#[trigger] autos[k]).id.0 == x implies with_autos(m, autos, n)[x] == WorkspaceId((n + k) as usize) by {
            if k < d.len() {
                assert(d[k] == autos[k]);
                assert(autos[autos.len() - 1].id != autos[k].id);
            }
        }
        if exists|k: int| 0 <= k < d.len() && (#[trigger] d[k]).id.0 == x {
            let k = choose|k: int| 0 <= k < d.len() && (#[trigger] d[k]).id.0 == x;
            assert(autos[k] == d[k]);
        }
        if exists|k: int| 0 <= k < autos.len() && (#[trigger] autos[k]).id.0 == x {
            let k = choose|k: int| 0 <= k < autos.len() && (#[trigger] autos[k]).id.0 == x;
            if k < d.len() {
                assert(d[k] == autos[k]);
            }
        }
        if forall|k: int| 0 <= k < autos.len() ==> (#[trigger] autos[k]).id.0 != x {
            assert forall|k: int| 0 <= k < d.len() implies (#[trigger] d[k]).id.0 != x by {
                assert(d[k] == autos[k]);
            }
            assert(autos[autos.len() - 1].id.0 != x);
        }
    }
}

/// The final records of a reassignment agree, given the placement and the
/// workspaces created after it.
proof fn lemma_final_records(p: Placement, autos: Seq<Output>, n: int, act: Seq<Option<OutputId>>, m: Map<u64, WorkspaceId>)
    requires
        consistent(p),
        p.ws_out.len() == n,
        act.len() == n + autos.len(),
        n + autos.len() <= usize::MAX,
        forall|i: int| 0 <= i < n ==> #[trigger] act[i] == p.ws_out[i],
        forall|k: int| 0 <= k < autos.len() ==> act[n + k] == Some((#[trigger] autos[k]).id),
        forall|k1: int, k2: int| 0 <= k1 < k2 < autos.len() ==> (#[trigger] autos[k1]).id != (#[trigger] autos[k2]).id,
        forall|k: int| 0 <= k < autos.len() ==> !p.out_ws.contains_key((#[trigger] autos[k]).id.0),
        m == with_autos(p.out_ws, autos, n),
    ensures
        forall|i: int| 0 <= i < act.len() && (#[trigger] act[i]) is Some ==> {
            let o = act[i].unwrap();
            m.contains_key(o.0) && m[o.0].0 == i
        },
        forall|k: u64| #[trigger] m.contains_key(k) ==> {
            let i = m[k].0 as int;
            0 <= i < act.len() && act[i] == Some(OutputId(k))
        },
{
    assert forall|i: int| 0 <= i < act.len() && (#[trigger] act[i]) is Some implies {
        let o = act[i].unwrap();
        m.contains_key(o.0) && m[o.0].0 == i
    } by {
        let o = act[i].unwrap();
        lemma_with_autos_value(p.out_ws, autos, n, o.0);
        if i < n {
            assert(p.ws_out[i] == Some(o));
            assert(p.out_ws.contains_key(o.0));
            assert forall|k: int| 0 <= k < autos.len() implies (#[trigger] autos[k]).id.0 != o.0 by {}
        } else {
            let k = i - n;
            assert(act[n + k] == Some(autos[k].id));
        }
    }
    assert forall|x: u64| #[trigger] m.contains_key(x) implies {
        let i = m[x].0 as int;
        0 <= i < act.len() && act[i] == Some(OutputId(x))
    } by {
        lemma_with_autos_value(p.out_ws, autos, n, x);
        if exists|k: int| 0 <= k < autos.len() && (#[trigger] autos[k]).id.0 == x {
            let k = choose|k: int| 0 <= k < autos.len() && (#[trigger] autos[k]).id.0 == x;
            assert(act[n + k] == Some(autos[k].id));
        } else {
            assert(p.out_ws.contains_key(x));
            let i = p.out_ws[x].0 as int;
            assert(act[i] == p.ws_out[i]);
        }
    }
}

/// After reassignment the two records agree: a workspace is shown on an
/// output exactly when that output shows it (so no output shows two
/// workspaces and no workspace is on two outputs); and the outputs that show
/// a workspace are exactly the connected ones.
pub proof fn law_reassign_consistent<R>(a: WorkspaceManager<R>, b: WorkspaceManager<R>, next0: u64, next1: u64)
    requires
        a.wf(),
        reassigned(a, b, next0, next1),
        b.workspaces@.len() <= usize::MAX,
    ensures
        forall|i: int| 0 <= i < b.workspaces@.len() && (#[trigger] b.workspaces@[i]).active_output is Some ==> {
            let o = b.workspaces@[i].active_output.unwrap();
            b.output_workspace@.contains_key(o.0) && b.output_workspace@[o.0].0 == i
        },
        forall|k: u64| #[trigger] b.output_workspace@.contains_key(k) ==> {
            let i = b.output_workspace@[k].0 as int;
            0 <= i < b.workspaces@.len() && b.workspaces@[i].active_output == Some(OutputId(k))
        },
        forall|k: u64| #[trigger] b.output_workspace@.contains_key(k) == connected_id_set(a.outputs@).contains(k),
{
    let kw = fresh(kept(a.workspaces@));
    let n = kw.len() as int;
    let order = connected_order(a.outputs@);
    let p = placement(kw, a.outputs@, a.monitor_memory, order);
    let autos = unfilled(a.outputs@, p.out_ws);
    let outs = a.outputs@;
    let m = b.output_workspace@;
    let act = b.workspaces@.map_values(|w: Workspace<R>| w.active_output);
    lemma_placement_consistent(kw, outs, a.monitor_memory, order);
    lemma_unfilled_props(outs, p.out_ws);
    assert forall|k: int| 0 <= k < autos.len() implies act[n + k] == Some((#[trigger] autos[k]).id) by {
        assert(crate::assignment::auto_workspace(b.workspaces@[n + k], n + k, autos[k], crate::workspace::bump_n(next0, k as nat)));
    }
    assert forall|i: int| 0 <= i < n implies #[trigger] act[i] == p.ws_out[i] by {}
    lemma_final_records(p, autos, n, act, m);
    assert forall|i: int| 0 <= i < b.workspaces@.len() && (#[trigger] b.workspaces@[i]).active_output is Some implies {
        let o = b.workspaces@[i].active_output.unwrap();
        m.contains_key(o.0) && m[o.0].0 == i
    } by {
        assert(act[i] == b.workspaces@[i].active_output);
    }
    assert forall|x: u64| #[trigger] m.contains_key(x) == connected_id_set(outs).contains(x) by {
        lemma_with_autos_value(p.out_ws, autos, n, x);
        if m.contains_key(x) {
            if exists|k: int| 0 <= k < autos.len() && (#[trigger] autos[k]).id.0 == x {
                let k = choose|k: int| 0 <= k < autos.len() && (#[trigger] autos[k]).id.0 == x;
                let j = choose|j: int| 0 <= j < outs.len() && outs[j] == autos[k];
                assert(is_connected(outs[j]));
            } else {
                assert(order.to_set().contains(x));
            }
        }
        if connected_id_set(outs).contains(x) {
            let j = choose|j: int| 0 <= j < outs.len() && is_connected(#[trigger] outs[j]) && outs[j].id.0 == x;
            if !p.out_ws.contains_key(x) {
                let k = choose|k: int| 0 <= k < autos.len() && autos[k] == outs[j];
                assert(autos[k].id.0 == x);
            }
        }
    }
}

proof fn lemma_kept_prefix<R>(s: Seq<Workspace<R>>, n: int)
    requires
        0 <= n <= s.len(),
        forall|i: int| 0 <= i < n ==> !(#[trigger] s[i]).auto_created,
        forall|i: int| n <= i < s.len() ==> (#[trigger] s[i]).auto_created,
    ensures
        kept(s) == s.take(n),
    decreases s.len(),
{
    if s.len() > 0 {
        let d = s.drop_last();
        if s.len() > n {
            assert(s[s.len() - 1].auto_created);
            assert forall|i: int| n <= i < d.len() implies (#[trigger] d[i]).auto_created by {
                assert(d[i] == s[i]);
            }
            lemma_kept_prefix(d, n);
            assert(d.take(n) =~= s.take(n));
        } else {
            assert(!s[s.len() - 1].auto_created);
            lemma_kept_prefix(d, n - 1);
            assert(d.take(n - 1).push(s.last()) =~= s.take(n));
        }
    } else {
        assert(s.take(n) =~= s);
    }
}

proof fn lemma_kept_same_statics<R>(x: Seq<Workspace<R>>, y: Seq<Workspace<R>>)
    requires
        same_statics(x, y),
    ensures
        same_statics(kept(x), kept(y)),
    decreases x.len(),
{
    if x.len() > 0 {
        let dx = x.drop_last();
        let dy = y.drop_last();
        assert(same_statics(dx, dy)) by {
            assert forall|i: int| 0 <= i < dx.len() implies same_but_active(#[trigger] dx[i], dy[i]) by {
                assert(dx[i] == x[i] && dy[i] == y[i]);
            }
        }
        lemma_kept_same_statics(dx, dy);
        assert(same_but_active(x[x.len() - 1], y[y.len() - 1]));
        if !x.last().auto_created {
            let kx = kept(x);
            let ky = kept(y);
            assert forall|i: int| 0 <= i < kx.len() implies same_but_active(#[trigger] kx[i], ky[i]) by {
                if i < kept(dx).len() {
                    assert(kx[i] == kept(dx)[i] && ky[i] == kept(dy)[i]);
                }
            }
        }
    }
}

proof fn lemma_fresh_same_statics<R>(x: Seq<Workspace<R>>, y: Seq<Workspace<R>>)
    requires
        same_statics(x, y),
    ensures
        fresh(x) == fresh(y),
{
    assert forall|i: int| 0 <= i < x.len() implies #[trigger] fresh(x)[i] == fresh(y)[i] by {
        assert(same_but_active(x[i], y[i]));
    }
    assert(fresh(x) =~= fresh(y));
}

/// What a reassignment keeps as configured workspaces is what it started
/// from.
proof fn lemma_rekept<R>(a: WorkspaceManager<R>, b: WorkspaceManager<R>, next0: u64, next1: u64)
    requires
        reassigned(a, b, next0, next1),
    ensures
        fresh(kept(b.workspaces@)) == fresh(kept(a.workspaces@)),
{
    let kw = fresh(kept(a.workspaces@));
    let n = kw.len() as int;
    let p = placement(kw, a.outputs@, a.monitor_memory, connected_order(a.outputs@));
    let autos = unfilled(a.outputs@, p.out_ws);
    let bw = b.workspaces@;
    assert forall|i: int| n <= i < bw.len() implies (#[trigger] bw[i]).auto_created by {
        let k = i - n;
        assert(crate::assignment::auto_workspace(bw[n + k], n + k, autos[k], crate::workspace::bump_n(next0, k as nat)));
    }
    assert forall|i: int| 0 <= i < n implies !(#[trigger] bw[i]).auto_created by {
        assert(same_but_active(bw[i], kw[i]));
        assert(kept(a.workspaces@)[i].auto_created == kw[i].auto_created);
        lemma_kept_not_auto(a.workspaces@, i);
    }
    lemma_kept_prefix(bw, n);
    assert forall|i: int| 0 <= i < n implies #[trigger] fresh(bw.take(n))[i] == kw[i] by {
        assert(same_but_active(bw[i], kw[i]));
    }
    assert(fresh(bw.take(n)) =~= kw);
}

proof fn lemma_kept_not_auto<R>(ws: Seq<Workspace<R>>, i: int)
    requires
        0 <= i < kept(ws).len(),
    ensures
        !kept(ws)[i].auto_created,
    decreases ws.len(),
{
    let d = ws.drop_last();
    if ws.last().auto_created || i < kept(d).len() {
        lemma_kept_not_auto(d, i);
    }
}

// ── Placing again with the placements remembered ──────────────────────────

/// No two of the workspaces share a name.
pub open spec fn names_distinct<R>(ws: Seq<Workspace<R>>) -> bool {
    forall|i: int, j: int| 0 <= i < j < ws.len() ==> (#[trigger] ws[i]).name@ != (#[trigger] ws[j]).name@
}

/// No two connected outputs share a monitor key.
pub open spec fn monitor_keys_distinct(outs: Seq<Output>) -> bool {
    forall|x: u64, y: u64|
        x != y && connected_id_set(outs).contains(x) && connected_id_set(outs).contains(y)
            && (#[trigger] output_key(outs, x)) is Some ==> output_key(outs, x) != #[trigger] output_key(outs, y)
}

/// A placement step on output `o`: the first hidden workspace that
/// satisfies `ok`, if any.
pub open spec fn pick(c: Placement, ok: spec_fn(int) -> bool, o: OutputId) -> Placement {
    match first_free(c, ok) {
        Some(i) => assign(c, i, o),
        None => c,
    }
}

/// `c1` lies on the way to `p`, and `c2` between the two.
pub open spec fn between(c1: Placement, c2: Placement, p: Placement) -> bool {
    &&& consistent(c1)
    &&& consistent(c2)
    &&& consistent(p)
    &&& extends(c1, c2)
    &&& extends(c2, p)
    &&& p.ws_out.len() <= usize::MAX
}

proof fn lemma_first_free(c: Placement, ok: spec_fn(int) -> bool)
    ensures
        match first_free(c, ok) {
            Some(i) => {
                &&& 0 <= i < c.ws_out.len()
                &&& c.ws_out[i] is None
                &&& ok(i)
                &&& forall|j: int| 0 <= j < i && (#[trigger] c.ws_out[j]) is None ==> !ok(j)
            },
            None => forall|j: int| 0 <= j < c.ws_out.len() && (#[trigger] c.ws_out[j]) is None ==> !ok(j),
        },
{
    let s = indices(c.ws_out.len());
    crate::seqs::lemma_first_match(s, free_and(c, ok));
    match first_free(c, ok) {
        Some(i) => {
            assert(s[i] == i);
            assert forall|j: int| 0 <= j < i && (#[trigger] c.ws_out[j]) is None implies !ok(j) by {
                assert(s[j] == j);
                assert(!free_and(c, ok)(s[j]));
            }
        },
        None => {
            assert forall|j: int| 0 <= j < c.ws_out.len() && (#[trigger] c.ws_out[j]) is None implies !ok(j) by {
                assert(s[j] == j);
                assert(!free_and(c, ok)(s[j]));
            }
        },
    }
}

/// A workspace that `p` shows on `o` is hidden in `c2` when `c2` (on the way
/// to `p`) does not show `o`.
proof fn lemma_free_in_between(c2: Placement, p: Placement, i: int, o: u64)
    requires
        consistent(c2),
        consistent(p),
        extends(c2, p),
        0 <= i < p.ws_out.len(),
        p.ws_out[i] == Some(OutputId(o)),
        !c2.out_ws.contains_key(o),
    ensures
        c2.ws_out[i] is None,
{
    if c2.ws_out[i] is Some {
        let x = c2.ws_out[i].unwrap();
        assert(p.ws_out[i] == c2.ws_out[i]);
        assert(c2.out_ws.contains_key(x.0));
    }
}

proof fn lemma_extends_assign(q1: Placement, q2: Placement, i: int, o: OutputId)
    requires
        extends(q1, q2),
        0 <= i < q1.ws_out.len(),
    ensures
        extends(assign(q1, i, o), assign(q2, i, o)),
{
    let r1 = assign(q1, i, o);
    let r2 = assign(q2, i, o);
    assert forall|j: int| 0 <= j < r1.ws_out.len() && (#[trigger] r1.ws_out[j]) is Some implies r2.ws_out[j] == r1.ws_out[j] by {
        if j != i {
            assert(q1.ws_out[j] is Some);
        }
    }
    assert forall|k: u64| #[trigger] r1.out_ws.contains_key(k) implies r2.out_ws.contains_key(k) && r2.out_ws[k] == r1.out_ws[k] by {
        if k != o.0 {
            assert(q1.out_ws.contains_key(k));
        }
    }
}

/// Assigning in `q1` what `q2` already holds keeps `q2` ahead.
proof fn lemma_assign_within(q1: Placement, q2: Placement, i: int, o: OutputId)
    requires
        extends(q1, q2),
        0 <= i < q1.ws_out.len(),
        q2.ws_out[i] == Some(o),
        q2.out_ws.contains_key(o.0),
        q2.out_ws[o.0] == WorkspaceId(i as usize),
    ensures
        extends(assign(q1, i, o), q2),
{
    let r1 = assign(q1, i, o);
    assert forall|j: int| 0 <= j < r1.ws_out.len() && (#[trigger] r1.ws_out[j]) is Some implies q2.ws_out[j] == r1.ws_out[j] by {
        if j != i {
            assert(q1.ws_out[j] is Some);
        }
    }
    assert forall|k: u64| #[trigger] r1.out_ws.contains_key(k) implies q2.out_ws.contains_key(k) && q2.out_ws[k] == r1.out_ws[k] by {
        if k != o.0 {
            assert(q1.out_ws.contains_key(k));
        }
    }
}

/// Both runs assign workspace `i`, which `p` shows on `o`: they stay in
/// order.
proof fn lemma_between_both_assign(c1: Placement, c2: Placement, p: Placement, i: int, o: u64)
    requires
        between(c1, c2, p),
        0 <= i < p.ws_out.len(),
        p.ws_out[i] == Some(OutputId(o)),
        c2.ws_out[i] is None,
        c1.ws_out[i] is None,
        !c2.out_ws.contains_key(o),
        !c1.out_ws.contains_key(o),
        consistent(assign(c1, i, OutputId(o))),
    ensures
        between(assign(c1, i, OutputId(o)), assign(c2, i, OutputId(o)), p),
{
    lemma_assign(c2, i, OutputId(o));
    lemma_extends_assign(c1, c2, i, OutputId(o));
    assert(p.out_ws.contains_key(o) && p.out_ws[o].0 == i);
    assert(p.out_ws[o] == WorkspaceId(i as usize));
    lemma_assign_within(c2, p, i, OutputId(o));
}

/// One step with the same test in both runs keeps them in order.
proof fn lemma_between_pick(c1: Placement, c2: Placement, p: Placement, ok: spec_fn(int) -> bool, o: u64)
    requires
        between(c1, c2, p),
        !c2.out_ws.contains_key(o),
        extends(pick(c1, ok, OutputId(o)), p),
    ensures
        between(pick(c1, ok, OutputId(o)), pick(c2, ok, OutputId(o)), p),
{
    assert(!c1.out_ws.contains_key(o));
    lemma_first_free(c1, ok);
    lemma_first_free(c2, ok);
    lemma_free_assign(c1, ok, OutputId(o));
    match first_free(c1, ok) {
        Some(i) => {
            let q1 = assign(c1, i, OutputId(o));
            assert(q1.ws_out[i] == Some(OutputId(o)));
            assert(p.ws_out[i] == Some(OutputId(o)));
            lemma_free_in_between(c2, p, i, o);
            let j = first_free(c2, ok).unwrap();
            if j != i {
                if c1.ws_out[j] is Some {
                    assert(c2.ws_out[j] == c1.ws_out[j]);
                }
                assert(j < i);
            }
            lemma_between_both_assign(c1, c2, p, i, o);
        },
        None => {
            if let Some(j) = first_free(c2, ok) {
                if c1.ws_out[j] is Some {
                    assert(c2.ws_out[j] == c1.ws_out[j]);
                }
            }
        },
    }
}

proof fn lemma_rank_nonneg<R>(ws: Seq<Workspace<R>>, outs: Seq<Output>, i: int, o: u64)
    ensures
        pref_rank(ws, outs, i, o) matches Some(r) ==> r >= 0,
{
    if 0 <= i < ws.len() {
        crate::seqs::lemma_first_match(ws[i].preferred_output@, spec_matches(outs));
    }
}

pub open spec fn rank_measure<R>(ws: Seq<Workspace<R>>, outs: Seq<Output>, j: int, o: u64) -> nat {
    match pref_rank(ws, outs, j, o) {
        Some(r) => if r >= 0 { r as nat } else { 0 },
        None => 0,
    }
}

/// Among hidden workspaces, one preferring `o` means a strongest one.
proof fn lemma_strongest_exists<R>(c: Placement, ws: Seq<Workspace<R>>, outs: Seq<Output>, o: u64, j: int)
    requires
        0 <= j < c.ws_out.len(),
        c.ws_out[j] is None,
        pref_rank(ws, outs, j, o) is Some,
    ensures
        exists|k: int| 0 <= k < c.ws_out.len() && #[trigger] c.ws_out[k] is None && strongest(c, ws, outs, o)(k),
    decreases rank_measure(ws, outs, j, o),
{
    lemma_rank_nonneg(ws, outs, j, o);
    let rj = pref_rank(ws, outs, j, o).unwrap();
    if strongest(c, ws, outs, o)(j) {
        assert(c.ws_out[j] is None);
    } else {
        let k = choose|k: int| 0 <= k < c.ws_out.len() && c.ws_out[k] is None && #[trigger] pref_rank(ws, outs, k, o) is Some
            && !(rj <= pref_rank(ws, outs, k, o).unwrap());
        lemma_rank_nonneg(ws, outs, k, o);
        lemma_strongest_exists(c, ws, outs, o, k);
    }
}

/// One preference step keeps the two runs in order.
proof fn lemma_between_strongest<R>(c1: Placement, c2: Placement, p: Placement, ws: Seq<Workspace<R>>, outs: Seq<Output>, o: u64)
    requires
        between(c1, c2, p),
        !c2.out_ws.contains_key(o),
        extends(pick(c1, strongest(c1, ws, outs, o), OutputId(o)), p),
    ensures
        between(pick(c1, strongest(c1, ws, outs, o), OutputId(o)), pick(c2, strongest(c2, ws, outs, o), OutputId(o)), p),
{
    let s1 = strongest(c1, ws, outs, o);
    let s2 = strongest(c2, ws, outs, o);
    assert(!c1.out_ws.contains_key(o));
    lemma_first_free(c1, s1);
    lemma_first_free(c2, s2);
    lemma_free_assign(c1, s1, OutputId(o));
    match first_free(c1, s1) {
        Some(i) => {
            let q1 = assign(c1, i, OutputId(o));
            assert(q1.ws_out[i] == Some(OutputId(o)));
            assert(p.ws_out[i] == Some(OutputId(o)));
            lemma_free_in_between(c2, p, i, o);
            let r = pref_rank(ws, outs, i, o).unwrap();
            assert(s2(i)) by {
                assert forall|j: int| 0 <= j < c2.ws_out.len() && c2.ws_out[j] is None && #[trigger] pref_rank(ws, outs, j, o) is Some
                    implies r <= pref_rank(ws, outs, j, o).unwrap() by {
                    if c1.ws_out[j] is Some {
                        assert(c2.ws_out[j] == c1.ws_out[j]);
                    }
                }
            }
            let j = first_free(c2, s2).unwrap();
            if j != i {
                assert(j < i);
                if c1.ws_out[j] is Some {
                    assert(c2.ws_out[j] == c1.ws_out[j]);
                }
                let rj = pref_rank(ws, outs, j, o).unwrap();
                assert(rj <= r);
                assert(r <= rj);
                assert(s1(j)) by {
                    assert forall|k: int| 0 <= k < c1.ws_out.len() && c1.ws_out[k] is None && #[trigger] pref_rank(ws, outs, k, o) is Some
                        implies rj <= pref_rank(ws, outs, k, o).unwrap() by {
                        assert(r <= pref_rank(ws, outs, k, o).unwrap());
                    }
                }
            }
            lemma_between_both_assign(c1, c2, p, i, o);
        },
        None => {
            if let Some(j) = first_free(c2, s2) {
                if c1.ws_out[j] is Some {
                    assert(c2.ws_out[j] == c1.ws_out[j]);
                }
                lemma_strongest_exists(c1, ws, outs, o, j);
                let k = choose|k: int| 0 <= k < c1.ws_out.len() && #[trigger] c1.ws_out[k] is None && s1(k);
                assert(!s1(k));
            }
        },
    }
}

/// A step of the later tiers on an output that the second run already
/// placed leaves that run as it is and keeps the first behind it.
proof fn lemma_between_placed(c1: Placement, c2: Placement, p: Placement, ok: spec_fn(int) -> bool, o: u64)
    requires
        between(c1, c2, p),
        c2.out_ws.contains_key(o),
        !c1.out_ws.contains_key(o),
        extends(pick(c1, ok, OutputId(o)), p),
    ensures
        between(pick(c1, ok, OutputId(o)), c2, p),
{
    lemma_first_free(c1, ok);
    lemma_free_assign(c1, ok, OutputId(o));
    if let Some(i) = first_free(c1, ok) {
        let q1 = assign(c1, i, OutputId(o));
        assert(pick(c1, ok, OutputId(o)) == q1);
        assert(q1.out_ws.contains_key(o));
        assert(q1.out_ws[o] == WorkspaceId(i as usize));
        assert(p.out_ws[o] == WorkspaceId(i as usize));
        assert(c2.out_ws[o] == p.out_ws[o]);
        assert(c2.ws_out[i] == Some(OutputId(o)));
        lemma_assign_within(c1, c2, i, OutputId(o));
    }
}

proof fn lemma_between_fallback(c1: Placement, c2: Placement, p: Placement, order: Seq<u64>)
    requires
        between(c1, c2, p),
        extends(fallback_tier(c1, order), p),
    ensures
        between(fallback_tier(c1, order), fallback_tier(c2, order), p),
    decreases order.len(),
{
    if order.len() > 0 {
        let d = order.drop_last();
        let o = order.last();
        lemma_fallback_tier(c1, d);
        let q1 = fallback_tier(c1, d);
        if !q1.out_ws.contains_key(o) {
            lemma_free_assign(q1, anything(), OutputId(o));
        }
        lemma_extends_trans(q1, fallback_tier(c1, order), p);
        lemma_between_fallback(c1, c2, p, d);
        let q2 = fallback_tier(c2, d);
        if q2.out_ws.contains_key(o) {
            if !q1.out_ws.contains_key(o) {
                lemma_between_placed(q1, q2, p, anything(), o);
            }
        } else {
            lemma_between_pick(q1, q2, p, anything(), o);
        }
    }
}

proof fn lemma_between_preference<R>(c1: Placement, c2: Placement, p: Placement, ws: Seq<Workspace<R>>, outs: Seq<Output>, order: Seq<u64>)
    requires
        between(c1, c2, p),
        extends(preference_tier(c1, ws, outs, order), p),
    ensures
        between(preference_tier(c1, ws, outs, order), preference_tier(c2, ws, outs, order), p),
    decreases order.len(),
{
    if order.len() > 0 {
        let d = order.drop_last();
        let o = order.last();
        lemma_preference_tier(c1, ws, outs, d);
        let q1 = preference_tier(c1, ws, outs, d);
        if !q1.out_ws.contains_key(o) {
            lemma_free_assign(q1, strongest(q1, ws, outs, o), OutputId(o));
        }
        lemma_extends_trans(q1, preference_tier(c1, ws, outs, order), p);
        lemma_between_preference(c1, c2, p, ws, outs, d);
        let q2 = preference_tier(c2, ws, outs, d);
        if q2.out_ws.contains_key(o) {
            if !q1.out_ws.contains_key(o) {
                lemma_between_placed(q1, q2, p, strongest(q1, ws, outs, o), o);
            }
        } else {
            lemma_between_strongest(q1, q2, p, ws, outs, o);
        }
    }
}

/// What the second memory remembers for output `oid`: the name of the
/// workspace `p` shows there, for a keyed output that `p` shows; otherwise
/// what the first memory remembers.
pub open spec fn remembers_placement<R>(p: Placement, ws: Seq<Workspace<R>>, outs: Seq<Output>, m1: crate::monitor_memory::MonitorMemory, m2: crate::monitor_memory::MonitorMemory, oid: u64) -> bool {
    remembered_for(outs, m2, oid) == if output_key(outs, oid) is Some && p.out_ws.contains_key(oid) {
        Some(ws[p.out_ws[oid].0 as int].name@)
    } else {
        remembered_for(outs, m1, oid)
    }
}

proof fn lemma_between_memory<R>(
    c1: Placement,
    c2: Placement,
    p: Placement,
    ws: Seq<Workspace<R>>,
    outs: Seq<Output>,
    m1: crate::monitor_memory::MonitorMemory,
    m2: crate::monitor_memory::MonitorMemory,
    order: Seq<u64>,
)
    requires
        between(c1, c2, p),
        p.ws_out.len() == ws.len(),
        names_distinct(ws),
        increasing(order),
        forall|j: int| 0 <= j < order.len() ==> !c2.out_ws.contains_key(#[trigger] order[j]),
        forall|j: int| 0 <= j < order.len() ==> remembers_placement(p, ws, outs, m1, m2, #[trigger] order[j]),
        extends(memory_tier(c1, ws, outs, m1, order), p),
    ensures
        between(memory_tier(c1, ws, outs, m1, order), memory_tier(c2, ws, outs, m2, order), p),
    decreases order.len(),
{
    if order.len() > 0 {
        let d = order.drop_last();
        let o = order.last();
        assert(increasing(d));
        assert forall|j: int| 0 <= j < d.len() implies !c2.out_ws.contains_key(#[trigger] d[j]) by {
            assert(d[j] == order[j]);
        }
        assert forall|j: int| 0 <= j < d.len() implies remembers_placement(p, ws, outs, m1, m2, #[trigger] d[j]) by {
            assert(d[j] == order[j]);
        }
        assert forall|j: int| 0 <= j < d.len() implies !c1.out_ws.contains_key(#[trigger] d[j]) by {
            assert(d[j] == order[j]);
            if c1.out_ws.contains_key(d[j]) {
                assert(c2.out_ws.contains_key(d[j]));
            }
        }
        lemma_memory_tier(c1, ws, outs, m1, d);
        lemma_memory_tier(c2, ws, outs, m2, d);
        let q1 = memory_tier(c1, ws, outs, m1, d);
        let q2 = memory_tier(c2, ws, outs, m2, d);
        assert(!order.drop_last().contains(o)) by {
            if d.contains(o) {
                let j = choose|j: int| 0 <= j < d.len() && d[j] == o;
                assert(order[j] < order[order.len() - 1]);
            }
        }
        assert(!c2.out_ws.contains_key(order[order.len() - 1]));
        assert(!q2.out_ws.contains_key(o)) by {
            if q2.out_ws.contains_key(o) {
                assert(d.to_set().contains(o));
            }
        }
        assert(!q1.out_ws.contains_key(o)) by {
            assert(!c1.out_ws.contains_key(o)) by {
                if c1.out_ws.contains_key(o) {
                    assert(c2.out_ws.contains_key(o));
                }
            }
            if q1.out_ws.contains_key(o) {
                assert(d.to_set().contains(o));
            }
        }
        match remembered_for(outs, m1, o) {
            Some(name) => lemma_free_assign(q1, named_as(ws, name), OutputId(o)),
            None => {},
        }
        lemma_extends_trans(q1, memory_tier(c1, ws, outs, m1, order), p);
        lemma_between_memory(c1, c2, p, ws, outs, m1, m2, d);
        assert(remembers_placement(p, ws, outs, m1, m2, order[order.len() - 1]));
        if output_key(outs, o) is Some && p.out_ws.contains_key(o) {
            let i = p.out_ws[o].0 as int;
            assert(p.ws_out[i] == Some(OutputId(o)));
            lemma_free_in_between(q2, p, i, o);
            let name = ws[i].name@;
            let ok = named_as(ws, name);
            lemma_first_free(q2, ok);
            assert(ok(i));
            let j = first_free(q2, ok).unwrap();
            if j != i {
                if j < i {
                    assert(ws[j].name@ != ws[i].name@);
                } else {
                    assert(ws[i].name@ != ws[j].name@);
                }
            }
            let r1 = memory_tier(c1, ws, outs, m1, order);
            if r1 == q1 {
                lemma_assign(q2, i, OutputId(o));
                assert(extends(q2, assign(q2, i, OutputId(o))));
                lemma_extends_trans(q1, q2, assign(q2, i, OutputId(o)));
                assert(p.out_ws[o] == WorkspaceId(i as usize));
                lemma_assign_within(q2, p, i, OutputId(o));
            } else {
                let k = first_free(q1, named_as(ws, remembered_for(outs, m1, o).unwrap())).unwrap();
                lemma_first_free(q1, named_as(ws, remembered_for(outs, m1, o).unwrap()));
                assert(r1 == assign(q1, k, OutputId(o)));
                assert(r1.out_ws.contains_key(o));
                assert(r1.out_ws[o] == WorkspaceId(k as usize));
                assert(p.out_ws[o] == r1.out_ws[o]);
                assert(k == i);
                lemma_between_both_assign(q1, q2, p, i, o);
            }
        } else {
            match remembered_for(outs, m1, o) {
                Some(name) => lemma_between_pick(q1, q2, p, named_as(ws, name), o),
                None => {},
            }
        }
    }
}

/// Placing with a memory that remembers the placement made with another
/// memory gives that placement again (workspace names being distinct).
proof fn lemma_placement_remembered<R>(
    ws: Seq<Workspace<R>>,
    outs: Seq<Output>,
    m1: crate::monitor_memory::MonitorMemory,
    m2: crate::monitor_memory::MonitorMemory,
    order: Seq<u64>,
)
    requires
        ws.len() <= usize::MAX,
        increasing(order),
        names_distinct(ws),
        forall|j: int| 0 <= j < order.len() ==> remembers_placement(placement(ws, outs, m1, order), ws, outs, m1, m2, #[trigger] order[j]),
    ensures
        placement(ws, outs, m2, order) == placement(ws, outs, m1, order),
{
    let p = placement(ws, outs, m1, order);
    let e = empty_placement(ws.len());
    assert(consistent(e));
    lemma_placement_consistent(ws, outs, m1, order);
    lemma_memory_tier(e, ws, outs, m1, order);
    let p1 = memory_tier(e, ws, outs, m1, order);
    lemma_preference_tier(p1, ws, outs, order);
    let p2 = preference_tier(p1, ws, outs, order);
    lemma_fallback_tier(p2, order);
    lemma_extends_trans(p1, p2, p);
    lemma_extends_trans(e, p1, p);
    lemma_extends_refl(e);
    lemma_extends_refl(p);
    lemma_between_memory(e, e, p, ws, outs, m1, m2, order);
    let r1 = memory_tier(e, ws, outs, m2, order);
    lemma_between_preference(p1, r1, p, ws, outs, order);
    let r2 = preference_tier(r1, ws, outs, order);
    lemma_between_fallback(p2, r2, p, order);
    let q = placement(ws, outs, m2, order);
    assert(q.ws_out =~= p.ws_out) by {
        assert forall|i: int| 0 <= i < p.ws_out.len() implies q.ws_out[i] == p.ws_out[i] by {
            if p.ws_out[i] is None && q.ws_out[i] is Some {
                assert(p.ws_out[i] == q.ws_out[i]);
            }
        }
    }
    assert(q.out_ws =~= p.out_ws) by {
        assert forall|k: u64| #[trigger] q.out_ws.contains_key(k) implies p.out_ws.contains_key(k) by {}
        assert forall|k: u64| #[trigger] p.out_ws.contains_key(k) implies q.out_ws.contains_key(k) by {}
    }
}

/// What the recording leaves under the key of output `oid`, when no other
/// output of `order` has that key: the name of the workspace `oid` shows,
/// else what the memory held.
proof fn lemma_recorded_at<R>(
    mem: crate::monitor_memory::MonitorMemory,
    ws: Seq<Workspace<R>>,
    outs: Seq<Output>,
    shown: Map<u64, WorkspaceId>,
    order: Seq<u64>,
    oid: u64,
    key: Seq<char>,
)
    requires
        output_key(outs, oid) == Some(key),
        forall|j: int| 0 <= j < order.len() && order[j] != oid ==> #[trigger] output_key(outs, order[j]) != Some(key),
        shown.contains_key(oid) ==> shown[oid].0 < ws.len(),
    ensures
        recorded(mem, ws, outs, shown, order, key) == if order.contains(oid) && shown.contains_key(oid) {
            Some(ws[shown[oid].0 as int].name@)
        } else {
            mem.remembered(key)
        },
    decreases order.len(),
{
    if order.len() > 0 {
        let d = order.drop_last();
        assert forall|j: int| 0 <= j < d.len() && d[j] != oid implies #[trigger] output_key(outs, d[j]) != Some(key) by {
            assert(d[j] == order[j]);
        }
        lemma_recorded_at(mem, ws, outs, shown, d, oid, key);
        if order.last() != oid {
            assert(output_key(outs, order[order.len() - 1]) != Some(key));
            assert(order.contains(oid) == d.contains(oid)) by {
                if order.contains(oid) {
                    let j = choose|j: int| 0 <= j < order.len() && order[j] == oid;
                    assert(j < d.len() && d[j] == oid);
                }
                if d.contains(oid) {
                    let j = choose|j: int| 0 <= j < d.len() && d[j] == oid;
                    assert(order[j] == oid);
                }
            }
        } else {
            assert(order[order.len() - 1] == oid);
        }
    }
}

/// Recording over two memories gives the same, or each memory's own entry.
proof fn lemma_recorded_mem<R>(
    m1: crate::monitor_memory::MonitorMemory,
    m2: crate::monitor_memory::MonitorMemory,
    ws: Seq<Workspace<R>>,
    outs: Seq<Output>,
    shown: Map<u64, WorkspaceId>,
    order: Seq<u64>,
    key: Seq<char>,
)
    ensures
        recorded(m1, ws, outs, shown, order, key) == recorded(m2, ws, outs, shown, order, key) || (
            recorded(m1, ws, outs, shown, order, key) == m1.remembered(key)
            && recorded(m2, ws, outs, shown, order, key) == m2.remembered(key)),
    decreases order.len(),
{
    if order.len() > 0 {
        lemma_recorded_mem(m1, m2, ws, outs, shown, order.drop_last(), key);
    }
}

/// The memory a reassignment leaves remembers its placement for every
/// connected output, once monitor keys are distinct.
proof fn lemma_memory_remembers<R>(
    m1: crate::monitor_memory::MonitorMemory,
    m2: crate::monitor_memory::MonitorMemory,
    ws: Seq<Workspace<R>>,
    outs: Seq<Output>,
    order: Seq<u64>,
    oid: u64,
)
    requires
        ws.len() <= usize::MAX,
        increasing(order),
        order.to_set() == connected_id_set(outs),
        monitor_keys_distinct(outs),
        order.contains(oid),
        forall|k: Seq<char>| #[trigger] m2.remembered(k) == recorded(m1, ws, outs, placement(ws, outs, m1, order).out_ws, order, k),
    ensures
        remembers_placement(placement(ws, outs, m1, order), ws, outs, m1, m2, oid),
{
    let p = placement(ws, outs, m1, order);
    lemma_placement_consistent(ws, outs, m1, order);
    if let Some(key) = output_key(outs, oid) {
        assert(order.to_set().contains(oid));
        assert forall|j: int| 0 <= j < order.len() && order[j] != oid implies #[trigger] output_key(outs, order[j]) != Some(key) by {
            assert(order.to_set().contains(order[j]));
            assert(output_key(outs, oid) != output_key(outs, order[j]));
        }
        if p.out_ws.contains_key(oid) {
            assert(p.out_ws[oid].0 < ws.len());
        }
        lemma_recorded_at(m1, ws, outs, p.out_ws, order, oid, key);
        assert(m2.remembered(key) == recorded(m1, ws, outs, p.out_ws, order, key));
    }
}

/// Reassigning twice in a row changes nothing but the frame identifiers of
/// the workspaces made for otherwise empty outputs: the same workspaces, in
/// the same order, are shown on the same outputs, and the memory stays as
/// the first reassignment left it. This holds when the configured
/// workspaces have distinct names and no two connected outputs share a
/// monitor key (or when the first reassignment left the memory as it was).
pub proof fn law_reassign_idempotent<R>(a: WorkspaceManager<R>, b: WorkspaceManager<R>, c: WorkspaceManager<R>, n0: u64, n1: u64, n2: u64)
    requires
        reassigned(a, b, n0, n1),
        reassigned(b, c, n1, n2),
        b.workspaces@.len() <= usize::MAX,
        b.monitor_memory == a.monitor_memory || (names_distinct(kept(a.workspaces@)) && monitor_keys_distinct(a.outputs@)),
    ensures
        c.workspaces@.len() == b.workspaces@.len(),
        forall|i: int| 0 <= i < b.workspaces@.len() ==> {
            &&& (#[trigger] c.workspaces@[i]).name@ == b.workspaces@[i].name@
            &&& c.workspaces@[i].active_output == b.workspaces@[i].active_output
            &&& c.workspaces@[i].auto_created == b.workspaces@[i].auto_created
            &&& c.workspaces@[i].preferred_output@ == b.workspaces@[i].preferred_output@
        },
        c.output_workspace@ == b.output_workspace@,
        c.outputs == b.outputs,
        forall|k: Seq<char>| #[trigger] c.monitor_memory.remembered(k) == b.monitor_memory.remembered(k),
{
    lemma_rekept(a, b, n0, n1);
    let kw = fresh(kept(a.workspaces@));
    let n = kw.len() as int;
    let outs = a.outputs@;
    let order = connected_order(outs);
    let m1 = a.monitor_memory;
    let m2 = b.monitor_memory;
    let p = placement(kw, outs, m1, order);
    if m2 != m1 {
        assert(names_distinct(kw)) by {
            assert forall|i: int, j: int| 0 <= i < j < kw.len() implies (#[trigger] kw[i]).name@ != (#[trigger] kw[j]).name@ by {
                assert(kept(a.workspaces@)[i].name@ != kept(a.workspaces@)[j].name@);
            }
        }
        assert forall|j: int| 0 <= j < order.len() implies remembers_placement(p, kw, outs, m1, m2, #[trigger] order[j]) by {
            lemma_memory_remembers(m1, m2, kw, outs, order, order[j]);
        }
        lemma_placement_remembered(kw, outs, m1, m2, order);
    }
    assert(placement(kw, outs, m2, order) == p);
    let autos = unfilled(outs, p.out_ws);
    assert forall|i: int| 0 <= i < b.workspaces@.len() implies {
        &&& (#[trigger] c.workspaces@[i]).name@ == b.workspaces@[i].name@
        &&& c.workspaces@[i].active_output == b.workspaces@[i].active_output
        &&& c.workspaces@[i].auto_created == b.workspaces@[i].auto_created
        &&& c.workspaces@[i].preferred_output@ == b.workspaces@[i].preferred_output@
    } by {
        if i < n {
            assert(same_but_active(c.workspaces@[i], kw[i]));
            assert(same_but_active(b.workspaces@[i], kw[i]));
        } else {
            let k = i - n;
            assert(crate::assignment::auto_workspace(b.workspaces@[n + k], n + k, autos[k], crate::workspace::bump_n(n0, k as nat)));
            assert(crate::assignment::auto_workspace(c.workspaces@[n + k], n + k, autos[k], crate::workspace::bump_n(n1, k as nat)));
        }
    }
    assert forall|k: Seq<char>| #[trigger] c.monitor_memory.remembered(k) == b.monitor_memory.remembered(k) by {
        lemma_recorded_mem(m1, m2, kw, outs, p.out_ws, order, k);
        assert(c.monitor_memory.remembered(k) == recorded(m2, kw, outs, p.out_ws, order, k));
        assert(b.monitor_memory.remembered(k) == recorded(m1, kw, outs, p.out_ws, order, k));
    }
}

/// The result of a reassignment does not depend on which workspace each
/// output showed before: managers that differ only in that end up showing
/// the same workspaces on the same outputs.
pub proof fn law_reassign_ignores_previous_assignment<R>(
    a1: WorkspaceManager<R>,
    a2: WorkspaceManager<R>,
    b1: WorkspaceManager<R>,
    b2: WorkspaceManager<R>,
    n0: u64,
    n1: u64,
    m0: u64,
    m1: u64,
)
    requires
        reassigned(a1, b1, n0, n1),
        reassigned(a2, b2, m0, m1),
        same_statics(a1.workspaces@, a2.workspaces@),
        a1.outputs == a2.outputs,
        a1.monitor_memory == a2.monitor_memory,
    ensures
        b1.workspaces@.len() == b2.workspaces@.len(),
        forall|i: int| 0 <= i < b1.workspaces@.len() ==> {
            &&& (#[trigger] b1.workspaces@[i]).name@ == b2.workspaces@[i].name@
            &&& b1.workspaces@[i].active_output == b2.workspaces@[i].active_output
            &&& b1.workspaces@[i].auto_created == b2.workspaces@[i].auto_created
        },
        b1.output_workspace@ == b2.output_workspace@,
{
    lemma_kept_same_statics(a1.workspaces@, a2.workspaces@);
    lemma_fresh_same_statics(kept(a1.workspaces@), kept(a2.workspaces@));
    let kw = fresh(kept(a1.workspaces@));
    let n = kw.len() as int;
    let p = placement(kw, a1.outputs@, a1.monitor_memory, connected_order(a1.outputs@));
    let autos = unfilled(a1.outputs@, p.out_ws);
    assert forall|i: int| 0 <= i < b1.workspaces@.len() implies {
        &&& (#[trigger] b1.workspaces@[i]).name@ == b2.workspaces@[i].name@
        &&& b1.workspaces@[i].active_output == b2.workspaces@[i].active_output
        &&& b1.workspaces@[i].auto_created == b2.workspaces@[i].auto_created
    } by {
        if i < n {
            assert(same_but_active(b1.workspaces@[i], kw[i]));
            assert(same_but_active(b2.workspaces@[i], kw[i]));
        } else {
            let k = i - n;
            assert(crate::assignment::auto_workspace(b1.workspaces@[n + k], n + k, autos[k], crate::workspace::bump_n(n0, k as nat)));
            assert(crate::assignment::auto_workspace(b2.workspaces@[n + k], n + k, autos[k], crate::workspace::bump_n(m0, k as nat)));
        }
    }
}

/// Every workspace the memory tier placed carries the name remembered for
/// its output, and that output comes from `order`.
pub open spec fn placed_from_memory<R>(q: Placement, ws: Seq<Workspace<R>>, outs: Seq<Output>, mem: crate::monitor_memory::MonitorMemory, order: Seq<u64>) -> bool {
    forall|i: int| 0 <= i < q.ws_out.len() && (#[trigger] q.ws_out[i]) is Some ==> {
        let o = q.ws_out[i].unwrap();
        &&& order.contains(o.0)
        &&& remembered_for(outs, mem, o.0) == Some(ws[i].name@)
    }
}

proof fn lemma_memory_tier_names<R>(ws: Seq<Workspace<R>>, outs: Seq<Output>, mem: crate::monitor_memory::MonitorMemory, order: Seq<u64>)
    requires
        ws.len() <= usize::MAX,
    ensures
        placed_from_memory(memory_tier(empty_placement(ws.len()), ws, outs, mem, order), ws, outs, mem, order),
        memory_tier(empty_placement(ws.len()), ws, outs, mem, order).ws_out.len() == ws.len(),
    decreases order.len(),
{
    let e = empty_placement(ws.len());
    if order.len() > 0 {
        let d = order.drop_last();
        lemma_memory_tier_names(ws, outs, mem, d);
        let q = memory_tier(e, ws, outs, mem, d);
        let oid = order.last();
        let r = memory_tier(e, ws, outs, mem, order);
        if let Some(name) = remembered_for(outs, mem, oid) {
            lemma_first_index_bound(q, named_as(ws, name));
        }
        assert(r.ws_out.len() == ws.len());
        assert forall|i: int| 0 <= i < r.ws_out.len() && (#[trigger] r.ws_out[i]) is Some implies {
            let o = r.ws_out[i].unwrap();
            &&& order.contains(o.0)
            &&& remembered_for(outs, mem, o.0) == Some(ws[i].name@)
        } by {
            match remembered_for(outs, mem, oid) {
                Some(name) => {
                    lemma_first_index_bound(q, named_as(ws, name));
                    if let Some(i0) = first_free(q, named_as(ws, name)) {
                        if i == i0 {
                            assert(order[order.len() - 1] == oid);
                        } else {
                            let o = q.ws_out[i].unwrap();
                            let u = choose|u: int| 0 <= u < d.len() && d[u] == o.0;
                            assert(order[u] == o.0);
                        }
                    } else {
                        let o = q.ws_out[i].unwrap();
                        let u = choose|u: int| 0 <= u < d.len() && d[u] == o.0;
                        assert(order[u] == o.0);
                    }
                },
                None => {
                    let o = q.ws_out[i].unwrap();
                    let u = choose|u: int| 0 <= u < d.len() && d[u] == o.0;
                    assert(order[u] == o.0);
                },
            }
        }
    }
}

proof fn lemma_memory_tier_grows<R>(ws: Seq<Workspace<R>>, outs: Seq<Output>, mem: crate::monitor_memory::MonitorMemory, order: Seq<u64>, u: int, v: int)
    requires
        ws.len() <= usize::MAX,
        increasing(order),
        0 <= u <= v <= order.len(),
    ensures
        extends(
            memory_tier(empty_placement(ws.len()), ws, outs, mem, order.take(u)),
            memory_tier(empty_placement(ws.len()), ws, outs, mem, order.take(v)),
        ),
    decreases v - u,
{
    let e = empty_placement(ws.len());
    if u == v {
        lemma_extends_refl(memory_tier(e, ws, outs, mem, order.take(u)));
    } else {
        lemma_memory_tier_grows(ws, outs, mem, order, u, v - 1);
        let pre = order.take(v - 1);
        assert(order.take(v).drop_last() =~= pre);
        assert(order.take(v).last() == order[v - 1]);
        assert(increasing(pre));
        lemma_memory_tier(e, ws, outs, mem, pre);
        let q = memory_tier(e, ws, outs, mem, pre);
        let oid = order[v - 1];
        assert(!q.out_ws.contains_key(oid)) by {
            if q.out_ws.contains_key(oid) {
                assert(pre.to_set().contains(oid));
                let j = choose|j: int| 0 <= j < pre.len() && pre[j] == oid;
                assert(order[j] < order[v - 1]);
            }
        }
        match remembered_for(outs, mem, oid) {
            Some(name) => lemma_free_assign(q, named_as(ws, name), OutputId(oid)),
            None => {},
        }
        lemma_extends_trans(
            memory_tier(e, ws, outs, mem, order.take(u)),
            q,
            memory_tier(e, ws, outs, mem, order.take(v)),
        );
    }
}

proof fn lemma_kept_has<R>(ws: Seq<Workspace<R>>, w: int)
    requires
        0 <= w < ws.len(),
        !ws[w].auto_created,
    ensures
        exists|i: int| 0 <= i < kept(ws).len() && kept(ws)[i] == ws[w],
    decreases ws.len(),
{
    let d = ws.drop_last();
    if w < d.len() {
        assert(d[w] == ws[w]);
        lemma_kept_has(d, w);
        let i = choose|i: int| 0 <= i < kept(d).len() && kept(d)[i] == d[w];
        if !ws.last().auto_created {
            assert(kept(ws) == kept(d).push(ws.last()));
            assert(kept(ws)[i] == kept(d)[i]);
        } else {
            assert(kept(ws) == kept(d));
        }
        assert(0 <= i < kept(ws).len() && kept(ws)[i] == ws[w]);
    } else {
        assert(w == ws.len() - 1);
        assert(kept(ws) == kept(d).push(ws.last()));
        let i = kept(ws).len() - 1;
        assert(0 <= i < kept(ws).len() && kept(ws)[i] == ws[w]);
    }
}

/// At its turn in the memory tier, an output whose remembered name no
/// earlier output shares takes the first workspace with that name.
proof fn lemma_memory_turn<R>(
    kw: Seq<Workspace<R>>,
    outs: Seq<Output>,
    mem: crate::monitor_memory::MonitorMemory,
    order: Seq<u64>,
    t: int,
    name: Seq<char>,
    wi: int,
) -> (i0: int)
    requires
        kw.len() <= usize::MAX,
        increasing(order),
        0 <= t < order.len(),
        remembered_for(outs, mem, order[t]) == Some(name),
        0 <= wi < kw.len(),
        kw[wi].name@ == name,
        forall|u: int| 0 <= u < t ==> remembered_for(outs, mem, #[trigger] order[u]) != Some(name),
    ensures
        0 <= i0 < kw.len(),
        kw[i0].name@ == name,
        memory_tier(empty_placement(kw.len()), kw, outs, mem, order.take(t + 1)).ws_out[i0] == Some(OutputId(order[t])),
{
    let e = empty_placement(kw.len());
    let pre = order.take(t);
    lemma_memory_tier_names(kw, outs, mem, pre);
    let q = memory_tier(e, kw, outs, mem, pre);
    let ok = named_as(kw, name);
    assert forall|i: int| 0 <= i < q.ws_out.len() && #[trigger] ok(i) implies q.ws_out[i] is None by {
        if q.ws_out[i] is Some {
            let o = q.ws_out[i].unwrap();
            let u = choose|u: int| 0 <= u < pre.len() && pre[u] == o.0;
            assert(order[u] == o.0);
        }
    }
    assert(ok(wi));
    assert(crate::assignment::free_and(q, ok)(wi));
    let idx = crate::assignment::indices(q.ws_out.len());
    assert(idx[wi] == wi);
    crate::seqs::lemma_first_match(idx, crate::assignment::free_and(q, ok));
    lemma_first_index_bound(q, ok);
    let i0 = first_free(q, ok).unwrap();
    assert(order.take(t + 1).drop_last() =~= pre);
    assert(order.take(t + 1).last() == order[t]);
    i0
}

/// A monitor gets back the workspace remembered for it: when a connected
/// output's monitor is remembered as showing a configured workspace, and no
/// other connected output's monitor is remembered with that name, the
/// output shows that workspace after reassignment.
pub proof fn law_memory_restores_workspace<R>(a: WorkspaceManager<R>, b: WorkspaceManager<R>, next0: u64, next1: u64, j: int, name: Seq<char>)
    requires
        a.wf(),
        reassigned(a, b, next0, next1),
        b.workspaces@.len() <= usize::MAX,
        0 <= j < a.outputs@.len(),
        is_connected(a.outputs@[j]),
        remembered_for(a.outputs@, a.monitor_memory, a.outputs@[j].id.0) == Some(name),
        exists|w: int| 0 <= w < a.workspaces@.len() && !(#[trigger] a.workspaces@[w]).auto_created && a.workspaces@[w].name@ == name,
        forall|j2: int| 0 <= j2 < a.outputs@.len() && j2 != j && is_connected(#[trigger] a.outputs@[j2])
            ==> remembered_for(a.outputs@, a.monitor_memory, a.outputs@[j2].id.0) != Some(name),
    ensures
        exists|i: int| 0 <= i < b.workspaces@.len() && (#[trigger] b.workspaces@[i]).name@ == name
            && b.workspaces@[i].active_output == Some(a.outputs@[j].id),
{
    let outs = a.outputs@;
    let mem = a.monitor_memory;
    let kw = fresh(kept(a.workspaces@));
    let n = kw.len() as int;
    let order = connected_order(outs);
    let oid = outs[j].id.0;
    let e = empty_placement(kw.len());
    assert(connected_id_set(outs).contains(oid));
    assert(order.to_set().contains(oid));
    let t = choose|t: int| 0 <= t < order.len() && order[t] == oid;
    let w = choose|w: int| 0 <= w < a.workspaces@.len() && !(#[trigger] a.workspaces@[w]).auto_created && a.workspaces@[w].name@ == name;
    lemma_kept_has(a.workspaces@, w);
    let wi = choose|i: int| 0 <= i < kept(a.workspaces@).len() && kept(a.workspaces@)[i] == a.workspaces@[w];
    assert(kw[wi].name@ == name);
    assert(n <= b.workspaces@.len());
    assert forall|u: int| 0 <= u < t implies remembered_for(outs, mem, #[trigger] order[u]) != Some(name) by {
        assert(order[u] < order[t]);
        assert(order.to_set().contains(order[u]));
        let j2 = choose|j2: int| 0 <= j2 < outs.len() && is_connected(#[trigger] outs[j2]) && outs[j2].id.0 == order[u];
        assert(j2 != j);
    }
    let i0 = lemma_memory_turn(kw, outs, mem, order, t, name, wi);
    lemma_later_tiers_keep(kw, outs, mem, order, t, i0);
    assert(same_but_active(b.workspaces@[i0], kw[i0]));
}

/// What the memory tier placed at an output's turn survives the rest of the
/// pass.
proof fn lemma_later_tiers_keep<R>(kw: Seq<Workspace<R>>, outs: Seq<Output>, mem: crate::monitor_memory::MonitorMemory, order: Seq<u64>, t: int, i0: int)
    requires
        kw.len() <= usize::MAX,
        increasing(order),
        0 <= t < order.len(),
        0 <= i0 < kw.len(),
        memory_tier(empty_placement(kw.len()), kw, outs, mem, order.take(t + 1)).ws_out[i0] == Some(OutputId(order[t])),
    ensures
        placement(kw, outs, mem, order).ws_out[i0] == Some(OutputId(order[t])),
{
    let e = empty_placement(kw.len());
    lemma_memory_tier_grows(kw, outs, mem, order, t + 1, order.len() as int);
    assert(order.take(order.len() as int) =~= order);
    let p1 = memory_tier(e, kw, outs, mem, order);
    lemma_memory_tier(e, kw, outs, mem, order);
    lemma_preference_tier(p1, kw, outs, order);
    let p2 = preference_tier(p1, kw, outs, order);
    lemma_fallback_tier(p2, order);
    lemma_memory_tier_names(kw, outs, mem, order.take(t + 1));
}

} // verus!
