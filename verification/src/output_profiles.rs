//! Output profiles: which workspace each output showed, remembered per set
//! of connected output names and given back when that set returns.

use vstd::prelude::*;
use vstd::hash_map::StringHashMap;
use crate::lex::{lemma_lex_asymmetric, lemma_lex_irreflexive, lemma_lex_total, lemma_lex_transitive, lex_less, lex_lt};
use crate::text::{chars_of, str_eq, string_from_chars};
use crate::workspace::{id_is, lemma_ws_position, ws_id_is, ws_named, Output, OutputId, WorkspaceId, WorkspaceManager, same_but_active};
use crate::state::visible_pairs;
use crate::seqs::{first_match, lemma_first_match, lemma_first_match_none, lemma_first_match_unique, lemma_first_match_agree};

verus! {

/// The names of the outputs that are not removed, in output order.
pub open spec fn live_names(outs: Seq<Output>) -> Seq<Seq<char>>
    decreases outs.len(),
{
    if outs.len() == 0 {
        Seq::empty()
    } else {
        let rest = live_names(outs.drop_last());
        let o = outs.last();
        match o.name {
            Some(n) => if !o.removed { rest.push(n@) } else { rest },
            None => rest,
        }
    }
}

/// In increasing order, repeats allowed.
pub open spec fn sorted_le(t: Seq<Seq<char>>) -> bool {
    forall|i: int, j: int| 0 <= i < j < t.len() ==> !lex_lt(#[trigger] t[j], #[trigger] t[i])
}

/// The strings joined with `+`.
pub open spec fn join_plus(t: Seq<Seq<char>>) -> Seq<char>
    decreases t.len(),
{
    if t.len() == 0 {
        Seq::empty()
    } else if t.len() == 1 {
        t[0]
    } else {
        join_plus(t.drop_last()) + seq!['+'] + t.last()
    }
}

/// `key` is the profile key of the outputs: their live names, sorted, joined
/// with `+`.
pub open spec fn is_profile_key(outs: Seq<Output>, key: Seq<char>) -> bool {
    exists|t: Seq<Seq<char>>| sorted_le(t) && t.to_multiset() == live_names(outs).to_multiset() && key == join_plus(t)
}

fn insert_le(v: &mut Vec<Vec<char>>, k: Vec<char>)
    requires
        sorted_le(crate::text::char_vecs(old(v)@)),
    ensures
        sorted_le(crate::text::char_vecs(final(v)@)),
        crate::text::char_vecs(final(v)@).to_multiset() == crate::text::char_vecs(old(v)@).to_multiset().insert(k@),
{
    broadcast use vstd::seq_lib::to_multiset_insert;
    let ghost before = crate::text::char_vecs(v@);
    let mut pos: usize = 0;
    while pos < v.len() && !lex_less(k.as_slice(), v[pos].as_slice())
        invariant
            pos <= v@.len(),
            before == crate::text::char_vecs(v@),
            forall|j: int| 0 <= j < pos ==> !lex_lt(k@, #[trigger] before[j]),
        decreases v@.len() - pos,
    {
        pos += 1;
    }
    let ghost kv = k@;
    v.insert(pos, k);
    proof {
        let after = crate::text::char_vecs(v@);
        assert(after =~= before.insert(pos as int, kv));
        assert forall|a: int, b: int| 0 <= a < b < after.len() implies !lex_lt(#[trigger] after[b], #[trigger] after[a]) by {
            if b < pos {
                assert(after[a] == before[a] && after[b] == before[b]);
            } else if b == pos {
                assert(after[a] == before[a]);
                assert(!lex_lt(kv, before[a]));
            } else if a == pos {
                assert(after[b] == before[b - 1]);
                // kv < before[pos] <= before[b - 1]
                assert(lex_lt(kv, before[pos as int]));
                if lex_lt(before[b - 1], kv) {
                    if b - 1 == pos {
                        lemma_lex_asymmetric(kv, before[pos as int]);
                    } else {
                        lemma_lex_transitive(before[b - 1], kv, before[pos as int]);
                    }
                }
            } else if a < pos {
                assert(after[a] == before[a] && after[b] == before[b - 1]);
                if lex_lt(before[b - 1], before[a]) {
                    assert(!lex_lt(kv, before[a]));
                    assert(lex_lt(kv, before[pos as int]));
                    lemma_lex_total(kv, before[a]);
                    if kv == before[a] {
                        if b - 1 == pos {
                            lemma_lex_transitive(before[b - 1], kv, before[pos as int]);
                            lemma_lex_irreflexive(before[pos as int]);
                        } else {
                            lemma_lex_transitive(before[b - 1], kv, before[pos as int]);
                        }
                    } else {
                        lemma_lex_transitive(before[b - 1], before[a], kv);
                        lemma_lex_transitive(before[b - 1], kv, before[pos as int]);
                    }
                }
            } else {
                assert(after[a] == before[a - 1] && after[b] == before[b - 1]);
            }
        }
    }
}

fn join_with_plus(v: &Vec<Vec<char>>) -> (r: String)
    ensures
        r@ == join_plus(crate::text::char_vecs(v@)),
{
    let ghost t = crate::text::char_vecs(v@);
    let mut out: Vec<char> = Vec::new();
    let mut i: usize = 0;
    while i < v.len()
        invariant
            i <= v@.len(),
            t == crate::text::char_vecs(v@),
            out@ == join_plus(t.take(i as int)),
        decreases v@.len() - i,
    {
        let ghost before = out@;
        if i > 0 {
            out.push('+');
        }
        let w = &v[i];
        let mut j: usize = 0;
        while j < w.len()
            invariant
                j <= w@.len(),
                out@ == (if i > 0 { before + seq!['+'] } else { before }) + w@.take(j as int),
            decreases w@.len() - j,
        {
            out.push(w[j]);
            proof {
                assert(w@.take(j + 1) =~= w@.take(j as int).push(w@[j as int]));
            }
            j += 1;
        }
        proof {
            assert(w@.take(w@.len() as int) =~= w@);
            assert(t[i as int] == w@);
            let p = t.take(i + 1);
            assert(p.drop_last() =~= t.take(i as int));
            if i == 0 {
                assert(p =~= seq![w@]);
            }
        }
        i += 1;
    }
    proof {
        assert(t.take(t.len() as int) =~= t);
    }
    string_from_chars(&out)
}

/// The profiles of monitor configurations, by profile key.
pub struct OutputProfiles {
    pub profiles: StringHashMap<OutputProfile>,
}

/// Saved workspace assignments for one monitor configuration.
pub struct OutputProfile {
    /// Which workspace was visible on each output: (output name, workspace
    /// name), each output name once.
    pub assignments: Vec<(String, String)>,
    /// Which workspace was focused.
    pub focused_workspace: String,
}

impl Default for OutputProfiles {
    fn default() -> (p: Self)
        ensures
            p.profiles@ == Map::<Seq<char>, OutputProfile>::empty(),
    {
        OutputProfiles { profiles: StringHashMap::new() }
    }
}

impl OutputProfiles {
    /// The key of the current output configuration: the names of the outputs
    /// that are not removed, sorted, joined with `+`.
    pub fn profile_key<R>(workspaces: &WorkspaceManager<R>) -> (key: String)
        ensures
            is_profile_key(workspaces.outputs@, key@),
    {
        broadcast use vstd::seq_lib::group_to_multiset_ensures;
        let outs = &workspaces.outputs;
        let mut v: Vec<Vec<char>> = Vec::new();
        proof {
            assert(crate::text::char_vecs(v@) =~= Seq::<Seq<char>>::empty());
            assert(live_names(outs@.take(0)) =~= Seq::<Seq<char>>::empty());
        }
        let mut i: usize = 0;
        while i < outs.len()
            invariant
                i <= outs@.len(),
                sorted_le(crate::text::char_vecs(v@)),
                crate::text::char_vecs(v@).to_multiset() == live_names(outs@.take(i as int)).to_multiset(),
            decreases outs@.len() - i,
        {
            let o = &outs[i];
            proof {
                assert(outs@.take(i + 1).drop_last() =~= outs@.take(i as int));
                assert(outs@.take(i + 1).last() == outs@[i as int]);
                let r = live_names(outs@.take(i as int));
                let ov = outs@[i as int];
                if ov.name is Some && !ov.removed {
                    let nv = ov.name->0@;
                    vstd::seq_lib::to_multiset_build(r, nv);
                }
            }
            if !o.removed {
                match &o.name {
                    Some(n) => {
                        insert_le(&mut v, chars_of(n.as_str()));
                    },
                    None => {},
                }
            }
            i += 1;
        }
        proof {
            assert(outs@.take(outs@.len() as int) =~= outs@);
        }
        let key = join_with_plus(&v);
        proof {
            let t = crate::text::char_vecs(v@);
            assert(sorted_le(t) && t.to_multiset() == live_names(outs@).to_multiset() && key@ == join_plus(t));
        }
        key
    }
}

/// The views of (output name, workspace name) pairs.
pub open spec fn pairs_view(v: Seq<(String, String)>) -> Seq<(Seq<char>, Seq<char>)> {
    v.map_values(|p: (String, String)| (p.0@, p.1@))
}

/// No output name occurs twice.
pub open spec fn keys_distinct(v: Seq<(Seq<char>, Seq<char>)>) -> bool {
    forall|i: int, j: int| 0 <= i < j < v.len() ==> (#[trigger] v[i]).0 != (#[trigger] v[j]).0
}

/// The pairs as a map; a later pair for the same output wins.
pub open spec fn pairs_map(v: Seq<(Seq<char>, Seq<char>)>) -> Map<Seq<char>, Seq<char>>
    decreases v.len(),
{
    if v.len() == 0 {
        Map::empty()
    } else {
        pairs_map(v.drop_last()).insert(v.last().0, v.last().1)
    }
}

proof fn lemma_pairs_map_update(v: Seq<(Seq<char>, Seq<char>)>, p: int, val: Seq<char>)
    requires
        keys_distinct(v),
        0 <= p < v.len(),
    ensures
        pairs_map(v.update(p, (v[p].0, val))) == pairs_map(v).insert(v[p].0, val),
    decreases v.len(),
{
    let u = v.update(p, (v[p].0, val));
    if p == v.len() - 1 {
        assert(u.drop_last() =~= v.drop_last());
        assert(pairs_map(u) =~= pairs_map(v).insert(v[p].0, val));
    } else {
        assert(u.drop_last() =~= v.drop_last().update(p, (v[p].0, val)));
        assert(keys_distinct(v.drop_last()));
        lemma_pairs_map_update(v.drop_last(), p, val);
        assert(v.last().0 != v[p].0);
        assert(pairs_map(u) =~= pairs_map(v).insert(v[p].0, val));
    }
}

/// Record that output `k` shows workspace `val`.
fn set_pair(v: &mut Vec<(String, String)>, k: String, val: String)
    requires
        keys_distinct(pairs_view(old(v)@)),
    ensures
        keys_distinct(pairs_view(final(v)@)),
        pairs_map(pairs_view(final(v)@)) == pairs_map(pairs_view(old(v)@)).insert(k@, val@),
{
    let ghost before = pairs_view(v@);
    let mut i: usize = 0;
    while i < v.len()
        invariant
            i <= v@.len(),
            before == pairs_view(v@),
            before == pairs_view(old(v)@),
            keys_distinct(before),
            forall|j: int| 0 <= j < i ==> (#[trigger] before[j]).0 != k@,
        decreases v@.len() - i,
    {
        if str_eq(v[i].0.as_str(), k.as_str()) {
            let ghost valv = val@;
            assert(before[i as int].0 == k@);
            let old_key = v[i].0.clone();
            v.set(i, (old_key, val));
            proof {
                assert(pairs_view(v@) =~= before.update(i as int, (before[i as int].0, valv)));
                lemma_pairs_map_update(before, i as int, valv);
            }
            return;
        }
        i += 1;
    }
    let ghost kv = k@;
    let ghost valv = val@;
    v.push((k, val));
    proof {
        assert(pairs_view(v@) =~= before.push((kv, valv)));
        assert(pairs_view(v@).drop_last() =~= before);
    }
}

/// The name of the focused workspace, or nothing when there is none.
pub open spec fn focused_name<R>(m: WorkspaceManager<R>) -> Seq<char> {
    if m.focused_workspace.0 < m.workspaces@.len() {
        m.workspaces@[m.focused_workspace.0 as int].name@
    } else {
        Seq::empty()
    }
}

/// `p` records the workspaces `m` shows: each output name with the last
/// workspace shown on an output of that name, and the focused workspace.
pub open spec fn records<R>(p: OutputProfile, m: WorkspaceManager<R>) -> bool {
    &&& keys_distinct(pairs_view(p.assignments@))
    &&& pairs_map(pairs_view(p.assignments@)) == pairs_map(visible_pairs(m, m.workspaces@.len() as int))
    &&& p.focused_workspace@ == focused_name(m)
}

impl OutputProfiles {
    /// Remember what each output shows under the current configuration's
    /// key. Nothing is saved while no output has a name; the result says
    /// whether the profiles changed (and should be written out).
    pub fn save_current<R>(&mut self, workspaces: &WorkspaceManager<R>) -> (saved: bool)
        ensures
            saved ==> exists|k: Seq<char>| {
                &&& is_profile_key(workspaces.outputs@, k)
                &&& k.len() > 0
                &&& #[trigger] final(self).profiles@.contains_key(k)
                &&& final(self).profiles@ == old(self).profiles@.insert(k, final(self).profiles@[k])
                &&& records(final(self).profiles@[k], *workspaces)
            },
            !saved ==> is_profile_key(workspaces.outputs@, Seq::empty()) && final(self).profiles@ == old(self).profiles@,
    {
        let key = Self::profile_key(workspaces);
        if key.as_str().is_empty() {
            proof {
                assert(key@ =~= Seq::<char>::empty());
            }
            return false;
        }
        let mut assignments: Vec<(String, String)> = Vec::new();
        let mut i: usize = 0;
        while i < workspaces.workspaces.len()
            invariant
                i <= workspaces.workspaces@.len(),
                keys_distinct(pairs_view(assignments@)),
                pairs_map(pairs_view(assignments@)) == pairs_map(visible_pairs(*workspaces, i as int)),
            decreases workspaces.workspaces@.len() - i,
        {
            let w = &workspaces.workspaces[i];
            let name = match w.active_output {
                Some(oid) => match workspaces.output(oid) {
                    Some(o) => match &o.name {
                        Some(n) => Some(n.clone()),
                        None => None,
                    },
                    None => None,
                },
                None => None,
            };
            let ghost vp = visible_pairs(*workspaces, i as int);
            match name {
                Some(n) => {
                    let ghost nv = n@;
                    set_pair(&mut assignments, n, w.name.clone());
                    proof {
                        assert(visible_pairs(*workspaces, i + 1) == vp.push((nv, w.name@)));
                        assert(vp.push((nv, w.name@)).drop_last() =~= vp);
                    }
                },
                None => {},
            }
            i += 1;
        }
        let focused = if workspaces.focused_workspace.0 < workspaces.workspaces.len() {
            workspaces.workspaces[workspaces.focused_workspace.0].name.clone()
        } else {
            String::new()
        };
        let ghost kv = key@;
        let profile = OutputProfile { assignments, focused_workspace: focused };
        proof {
            assert(records(profile, *workspaces));
        }
        self.profiles.insert(key, profile);
        proof {
            assert(self.profiles@.contains_key(kv));
        }
        true
    }
}

// ── Restoring ─────────────────────────────────────────────────────────────

/// Which output each workspace is shown on, and what each output shows.
pub struct Shown {
    pub actives: Seq<Option<OutputId>>,
    pub shown: Map<u64, WorkspaceId>,
}

pub open spec fn named_output(name: Seq<char>) -> spec_fn(Output) -> bool {
    |o: Output| o.name matches Some(n) && n@ == name
}

/// Putting back one remembered pair: the first output with the name shows
/// the first workspace with the name, and whatever it showed before is
/// hidden; a pair whose output or workspace is missing is skipped.
pub open spec fn restore_pair<R>(m: WorkspaceManager<R>, st: Shown, p: (Seq<char>, Seq<char>)) -> Shown {
    match first_match(m.outputs@, named_output(p.0)) {
        None => st,
        Some(o) => match first_match(m.workspaces@, ws_named::<R>(p.1)) {
            None => st,
            Some(k) => {
                let oid = m.outputs@[o].id;
                let a1 = if st.shown.contains_key(oid.0) && st.shown[oid.0].0 < st.actives.len() {
                    st.actives.update(st.shown[oid.0].0 as int, None)
                } else {
                    st.actives
                };
                Shown { actives: a1.update(k, Some(oid)), shown: st.shown.insert(oid.0, WorkspaceId(k as usize)) }
            },
        },
    }
}

/// Putting back the first `n` pairs, in order.
pub open spec fn restore_pairs<R>(m: WorkspaceManager<R>, st: Shown, ps: Seq<(Seq<char>, Seq<char>)>, n: int) -> Shown
    decreases n,
{
    if n <= 0 {
        st
    } else {
        restore_pair(m, restore_pairs(m, st, ps, n - 1), ps[n - 1])
    }
}

/// How the workspaces are shown now.
pub open spec fn shown_now<R>(m: WorkspaceManager<R>) -> Shown {
    Shown { actives: m.workspaces@.map_values(|w: crate::workspace::Workspace<R>| w.active_output), shown: m.output_workspace@ }
}

/// `m1` is `m0` after putting back the pairs of `p` and its focused workspace.
pub open spec fn restored_from<R>(m0: WorkspaceManager<R>, m1: WorkspaceManager<R>, p: OutputProfile) -> bool {
    let ps = pairs_view(p.assignments@);
    let st = restore_pairs(m0, shown_now(m0), ps, ps.len() as int);
    &&& m1.workspaces@.len() == m0.workspaces@.len()
    &&& forall|j: int| 0 <= j < m0.workspaces@.len() ==> same_but_active(#[trigger] m1.workspaces@[j], m0.workspaces@[j])
    &&& shown_now(m1) == st
    &&& m1.focused_workspace == (match first_match(m0.workspaces@, ws_named::<R>(p.focused_workspace@)) {
        Some(k) => WorkspaceId(k as usize),
        None => m0.focused_workspace,
    })
    &&& m1.outputs == m0.outputs
    &&& m1.monitor_memory == m0.monitor_memory
    &&& m1.outputs_changed == m0.outputs_changed
    &&& m1.last_connected_keys == m0.last_connected_keys
}

fn output_by_name<R>(m: &WorkspaceManager<R>, name: &str) -> (r: Option<OutputId>)
    ensures
        match first_match(m.outputs@, named_output(name@)) {
            Some(o) => r == Some(m.outputs@[o].id),
            None => r is None,
        },
{
    let ghost p = named_output(name@);
    let mut i: usize = 0;
    while i < m.outputs.len()
        invariant
            i <= m.outputs@.len(),
            p == named_output(name@),
            forall|j: int| 0 <= j < i ==> !p(#[trigger] m.outputs@[j]),
        decreases m.outputs@.len() - i,
    {
        let hit = match &m.outputs[i].name {
            Some(n) => str_eq(n.as_str(), name),
            None => false,
        };
        if hit {
            proof {
                lemma_first_match_unique(m.outputs@, p, i as int);
            }
            return Some(m.outputs[i].id);
        }
        i += 1;
    }
    proof {
        lemma_first_match_none(m.outputs@, p);
    }
    None
}

fn restore_one_pair<R>(workspaces: &mut WorkspaceManager<R>, out_name: &str, ws_name: &str)
    requires
        old(workspaces).wf(),
    ensures
        final(workspaces).wf(),
        final(workspaces).workspaces@.len() == old(workspaces).workspaces@.len(),
        forall|j: int| 0 <= j < old(workspaces).workspaces@.len() ==> same_but_active(#[trigger] final(workspaces).workspaces@[j], old(workspaces).workspaces@[j]),
        shown_now(*final(workspaces)) == restore_pair(*old(workspaces), shown_now(*old(workspaces)), (out_name@, ws_name@)),
        final(workspaces).focused_workspace == old(workspaces).focused_workspace,
        final(workspaces).outputs == old(workspaces).outputs,
        final(workspaces).monitor_memory == old(workspaces).monitor_memory,
        final(workspaces).outputs_changed == old(workspaces).outputs_changed,
        final(workspaces).last_connected_keys == old(workspaces).last_connected_keys,
{
    broadcast use vstd::std_specs::hash::group_hash_axioms;
    let ghost m0 = *workspaces;
    let oid = match output_by_name(workspaces, out_name) {
        Some(o) => o,
        None => {
            proof {
                assert(shown_now(*workspaces).actives =~= shown_now(m0).actives);
            }
            return;
        },
    };
    let k = match workspaces.workspace_index_by_name(ws_name) {
        Some(k) => k,
        None => return,
    };
    let wid = workspaces.workspaces[k].id;
    proof {
        assert(wid.0 == k);
    }
    let shown_before = match workspaces.output_workspace.get(&oid.0) {
        Some(w) => Some(*w),
        None => None,
    };
    match shown_before {
        Some(old_ws) => {
            match workspaces.workspace_index(old_ws) {
                Some(j) => {
                    let w = &mut workspaces.workspaces[j];
                    w.active_output = None;
                },
                None => {},
            }
            proof {
                lemma_ws_position(m0.workspaces@, old_ws);
            }
        },
        None => {},
    }
    let ghost m1 = *workspaces;
    proof {
        assert forall|j: int| 0 <= j < m1.workspaces@.len() implies (#[trigger] m1.workspaces@[j]).id.0 == j by {
            assert(m1.workspaces@[j].id == m0.workspaces@[j].id);
        }
        lemma_ws_position(m1.workspaces@, wid);
    }
    workspaces.assign_workspace_to_output(wid, oid);
    proof {
        let st = restore_pair(m0, shown_now(m0), (out_name@, ws_name@));
        assert(shown_now(*workspaces).actives =~= st.actives);
        assert forall|j: int| 0 <= j < workspaces.workspaces@.len() implies (#[trigger] workspaces.workspaces@[j]).id.0 == j by {
            assert(same_but_active(workspaces.workspaces@[j], m0.workspaces@[j]));
        }
    }
}

impl OutputProfiles {
    /// Put back the workspace assignments remembered for the current output
    /// configuration, and its focused workspace. Whether a profile was found.
    pub fn restore_for_current<R>(&self, workspaces: &mut WorkspaceManager<R>) -> (found: bool)
        requires
            old(workspaces).wf(),
        ensures
            final(workspaces).wf(),
            exists|k: Seq<char>| {
                &&& is_profile_key(old(workspaces).outputs@, k)
                &&& found == #[trigger] self.profiles@.contains_key(k)
                &&& found ==> restored_from(*old(workspaces), *final(workspaces), self.profiles@[k])
            },
            !found ==> *final(workspaces) == *old(workspaces),
    {
        let key = Self::profile_key(workspaces);
        let profile = match self.profiles.get(key.as_str()) {
            Some(p) => p,
            None => return false,
        };
        let ghost m0 = *workspaces;
        let ghost ps = pairs_view(profile.assignments@);
        let mut i: usize = 0;
        while i < profile.assignments.len()
            invariant
                i <= ps.len(),
                ps == pairs_view(profile.assignments@),
                workspaces.wf(),
                workspaces.workspaces@.len() == m0.workspaces@.len(),
                forall|j: int| 0 <= j < m0.workspaces@.len() ==> same_but_active(#[trigger] workspaces.workspaces@[j], m0.workspaces@[j]),
                shown_now(*workspaces) == restore_pairs(m0, shown_now(m0), ps, i as int),
                workspaces.focused_workspace == m0.focused_workspace,
                workspaces.outputs == m0.outputs,
                workspaces.monitor_memory == m0.monitor_memory,
                workspaces.outputs_changed == m0.outputs_changed,
                workspaces.last_connected_keys == m0.last_connected_keys,
            decreases ps.len() - i,
        {
            let ghost mi = *workspaces;
            let (o, w) = &profile.assignments[i];
            restore_one_pair(workspaces, o.as_str(), w.as_str());
            proof {
                // the pair is read against the same outputs and names
                assert forall|j: int| 0 <= j < m0.workspaces@.len() implies same_but_active(#[trigger] workspaces.workspaces@[j], m0.workspaces@[j]) by {
                    assert(same_but_active(workspaces.workspaces@[j], mi.workspaces@[j]));
                    assert(same_but_active(mi.workspaces@[j], m0.workspaces@[j]));
                }
                assert forall|j: int| 0 <= j < m0.workspaces@.len() implies ws_named::<R>(ps[i as int].1)(#[trigger] mi.workspaces@[j]) == ws_named::<R>(ps[i as int].1)(m0.workspaces@[j]) by {
                    assert(same_but_active(mi.workspaces@[j], m0.workspaces@[j]));
                }
                lemma_first_match_agree(mi.workspaces@, ws_named::<R>(ps[i as int].1), m0.workspaces@, ws_named::<R>(ps[i as int].1));
                assert(ps[i as int] == (o@, w@));
            }
            i += 1;
        }
        let ghost mf = *workspaces;
        proof {
            assert forall|j: int| 0 <= j < m0.workspaces@.len() implies ws_named::<R>(profile.focused_workspace@)(#[trigger] mf.workspaces@[j]) == ws_named::<R>(profile.focused_workspace@)(m0.workspaces@[j]) by {
                assert(same_but_active(mf.workspaces@[j], m0.workspaces@[j]));
            }
            lemma_first_match_agree(mf.workspaces@, ws_named::<R>(profile.focused_workspace@), m0.workspaces@, ws_named::<R>(profile.focused_workspace@));
        }
        match workspaces.workspace_index_by_name(profile.focused_workspace.as_str()) {
            Some(k) => {
                workspaces.focused_workspace = workspaces.workspaces[k].id;
                proof {
                    assert(workspaces.workspaces@[k as int].id.0 == k);
                }
            },
            None => {},
        }
        proof {
            assert(restored_from(m0, *workspaces, *profile));
        }
        true
    }
}

// ── What a restore gives back ────────────────────────────────────────────

/// The output and workspace (by position) a remembered pair names, when
/// both exist.
pub open spec fn pair_target<R>(m: WorkspaceManager<R>, p: (Seq<char>, Seq<char>)) -> Option<(int, int)> {
    match (first_match(m.outputs@, named_output(p.0)), first_match(m.workspaces@, ws_named::<R>(p.1))) {
        (Some(o), Some(k)) => Some((o, k)),
        _ => None,
    }
}

/// The output position of a pair's target.
pub open spec fn target_out<R>(m: WorkspaceManager<R>, p: (Seq<char>, Seq<char>)) -> int {
    match pair_target(m, p) {
        Some((o, _k)) => o,
        None => 0,
    }
}

/// The workspace position of a pair's target.
pub open spec fn target_ws<R>(m: WorkspaceManager<R>, p: (Seq<char>, Seq<char>)) -> int {
    match pair_target(m, p) {
        Some((_o, k)) => k,
        None => 0,
    }
}

/// No workspace name occurs twice.
pub open spec fn names_distinct(v: Seq<(Seq<char>, Seq<char>)>) -> bool {
    forall|i: int, j: int| 0 <= i < j < v.len() ==> (#[trigger] v[i]).1 != (#[trigger] v[j]).1
}

/// Pair `i`'s workspace is shown on pair `i`'s output.
pub open spec fn pair_shown<R>(m: WorkspaceManager<R>, ps: Seq<(Seq<char>, Seq<char>)>, st: Shown, i: int) -> bool {
    match pair_target(m, ps[i]) {
        Some((o, k)) => st.actives[k] == Some(m.outputs@[o].id) && st.shown.contains_key(m.outputs@[o].id.0)
            && st.shown[m.outputs@[o].id.0] == WorkspaceId(k as usize),
        None => true,
    }
}

/// Pair `i`'s output shows nothing yet.
pub open spec fn pair_free<R>(m: WorkspaceManager<R>, ps: Seq<(Seq<char>, Seq<char>)>, st: Shown, i: int) -> bool {
    match pair_target(m, ps[i]) {
        Some((o, k)) => !st.shown.contains_key(m.outputs@[o].id.0),
        None => true,
    }
}

proof fn lemma_targets_differ<R>(m: WorkspaceManager<R>, ps: Seq<(Seq<char>, Seq<char>)>, i: int, j: int)
    requires
        m.wf(),
        keys_distinct(ps),
        names_distinct(ps),
        0 <= i < ps.len(),
        0 <= j < ps.len(),
        i != j,
        pair_target(m, ps[i]) is Some,
        pair_target(m, ps[j]) is Some,
    ensures
        target_ws(m, ps[i]) != target_ws(m, ps[j]),
        m.outputs@[target_out(m, ps[i])].id != m.outputs@[target_out(m, ps[j])].id,
{
    lemma_first_match(m.outputs@, named_output(ps[i].0));
    lemma_first_match(m.outputs@, named_output(ps[j].0));
    lemma_first_match(m.workspaces@, ws_named::<R>(ps[i].1));
    lemma_first_match(m.workspaces@, ws_named::<R>(ps[j].1));
    if i < j {
        assert(ps[i].0 != ps[j].0 && ps[i].1 != ps[j].1);
    } else {
        assert(ps[j].0 != ps[i].0 && ps[j].1 != ps[i].1);
    }
    let oi = target_out(m, ps[i]);
    let oj = target_out(m, ps[j]);
    if oi != oj {
        if oi < oj {
            assert(m.outputs@[oi].id != m.outputs@[oj].id);
        } else {
            assert(m.outputs@[oj].id != m.outputs@[oi].id);
        }
    }
}

proof fn lemma_restore_prefix<R>(m: WorkspaceManager<R>, ps: Seq<(Seq<char>, Seq<char>)>, st: Shown, n: int)
    requires
        m.wf(),
        keys_distinct(ps),
        names_distinct(ps),
        0 <= n <= ps.len(),
        st.actives.len() == m.workspaces@.len(),
        forall|i: int| 0 <= i < ps.len() ==> pair_free(m, ps, st, i),
    ensures
        restore_pairs(m, st, ps, n).actives.len() == m.workspaces@.len(),
        forall|i: int| 0 <= i < n ==> pair_shown(m, ps, restore_pairs(m, st, ps, n), i),
        forall|j: int| n <= j < ps.len() ==> pair_free(m, ps, restore_pairs(m, st, ps, n), j),
    decreases n,
{
    if n > 0 {
        lemma_restore_prefix(m, ps, st, n - 1);
        let r = restore_pairs(m, st, ps, n - 1);
        let r2 = restore_pairs(m, st, ps, n);
        assert(r2 == restore_pair(m, r, ps[n - 1]));
        lemma_first_match(m.outputs@, named_output(ps[n - 1].0));
        lemma_first_match(m.workspaces@, ws_named::<R>(ps[n - 1].1));
        if let Some((o, k)) = pair_target(m, ps[n - 1]) {
            assert(pair_free(m, ps, r, n - 1));
            let oid = m.outputs@[o].id;
            assert(!r.shown.contains_key(oid.0));
            assert(r2.actives == r.actives.update(k, Some(oid)));
            assert(r2.shown == r.shown.insert(oid.0, WorkspaceId(k as usize)));
            assert forall|i: int| 0 <= i < n implies pair_shown(m, ps, r2, i) by {
                if i < n - 1 {
                    if pair_target(m, ps[i]) is Some {
                        lemma_targets_differ(m, ps, i, n - 1);
                        assert(pair_shown(m, ps, r, i));
                        let oi = target_out(m, ps[i]);
                        let ki = target_ws(m, ps[i]);
                        assert(pair_target(m, ps[i]) == Some((oi, ki)));
                        assert(r.actives[ki] == Some(m.outputs@[oi].id));
                        lemma_first_match(m.workspaces@, ws_named::<R>(ps[i].1));
                        assert(0 <= ki < r.actives.len());
                        assert(ki != k);
                        assert(r2.actives[ki] == Some(m.outputs@[oi].id));
                        assert(r2.shown[m.outputs@[oi].id.0] == WorkspaceId(ki as usize));
                    }
                } else {
                    assert(i == n - 1);
                    assert(pair_target(m, ps[i]) == Some((o, k)));
                    assert(r2.actives[k] == Some(oid));
                    assert(r2.shown[oid.0] == WorkspaceId(k as usize));
                }
            }
            assert forall|j: int| n <= j < ps.len() implies pair_free(m, ps, r2, j) by {
                if pair_target(m, ps[j]) is Some {
                    lemma_targets_differ(m, ps, j, n - 1);
                    assert(pair_free(m, ps, r, j));
                }
            }
        } else {
            assert(r2 == r);
        }
    }
}

/// Restoring a profile puts each remembered workspace back on its output
/// (when both exist), provided the profile names each output and each
/// workspace once and its outputs show nothing when the restore begins.
pub proof fn law_restore_shows_recorded<R>(m: WorkspaceManager<R>, ps: Seq<(Seq<char>, Seq<char>)>, st: Shown)
    requires
        m.wf(),
        keys_distinct(ps),
        names_distinct(ps),
        st.actives.len() == m.workspaces@.len(),
        forall|i: int| 0 <= i < ps.len() ==> pair_free(m, ps, st, i),
    ensures
        forall|i: int| 0 <= i < ps.len() ==> pair_shown(m, ps, restore_pairs(m, st, ps, ps.len() as int), i),
{
    lemma_restore_prefix(m, ps, st, ps.len() as int);
}

} // verus!
