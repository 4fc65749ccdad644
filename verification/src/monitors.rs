//! Monitor identity for layout profiles: per-head keys and the key of a set
//! of monitors.

use std::collections::HashMap;
use vstd::prelude::*;
use vstd::hash_map::StringHashMap;
use crate::lex::{
    lemma_lex_irreflexive, lemma_lex_total, lemma_lex_transitive, lemma_sorted_unique, lex_less,
    lex_lt, strictly_sorted,
};
use crate::monitor_memory::{builtin_connector, is_builtin_connector};
use crate::text::{char_vecs, 
    alphanumeric, chars_of, concat_chars, connector_suffix_at, is_alphanumeric, lemma_last_open,
    rfind_open, slice_chars, string_from_chars, trim_chars, trimmed,
};

verus! {

/// A character that can appear in a connector token (`DP-3`, `eDP-1`).
pub open spec fn token_char(c: char) -> bool {
    alphanumeric(c) || c == '-'
}

/// The description with a trailing `" (connector)"` token removed (and the
/// rest trimmed again); descriptions without such a token are only trimmed.
/// A parenthesised part that is not a bare connector token is kept.
pub open spec fn canonical(desc: Seq<char>) -> Seq<char> {
    let t = trimmed(desc);
    match connector_suffix_at(t) {
        Some(o) => if forall|i: int| o + 2 <= i < t.len() - 1 ==> token_char(#[trigger] t[i]) {
            trimmed(t.subrange(0, o))
        } else {
            t
        },
        None => t,
    }
}

/// Strip a trailing `" (connector)"` suffix added by wlroots from an EDID
/// description, so the identity survives moving the monitor to another port.
pub fn canonical_descriptor(desc: &str) -> (r: String)
    ensures
        r@ == canonical(desc@),
{
    let d = chars_of(desc);
    let t = trim_chars(d.as_slice());
    proof {
        lemma_last_open(t@);
    }
    match rfind_open(t.as_slice()) {
        Some(open) => {
            if t.len() > 0 && t[t.len() - 1] == ')' {
                let mut i = open + 2;
                let end = t.len() - 1;
                let mut all_token = true;
                while i < end
                    invariant
                        open + 2 <= i,
                        end == t@.len() - 1,
                        i <= end || open + 2 > end,
                        all_token == forall|j: int| open + 2 <= j < i ==> token_char(#[trigger] t@[j]),
                    decreases end - i,
                {
                    let c = t[i];
                    if !(is_alphanumeric(c) || c == '-') {
                        all_token = false;
                    }
                    i += 1;
                }
                if all_token {
                    let head = slice_chars(t.as_slice(), 0, open);
                    let h = trim_chars(head.as_slice());
                    string_from_chars(h.as_slice())
                } else {
                    string_from_chars(t.as_slice())
                }
            } else {
                string_from_chars(t.as_slice())
            }
        },
        None => string_from_chars(t.as_slice()),
    }
}

/// The per-head key: the canonical description when it is not empty,
/// otherwise the connector name of a built-in panel.
pub open spec fn head_key(name: Option<Seq<char>>, description: Option<Seq<char>>) -> Option<Seq<char>> {
    let from_desc = match description {
        Some(d) => if canonical(d).len() > 0 { Some(canonical(d)) } else { None },
        None => None,
    };
    if from_desc is Some {
        from_desc
    } else {
        match name {
            Some(n) => if builtin_connector(n) { Some(n) } else { None },
            None => None,
        }
    }
}

/// The view of an optional string slice.
pub open spec fn opt_str(s: Option<&str>) -> Option<Seq<char>> {
    match s {
        Some(v) => Some(v@),
        None => None,
    }
}

/// Stable per-monitor key from a head's connector name and description.
pub fn monitor_key(name: Option<&str>, description: Option<&str>) -> (r: Option<String>)
    ensures
        match r {
            Some(s) => head_key(opt_str(name), opt_str(description)) == Some(s@),
            None => head_key(opt_str(name), opt_str(description)) is None,
        },
{
    if let Some(desc) = description {
        let canon = canonical_descriptor(desc);
        if !canon.as_str().is_empty() {
            return Some(canon);
        }
    }
    if let Some(name) = name {
        if is_builtin_connector(name) {
            return Some(name.to_owned());
        }
    }
    None
}

/// The strings of `keys`, as character sequences.
pub open spec fn key_views(keys: Seq<&str>) -> Seq<Seq<char>> {
    keys.map_values(|k: &str| k@)
}

/// The members of `s` in increasing order, each once.
pub open spec fn sorted_members(s: Set<Seq<char>>) -> Seq<Seq<char>> {
    choose|t: Seq<Seq<char>>| strictly_sorted(t) && t.to_set() == s
}

/// The lines `t` joined with newlines.
pub open spec fn join_lines(t: Seq<Seq<char>>) -> Seq<char>
    decreases t.len(),
{
    if t.len() == 0 {
        Seq::empty()
    } else if t.len() == 1 {
        t[0]
    } else {
        join_lines(t.drop_last()) + seq!['\n'] + t.last()
    }
}

/// The key of a set of monitors: its members sorted, each once, one per line.
pub open spec fn set_key(keys: Seq<Seq<char>>) -> Seq<char> {
    join_lines(sorted_members(keys.to_set()))
}


pub fn chars_equal(a: &[char], b: &[char]) -> (r: bool)
    ensures
        r == (a@ == b@),
{
    if a.len() != b.len() {
        return false;
    }
    let mut i: usize = 0;
    while i < a.len()
        invariant
            a@.len() == b@.len(),
            i <= a@.len(),
            forall|j: int| 0 <= j < i ==> a@[j] == b@[j],
        decreases a@.len() - i,
    {
        if a[i] != b[i] {
            return false;
        }
        i += 1;
    }
    proof {
        assert(a@ =~= b@);
    }
    true
}

/// Insert `k` into the sorted, repeat-free list `v`, unless it is already
/// there.
pub fn insert_sorted(v: &mut Vec<Vec<char>>, k: Vec<char>)
    requires
        strictly_sorted(char_vecs(old(v)@)),
    ensures
        strictly_sorted(char_vecs(final(v)@)),
        char_vecs(final(v)@).to_set() == char_vecs(old(v)@).to_set().insert(k@),
{
    let ghost before = char_vecs(v@);
    let mut pos: usize = 0;
    while pos < v.len() && lex_less(v[pos].as_slice(), k.as_slice())
        invariant
            pos <= v@.len(),
            before == char_vecs(v@),
            forall|j: int| 0 <= j < pos ==> lex_lt(#[trigger] before[j], k@),
        decreases v@.len() - pos,
    {
        pos += 1;
    }
    let dup = pos < v.len() && chars_equal(v[pos].as_slice(), k.as_slice());
    if !dup {
        proof {
            if pos < before.len() {
                lemma_lex_total(before[pos as int], k@);
            }
        }
        let ghost kv = k@;
        v.insert(pos, k);
        proof {
            let after = char_vecs(v@);
            assert(after =~= before.insert(pos as int, kv));
            assert forall|a: int, b: int| 0 <= a < b < after.len() implies lex_lt(#[trigger] after[a], #[trigger] after[b]) by {
                if b < pos {
                    assert(after[a] == before[a] && after[b] == before[b]);
                } else if b == pos {
                    assert(after[a] == before[a]);
                } else if a == pos {
                    assert(after[b] == before[b - 1]);
                    if b - 1 > pos {
                        lemma_lex_transitive(kv, before[pos as int], before[b - 1]);
                    }
                } else if a < pos {
                    assert(after[a] == before[a] && after[b] == before[b - 1]);
                } else {
                    assert(after[a] == before[a - 1] && after[b] == before[b - 1]);
                }
            }
            assert(after.to_set() =~= before.to_set().insert(kv)) by {
                assert forall|x: Seq<char>| after.to_set().contains(x) implies before.to_set().insert(kv).contains(x) by {
                    let m = choose|m: int| 0 <= m < after.len() && after[m] == x;
                    if m < pos {
                        assert(before[m] == x);
                    } else if m > pos {
                        assert(before[m - 1] == x);
                    }
                }
                assert forall|x: Seq<char>| before.to_set().insert(kv).contains(x) implies after.to_set().contains(x) by {
                    if x == kv {
                        assert(after[pos as int] == x);
                    } else {
                        let m = choose|m: int| 0 <= m < before.len() && before[m] == x;
                        if m < pos {
                            assert(after[m] == x);
                        } else {
                            assert(after[m + 1] == x);
                        }
                    }
                }
            }
        }
    } else {
        proof {
            assert(before[pos as int] == k@);
            assert(before.to_set().contains(k@));
            assert(before.to_set().insert(k@) =~= before.to_set());
        }
    }
}

/// The key identifying a set of monitors: the given keys sorted, with
/// repeats removed, joined by newlines.
pub fn set_key_from(keys: &[&str]) -> (r: String)
    ensures
        r@ == set_key(key_views(keys@)),
{
    let mut v: Vec<Vec<char>> = Vec::new();
    let mut i: usize = 0;
    while i < keys.len()
        invariant
            i <= keys@.len(),
            strictly_sorted(char_vecs(v@)),
            char_vecs(v@).to_set() == key_views(keys@.subrange(0, i as int)).to_set(),
        decreases keys@.len() - i,
    {
        let k = chars_of(keys[i]);
        proof {
            assert(key_views(keys@.subrange(0, i + 1)) =~= key_views(keys@.subrange(0, i as int)).push(k@));
            key_views(keys@.subrange(0, i as int)).lemma_push_to_set_commute(k@);
        }
        insert_sorted(&mut v, k);
        i += 1;
    }
    proof {
        assert(keys@.subrange(0, keys@.len() as int) =~= keys@);
        let t = char_vecs(v@);
        let s = sorted_members(key_views(keys@).to_set());
        assert(strictly_sorted(s) && s.to_set() == key_views(keys@).to_set());
        lemma_sorted_unique(s, t);
    }
    join_with_newlines(&v)
}

fn join_with_newlines(v: &Vec<Vec<char>>) -> (r: String)
    ensures
        r@ == join_lines(char_vecs(v@)),
{
    let mut out: Vec<char> = Vec::new();
    let mut i: usize = 0;
    while i < v.len()
        invariant
            i <= v@.len(),
            out@ == join_lines(char_vecs(v@).subrange(0, i as int)),
        decreases v@.len() - i,
    {
        let ghost pre = char_vecs(v@).subrange(0, i as int);
        proof {
            let nxt = char_vecs(v@).subrange(0, i + 1);
            assert(nxt.drop_last() =~= pre);
            assert(nxt.last() == v@[i as int]@);
        }
        if i > 0 {
            out.push('\n');
        }
        out = concat_chars(out.as_slice(), v[i].as_slice());
        proof {
            let nxt = char_vecs(v@).subrange(0, i + 1);
            if i == 0 {
                assert(out@ =~= nxt[0]);
            }
        }
        i += 1;
    }
    proof {
        assert(char_vecs(v@).subrange(0, v@.len() as int) =~= char_vecs(v@));
    }
    string_from_chars(out.as_slice())
}

/// The key of a set of monitors depends only on which monitors are in it:
/// the order in which they are listed and repeats make no difference.
pub proof fn law_set_key_depends_only_on_members(a: Seq<Seq<char>>, b: Seq<Seq<char>>)
    requires
        a.to_set() == b.to_set(),
    ensures
        set_key(a) == set_key(b),
{
}


/// Live state of a single head, as the output manager reports it.
#[derive(Debug, Clone, Default)]
pub struct HeadLive {
    pub name: Option<String>,
    pub description: Option<String>,
    pub enabled: bool,
    pub mode_w: i32,
    pub mode_h: i32,
    pub mode_refresh_mhz: i32,
    pub position_x: i32,
    pub position_y: i32,
    /// Scale in units of 1/120000.
    pub scale_fixed: i32,
    pub transform: i32,
    pub mode_ids: Vec<u64>,
    pub current_mode_id: Option<u64>,
}

/// Live state of a mode of a head.
#[derive(Debug, Clone, Default)]
pub struct ModeLive {
    pub w: i32,
    pub h: i32,
    pub refresh_mhz: i32,
    pub preferred: bool,
}

/// A head can be configured: it is disabled, or it lists at least one mode
/// and has a known current (or target) mode.
pub open spec fn head_ready(h: HeadLive) -> bool {
    h.enabled ==> (h.mode_ids@.len() > 0 && (h.current_mode_id is Some || (h.mode_w > 0 && h.mode_h > 0)))
}

/// True when every enabled head carries a usable mode; disabled heads impose
/// no requirement.
pub fn heads_have_apply_modes(heads: &HashMap<u64, HeadLive>) -> (r: bool)
    ensures
        r == forall|h: HeadLive| #[trigger] heads@.values().contains(h) ==> head_ready(h),
{
    broadcast use vstd::std_specs::hash::group_hash_axioms;
    let ghost all = heads@.values();
    for h in it: heads.values()
        invariant
            all == heads@.values(),
            it.seq().unref().to_set() == all,
            forall|j: int| 0 <= j < it.index() ==> head_ready(*#[trigger] it.seq()[j]),
            it.index() == it.seq().len() ==> forall|x: HeadLive| #[trigger] all.contains(x) ==> head_ready(x),
    {
        let ready = !h.enabled || (h.mode_ids.len() > 0 && (h.current_mode_id.is_some() || (h.mode_w > 0 && h.mode_h > 0)));
        if !ready {
            proof {
                let i = it.index();
                assert(it.seq().unref()[i] == *h);
                assert(all.contains(*h));
            }
            return false;
        }
    }
    true
}
// ── Debounced applies, retries and flap quarantine ───────────────────────
//
// Times are milliseconds on a monotonic clock chosen by the caller.

/// How long the topology must stay unchanged before a profile is applied.
pub const SETTLE_DELAY: u64 = 600;
/// Applies tried for one appearance of a monitor set before giving up.
pub const MAX_APPLY_ATTEMPTS: u32 = 5;
/// Wait after a failed apply, per failure so far.
pub const RETRY_BACKOFF: u64 = 800;
/// Longest wait after a failed apply.
pub const RETRY_BACKOFF_MAX: u64 = 4000;
/// Span over which reappearances of a set are counted.
pub const FLAP_WINDOW: u64 = 20000;
/// Reappearances within the span that a set may have before it counts as
/// flapping.
pub const FLAP_THRESHOLD: u32 = 4;
/// Quiet time a flapping set needs before it is applied to again.
pub const FLAP_COOLDOWN: u64 = 30000;

/// A debounced, pending profile application.
#[derive(Debug, Clone)]
pub struct PendingApply<P> {
    /// The monitor set this apply targets.
    pub set_key: String,
    /// The saved profile to apply.
    pub target: P,
    /// Earliest time at which the apply may fire; pushed forward on every
    /// topology change.
    pub deadline: u64,
}

/// The monitor manager's bookkeeping: the live heads and modes, the pending
/// apply, retry budgets and flap quarantine. `P` is a saved profile.
pub struct Monitors<P> {
    /// Most recent serial from the output manager.
    pub serial: Option<u32>,
    /// An apply was sent and its result has not arrived yet.
    pub apply_in_flight: bool,
    /// The set key seen in the last complete update.
    pub last_set_key: Option<String>,
    /// A set we applied ourselves and await the acknowledgement of.
    pub pending_self_apply: Option<String>,
    /// The apply to fire once the topology settles.
    pub pending_apply: Option<PendingApply<P>>,
    /// Apply attempts per set, for its current appearance.
    pub apply_attempts: StringHashMap<u32>,
    /// Earliest time each set may be applied again after a failure.
    pub retry_after: StringHashMap<u64>,
    /// When the topology last changed.
    pub last_topology_change: Option<u64>,
    /// Recent appearance times of each set.
    pub flap_history: StringHashMap<Vec<u64>>,
    /// Quarantined sets and when their quarantine may lift.
    pub flap_quarantine: StringHashMap<u64>,
    /// Live heads, by object id.
    pub heads: HashMap<u64, HeadLive>,
    /// Live modes, by object id.
    pub modes: HashMap<u64, ModeLive>,
}

impl<P> Default for Monitors<P> {
    fn default() -> (m: Self)
        ensures
            m.serial is None,
            !m.apply_in_flight,
            m.last_set_key is None,
            m.pending_self_apply is None,
            m.pending_apply is None,
            m.apply_attempts@ == Map::<Seq<char>, u32>::empty(),
            m.retry_after@ == Map::<Seq<char>, u64>::empty(),
            m.last_topology_change is None,
            m.flap_history@ == Map::<Seq<char>, Vec<u64>>::empty(),
            m.flap_quarantine@ == Map::<Seq<char>, u64>::empty(),
            m.heads@ == Map::<u64, HeadLive>::empty(),
            m.modes@ == Map::<u64, ModeLive>::empty(),
    {
        Monitors {
            serial: None,
            apply_in_flight: false,
            last_set_key: None,
            pending_self_apply: None,
            pending_apply: None,
            apply_attempts: StringHashMap::new(),
            retry_after: StringHashMap::new(),
            last_topology_change: None,
            flap_history: StringHashMap::new(),
            flap_quarantine: StringHashMap::new(),
            heads: HashMap::new(),
            modes: HashMap::new(),
        }
    }
}

/// The earliest time a set may be applied from `now` on: after its retry
/// backoff, if it has one.
pub open spec fn earliest_apply(retry: Map<Seq<char>, u64>, key: Seq<char>, now: u64) -> int {
    if retry.contains_key(key) && retry[key] > now {
        retry[key] as int
    } else {
        now as int
    }
}

/// The wait after the `n`-th failure in a row.
pub open spec fn backoff(n: u32) -> int {
    if RETRY_BACKOFF * n <= RETRY_BACKOFF_MAX {
        RETRY_BACKOFF * n
    } else {
        RETRY_BACKOFF_MAX as int
    }
}

/// Time from `t` to `now`, zero if `t` is later.
pub open spec fn elapsed(now: u64, t: u64) -> int {
    if now >= t { now - t } else { 0 }
}

/// Appearance times still within the flap window at `now`.
pub open spec fn in_window(now: u64) -> spec_fn(u64) -> bool {
    |t: u64| elapsed(now, t) < FLAP_WINDOW
}

/// The appearance history of `key` after an appearance at `now`: old
/// entries drop out of the window, `now` is added.
pub open spec fn history_after(h: Map<Seq<char>, Vec<u64>>, key: Seq<char>, now: u64) -> Seq<u64> {
    let old = if h.contains_key(key) { h[key]@ } else { Seq::empty() };
    old.filter(in_window(now)).push(now)
}

/// A pending deadline after a topology change at `now`: at least
/// `SETTLE_DELAY` away, never earlier than before.
pub open spec fn bumped_deadline(d: u64, now: u64) -> u64 {
    if now + SETTLE_DELAY > d { (now + SETTLE_DELAY) as u64 } else { d }
}

/// A topology change never brings a pending apply forward, and leaves it
/// at least `SETTLE_DELAY` in the future.
pub proof fn law_bump_never_earlier(d: u64, now: u64)
    requires
        now + SETTLE_DELAY <= u64::MAX,
    ensures
        bumped_deadline(d, now) >= d,
        bumped_deadline(d, now) >= now + SETTLE_DELAY,
        bumped_deadline(bumped_deadline(d, now), now) == bumped_deadline(d, now),
{
}

/// The retry backoff grows with each failure until it reaches its cap, and
/// never exceeds the cap.
pub proof fn law_backoff_escalates(a: u32, b: u32)
    requires
        a <= b,
    ensures
        backoff(a) <= backoff(b),
        backoff(b) <= RETRY_BACKOFF_MAX,
        backoff(a) < RETRY_BACKOFF_MAX ==> a < b ==> backoff(a) < backoff(b),
{
}

fn recent_times(h: &Vec<u64>, now: u64) -> (r: Vec<u64>)
    ensures
        r@ == h@.filter(in_window(now)),
{
    let ghost p = in_window(now);
    let mut r: Vec<u64> = Vec::new();
    let mut i: usize = 0;
    while i < h.len()
        invariant
            i <= h@.len(),
            p == in_window(now),
            r@ == h@.take(i as int).filter(p),
        decreases h@.len() - i,
    {
        let t = h[i];
        let e = if now >= t { now - t } else { 0 };
        proof {
            let a = h@.take(i as int);
            let b = h@.take(i + 1);
            assert(b.drop_last() =~= a);
            assert(b.last() == t);
            reveal(Seq::filter);
        }
        if e < FLAP_WINDOW {
            r.push(t);
        }
        i += 1;
    }
    proof {
        assert(h@.take(h@.len() as int) =~= h@);
    }
    r
}

impl<P> Monitors<P> {
    /// Schedule (or reschedule) a debounced apply of `target` for `set_key`:
    /// it fires `SETTLE_DELAY` after now, or after the set's retry backoff
    /// if that is later. Replaces any pending apply.
    pub fn schedule_apply(&mut self, set_key: String, target: P, now: u64)
        requires
            earliest_apply(old(self).retry_after@, set_key@, now) + SETTLE_DELAY <= u64::MAX,
        ensures
            final(self).pending_apply == Some(PendingApply {
                set_key,
                target,
                deadline: (earliest_apply(old(self).retry_after@, set_key@, now) + SETTLE_DELAY) as u64,
            }),
            *final(self) == (Monitors { pending_apply: final(self).pending_apply, ..*old(self) }),
    {
        let earliest = match self.retry_after.get(set_key.as_str()) {
            Some(t) => if *t > now { *t } else { now },
            None => now,
        };
        let deadline = earliest + SETTLE_DELAY;
        self.pending_apply = Some(PendingApply { set_key, target, deadline });
    }

    /// Push the pending apply's deadline to at least `SETTLE_DELAY` after
    /// now (never earlier than it was).
    pub fn bump_pending_deadline(&mut self, now: u64)
        requires
            old(self).pending_apply is Some ==> now + SETTLE_DELAY <= u64::MAX,
        ensures
            *final(self) == (Monitors {
                pending_apply: match old(self).pending_apply {
                    Some(p) => Some(PendingApply { deadline: bumped_deadline(p.deadline, now), ..p }),
                    None => None,
                },
                ..*old(self)
            }),
    {
        match self.pending_apply.take() {
            Some(p) => {
                let d = now + SETTLE_DELAY;
                let deadline = if d > p.deadline { d } else { p.deadline };
                self.pending_apply = Some(PendingApply { deadline, ..p });
            },
            None => {},
        }
    }

    /// Record that the topology changed now: restarts the quiet timer and
    /// bumps any pending apply's deadline.
    pub fn note_topology_change(&mut self, now: u64)
        requires
            old(self).pending_apply is Some ==> now + SETTLE_DELAY <= u64::MAX,
        ensures
            final(self).last_topology_change == Some(now),
            *final(self) == (Monitors {
                last_topology_change: Some(now),
                pending_apply: match old(self).pending_apply {
                    Some(p) => Some(PendingApply { deadline: bumped_deadline(p.deadline, now), ..p }),
                    None => None,
                },
                ..*old(self)
            }),
    {
        self.last_topology_change = Some(now);
        self.bump_pending_deadline(now);
    }

    /// The topology has not changed for at least `delay`; before any change
    /// was seen it counts as quiet.
    pub fn topology_quiet_for(&self, delay: u64, now: u64) -> (b: bool)
        ensures
            b == match self.last_topology_change {
                Some(t) => elapsed(now, t) >= delay,
                None => true,
            },
    {
        match self.last_topology_change {
            Some(t) => {
                let e = if now >= t { now - t } else { 0 };
                e >= delay
            },
            None => true,
        }
    }

    /// Cancel any pending apply.
    pub fn clear_pending_apply(&mut self)
        ensures
            *final(self) == (Monitors { pending_apply: None, ..*old(self) }),
    {
        self.pending_apply = None;
    }

    /// Record a failed apply of `set_key`: one more attempt, and a retry
    /// backoff of `RETRY_BACKOFF` per attempt so far, at most
    /// `RETRY_BACKOFF_MAX`. Whether attempts remain.
    pub fn note_apply_failure(&mut self, set_key: &str, now: u64) -> (more: bool)
        requires
            old(self).apply_attempts@.contains_key(set_key@) ==> old(self).apply_attempts@[set_key@] < u32::MAX,
            now + RETRY_BACKOFF_MAX <= u64::MAX,
        ensures
            ({
                let n = (if old(self).apply_attempts@.contains_key(set_key@) { old(self).apply_attempts@[set_key@] + 1 } else { 1int }) as u32;
                &&& final(self).apply_attempts@ == old(self).apply_attempts@.insert(set_key@, n)
                &&& final(self).retry_after@ == old(self).retry_after@.insert(set_key@, (now + backoff(n)) as u64)
                &&& more == (n < MAX_APPLY_ATTEMPTS)
            }),
            *final(self) == (Monitors { apply_attempts: final(self).apply_attempts, retry_after: final(self).retry_after, ..*old(self) }),
    {
        let n: u32 = match self.apply_attempts.get(set_key) {
            Some(a) => *a + 1,
            None => 1,
        };
        self.apply_attempts.insert(set_key.to_string(), n);
        let b: u64 = if RETRY_BACKOFF * (n as u64) <= RETRY_BACKOFF_MAX {
            RETRY_BACKOFF * (n as u64)
        } else {
            RETRY_BACKOFF_MAX
        };
        self.retry_after.insert(set_key.to_string(), now + b);
        n < MAX_APPLY_ATTEMPTS
    }

    /// Forget the failures and backoff of `set_key`.
    pub fn clear_failure(&mut self, set_key: &str)
        ensures
            final(self).apply_attempts@ == old(self).apply_attempts@.remove(set_key@),
            final(self).retry_after@ == old(self).retry_after@.remove(set_key@),
            *final(self) == (Monitors { apply_attempts: final(self).apply_attempts, retry_after: final(self).retry_after, ..*old(self) }),
    {
        self.apply_attempts.remove(set_key);
        self.retry_after.remove(set_key);
    }

    /// `set_key` has used up its apply attempts for this appearance.
    pub fn attempts_exhausted(&self, set_key: &str) -> (b: bool)
        ensures
            b == (self.apply_attempts@.contains_key(set_key@) && self.apply_attempts@[set_key@] >= MAX_APPLY_ATTEMPTS),
    {
        match self.apply_attempts.get(set_key) {
            Some(n) => *n >= MAX_APPLY_ATTEMPTS,
            None => false,
        }
    }

    /// Keep the attempt counters and backoffs of the live set only.
    pub fn reset_attempts_except(&mut self, live_set_key: &str)
        ensures
            final(self).apply_attempts@ == old(self).apply_attempts@.restrict(set![live_set_key@]),
            final(self).retry_after@ == old(self).retry_after@.restrict(set![live_set_key@]),
            *final(self) == (Monitors { apply_attempts: final(self).apply_attempts, retry_after: final(self).retry_after, ..*old(self) }),
    {
        let a = match self.apply_attempts.get(live_set_key) {
            Some(n) => Some(*n),
            None => None,
        };
        let r = match self.retry_after.get(live_set_key) {
            Some(t) => Some(*t),
            None => None,
        };
        self.apply_attempts.clear();
        self.retry_after.clear();
        match a {
            Some(n) => self.apply_attempts.insert(live_set_key.to_string(), n),
            None => {},
        }
        match r {
            Some(t) => self.retry_after.insert(live_set_key.to_string(), t),
            None => {},
        }
        proof {
            let k = live_set_key@;
            assert(self.apply_attempts@ =~= old(self).apply_attempts@.restrict(set![k]));
            assert(self.retry_after@ =~= old(self).retry_after@.restrict(set![k]));
        }
    }

    /// Record an appearance of `set_key` now; whether it is (now)
    /// quarantined. A set is quarantined once it appeared more than
    /// `FLAP_THRESHOLD` times within `FLAP_WINDOW`, and every appearance
    /// while quarantined pushes the quarantine to `FLAP_COOLDOWN` from now.
    pub fn note_set_appearance(&mut self, set_key: &str, now: u64) -> (quarantined: bool)
        requires
            now + FLAP_COOLDOWN <= u64::MAX,
        ensures
            ({
                let h = history_after(old(self).flap_history@, set_key@, now);
                let q = (h.len() as u32) > FLAP_THRESHOLD || old(self).flap_quarantine@.contains_key(set_key@);
                &&& final(self).flap_history@.contains_key(set_key@)
                &&& final(self).flap_history@[set_key@]@ == h
                &&& final(self).flap_history@.remove(set_key@) == old(self).flap_history@.remove(set_key@)
                &&& final(self).flap_quarantine@ == (if q {
                    old(self).flap_quarantine@.insert(set_key@, (now + FLAP_COOLDOWN) as u64)
                } else {
                    old(self).flap_quarantine@
                })
                &&& quarantined == q
            }),
            *final(self) == (Monitors { flap_history: final(self).flap_history, flap_quarantine: final(self).flap_quarantine, ..*old(self) }),
    {
        let mut h = match self.flap_history.get(set_key) {
            Some(v) => recent_times(v, now),
            None => Vec::new(),
        };
        proof {
            reveal(Seq::filter);
        }
        h.push(now);
        let count = h.len() as u32;
        let ghost hv = h@;
        self.flap_history.insert(set_key.to_string(), h);
        proof {
            assert(self.flap_history@.remove(set_key@) =~= old(self).flap_history@.remove(set_key@));
        }
        let already = self.flap_quarantine.contains_key(set_key);
        if count > FLAP_THRESHOLD || already {
            self.flap_quarantine.insert(set_key.to_string(), now + FLAP_COOLDOWN);
            return true;
        }
        false
    }

    /// Whether `set_key` is quarantined at `now`. An expired quarantine is
    /// lifted, and the set's flap history forgotten.
    pub fn flap_quarantined(&mut self, set_key: &str, now: u64) -> (b: bool)
        ensures
            b == (old(self).flap_quarantine@.contains_key(set_key@) && now < old(self).flap_quarantine@[set_key@]),
            if old(self).flap_quarantine@.contains_key(set_key@) && now >= old(self).flap_quarantine@[set_key@] {
                &&& final(self).flap_quarantine@ == old(self).flap_quarantine@.remove(set_key@)
                &&& final(self).flap_history@ == old(self).flap_history@.remove(set_key@)
            } else {
                &&& final(self).flap_quarantine@ == old(self).flap_quarantine@
                &&& final(self).flap_history@ == old(self).flap_history@
            },
            *final(self) == (Monitors { flap_history: final(self).flap_history, flap_quarantine: final(self).flap_quarantine, ..*old(self) }),
    {
        let until = match self.flap_quarantine.get(set_key) {
            Some(u) => *u,
            None => return false,
        };
        if now < until {
            true
        } else {
            self.flap_quarantine.remove(set_key);
            self.flap_history.remove(set_key);
            false
        }
    }

    /// Forget all flap bookkeeping of `set_key`.
    pub fn clear_flap(&mut self, set_key: &str)
        ensures
            final(self).flap_history@ == old(self).flap_history@.remove(set_key@),
            final(self).flap_quarantine@ == old(self).flap_quarantine@.remove(set_key@),
            *final(self) == (Monitors { flap_history: final(self).flap_history, flap_quarantine: final(self).flap_quarantine, ..*old(self) }),
    {
        self.flap_history.remove(set_key);
        self.flap_quarantine.remove(set_key);
    }
}

// ── Snapshots of the live heads ──────────────────────────────────────────

/// A monitor's configuration as read off its live head; the scale is in
/// units of 1/120000.
#[derive(Debug, Clone, Copy, PartialEq, Eq, Structural)]
pub struct HeadSnapshot {
    pub mode_w: i32,
    pub mode_h: i32,
    pub position_x: i32,
    pub position_y: i32,
    pub scale_fixed: i32,
    pub transform: i32,
    pub enabled: bool,
}

pub open spec fn opt_string(s: Option<String>) -> Option<Seq<char>> {
    match s {
        Some(v) => Some(v@),
        None => None,
    }
}

/// The mode size of a head: its current mode's, when that mode is known.
pub open spec fn head_dims(h: HeadLive, modes: Map<u64, ModeLive>) -> (i32, i32) {
    match h.current_mode_id {
        Some(id) => if modes.contains_key(id) { (modes[id].w, modes[id].h) } else { (h.mode_w, h.mode_h) },
        None => (h.mode_w, h.mode_h),
    }
}

/// The saved form of a head under its monitor key, when it is complete: a
/// disabled head is saved as disabled at scale 1; an enabled one needs a
/// positive mode size and scale.
pub open spec fn head_entry(h: HeadLive, modes: Map<u64, ModeLive>) -> Option<(Seq<char>, HeadSnapshot)> {
    match head_key(opt_string(h.name), opt_string(h.description)) {
        None => None,
        Some(k) => if !h.enabled {
            Some((k, HeadSnapshot { mode_w: 0, mode_h: 0, position_x: 0, position_y: 0, scale_fixed: 120000, transform: 0, enabled: false }))
        } else {
            let (w, hh) = head_dims(h, modes);
            if w <= 0 || hh <= 0 || h.scale_fixed <= 0 {
                None
            } else {
                Some((k, HeadSnapshot {
                    mode_w: w,
                    mode_h: hh,
                    position_x: h.position_x,
                    position_y: h.position_y,
                    scale_fixed: h.scale_fixed,
                    transform: h.transform,
                    enabled: true,
                }))
            }
        },
    }
}

pub open spec fn entry_view(e: (String, HeadSnapshot)) -> (Seq<char>, HeadSnapshot) {
    (e.0@, e.1)
}

fn head_entry_exec(h: &HeadLive, modes: &HashMap<u64, ModeLive>) -> (r: Option<(String, HeadSnapshot)>)
    ensures
        match r {
            Some(e) => head_entry(*h, modes@) == Some(entry_view(e)),
            None => head_entry(*h, modes@) is None,
        },
{
    let name = match &h.name {
        Some(n) => Some(n.as_str()),
        None => None,
    };
    let desc = match &h.description {
        Some(d) => Some(d.as_str()),
        None => None,
    };
    let key = match monitor_key(name, desc) {
        Some(k) => k,
        None => return None,
    };
    if !h.enabled {
        return Some((key, HeadSnapshot { mode_w: 0, mode_h: 0, position_x: 0, position_y: 0, scale_fixed: 120000, transform: 0, enabled: false }));
    }
    let (w, hh) = match h.current_mode_id {
        Some(id) => match modes.get(&id) {
            Some(m) => (m.w, m.h),
            None => (h.mode_w, h.mode_h),
        },
        None => (h.mode_w, h.mode_h),
    };
    if w <= 0 || hh <= 0 || h.scale_fixed <= 0 {
        return None;
    }
    Some((key, HeadSnapshot {
        mode_w: w,
        mode_h: hh,
        position_x: h.position_x,
        position_y: h.position_y,
        scale_fixed: h.scale_fixed,
        transform: h.transform,
        enabled: true,
    }))
}

/// Head `h`'s entry is among `es`.
pub open spec fn listed(es: Seq<(String, HeadSnapshot)>, mv: Map<u64, ModeLive>, h: HeadLive) -> bool {
    exists|i: int| 0 <= i < es.len() && head_entry(h, mv) == Some(entry_view(#[trigger] es[i]))
}

/// Entry `e` is the entry of one of the heads.
pub open spec fn of_some_head(all: Set<HeadLive>, mv: Map<u64, ModeLive>, e: (String, HeadSnapshot)) -> bool {
    exists|h: HeadLive| #[trigger] all.contains(h) && head_entry(h, mv) == Some(entry_view(e))
}

/// Every head has its entry among `es`, and every entry is some head's.
pub open spec fn entries_cover(all: Set<HeadLive>, mv: Map<u64, ModeLive>, es: Seq<(String, HeadSnapshot)>) -> bool {
    &&& forall|h: HeadLive| #[trigger] all.contains(h) ==> head_entry(h, mv) is Some
    &&& forall|h: HeadLive| #[trigger] all.contains(h) ==> listed(es, mv, h)
    &&& forall|i: int| 0 <= i < es.len() ==> of_some_head(all, mv, #[trigger] es[i])
}

proof fn lemma_entries_cover(sq: Seq<HeadLive>, all: Set<HeadLive>, mv: Map<u64, ModeLive>, es: Seq<(String, HeadSnapshot)>)
    requires
        sq.to_set() == all,
        es.len() <= sq.len(),
        forall|j: int| 0 <= j < es.len() ==> head_entry(#[trigger] sq[j], mv) == Some(entry_view(es[j])),
    ensures
        es.len() == sq.len() ==> entries_cover(all, mv, es),
{
    if es.len() < sq.len() {
        return;
    }
    assert forall|h: HeadLive| #[trigger] all.contains(h) implies listed(es, mv, h) by {
        assert(sq.to_set().contains(h));
        assert(sq.contains(h));
        let j = choose|j: int| 0 <= j < sq.len() && sq[j] == h;
        assert(head_entry(sq[j], mv) == Some(entry_view(es[j])));
    }
    assert forall|h: HeadLive| #[trigger] all.contains(h) implies head_entry(h, mv) is Some by {
        assert(sq.to_set().contains(h));
        assert(sq.contains(h));
        let j = choose|j: int| 0 <= j < sq.len() && sq[j] == h;
        assert(head_entry(sq[j], mv) == Some(entry_view(es[j])));
    }
    assert forall|i: int| 0 <= i < es.len() implies of_some_head(all, mv, #[trigger] es[i]) by {
        let h = sq[i];
        assert(sq.contains(h));
        assert(sq.to_set().contains(h));
        assert(all.contains(h));
        assert(head_entry(sq[i], mv) == Some(entry_view(es[i])));
    }

}

/// The set key and the saved form of every live head, or `None` while a
/// head lacks a monitor key or (enabled) a mode size or scale, or there are
/// no heads. The entries come in the heads' iteration order; the set key is
/// that of all their monitor keys.
#[verifier::rlimit(40)]
pub fn snapshot(heads: &HashMap<u64, HeadLive>, modes: &HashMap<u64, ModeLive>) -> (r: Option<(String, Vec<(String, HeadSnapshot)>)>)
    ensures
        r is Some <==> (heads@.len() > 0 && forall|h: HeadLive| #[trigger] heads@.values().contains(h) ==> head_entry(h, modes@) is Some),
        match r {
            Some((k, es)) => {
                &&& entries_cover(heads@.values(), modes@, es@)
                &&& k@ == set_key(es@.map_values(|e: (String, HeadSnapshot)| e.0@))
            },
            None => true,
        },
{
    broadcast use vstd::std_specs::hash::group_hash_axioms;
    let ghost all = heads@.values();
    let ghost mv = modes@;
    let mut entries: Vec<(String, HeadSnapshot)> = Vec::new();
    for h in it: heads.values()
        invariant
            all == heads@.values(),
            mv == modes@,
            it.seq().unref().to_set() == all,
            entries@.len() == it.index(),
            forall|j: int| 0 <= j < it.index() ==> head_entry(*#[trigger] it.seq()[j], mv) == Some(entry_view(entries@[j])),
            it.index() == it.seq().len() ==> entries_cover(all, mv, entries@),
    {
        let ghost i = it.index();
        match head_entry_exec(h, modes) {
            Some(e) => entries.push(e),
            None => {
                proof {
                    assert(it.seq().unref()[i] == *h);
                    assert(all.contains(*h));
                }
                return None;
            },
        }
        proof {
            assert(it.seq().unref()[i] == *h);
            assert forall|j: int| 0 <= j < entries@.len() implies head_entry(#[trigger] it.seq().unref()[j], mv) == Some(entry_view(entries@[j])) by {
                assert(it.seq().unref()[j] == *it.seq()[j]);
            }
            lemma_entries_cover(it.seq().unref(), all, mv, entries@);
        }
    }
    if entries.len() == 0 {
        proof {
            assert(all.len() == 0) by {
                if all.len() != 0 {
                    let h = all.choose();
                    assert(all.contains(h));
                }
            }
        }
        return None;
    }
    let mut keys: Vec<&str> = Vec::new();
    let mut i: usize = 0;
    while i < entries.len()
        invariant
            i <= entries@.len(),
            keys@.len() == i,
            forall|j: int| 0 <= j < i ==> (#[trigger] keys@[j])@ == entries@[j].0@,
        decreases entries@.len() - i,
    {
        keys.push(entries[i].0.as_str());
        i += 1;
    }
    proof {
        assert(key_views(keys@) =~= entries@.map_values(|e: (String, HeadSnapshot)| e.0@));
    }
    let key = set_key_from(keys.as_slice());
    Some((key, entries))
}

} // verus!
