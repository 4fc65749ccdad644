//! Per-monitor workspace memory.
//!
//! Records, for each physical monitor (identified by EDID description, with
//! connector name as fallback for built-in panels), which workspace was last
//! shown on it. When the monitor reconnects, the same workspace returns to it.

use vstd::prelude::*;
use crate::seqs::{first_match, lemma_first_match, lemma_first_match_none, lemma_first_match_unique};
use crate::text::{
    chars_of, concat_chars, has_prefix, rfind_open, slice_chars, str_eq, str_starts_with,
    string_from_chars, strip_connector, trim_chars, trimmed, connector_suffix_at,
};
use crate::workspace::Output;

verus! {

/// The connector belongs to a built-in panel (`eDP-*`, `LVDS-*`, `DSI-*`),
/// which is physically tied to its connector.
pub open spec fn builtin_connector(name: Seq<char>) -> bool {
    has_prefix(name, "eDP-"@) || has_prefix(name, "LVDS-"@) || has_prefix(name, "DSI-"@)
}

pub fn is_builtin_connector(name: &str) -> (b: bool)
    ensures
        b == builtin_connector(name@),
{
    str_starts_with(name, "eDP-") || str_starts_with(name, "LVDS-") || str_starts_with(name, "DSI-")
}

/// A key names a stable identity: an EDID description, or the connector of
/// a built-in panel. Geometry and external connectors are not identities.
pub open spec fn stable_key(key: Seq<char>) -> bool {
    has_prefix(key, "edid:"@) || (has_prefix(key, "conn:"@) && builtin_connector(
        key.subrange("conn:"@.len() as int, key.len() as int),
    ))
}

pub fn is_stable_key(key: &str) -> (b: bool)
    ensures
        b == stable_key(key@),
{
    if str_starts_with(key, "edid:") {
        return true;
    }
    if !str_starts_with(key, "conn:") {
        return false;
    }
    let k = chars_of(key);
    let prefix = chars_of("conn:");
    let rest = slice_chars(k.as_slice(), prefix.len(), k.len());
    let rest_s = string_from_chars(rest.as_slice());
    is_builtin_connector(rest_s.as_str())
}

/// `desc` without a trailing `" (connector)"` that wlroots appends.
pub fn strip_connector_suffix(desc: &str) -> (r: String)
    ensures
        r@ == strip_connector(desc@),
{
    let d = chars_of(desc);
    proof {
        crate::text::lemma_last_open(d@);
    }
    match rfind_open(d.as_slice()) {
        Some(open) => {
            if d.len() > 0 && d[d.len() - 1] == ')' {
                let head = slice_chars(d.as_slice(), 0, open);
                string_from_chars(head.as_slice())
            } else {
                string_from_chars(d.as_slice())
            }
        },
        None => string_from_chars(d.as_slice()),
    }
}

/// The stable identifier of a physical monitor, if its metadata allows one:
/// `edid:` and the trimmed description without its connector suffix, or, for
/// built-in panels only, `conn:` and the connector name.
pub open spec fn memory_key(o: Output) -> Option<Seq<char>> {
    let from_desc = match o.description {
        Some(d) => {
            let t = trimmed(strip_connector(d@));
            if t.len() > 0 { Some("edid:"@ + t) } else { None }
        },
        None => None,
    };
    if from_desc is Some {
        from_desc
    } else {
        match o.name {
            Some(n) => if builtin_connector(n@) { Some("conn:"@ + n@) } else { None },
            None => None,
        }
    }
}

fn prefixed(prefix: &str, rest: &[char]) -> (r: String)
    ensures
        r@ == prefix@ + rest@,
{
    let p = chars_of(prefix);
    let all = concat_chars(p.as_slice(), rest);
    string_from_chars(all.as_slice())
}

/// Stable identifier for a physical monitor; `None` when the output has no
/// stable identity yet (callers defer their decision until it has one).
pub fn monitor_key(output: &Output) -> (r: Option<String>)
    ensures
        match r {
            Some(s) => memory_key(*output) == Some(s@),
            None => memory_key(*output) is None,
        },
{
    if let Some(desc) = &output.description {
        let stripped = strip_connector_suffix(desc.as_str());
        let sc = chars_of(stripped.as_str());
        let t = trim_chars(sc.as_slice());
        if t.len() > 0 {
            return Some(prefixed("edid:", t.as_slice()));
        }
    }
    if let Some(name) = &output.name {
        if is_builtin_connector(name.as_str()) {
            let n = chars_of(name.as_str());
            return Some(prefixed("conn:", n.as_slice()));
        }
    }
    None
}

/// Map: monitor key -> name of the workspace last shown there.
#[derive(Debug, Clone, Default)]
pub struct MonitorMemory {
    /// `(monitor key, workspace name)` pairs; no key appears twice.
    pub entries: Vec<(String, String)>,
}

/// The entry is for monitor `key`.
pub open spec fn entry_for(key: Seq<char>) -> spec_fn((String, String)) -> bool {
    |e: (String, String)| e.0@ == key
}

/// The workspace remembered for monitor `key`.
pub open spec fn lookup(entries: Seq<(String, String)>, key: Seq<char>) -> Option<Seq<char>> {
    match first_match(entries, entry_for(key)) {
        Some(i) => Some(entries[i].1@),
        None => None,
    }
}

/// No monitor key appears twice.
pub open spec fn keys_distinct(entries: Seq<(String, String)>) -> bool {
    forall|i: int, j: int| 0 <= i < j < entries.len() ==> (#[trigger] entries[i]).0@ != (#[trigger] entries[j]).0@
}

impl MonitorMemory {
    /// The memory as well-formed: every monitor key appears once.
    pub open spec fn wf(&self) -> bool {
        keys_distinct(self.entries@)
    }

    /// The workspace remembered for `key`.
    pub open spec fn remembered(&self, key: Seq<char>) -> Option<Seq<char>> {
        lookup(self.entries@, key)
    }

    fn position(&self, key: &str) -> (r: Option<usize>)
        ensures
            match r {
                Some(i) => first_match(self.entries@, entry_for(key@)) == Some(i as int),
                None => first_match(self.entries@, entry_for(key@)) is None,
            },
    {
        let ghost p = entry_for(key@);
        let mut i: usize = 0;
        while i < self.entries.len()
            invariant
                i <= self.entries@.len(),
                p == entry_for(key@),
                forall|j: int| 0 <= j < i ==> !p(#[trigger] self.entries@[j]),
            decreases self.entries@.len() - i,
        {
            if str_eq(self.entries[i].0.as_str(), key) {
                proof {
                    lemma_first_match_unique(self.entries@, p, i as int);
                }
                return Some(i);
            }
            i += 1;
        }
        proof {
            lemma_first_match_none(self.entries@, p);
        }
        None
    }

    /// The workspace that was last shown on the monitor with `key`.
    pub fn get(&self, key: &str) -> (r: Option<&str>)
        ensures
            match r {
                Some(s) => self.remembered(key@) == Some(s@),
                None => self.remembered(key@) is None,
            },
    {
        match self.position(key) {
            Some(i) => {
                proof {
                    lemma_first_match(self.entries@, entry_for(key@));
                    assert(first_match(self.entries@, entry_for(key@)) == Some(i as int));
                }
                Some(self.entries[i].1.as_str())
            },
            None => None,
        }
    }

    /// Record `workspace` as the occupant of the monitor with `key`.
    /// Returns whether the memory changed.
    pub fn record(&mut self, key: String, workspace: String) -> (changed: bool)
        requires
            old(self).wf(),
        ensures
            final(self).wf(),
            changed == (old(self).remembered(key@) != Some(workspace@)),
            final(self).remembered(key@) == Some(workspace@),
            forall|k: Seq<char>| k != key@ ==> #[trigger] final(self).remembered(k) == old(self).remembered(k),
    {
        let ghost old_entries = self.entries@;
        match self.position(key.as_str()) {
            Some(i) => {
                proof {
                    lemma_first_match(self.entries@, entry_for(key@));
                    assert(first_match(self.entries@, entry_for(key@)) == Some(i as int));
                    assert(self.remembered(key@) == Some(self.entries@[i as int].1@));
                }
                if str_eq(self.entries[i].1.as_str(), workspace.as_str()) {
                    return false;
                }
                let entry = (key, workspace);
                self.entries.set(i, entry);
                proof {
                    let e = self.entries@;
                    assert(keys_distinct(e)) by {
                        assert forall|a: int, b: int| 0 <= a < b < e.len() implies (#[trigger] e[a]).0@ != (#[trigger] e[b]).0@ by {
                            if a != i && b != i {
                                assert(e[a] == old_entries[a] && e[b] == old_entries[b]);
                            } else if a == i {
                                assert(old_entries[a].0@ == key@);
                                assert(e[b] == old_entries[b]);
                            } else {
                                assert(old_entries[b].0@ == key@);
                                assert(e[a] == old_entries[a]);
                            }
                        }
                    }
                    lemma_lookup_update(old_entries, i as int, entry);
                }
                true
            },
            None => {
                proof {
                    lemma_first_match(self.entries@, entry_for(key@));
                }
                let entry = (key, workspace);
                self.entries.push(entry);
                proof {
                    let e = self.entries@;
                    assert(keys_distinct(e)) by {
                        assert forall|a: int, b: int| 0 <= a < b < e.len() implies (#[trigger] e[a]).0@ != (#[trigger] e[b]).0@ by {
                            if b == e.len() - 1 {
                                assert(!entry_for(key@)(old_entries[a]));
                            }
                        }
                    }
                    lemma_lookup_push(old_entries, entry);
                }
                true
            },
        }
    }

    /// Drop every entry whose key is not a stable monitor identity (geometry
    /// keys, external connector names). Returns whether anything was dropped.
    pub fn prune_unstable(&mut self) -> (changed: bool)
        requires
            old(self).wf(),
        ensures
            final(self).wf(),
            forall|k: Seq<char>| #[trigger] final(self).remembered(k) == (if stable_key(k) {
                old(self).remembered(k)
            } else {
                None
            }),
            changed == exists|i: int| 0 <= i < old(self).entries@.len() && !stable_key(
                (#[trigger] old(self).entries@[i]).0@,
            ),
    {
        let ghost old_entries = self.entries@;
        let mut kept: Vec<(String, String)> = Vec::new();
        let mut dropped = false;
        let mut entries: Vec<(String, String)> = Vec::new();
        std::mem::swap(&mut entries, &mut self.entries);
        let n = entries.len();
        let mut i: usize = 0;
        while i < n
            invariant
                n == entries@.len(),
                entries@ == old_entries,
                keys_distinct(old_entries),
                i <= n,
                kept@ == stable_part(old_entries.subrange(0, i as int)),
                dropped == exists|j: int| 0 <= j < i && !stable_key((#[trigger] old_entries[j]).0@),
            decreases n - i,
        {
            let stable = is_stable_key(entries[i].0.as_str());
            let e = (entries[i].0.clone(), entries[i].1.clone());
            proof {
                let f = stable_entry();
                assert(old_entries.subrange(0, i + 1) =~= old_entries.subrange(0, i as int).push(old_entries[i as int]));
            }
            if stable {
                kept.push(e);
            } else {
                dropped = true;
            }
            proof {
                let f = stable_entry();
                let pre = old_entries.subrange(0, i as int);
                assert(pre.push(old_entries[i as int]).filter(f) == if f(old_entries[i as int]) {
                    pre.filter(f).push(old_entries[i as int])
                } else {
                    pre.filter(f)
                }) by {
                    reveal(Seq::filter);
                    assert(pre.push(old_entries[i as int]).drop_last() =~= pre);
                }
            }
            i += 1;
        }
        self.entries = kept;
        proof {
            assert(old_entries.subrange(0, n as int) =~= old_entries);
            lemma_filter_stable(old_entries);
        }
        dropped
    }
}

/// The entry's key is a stable identity.
pub open spec fn stable_entry() -> spec_fn((String, String)) -> bool {
    |x: (String, String)| stable_key(x.0@)
}

/// The entries whose keys are stable identities, in order.
pub open spec fn stable_part(e: Seq<(String, String)>) -> Seq<(String, String)> {
    e.filter(stable_entry())
}

proof fn lemma_lookup_update(e: Seq<(String, String)>, i: int, entry: (String, String))
    requires
        keys_distinct(e),
        0 <= i < e.len(),
        e[i].0@ == entry.0@,
    ensures
        lookup(e.update(i, entry), entry.0@) == Some(entry.1@),
        forall|k: Seq<char>| k != entry.0@ ==> #[trigger] lookup(e.update(i, entry), k) == lookup(e, k),
{
    let u = e.update(i, entry);
    assert(crate::seqs::is_first(u, entry_for(entry.0@), i)) by {
        assert forall|j: int| 0 <= j < i implies !entry_for(entry.0@)(#[trigger] u[j]) by {
            assert(u[j] == e[j]);
        }
    }
    lemma_first_match_unique(u, entry_for(entry.0@), i);
    assert forall|k: Seq<char>| k != entry.0@ implies #[trigger] lookup(u, k) == lookup(e, k) by {
        lemma_first_match(e, entry_for(k));
        lemma_first_match(u, entry_for(k));
        match first_match(e, entry_for(k)) {
            Some(m) => {
                assert(m != i);
                assert(crate::seqs::is_first(u, entry_for(k), m)) by {
                    assert(u[m] == e[m]);
                    assert forall|j: int| 0 <= j < m implies !entry_for(k)(#[trigger] u[j]) by {
                        if j != i {
                            assert(u[j] == e[j]);
                        }
                    }
                }
                lemma_first_match_unique(u, entry_for(k), m);
            },
            None => {
                assert forall|j: int| 0 <= j < u.len() implies !entry_for(k)(#[trigger] u[j]) by {
                    if j != i {
                        assert(u[j] == e[j]);
                    }
                }
                lemma_first_match_none(u, entry_for(k));
            },
        }
    }
}

proof fn lemma_lookup_push(e: Seq<(String, String)>, entry: (String, String))
    requires
        lookup(e, entry.0@) is None,
    ensures
        lookup(e.push(entry), entry.0@) == Some(entry.1@),
        forall|k: Seq<char>| k != entry.0@ ==> #[trigger] lookup(e.push(entry), k) == lookup(e, k),
{
    let u = e.push(entry);
    lemma_first_match(e, entry_for(entry.0@));
    assert(crate::seqs::is_first(u, entry_for(entry.0@), e.len() as int)) by {
        assert forall|j: int| 0 <= j < e.len() implies !entry_for(entry.0@)(#[trigger] u[j]) by {
            assert(u[j] == e[j]);
        }
    }
    lemma_first_match_unique(u, entry_for(entry.0@), e.len() as int);
    assert forall|k: Seq<char>| k != entry.0@ implies #[trigger] lookup(u, k) == lookup(e, k) by {
        lemma_first_match(e, entry_for(k));
        match first_match(e, entry_for(k)) {
            Some(m) => {
                assert(crate::seqs::is_first(u, entry_for(k), m)) by {
                    assert(u[m] == e[m]);
                    assert forall|j: int| 0 <= j < m implies !entry_for(k)(#[trigger] u[j]) by {
                        assert(u[j] == e[j]);
                    }
                }
                lemma_first_match_unique(u, entry_for(k), m);
            },
            None => {
                assert forall|j: int| 0 <= j < u.len() implies !entry_for(k)(#[trigger] u[j]) by {
                    if j < e.len() {
                        assert(u[j] == e[j]);
                    }
                }
                lemma_first_match_none(u, entry_for(k));
            },
        }
    }
}

proof fn lemma_filter_stable(e: Seq<(String, String)>)
    requires
        keys_distinct(e),
    ensures
        keys_distinct(stable_part(e)),
        forall|k: Seq<char>| #[trigger] lookup(stable_part(e), k) == (if stable_key(k) {
            lookup(e, k)
        } else {
            None
        }),
    decreases e.len(),
{
    let f = stable_entry();
    if e.len() == 0 {
        assert(e.filter(f) =~= Seq::<(String, String)>::empty()) by {
            reveal(Seq::filter);
        }
        assert forall|k: Seq<char>| #[trigger] lookup(e.filter(f), k) == (if stable_key(k) { lookup(e, k) } else { None }) by {
            lemma_first_match_none(e, entry_for(k));
            lemma_first_match_none(e.filter(f), entry_for(k));
        }
    } else {
        let p = e.drop_last();
        let x = e.last();
        assert(keys_distinct(p)) by {
            assert forall|a: int, b: int| 0 <= a < b < p.len() implies (#[trigger] p[a]).0@ != (#[trigger] p[b]).0@ by {
                assert(p[a] == e[a] && p[b] == e[b]);
            }
        }
        lemma_filter_stable(p);
        assert(e =~= p.push(x));
        assert(e.filter(f) == (if f(x) { p.filter(f).push(x) } else { p.filter(f) })) by {
            reveal(Seq::filter);
        }
        // the last key is not among the earlier ones
        assert(lookup(p, x.0@) is None) by {
            assert forall|j: int| 0 <= j < p.len() implies !entry_for(x.0@)(#[trigger] p[j]) by {
                assert(p[j] == e[j]);
                assert(e[j].0@ != e[e.len() - 1].0@);
            }
            lemma_first_match_none(p, entry_for(x.0@));
        }
        lemma_lookup_push(p, x);
        if f(x) {
            let pf = p.filter(f);
            assert(lookup(pf, x.0@) is None);
            lemma_lookup_push(pf, x);
            assert(keys_distinct(pf.push(x))) by {
                let q = pf.push(x);
                assert forall|a: int, b: int| 0 <= a < b < q.len() implies (#[trigger] q[a]).0@ != (#[trigger] q[b]).0@ by {
                    if b == q.len() - 1 {
                        lemma_first_match_none_elim(pf, x.0@, a);
                    } else {
                        assert(q[a] == pf[a] && q[b] == pf[b]);
                    }
                }
            }
        }
    }
}

proof fn lemma_first_match_none_elim(s: Seq<(String, String)>, key: Seq<char>, a: int)
    requires
        lookup(s, key) is None,
        0 <= a < s.len(),
    ensures
        s[a].0@ != key,
{
    lemma_first_match(s, entry_for(key));
}

} // verus!
