//! Key bindings: modifier parsing, turning configured bindings into
//! registered ones, and the built-in binding profiles.

pub mod modifiers;

use vstd::prelude::*;
use crate::actions::{parsed_as, Action};
use crate::config::{BindingConfig, ProfileConfig};
use crate::seqs::{first_match, lemma_first_match, lemma_first_match_none, lemma_first_match_unique};
use crate::workspace::string_views;
use crate::text::{chars_of, lowercase, str_eq, string_from_chars, to_lowercase, trim_chars, trimmed};

verus! {

/// A parsed key binding ready to be registered with the compositor.
#[derive(Debug)]
pub struct Binding {
    pub keysym: u32,
    pub modifiers: u32,
    pub action: Action,
    /// The keyboard layout whose physical keys the binding follows, if any.
    pub layout_override: Option<u32>,
}

/// The parts of `s` between `+` signs, as `str::split('+')` gives them
/// (empty parts included).
pub open spec fn split_plus(s: Seq<char>) -> Seq<Seq<char>>
    decreases s.len(),
{
    if s.len() == 0 {
        seq![Seq::empty()]
    } else {
        let p = split_plus(s.drop_last());
        if s.last() == '+' {
            p.push(Seq::empty())
        } else {
            p.update(p.len() - 1, p.last().push(s.last()))
        }
    }
}

/// The flag a (lowercase, trimmed) modifier name stands for; unknown names
/// and empty parts stand for none.
pub open spec fn modifier_bit(name: Seq<char>) -> u32 {
    if name == "super"@ || name == "mod4"@ || name == "logo"@ {
        modifiers::MOD4
    } else if name == "alt"@ || name == "mod1"@ {
        modifiers::MOD1
    } else if name == "shift"@ {
        modifiers::SHIFT
    } else if name == "ctrl"@ || name == "control"@ {
        modifiers::CTRL
    } else if name == "mod2"@ {
        modifiers::MOD2
    } else if name == "mod3"@ {
        modifiers::MOD3
    } else if name == "mod5"@ {
        modifiers::MOD5
    } else {
        0
    }
}

/// The flags of all parts, each trimmed and lowercased.
pub open spec fn mask_of(parts: Seq<Seq<char>>) -> u32
    decreases parts.len(),
{
    if parts.len() == 0 {
        0
    } else {
        mask_of(parts.drop_last()) | modifier_bit(lowercase(trimmed(parts.last())))
    }
}

/// The modifier mask a string like "super+shift" names.
pub open spec fn modifier_mask(s: Seq<char>) -> u32 {
    mask_of(split_plus(s))
}

proof fn lemma_split_plus_len(s: Seq<char>)
    ensures
        split_plus(s).len() >= 1,
    decreases s.len(),
{
    if s.len() > 0 {
        lemma_split_plus_len(s.drop_last());
    }
}

/// The modifier flag a lowercased name stands for (0 for an unknown name).
pub fn modifier_flag(lower: &str) -> (b: u32)
    ensures
        b == modifier_bit(lower@),
{
    if str_eq(lower, "super") || str_eq(lower, "mod4") || str_eq(lower, "logo") {
        modifiers::MOD4
    } else if str_eq(lower, "alt") || str_eq(lower, "mod1") {
        modifiers::MOD1
    } else if str_eq(lower, "shift") {
        modifiers::SHIFT
    } else if str_eq(lower, "ctrl") || str_eq(lower, "control") {
        modifiers::CTRL
    } else if str_eq(lower, "mod2") {
        modifiers::MOD2
    } else if str_eq(lower, "mod3") {
        modifiers::MOD3
    } else if str_eq(lower, "mod5") {
        modifiers::MOD5
    } else {
        0
    }
}

fn part_bit(part: &[char]) -> (b: u32)
    ensures
        b == modifier_bit(lowercase(trimmed(part@))),
{
    let t = trim_chars(part);
    let st = string_from_chars(t.as_slice());
    let lower = to_lowercase(st.as_str());
    modifier_flag(lower.as_str())
}

/// Parse a modifier string like "super+shift" into a bitmask. Parts are
/// trimmed and matched in any letter case; unknown parts add nothing.
pub fn parse_modifiers(s: &str) -> (m: u32)
    ensures
        m == modifier_mask(s@),
{
    let cs = chars_of(s);
    let mut mods: u32 = 0;
    let mut cur: Vec<char> = Vec::new();
    let ghost mut done: Seq<Seq<char>> = Seq::empty();
    let mut i: usize = 0;
    proof {
        assert(cs@.take(0) =~= Seq::<char>::empty());
    }
    while i < cs.len()
        invariant
            i <= cs@.len(),
            cs@ == s@,
            split_plus(cs@.take(i as int)) == done.push(cur@),
            mods == mask_of(done),
        decreases cs@.len() - i,
    {
        let c = cs[i];
        proof {
            assert(cs@.take(i + 1).drop_last() =~= cs@.take(i as int));
            assert(cs@.take(i + 1).last() == c);
        }
        if c == '+' {
            let b = part_bit(cur.as_slice());
            proof {
                assert(done.push(cur@).drop_last() =~= done);
                done = done.push(cur@);
            }
            mods = mods | b;
            cur = Vec::new();
            proof {
                assert(cur@ =~= Seq::<char>::empty());
            }
        } else {
            let ghost before = cur@;
            cur.push(c);
            proof {
                let p = done.push(before);
                assert(p.update(p.len() - 1, p.last().push(c)) =~= done.push(cur@));
            }
        }
        i += 1;
    }
    proof {
        assert(cs@.take(cs@.len() as int) =~= cs@);
        assert(done.push(cur@).drop_last() =~= done);
    }
    let b = part_bit(cur.as_slice());
    mods | b
}

/// The key symbol a key name stands for, given what the exact lookup and
/// the any-case lookup of the name gave (0, `KEY_NoSymbol`, for unknown):
/// the exact one first, then the any-case one, else none.
pub open spec fn keysym_choice_of(exact: u32, any_case: u32) -> Option<u32> {
    if exact != 0 {
        Some(exact)
    } else if any_case != 0 {
        Some(any_case)
    } else {
        None
    }
}

/// Choose a key name's symbol from its exact and any-case lookups.
pub fn keysym_choice(exact: u32, any_case: u32) -> (r: Option<u32>)
    ensures
        r == keysym_choice_of(exact, any_case),
{
    if exact != 0 {
        Some(exact)
    } else if any_case != 0 {
        Some(any_case)
    } else {
        None
    }
}

/// `b` is the binding configuration `cfg` becomes with key symbol `keysym`.
pub open spec fn binding_from(b: Binding, cfg: BindingConfig, keysym: u32, physical_keys: bool, layout_index: u32) -> bool {
    &&& b.keysym == keysym
    &&& b.modifiers == modifier_mask(cfg.modifiers@)
    &&& parsed_as(b.action, cfg.action@, cfg.args@)
    &&& b.layout_override == (if physical_keys { Some(layout_index) } else { None })
}

/// Turn a configured binding into one to register, given the key symbol
/// its key name resolves to (`None` when the name is unknown, which drops
/// the binding).
pub fn parse_binding(cfg: &BindingConfig, keysym: Option<u32>, physical_keys: bool, layout_index: u32) -> (r: Option<Binding>)
    ensures
        match keysym {
            None => r is None,
            Some(k) => r matches Some(b) && binding_from(b, *cfg, k, physical_keys, layout_index),
        },
{
    let keysym = match keysym {
        Some(k) => k,
        None => return None,
    };
    let mods = parse_modifiers(cfg.modifiers.as_str());
    let action = Action::from_config(cfg.action.as_str(), cfg.args.as_slice());
    Some(Binding {
        keysym,
        modifiers: mods,
        action,
        layout_override: if physical_keys { Some(layout_index) } else { None },
    })
}

/// The positions whose key symbol resolved.
pub open spec fn resolved(keysyms: Seq<Option<u32>>) -> Seq<int>
    decreases keysyms.len(),
{
    if keysyms.len() == 0 {
        Seq::empty()
    } else if keysyms.last() is Some {
        resolved(keysyms.drop_last()).push(keysyms.len() - 1)
    } else {
        resolved(keysyms.drop_last())
    }
}

/// `r` holds, in order, the bindings made from the configured bindings
/// whose key symbol resolved.
pub open spec fn parsed_all(r: Seq<Binding>, bindings: Seq<BindingConfig>, keysyms: Seq<Option<u32>>, physical_keys: bool, layout_index: u32) -> bool {
    &&& r.len() == resolved(keysyms).len()
    &&& forall|j: int| 0 <= j < r.len() ==> made_from(#[trigger] r[j], resolved(keysyms)[j], bindings, keysyms, physical_keys, layout_index)
}

/// `b` is made from the configured binding at position `k`.
pub open spec fn made_from(b: Binding, k: int, bindings: Seq<BindingConfig>, keysyms: Seq<Option<u32>>, physical_keys: bool, layout_index: u32) -> bool {
    &&& 0 <= k < bindings.len()
    &&& binding_from(b, bindings[k], keysyms[k].unwrap(), physical_keys, layout_index)
}

/// Parse all configured bindings of a mode; `keysyms[i]` is what the key
/// name of `bindings[i]` resolves to. Bindings whose key is unknown are
/// dropped; the others keep their order.
pub fn parse_all_bindings(bindings: &[BindingConfig], keysyms: &[Option<u32>], physical_keys: bool, layout_index: u32) -> (r: Vec<Binding>)
    requires
        keysyms@.len() == bindings@.len(),
    ensures
        parsed_all(r@, bindings@, keysyms@, physical_keys, layout_index),
{
    let mut r: Vec<Binding> = Vec::new();
    let mut i: usize = 0;
    while i < bindings.len()
        invariant
            i <= bindings@.len(),
            keysyms@.len() == bindings@.len(),
            r@.len() == resolved(keysyms@.take(i as int)).len(),
            forall|j: int| 0 <= j < r@.len() ==> {
                let k = resolved(keysyms@.take(i as int))[j];
                &&& 0 <= k < i
                &&& binding_from(#[trigger] r@[j], bindings@[k], keysyms@[k].unwrap(), physical_keys, layout_index)
            },
        decreases bindings@.len() - i,
    {
        let ghost pre = keysyms@.take(i as int);
        let ghost nxt = keysyms@.take(i + 1);
        proof {
            assert(nxt.drop_last() =~= pre);
            assert(nxt.last() == keysyms@[i as int]);
            lemma_resolved_bound(pre);
        }
        if let Some(b) = parse_binding(&bindings[i], keysyms[i], physical_keys, layout_index) {
            r.push(b);
            proof {
                assert(resolved(nxt) == resolved(pre).push(i as int));
                assert forall|j: int| 0 <= j < r@.len() implies {
                    let k = resolved(nxt)[j];
                    &&& 0 <= k < i + 1
                    &&& binding_from(#[trigger] r@[j], bindings@[k], keysyms@[k].unwrap(), physical_keys, layout_index)
                } by {
                    if j < r@.len() - 1 {
                        assert(resolved(nxt)[j] == resolved(pre)[j]);
                    }
                }
            }
        } else {
            proof {
                assert(resolved(nxt) == resolved(pre));
            }
        }
        i += 1;
    }
    proof {
        assert(keysyms@.take(keysyms@.len() as int) =~= keysyms@);
        assert(resolved(keysyms@.take(keysyms@.len() as int)) == resolved(keysyms@));
        assert(bindings@.len() == keysyms@.len());
        assert(i == bindings@.len());
        assert forall|j: int| 0 <= j < r@.len() implies made_from(#[trigger] r@[j], resolved(keysyms@)[j], bindings@, keysyms@, physical_keys, layout_index) by {
            let k0 = resolved(keysyms@.take(i as int))[j];
            assert(binding_from(r@[j], bindings@[k0], keysyms@[k0].unwrap(), physical_keys, layout_index));
            assert(0 <= k0 < i);
            assert(resolved(keysyms@.take(i as int))[j] == resolved(keysyms@)[j]);
        }
        assert(r@.len() == resolved(keysyms@).len());
        assert(parsed_all(r@, bindings@, keysyms@, physical_keys, layout_index));
    }
    r
}

proof fn lemma_resolved_bound(k: Seq<Option<u32>>)
    ensures
        forall|j: int| 0 <= j < resolved(k).len() ==> 0 <= #[trigger] resolved(k)[j] < k.len(),
    decreases k.len(),
{
    if k.len() > 0 {
        let d = k.drop_last();
        lemma_resolved_bound(d);
        assert forall|j: int| 0 <= j < resolved(k).len() implies 0 <= #[trigger] resolved(k)[j] < k.len() by {
            if j < resolved(d).len() {
                assert(resolved(k)[j] == resolved(d)[j]);
            }
        }
    }
}

// ── Built-in binding profiles ─────────────────────────────────────────────

/// A configured binding: modifiers, key, action and arguments.
pub type ConfigView = (Seq<char>, Seq<char>, Seq<char>, Seq<Seq<char>>);

pub open spec fn config_view(c: BindingConfig) -> ConfigView {
    (c.modifiers@, c.key@, c.action@, string_views(c.args@))
}

pub open spec fn config_views(v: Seq<BindingConfig>) -> Seq<ConfigView> {
    v.map_values(|c: BindingConfig| config_view(c))
}

pub open spec fn arg_list(arg: Option<&str>) -> Seq<Seq<char>> {
    match arg {
        Some(a) => seq![a@],
        None => Seq::empty(),
    }
}

/// Append a binding of `key` with `mods` to `action` (with at most one
/// argument).
fn bind(out: &mut Vec<BindingConfig>, mods: &str, key: &str, action: &str, arg: Option<&str>)
    ensures
        config_views(final(out)@) == config_views(old(out)@).push((mods@, key@, action@, arg_list(arg))),
{
    let mut args: Vec<String> = Vec::new();
    if let Some(a) = arg {
        args.push(a.to_string());
    }
    let cfg = BindingConfig { modifiers: mods.to_string(), key: key.to_string(), action: action.to_string(), args };
    proof {
        assert(string_views(cfg.args@) =~= arg_list(arg));
    }
    out.push(cfg);
    proof {
        assert(config_views(out@) =~= config_views(old(out)@).push((mods@, key@, action@, arg_list(arg))));
    }
}

/// The "i3_neo" profile: i3-style bindings with Neo-layout directions
/// (i=left, a=down, l=up, e=right).
pub open spec fn i3_neo_table() -> Seq<ConfigView> {
    seq![
        ("super"@, "space"@, "spawn_terminal"@, Seq::empty()),
        ("super"@, "c"@, "close"@, Seq::empty()),
        ("super"@, "o"@, "spawn_launcher"@, Seq::empty()),
        ("super+shift"@, "o"@, "spawn_window_switcher"@, Seq::empty()),
        ("super"@, "Return"@, "toggle_fullscreen"@, Seq::empty()),
        ("super"@, "i"@, "focus"@, seq!["left"@]),
        ("super"@, "a"@, "focus"@, seq!["down"@]),
        ("super"@, "l"@, "focus"@, seq!["up"@]),
        ("super"@, "e"@, "focus"@, seq!["right"@]),
        ("super"@, "Left"@, "focus"@, seq!["left"@]),
        ("super"@, "Down"@, "focus"@, seq!["down"@]),
        ("super"@, "Up"@, "focus"@, seq!["up"@]),
        ("super"@, "Right"@, "focus"@, seq!["right"@]),
        ("super+shift"@, "i"@, "move"@, seq!["left"@]),
        ("super+shift"@, "a"@, "move"@, seq!["down"@]),
        ("super+shift"@, "l"@, "move"@, seq!["up"@]),
        ("super+shift"@, "e"@, "move"@, seq!["right"@]),
        ("super+shift"@, "Left"@, "move"@, seq!["left"@]),
        ("super+shift"@, "Down"@, "move"@, seq!["down"@]),
        ("super+shift"@, "Up"@, "move"@, seq!["up"@]),
        ("super+shift"@, "Right"@, "move"@, seq!["right"@]),
        ("super"@, "b"@, "split_horizontal"@, Seq::empty()),
        ("super"@, "v"@, "split_vertical"@, Seq::empty()),
        ("super"@, "t"@, "toggle_split"@, Seq::empty()),
        ("super"@, "w"@, "next_tab"@, Seq::empty()),
        ("super"@, "q"@, "prev_tab"@, Seq::empty()),
        ("super"@, "n"@, "next_tab"@, Seq::empty()),
        ("super"@, "p"@, "prev_tab"@, Seq::empty()),
        ("super"@, "1"@, "workspace"@, seq!["main"@]),
        ("super"@, "2"@, "workspace"@, seq!["secondary"@]),
        ("super"@, "3"@, "workspace"@, seq!["utility"@]),
        ("super"@, "4"@, "workspace"@, seq!["steam-games"@]),
        ("alt"@, "1"@, "workspace"@, seq!["social"@]),
        ("alt"@, "2"@, "workspace"@, seq!["work"@]),
        ("alt"@, "3"@, "workspace"@, seq!["term"@]),
        ("super+shift"@, "1"@, "move_to_workspace"@, seq!["main"@]),
        ("super+shift"@, "2"@, "move_to_workspace"@, seq!["secondary"@]),
        ("super+shift"@, "3"@, "move_to_workspace"@, seq!["utility"@]),
        ("super+shift"@, "4"@, "move_to_workspace"@, seq!["steam-games"@]),
        ("alt+shift"@, "1"@, "move_to_workspace"@, seq!["social"@]),
        ("alt+shift"@, "2"@, "move_to_workspace"@, seq!["work"@]),
        ("alt+shift"@, "3"@, "move_to_workspace"@, seq!["term"@]),
        ("super+shift"@, "space"@, "toggle_float"@, Seq::empty()),
        ("super"@, "r"@, "resize_mode"@, Seq::empty()),
        ("super+shift"@, "c"@, "reload_config"@, Seq::empty()),
    ]
}

/// Resize-mode bindings of the "i3_neo" profile.
pub open spec fn i3_neo_resize_table() -> Seq<ConfigView> {
    seq![
        ("super"@, "i"@, "resize"@, seq!["left"@]),
        ("super"@, "a"@, "resize"@, seq!["down"@]),
        ("super"@, "l"@, "resize"@, seq!["up"@]),
        ("super"@, "e"@, "resize"@, seq!["right"@]),
        (""@, "Left"@, "resize"@, seq!["left"@]),
        (""@, "Down"@, "resize"@, seq!["down"@]),
        (""@, "Up"@, "resize"@, seq!["up"@]),
        (""@, "Right"@, "resize"@, seq!["right"@]),
        (""@, "space"@, "exit_resize_mode"@, Seq::empty()),
        ("super"@, "space"@, "exit_resize_mode"@, Seq::empty()),
        (""@, "Escape"@, "exit_resize_mode"@, Seq::empty()),
    ]
}

/// The "notion" profile: Super as the primary modifier, Vim directions
/// (h/j/k/l), Super+1..6 for workspaces, prominent split and unsplit.
pub open spec fn notion_table() -> Seq<ConfigView> {
    seq![
        ("super"@, "Return"@, "toggle_fullscreen"@, Seq::empty()),
        ("super"@, "c"@, "close"@, Seq::empty()),
        ("super"@, "p"@, "spawn_launcher"@, Seq::empty()),
        ("super+shift"@, "p"@, "spawn_window_switcher"@, Seq::empty()),
        ("super"@, "h"@, "focus"@, seq!["left"@]),
        ("super"@, "j"@, "focus"@, seq!["down"@]),
        ("super"@, "k"@, "focus"@, seq!["up"@]),
        ("super"@, "l"@, "focus"@, seq!["right"@]),
        ("super+shift"@, "h"@, "move"@, seq!["left"@]),
        ("super+shift"@, "j"@, "move"@, seq!["down"@]),
        ("super+shift"@, "k"@, "move"@, seq!["up"@]),
        ("super+shift"@, "l"@, "move"@, seq!["right"@]),
        ("super"@, "s"@, "split_horizontal"@, Seq::empty()),
        ("super"@, "v"@, "split_vertical"@, Seq::empty()),
        ("super"@, "t"@, "toggle_split"@, Seq::empty()),
        ("super"@, "x"@, "unsplit"@, Seq::empty()),
        ("super"@, "Tab"@, "next_tab"@, Seq::empty()),
        ("super+shift"@, "Tab"@, "prev_tab"@, Seq::empty()),
        ("super"@, "1"@, "workspace"@, seq!["main"@]),
        ("super"@, "2"@, "workspace"@, seq!["secondary"@]),
        ("super"@, "3"@, "workspace"@, seq!["utility"@]),
        ("super"@, "4"@, "workspace"@, seq!["social"@]),
        ("super"@, "5"@, "workspace"@, seq!["work"@]),
        ("super"@, "6"@, "workspace"@, seq!["term"@]),
        ("super+shift"@, "1"@, "move_to_workspace"@, seq!["main"@]),
        ("super+shift"@, "2"@, "move_to_workspace"@, seq!["secondary"@]),
        ("super+shift"@, "3"@, "move_to_workspace"@, seq!["utility"@]),
        ("super+shift"@, "4"@, "move_to_workspace"@, seq!["social"@]),
        ("super+shift"@, "5"@, "move_to_workspace"@, seq!["work"@]),
        ("super+shift"@, "6"@, "move_to_workspace"@, seq!["term"@]),
        ("super"@, "f"@, "toggle_app_binding"@, Seq::empty()),
        ("super+shift"@, "f"@, "bind_app_exclusive"@, Seq::empty()),
        ("super"@, "r"@, "resize_mode"@, Seq::empty()),
        ("super+shift"@, "r"@, "restart"@, Seq::empty()),
        ("super+shift"@, "e"@, "exit"@, Seq::empty()),
    ]
}

/// Resize-mode bindings of the "notion" profile.
pub open spec fn notion_resize_table() -> Seq<ConfigView> {
    seq![
        (""@, "h"@, "resize"@, seq!["left"@]),
        (""@, "j"@, "resize"@, seq!["down"@]),
        (""@, "k"@, "resize"@, seq!["up"@]),
        (""@, "l"@, "resize"@, seq!["right"@]),
        (""@, "Left"@, "resize"@, seq!["left"@]),
        (""@, "Down"@, "resize"@, seq!["down"@]),
        (""@, "Up"@, "resize"@, seq!["up"@]),
        (""@, "Right"@, "resize"@, seq!["right"@]),
        (""@, "Escape"@, "exit_resize_mode"@, Seq::empty()),
        ("super"@, "r"@, "exit_resize_mode"@, Seq::empty()),
    ]
}

/// The "i3_neo" profile: i3-style bindings with Neo-layout directions
/// (i=left, a=down, l=up, e=right).
#[verifier::rlimit(80)]
pub fn builtin_i3_neo_bindings() -> (b: Vec<BindingConfig>)
    ensures
        config_views(b@) == i3_neo_table(),
{
    let mut b: Vec<BindingConfig> = Vec::new();
    bind(&mut b, "super", "space", "spawn_terminal", None);
    bind(&mut b, "super", "c", "close", None);
    bind(&mut b, "super", "o", "spawn_launcher", None);
    bind(&mut b, "super+shift", "o", "spawn_window_switcher", None);
    bind(&mut b, "super", "Return", "toggle_fullscreen", None);
    bind(&mut b, "super", "i", "focus", Some("left"));
    bind(&mut b, "super", "a", "focus", Some("down"));
    bind(&mut b, "super", "l", "focus", Some("up"));
    bind(&mut b, "super", "e", "focus", Some("right"));
    bind(&mut b, "super", "Left", "focus", Some("left"));
    bind(&mut b, "super", "Down", "focus", Some("down"));
    bind(&mut b, "super", "Up", "focus", Some("up"));
    bind(&mut b, "super", "Right", "focus", Some("right"));
    bind(&mut b, "super+shift", "i", "move", Some("left"));
    bind(&mut b, "super+shift", "a", "move", Some("down"));
    bind(&mut b, "super+shift", "l", "move", Some("up"));
    bind(&mut b, "super+shift", "e", "move", Some("right"));
    bind(&mut b, "super+shift", "Left", "move", Some("left"));
    bind(&mut b, "super+shift", "Down", "move", Some("down"));
    bind(&mut b, "super+shift", "Up", "move", Some("up"));
    bind(&mut b, "super+shift", "Right", "move", Some("right"));
    bind(&mut b, "super", "b", "split_horizontal", None);
    bind(&mut b, "super", "v", "split_vertical", None);
    bind(&mut b, "super", "t", "toggle_split", None);
    bind(&mut b, "super", "w", "next_tab", None);
    bind(&mut b, "super", "q", "prev_tab", None);
    bind(&mut b, "super", "n", "next_tab", None);
    bind(&mut b, "super", "p", "prev_tab", None);
    bind(&mut b, "super", "1", "workspace", Some("main"));
    bind(&mut b, "super", "2", "workspace", Some("secondary"));
    bind(&mut b, "super", "3", "workspace", Some("utility"));
    bind(&mut b, "super", "4", "workspace", Some("steam-games"));
    bind(&mut b, "alt", "1", "workspace", Some("social"));
    bind(&mut b, "alt", "2", "workspace", Some("work"));
    bind(&mut b, "alt", "3", "workspace", Some("term"));
    bind(&mut b, "super+shift", "1", "move_to_workspace", Some("main"));
    bind(&mut b, "super+shift", "2", "move_to_workspace", Some("secondary"));
    bind(&mut b, "super+shift", "3", "move_to_workspace", Some("utility"));
    bind(&mut b, "super+shift", "4", "move_to_workspace", Some("steam-games"));
    bind(&mut b, "alt+shift", "1", "move_to_workspace", Some("social"));
    bind(&mut b, "alt+shift", "2", "move_to_workspace", Some("work"));
    bind(&mut b, "alt+shift", "3", "move_to_workspace", Some("term"));
    bind(&mut b, "super+shift", "space", "toggle_float", None);
    bind(&mut b, "super", "r", "resize_mode", None);
    bind(&mut b, "super+shift", "c", "reload_config", None);
    proof {
        assert(config_views(b@) =~= i3_neo_table());
    }
    b
}

/// Resize-mode bindings of the "i3_neo" profile.
pub fn builtin_i3_neo_resize_bindings() -> (b: Vec<BindingConfig>)
    ensures
        config_views(b@) == i3_neo_resize_table(),
{
    let mut b: Vec<BindingConfig> = Vec::new();
    bind(&mut b, "super", "i", "resize", Some("left"));
    bind(&mut b, "super", "a", "resize", Some("down"));
    bind(&mut b, "super", "l", "resize", Some("up"));
    bind(&mut b, "super", "e", "resize", Some("right"));
    bind(&mut b, "", "Left", "resize", Some("left"));
    bind(&mut b, "", "Down", "resize", Some("down"));
    bind(&mut b, "", "Up", "resize", Some("up"));
    bind(&mut b, "", "Right", "resize", Some("right"));
    bind(&mut b, "", "space", "exit_resize_mode", None);
    bind(&mut b, "super", "space", "exit_resize_mode", None);
    bind(&mut b, "", "Escape", "exit_resize_mode", None);
    proof {
        assert(config_views(b@) =~= i3_neo_resize_table());
    }
    b
}

/// The "notion" profile: Super as the primary modifier, Vim directions
/// (h/j/k/l), Super+1..6 for workspaces, prominent split and unsplit.
#[verifier::rlimit(80)]
pub fn builtin_notion_bindings() -> (b: Vec<BindingConfig>)
    ensures
        config_views(b@) == notion_table(),
{
    let mut b: Vec<BindingConfig> = Vec::new();
    bind(&mut b, "super", "Return", "toggle_fullscreen", None);
    bind(&mut b, "super", "c", "close", None);
    bind(&mut b, "super", "p", "spawn_launcher", None);
    bind(&mut b, "super+shift", "p", "spawn_window_switcher", None);
    bind(&mut b, "super", "h", "focus", Some("left"));
    bind(&mut b, "super", "j", "focus", Some("down"));
    bind(&mut b, "super", "k", "focus", Some("up"));
    bind(&mut b, "super", "l", "focus", Some("right"));
    bind(&mut b, "super+shift", "h", "move", Some("left"));
    bind(&mut b, "super+shift", "j", "move", Some("down"));
    bind(&mut b, "super+shift", "k", "move", Some("up"));
    bind(&mut b, "super+shift", "l", "move", Some("right"));
    bind(&mut b, "super", "s", "split_horizontal", None);
    bind(&mut b, "super", "v", "split_vertical", None);
    bind(&mut b, "super", "t", "toggle_split", None);
    bind(&mut b, "super", "x", "unsplit", None);
    bind(&mut b, "super", "Tab", "next_tab", None);
    bind(&mut b, "super+shift", "Tab", "prev_tab", None);
    bind(&mut b, "super", "1", "workspace", Some("main"));
    bind(&mut b, "super", "2", "workspace", Some("secondary"));
    bind(&mut b, "super", "3", "workspace", Some("utility"));
    bind(&mut b, "super", "4", "workspace", Some("social"));
    bind(&mut b, "super", "5", "workspace", Some("work"));
    bind(&mut b, "super", "6", "workspace", Some("term"));
    bind(&mut b, "super+shift", "1", "move_to_workspace", Some("main"));
    bind(&mut b, "super+shift", "2", "move_to_workspace", Some("secondary"));
    bind(&mut b, "super+shift", "3", "move_to_workspace", Some("utility"));
    bind(&mut b, "super+shift", "4", "move_to_workspace", Some("social"));
    bind(&mut b, "super+shift", "5", "move_to_workspace", Some("work"));
    bind(&mut b, "super+shift", "6", "move_to_workspace", Some("term"));
    bind(&mut b, "super", "f", "toggle_app_binding", None);
    bind(&mut b, "super+shift", "f", "bind_app_exclusive", None);
    bind(&mut b, "super", "r", "resize_mode", None);
    bind(&mut b, "super+shift", "r", "restart", None);
    bind(&mut b, "super+shift", "e", "exit", None);
    proof {
        assert(config_views(b@) =~= notion_table());
    }
    b
}

/// Resize-mode bindings of the "notion" profile.
pub fn builtin_notion_resize_bindings() -> (b: Vec<BindingConfig>)
    ensures
        config_views(b@) == notion_resize_table(),
{
    let mut b: Vec<BindingConfig> = Vec::new();
    bind(&mut b, "", "h", "resize", Some("left"));
    bind(&mut b, "", "j", "resize", Some("down"));
    bind(&mut b, "", "k", "resize", Some("up"));
    bind(&mut b, "", "l", "resize", Some("right"));
    bind(&mut b, "", "Left", "resize", Some("left"));
    bind(&mut b, "", "Down", "resize", Some("down"));
    bind(&mut b, "", "Up", "resize", Some("up"));
    bind(&mut b, "", "Right", "resize", Some("right"));
    bind(&mut b, "", "Escape", "exit_resize_mode", None);
    bind(&mut b, "super", "r", "exit_resize_mode", None);
    proof {
        assert(config_views(b@) =~= notion_resize_table());
    }
    b
}

pub open spec fn profile_named(name: Seq<char>) -> spec_fn((String, ProfileConfig)) -> bool {
    |p: (String, ProfileConfig)| p.0@ == name
}

/// The normal and resize bindings of the active profile: its own when it
/// is configured with bindings, else the built-in "notion" profile for that
/// name, else the built-in "i3_neo" profile.
pub open spec fn profile_tables(profiles: Seq<(String, ProfileConfig)>, active: Seq<char>) -> (Seq<ConfigView>, Seq<ConfigView>) {
    let own = match first_match(profiles, profile_named(active)) {
        Some(i) => if profiles[i].1.bindings@.len() > 0 {
            Some((config_views(profiles[i].1.bindings@), config_views(profiles[i].1.resize_bindings@)))
        } else {
            None
        },
        None => None,
    };
    match own {
        Some(t) => t,
        None => if active == "notion"@ {
            (notion_table(), notion_resize_table())
        } else {
            (i3_neo_table(), i3_neo_resize_table())
        },
    }
}

fn copy_configs(v: &Vec<BindingConfig>) -> (r: Vec<BindingConfig>)
    ensures
        config_views(r@) == config_views(v@),
{
    let mut r: Vec<BindingConfig> = Vec::new();
    let mut i: usize = 0;
    while i < v.len()
        invariant
            i <= v@.len(),
            r@.len() == i,
            config_views(r@) == config_views(v@).take(i as int),
        decreases v@.len() - i,
    {
        let c = &v[i];
        let mut args: Vec<String> = Vec::new();
        let mut j: usize = 0;
        while j < c.args.len()
            invariant
                j <= c.args@.len(),
                args@.len() == j,
                string_views(args@) == string_views(c.args@).take(j as int),
            decreases c.args@.len() - j,
        {
            let ghost before = args@;
            let a = c.args[j].clone();
            args.push(a);
            proof {
                assert(string_views(args@) =~= string_views(c.args@).take(j + 1)) by {
                    assert forall|k: int| 0 <= k < j + 1 implies string_views(args@)[k] == string_views(c.args@).take(j + 1)[k] by {
                        if k < j {
                            assert(args@[k] == before[k]);
                            assert(string_views(before)[k] == string_views(c.args@).take(j as int)[k]);
                        }
                    }
                }
            }
            j += 1;
        }
        proof {
            assert(string_views(c.args@).take(c.args@.len() as int) =~= string_views(c.args@));
        }
        let ghost before = r@;
        let copy = BindingConfig {
            modifiers: c.modifiers.clone(),
            key: c.key.clone(),
            action: c.action.clone(),
            args,
        };
        r.push(copy);
        proof {
            assert(config_views(r@) =~= config_views(v@).take(i + 1)) by {
                assert forall|k: int| 0 <= k < i + 1 implies #[trigger] config_views(r@)[k] == config_views(v@).take(i + 1)[k] by {
                    if k < i {
                        assert(r@[k] == before[k]);
                        assert(config_views(before)[k] == config_views(v@).take(i as int)[k]);
                    }
                }
            }
        }
        i += 1;
    }
    proof {
        assert(config_views(v@).take(v@.len() as int) =~= config_views(v@));
    }
    r
}

fn profile_index(profiles: &[(String, ProfileConfig)], name: &str) -> (r: Option<usize>)
    ensures
        match r {
            Some(i) => first_match(profiles@, profile_named(name@)) == Some(i as int) && i < profiles@.len(),
            None => first_match(profiles@, profile_named(name@)) is None,
        },
{
    let ghost q = profile_named(name@);
    let mut i: usize = 0;
    while i < profiles.len()
        invariant
            i <= profiles@.len(),
            q == profile_named(name@),
            forall|j: int| 0 <= j < i ==> !q(#[trigger] profiles@[j]),
        decreases profiles@.len() - i,
    {
        if str_eq(profiles[i].0.as_str(), name) {
            proof {
                lemma_first_match_unique(profiles@, q, i as int);
            }
            return Some(i);
        }
        i += 1;
    }
    proof {
        lemma_first_match_none(profiles@, q);
    }
    None
}

/// The bindings of the active profile, falling back to the built-in
/// profiles.
pub fn get_profile_bindings(profiles: &[(String, ProfileConfig)], active_profile: &str) -> (r: (Vec<BindingConfig>, Vec<BindingConfig>))
    ensures
        (config_views(r.0@), config_views(r.1@)) == profile_tables(profiles@, active_profile@),
{
    if let Some(i) = profile_index(profiles, active_profile) {
        let p = &profiles[i].1;
        if p.bindings.len() > 0 {
            return (copy_configs(&p.bindings), copy_configs(&p.resize_bindings));
        }
    }
    if str_eq(active_profile, "notion") {
        (builtin_notion_bindings(), builtin_notion_resize_bindings())
    } else {
        (builtin_i3_neo_bindings(), builtin_i3_neo_resize_bindings())
    }
}

} // verus!
