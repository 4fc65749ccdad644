//! What status-bar subscribers ask for, and the JSON widgets they get.

use vstd::prelude::*;
use crate::config::AppearanceConfig;
use crate::control::tree_has_windows;
use crate::monitors::chars_equal;
use crate::seqs::{first_match, lemma_first_match_none, lemma_first_match_unique};
use crate::text::{char_vecs, chars_of, escape_quotes, escape_quotes_chars, join_sep, join_with, push_chars, push_str, string_from_chars, str_eq};
use crate::workspace::{string_views, ws_named, Workspace, WorkspaceManager};

verus! {

/// What a subscriber wants to receive.
#[derive(Debug, Clone)]
pub enum SubscriptionKind {
    /// All workspaces as a single markup widget.
    AllWorkspaces,
    /// A single named workspace with class-based styling.
    SingleWorkspace(String),
    /// All workspaces of a specific output as a markup widget.
    Output(String),
}

// ── Markup pieces ─────────────────────────────────────────────────────────

/// The markup of a focused workspace name: bold, on a background.
pub open spec fn bright_part(color: Seq<char>, bg: Seq<char>, name: Seq<char>) -> Seq<char> {
    "<span color='"@ + color + "' background='"@ + bg + "' bgalpha='80%'><b> "@ + name + " </b></span>"@
}

/// The markup of another workspace name, at some opacity.
pub open spec fn dim_part(alpha: Seq<char>, color: Seq<char>, name: Seq<char>) -> Seq<char> {
    "<span alpha='"@ + alpha + "' color='"@ + color + "'>"@ + name + "</span>"@
}

pub fn bright_part_chars(color: &str, bg: &str, name: &str) -> (r: Vec<char>)
    ensures
        r@ == bright_part(color@, bg@, name@),
{
    let mut out: Vec<char> = Vec::new();
    push_str(&mut out, "<span color='");
    push_str(&mut out, color);
    push_str(&mut out, "' background='");
    push_str(&mut out, bg);
    push_str(&mut out, "' bgalpha='80%'><b> ");
    push_str(&mut out, name);
    push_str(&mut out, " </b></span>");
    out
}

pub fn dim_part_chars(alpha: &str, color: &str, name: &str) -> (r: Vec<char>)
    ensures
        r@ == dim_part(alpha@, color@, name@),
{
    let mut out: Vec<char> = Vec::new();
    push_str(&mut out, "<span alpha='");
    push_str(&mut out, alpha);
    push_str(&mut out, "' color='");
    push_str(&mut out, color);
    push_str(&mut out, "'>");
    push_str(&mut out, name);
    push_str(&mut out, "</span>");
    out
}

/// The names in order of first appearance, each once.
pub open spec fn first_appearances(names: Seq<Seq<char>>) -> Seq<Seq<char>>
    decreases names.len(),
{
    if names.len() == 0 {
        Seq::empty()
    } else {
        let d = first_appearances(names.drop_last());
        if d.contains(names.last()) { d } else { d.push(names.last()) }
    }
}

pub open spec fn is_name(x: Seq<char>) -> spec_fn(Seq<char>) -> bool {
    |n: Seq<char>| n == x
}

/// The position of `x` among `names`, or 0 when it is not there.
pub open spec fn slot_of(names: Seq<Seq<char>>, x: Seq<char>) -> int {
    match first_match(names, is_name(x)) {
        Some(i) => i,
        None => 0,
    }
}

fn contains_chars(v: &Vec<Vec<char>>, x: &[char]) -> (b: bool)
    ensures
        b == char_vecs(v@).contains(x@),
{
    let mut i: usize = 0;
    while i < v.len()
        invariant
            i <= v@.len(),
            forall|j: int| 0 <= j < i ==> char_vecs(v@)[j] != x@,
        decreases v@.len() - i,
    {
        if chars_equal(v[i].as_slice(), x) {
            proof {
                assert(char_vecs(v@)[i as int] == x@);
            }
            return true;
        }
        i += 1;
    }
    false
}

/// The names in order of first appearance, each once.
pub fn first_appearances_of(names: &Vec<Vec<char>>) -> (r: Vec<Vec<char>>)
    ensures
        char_vecs(r@) == first_appearances(char_vecs(names@)),
{
    let ghost t = char_vecs(names@);
    let mut out: Vec<Vec<char>> = Vec::new();
    let mut i: usize = 0;
    while i < names.len()
        invariant
            i <= names@.len(),
            t == char_vecs(names@),
            char_vecs(out@) == first_appearances(t.take(i as int)),
        decreases names@.len() - i,
    {
        proof {
            assert(t.take(i + 1).drop_last() =~= t.take(i as int));
            assert(t.take(i + 1).last() == names@[i as int]@);
        }
        if !contains_chars(&out, names[i].as_slice()) {
            let ghost before = out@;
            out.push(names[i].clone());
            proof {
                assert(char_vecs(out@) =~= char_vecs(before).push(names@[i as int]@));
            }
        }
        i += 1;
    }
    proof {
        assert(t.take(t.len() as int) =~= t);
    }
    out
}

/// The position of `x` among `names`, or 0 when it is not there.
pub fn slot_in(names: &Vec<Vec<char>>, x: &[char]) -> (r: usize)
    ensures
        r == slot_of(char_vecs(names@), x@),
        r == 0 || r < names@.len(),
{
    let ghost t = char_vecs(names@);
    let ghost p = is_name(x@);
    let mut i: usize = 0;
    while i < names.len()
        invariant
            i <= names@.len(),
            t == char_vecs(names@),
            p == is_name(x@),
            forall|j: int| 0 <= j < i ==> !p(#[trigger] t[j]),
        decreases names@.len() - i,
    {
        if chars_equal(names[i].as_slice(), x) {
            proof {
                lemma_first_match_unique(t, p, i as int);
            }
            return i;
        }
        i += 1;
    }
    proof {
        lemma_first_match_none(t, p);
    }
    0
}

// ── Widgets built from the workspaces ─────────────────────────────────────

/// The output a workspace is grouped under: its first preferred output, or
/// "none".
pub open spec fn group_of<R>(w: Workspace<R>) -> Seq<char> {
    if w.preferred_output@.len() > 0 { w.preferred_output@[0]@ } else { "none"@ }
}

/// The output a workspace is said to be on: its first preferred output, or
/// "?".
pub open spec fn said_output<R>(w: Workspace<R>) -> Seq<char> {
    if w.preferred_output@.len() > 0 { w.preferred_output@[0]@ } else { "?"@ }
}

/// The widget class of a workspace for single-workspace subscribers.
pub open spec fn ws_class<R>(m: WorkspaceManager<R>, w: Workspace<R>) -> Seq<char> {
    if w.id == m.focused_workspace {
        "focused"@
    } else if w.active_output is Some {
        "visible"@
    } else if tree_has_windows(w.root@) {
        "hidden"@
    } else {
        "empty"@
    }
}

/// The widget for the workspace named `name`.
pub open spec fn single_json<R>(m: WorkspaceManager<R>, name: Seq<char>) -> Seq<char> {
    match first_match(m.workspaces@, ws_named::<R>(name)) {
        Some(k) => {
            let w = m.workspaces@[k];
            "{\"text\": \""@ + name + "\", \"tooltip\": \""@ + name + " on "@ + said_output(w) + "\", \"class\": \""@
                + ws_class(m, w) + "\"}"@
        },
        None => "{\"text\": \""@ + name + "\", \"class\": \"empty\"}"@,
    }
}

fn first_preferred_chars<R>(w: &Workspace<R>, fallback: &str) -> (r: Vec<char>)
    ensures
        r@ == (if w.preferred_output@.len() > 0 { w.preferred_output@[0]@ } else { fallback@ }),
{
    if w.preferred_output.len() > 0 {
        chars_of(w.preferred_output[0].as_str())
    } else {
        chars_of(fallback)
    }
}

/// The widget for the workspace named `name`: its class and the output it
/// prefers; an unknown name gives an empty widget.
pub fn single_workspace_json<R: Copy>(workspaces: &WorkspaceManager<R>, name: &str) -> (r: String)
    ensures
        r@ == single_json(*workspaces, name@),
{
    match workspaces.workspace_index_by_name(name) {
        Some(k) => {
            let w = &workspaces.workspaces[k];
            let cls = if w.id == workspaces.focused_workspace {
                "focused"
            } else if w.active_output.is_some() {
                "visible"
            } else if w.has_windows() {
                "hidden"
            } else {
                "empty"
            };
            let mut out: Vec<char> = Vec::new();
            push_str(&mut out, "{\"text\": \"");
            push_str(&mut out, name);
            push_str(&mut out, "\", \"tooltip\": \"");
            push_str(&mut out, name);
            push_str(&mut out, " on ");
            let o = first_preferred_chars(w, "?");
            push_chars(&mut out, o.as_slice());
            push_str(&mut out, "\", \"class\": \"");
            push_str(&mut out, cls);
            push_str(&mut out, "\"}");
            string_from_chars(out.as_slice())
        },
        None => {
            let mut out: Vec<char> = Vec::new();
            push_str(&mut out, "{\"text\": \"");
            push_str(&mut out, name);
            push_str(&mut out, "\", \"class\": \"empty\"}");
            string_from_chars(out.as_slice())
        },
    }
}

/// The monitor colors: the configured ones, or the defaults.
pub open spec fn colors_of(a: AppearanceConfig) -> Seq<Seq<char>> {
    if a.monitor_colors@.len() == 0 {
        seq!["#b4a0e5"@, "#a6c9a1"@, "#e5cfa6"@, "#d68ba8"@]
    } else {
        string_views(a.monitor_colors@)
    }
}

fn colors_chars(a: &AppearanceConfig) -> (r: Vec<Vec<char>>)
    ensures
        char_vecs(r@) == colors_of(*a),
        r@.len() > 0,
{
    let mut r: Vec<Vec<char>> = Vec::new();
    if a.monitor_colors.len() == 0 {
        r.push(chars_of("#b4a0e5"));
        r.push(chars_of("#a6c9a1"));
        r.push(chars_of("#e5cfa6"));
        r.push(chars_of("#d68ba8"));
        proof {
            assert(char_vecs(r@) =~= colors_of(*a));
        }
    } else {
        let mut i: usize = 0;
        while i < a.monitor_colors.len()
            invariant
                i <= a.monitor_colors@.len(),
                a.monitor_colors@.len() > 0,
                char_vecs(r@) == string_views(a.monitor_colors@).take(i as int),
            decreases a.monitor_colors@.len() - i,
        {
            let ghost before = char_vecs(r@);
            r.push(chars_of(a.monitor_colors[i].as_str()));
            proof {
                assert(char_vecs(r@) =~= before.push(a.monitor_colors@[i as int]@));
                assert(string_views(a.monitor_colors@).take(i + 1) =~= string_views(a.monitor_colors@).take(i as int).push(a.monitor_colors@[i as int]@));
            }
            i += 1;
        }
        proof {
            assert(string_views(a.monitor_colors@).take(i as int) =~= string_views(a.monitor_colors@));
        }
    }
    r
}

/// The group names of the workspaces, in workspace order.
pub open spec fn groups_of<R>(ws: Seq<Workspace<R>>) -> Seq<Seq<char>> {
    ws.map_values(|w: Workspace<R>| group_of(w))
}

fn groups_chars<R>(ws: &Vec<Workspace<R>>) -> (r: Vec<Vec<char>>)
    ensures
        char_vecs(r@) == groups_of(ws@),
{
    let mut r: Vec<Vec<char>> = Vec::new();
    let mut i: usize = 0;
    while i < ws.len()
        invariant
            i <= ws@.len(),
            char_vecs(r@) == groups_of(ws@).take(i as int),
        decreases ws@.len() - i,
    {
        let ghost before = char_vecs(r@);
        let g = first_preferred_chars(&ws[i], "none");
        proof {
            assert(g@ == group_of(ws@[i as int]));
        }
        r.push(g);
        proof {
            assert(char_vecs(r@) =~= before.push(group_of(ws@[i as int])));
            assert(groups_of(ws@).take(i + 1) =~= groups_of(ws@).take(i as int).push(group_of(ws@[i as int])));
        }
        i += 1;
    }
    proof {
        assert(groups_of(ws@).take(i as int) =~= groups_of(ws@));
    }
    r
}

/// The markup of a workspace in an output's widget.
pub open spec fn output_part<R>(m: WorkspaceManager<R>, w: Workspace<R>, color: Seq<char>, bg: Seq<char>) -> Seq<char> {
    if w.id == m.focused_workspace {
        bright_part(color, bg, w.name@)
    } else if w.active_output is Some {
        dim_part("85%"@, color, w.name@)
    } else if tree_has_windows(w.root@) {
        dim_part("60%"@, color, w.name@)
    } else {
        dim_part("35%"@, color, w.name@)
    }
}

/// The markup of the first `n` workspaces grouped under `out`.
pub open spec fn output_parts<R>(m: WorkspaceManager<R>, out: Seq<char>, color: Seq<char>, bg: Seq<char>, n: int) -> Seq<Seq<char>>
    decreases n,
{
    if n <= 0 {
        Seq::empty()
    } else {
        let rest = output_parts(m, out, color, bg, n - 1);
        let w = m.workspaces@[n - 1];
        if group_of(w) == out { rest.push(output_part(m, w, color, bg)) } else { rest }
    }
}

/// The name of the focused workspace among the first `n` grouped under
/// `out` (the last one found), or nothing.
pub open spec fn focused_among<R>(m: WorkspaceManager<R>, out: Seq<char>, n: int) -> Seq<char>
    decreases n,
{
    if n <= 0 {
        Seq::empty()
    } else {
        let w = m.workspaces@[n - 1];
        if group_of(w) == out && w.id == m.focused_workspace { w.name@ } else { focused_among(m, out, n - 1) }
    }
}

/// The widget for the workspaces grouped under output `out`.
pub open spec fn output_json<R>(m: WorkspaceManager<R>, out: Seq<char>, a: AppearanceConfig) -> Seq<char> {
    let names = first_appearances(groups_of(m.workspaces@));
    let colors = colors_of(a);
    let color = colors[slot_of(names, out) % (colors.len() as int)];
    let n = m.workspaces@.len() as int;
    let parts = output_parts(m, out, color, a.waybar_focused_bg@, n);
    let focused = focused_among(m, out, n);
    if parts.len() == 0 {
        "{\"text\": \"\", \"tooltip\": \"No workspaces on "@ + out + "\", \"class\": \"empty\"}"@
    } else {
        "{\"text\": \""@ + escape_quotes(join_sep(parts, "  "@)) + "\", \"tooltip\": \""@ + out + ": "@ + focused
            + "\", \"class\": \""@ + (if focused.len() == 0 { "visible"@ } else { "focused"@ }) + "\"}"@
    }
}

/// The widget for the workspaces grouped under output `output_name` (by
/// their first preferred output), colored by the output's position among
/// the groups; the focused workspace is highlighted.
pub fn output_workspaces_json<R: Copy>(workspaces: &WorkspaceManager<R>, output_name: &str, appearance: &AppearanceConfig) -> (r: String)
    ensures
        r@ == output_json(*workspaces, output_name@, *appearance),
{
    let colors = colors_chars(appearance);
    let groups = groups_chars(&workspaces.workspaces);
    let names = first_appearances_of(&groups);
    proof {
        assert(char_vecs(groups@).len() == groups_of(workspaces.workspaces@).len());
    }
    let out = chars_of(output_name);
    let slot = slot_in(&names, out.as_slice());
    let color_v = &colors[slot % colors.len()];
    let color = string_from_chars(color_v.as_slice());
    let bg = appearance.waybar_focused_bg.as_str();
    let ghost cv = color@;
    let mut parts: Vec<Vec<char>> = Vec::new();
    let mut focused: Vec<char> = Vec::new();
    let mut i: usize = 0;
    while i < workspaces.workspaces.len()
        invariant
            i <= workspaces.workspaces@.len(),
            char_vecs(groups@) == groups_of(workspaces.workspaces@),
            groups@.len() == workspaces.workspaces@.len(),
            out@ == output_name@,
            cv == color@,
            bg@ == appearance.waybar_focused_bg@,
            char_vecs(parts@) == output_parts(*workspaces, output_name@, cv, bg@, i as int),
            focused@ == focused_among(*workspaces, output_name@, i as int),
        decreases workspaces.workspaces@.len() - i,
    {
        let w = &workspaces.workspaces[i];
        proof {
            assert(char_vecs(groups@)[i as int] == group_of(*w));
        }
        if chars_equal(groups[i].as_slice(), out.as_slice()) {
            let is_focused = w.id == workspaces.focused_workspace;
            if is_focused {
                focused = chars_of(w.name.as_str());
            }
            let part = if is_focused {
                bright_part_chars(color.as_str(), bg, w.name.as_str())
            } else if w.active_output.is_some() {
                dim_part_chars("85%", color.as_str(), w.name.as_str())
            } else if w.has_windows() {
                dim_part_chars("60%", color.as_str(), w.name.as_str())
            } else {
                dim_part_chars("35%", color.as_str(), w.name.as_str())
            };
            let ghost before = parts@;
            parts.push(part);
            proof {
                assert(char_vecs(parts@) =~= char_vecs(before).push(output_part(*workspaces, *w, cv, bg@)));
            }
        }
        i += 1;
    }
    let mut res: Vec<char> = Vec::new();
    if parts.len() == 0 {
        push_str(&mut res, "{\"text\": \"\", \"tooltip\": \"No workspaces on ");
        push_str(&mut res, output_name);
        push_str(&mut res, "\", \"class\": \"empty\"}");
    } else {
        let text = join_with(&parts, "  ");
        let esc = escape_quotes_chars(text.as_slice());
        push_str(&mut res, "{\"text\": \"");
        push_chars(&mut res, esc.as_slice());
        push_str(&mut res, "\", \"tooltip\": \"");
        push_str(&mut res, output_name);
        push_str(&mut res, ": ");
        push_chars(&mut res, focused.as_slice());
        push_str(&mut res, "\", \"class\": \"");
        if focused.len() == 0 {
            push_str(&mut res, "visible");
        } else {
            push_str(&mut res, "focused");
        }
        push_str(&mut res, "\"}");
    }
    string_from_chars(res.as_slice())
}

/// The markup of a workspace in the all-workspaces widget: a marker (none
/// for the focused one, a ring for one with windows, a dot otherwise), a
/// space, and the name.
pub open spec fn group_part<R>(m: WorkspaceManager<R>, w: Workspace<R>, color: Seq<char>, bg: Seq<char>) -> Seq<char> {
    let focused = w.id == m.focused_workspace;
    let busy = tree_has_windows(w.root@);
    let text = if focused {
        bright_part(color, bg, w.name@)
    } else if busy {
        dim_part("70%"@, color, w.name@)
    } else {
        dim_part("35%"@, color, w.name@)
    };
    let marker = if focused {
        Seq::empty()
    } else if busy {
        "<span alpha='70%' color='"@ + color + "'>○ </span>"@
    } else {
        "<span alpha='35%' color='"@ + color + "'>· </span>"@
    };
    marker + " "@ + text
}

/// The markup of the first `n` workspaces grouped under `out`.
pub open spec fn group_parts<R>(m: WorkspaceManager<R>, out: Seq<char>, color: Seq<char>, bg: Seq<char>, n: int) -> Seq<Seq<char>>
    decreases n,
{
    if n <= 0 {
        Seq::empty()
    } else {
        let rest = group_parts(m, out, color, bg, n - 1);
        let w = m.workspaces@[n - 1];
        if group_of(w) == out { rest.push(group_part(m, w, color, bg)) } else { rest }
    }
}

/// The text of the first `k` groups, each in its color.
pub open spec fn group_texts<R>(m: WorkspaceManager<R>, names: Seq<Seq<char>>, colors: Seq<Seq<char>>, bg: Seq<char>, k: int) -> Seq<Seq<char>>
    decreases k,
{
    if k <= 0 {
        Seq::empty()
    } else {
        group_texts(m, names, colors, bg, k - 1).push(join_sep(
            group_parts(m, names[k - 1], colors[(k - 1) % (colors.len() as int)], bg, m.workspaces@.len() as int),
            "  "@,
        ))
    }
}

/// The widget for all workspaces, grouped by output.
pub open spec fn all_json<R>(m: WorkspaceManager<R>, a: AppearanceConfig) -> Seq<char> {
    let names = first_appearances(groups_of(m.workspaces@));
    let texts = group_texts(m, names, colors_of(a), a.waybar_focused_bg@, names.len() as int);
    let focused = if m.focused_workspace.0 < m.workspaces@.len() {
        m.workspaces@[m.focused_workspace.0 as int].name@
    } else {
        Seq::empty()
    };
    "{\"text\": \""@ + escape_quotes(join_sep(texts, "  "@)) + "\", \"tooltip\": \"Focused: "@ + focused + "\", \"class\": \"workspaces\"}"@
}

fn group_part_chars<R: Copy>(m: &WorkspaceManager<R>, w: &Workspace<R>, color: &str, bg: &str) -> (r: Vec<char>)
    ensures
        r@ == group_part(*m, *w, color@, bg@),
{
    let focused = w.id == m.focused_workspace;
    let busy = w.has_windows();
    let text = if focused {
        bright_part_chars(color, bg, w.name.as_str())
    } else if busy {
        dim_part_chars("70%", color, w.name.as_str())
    } else {
        dim_part_chars("35%", color, w.name.as_str())
    };
    let mut out: Vec<char> = Vec::new();
    if !focused {
        if busy {
            push_str(&mut out, "<span alpha='70%' color='");
            push_str(&mut out, color);
            push_str(&mut out, "'>○ </span>");
        } else {
            push_str(&mut out, "<span alpha='35%' color='");
            push_str(&mut out, color);
            push_str(&mut out, "'>· </span>");
        }
    }
    push_str(&mut out, " ");
    push_chars(&mut out, text.as_slice());
    proof {
        if focused {
            assert(out@ =~= group_part(*m, *w, color@, bg@));
        }
    }
    out
}

/// The widget for all workspaces: one group per output they prefer (in
/// order of first appearance), each in its monitor color, the focused
/// workspace highlighted.
pub fn workspace_json<R: Copy>(workspaces: &WorkspaceManager<R>, appearance: &AppearanceConfig) -> (r: String)
    ensures
        r@ == all_json(*workspaces, *appearance),
{
    let colors = colors_chars(appearance);
    let groups = groups_chars(&workspaces.workspaces);
    proof {
        assert(char_vecs(groups@).len() == groups_of(workspaces.workspaces@).len());
    }
    let names = first_appearances_of(&groups);
    let bg = appearance.waybar_focused_bg.as_str();
    let ghost nv = char_vecs(names@);
    let ghost cs = colors_of(*appearance);
    let mut texts: Vec<Vec<char>> = Vec::new();
    let mut g: usize = 0;
    while g < names.len()
        invariant
            g <= names@.len(),
            nv == char_vecs(names@),
            cs == char_vecs(colors@),
            colors@.len() > 0,
            char_vecs(groups@) == groups_of(workspaces.workspaces@),
            groups@.len() == workspaces.workspaces@.len(),
            bg@ == appearance.waybar_focused_bg@,
            char_vecs(texts@) == group_texts(*workspaces, nv, cs, bg@, g as int),
        decreases names@.len() - g,
    {
        let color_v = &colors[g % colors.len()];
        let color = string_from_chars(color_v.as_slice());
        let ghost cv = color@;
        proof {
            assert(cv == cs[(g as int) % (cs.len() as int)]);
        }
        let mut parts: Vec<Vec<char>> = Vec::new();
        let mut i: usize = 0;
        while i < workspaces.workspaces.len()
            invariant
                i <= workspaces.workspaces@.len(),
                g < names@.len(),
                nv == char_vecs(names@),
                char_vecs(groups@) == groups_of(workspaces.workspaces@),
                groups@.len() == workspaces.workspaces@.len(),
                cv == color@,
                bg@ == appearance.waybar_focused_bg@,
                char_vecs(parts@) == group_parts(*workspaces, nv[g as int], cv, bg@, i as int),
            decreases workspaces.workspaces@.len() - i,
        {
            let w = &workspaces.workspaces[i];
            proof {
                assert(char_vecs(groups@)[i as int] == group_of(*w));
                assert(nv[g as int] == names@[g as int]@);
            }
            if chars_equal(groups[i].as_slice(), names[g].as_slice()) {
                let part = group_part_chars(workspaces, w, color.as_str(), bg);
                let ghost before = parts@;
                parts.push(part);
                proof {
                    assert(char_vecs(parts@) =~= char_vecs(before).push(group_part(*workspaces, *w, cv, bg@)));
                }
            }
            i += 1;
        }
        let text = join_with(&parts, "  ");
        let ghost before = texts@;
        texts.push(text);
        proof {
            assert(char_vecs(texts@) =~= char_vecs(before).push(join_sep(group_parts(*workspaces, nv[g as int], cv, bg@, workspaces.workspaces@.len() as int), "  "@)));
        }
        g += 1;
    }
    let all = join_with(&texts, "  ");
    let esc = escape_quotes_chars(all.as_slice());
    let mut res: Vec<char> = Vec::new();
    push_str(&mut res, "{\"text\": \"");
    push_chars(&mut res, esc.as_slice());
    push_str(&mut res, "\", \"tooltip\": \"Focused: ");
    if workspaces.focused_workspace.0 < workspaces.workspaces.len() {
        push_str(&mut res, workspaces.workspaces[workspaces.focused_workspace.0].name.as_str());
    }
    push_str(&mut res, "\", \"class\": \"workspaces\"}");
    proof {
        assert(res@ =~= all_json(*workspaces, *appearance));
    }
    string_from_chars(res.as_slice())
}

} // verus!
