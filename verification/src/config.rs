//! Configuration records and the decoding of hex colors.

use vstd::prelude::*;
use vstd::utf8::encode_utf8;
use crate::workspace::string_views;

verus! {

/// Commands for spawning external programs.
#[derive(Debug, Clone)]
pub struct CommandsConfig {
    pub terminal: String,
    pub launcher: Vec<String>,
    /// The window switcher (a menu of the open windows that focuses the
    /// pick through the control socket).
    pub window_switcher: Vec<String>,
}

/// The outputs a workspace prefers: one matcher, or a fallback chain tried
/// in order.
#[derive(Debug, Clone)]
pub enum OutputSpec {
    Single(String),
    Fallback(Vec<String>),
}

impl OutputSpec {
    /// The matchers of this spec, strongest preference first.
    pub open spec fn matcher_views(self) -> Seq<String> {
        match self {
            OutputSpec::Single(s) => seq![s],
            OutputSpec::Fallback(v) => v@,
        }
    }

    /// The matchers of this spec, strongest preference first.
    pub fn matchers(&self) -> (m: Vec<String>)
        ensures
            m@ == self.matcher_views(),
    {
        match self {
            OutputSpec::Single(s) => {
                let mut m: Vec<String> = Vec::new();
                m.push(s.clone());
                proof {
                    assert(m@ =~= seq![*s]);
                }
                m
            },
            OutputSpec::Fallback(v) => {
                let mut m: Vec<String> = Vec::new();
                let mut i: usize = 0;
                while i < v.len()
                    invariant
                        i <= v@.len(),
                        m@ == v@.take(i as int),
                    decreases v@.len() - i,
                {
                    m.push(v[i].clone());
                    proof {
                        assert(m@ =~= v@.take(i + 1));
                    }
                    i += 1;
                }
                proof {
                    assert(v@.take(v@.len() as int) =~= v@);
                }
                m
            },
        }
    }
}

/// A workspace definition.
#[derive(Debug, Clone)]
pub struct WorkspaceConfig {
    pub name: String,
    /// Which output(s) this workspace prefers (connector names or matchers).
    pub output: Option<OutputSpec>,
    /// Initial layout: "hsplit" or "vsplit". Default is a single frame.
    pub initial_layout: Option<String>,
}

/// A window placement rule: routes windows matching a pattern to a named
/// frame or workspace.
#[derive(Debug, Clone)]
pub struct WinProp {
    pub app_id: Option<String>,
    pub title: Option<String>,
    pub workspace: Option<String>,
    pub frame: Option<String>,
    pub floating: bool,
}

/// A key binding as written in the configuration.
#[derive(Debug, Clone)]
pub struct BindingConfig {
    /// Modifier keys: "super", "alt", "shift", "ctrl" (combined with +).
    pub modifiers: String,
    /// Key name (xkb keysym name, e.g. "space", "1", "Return").
    pub key: String,
    /// Action to perform.
    pub action: String,
    /// Arguments for the action.
    pub args: Vec<String>,
}

/// A keybinding profile (a complete set of bindings).
#[derive(Debug, Clone, Default)]
pub struct ProfileConfig {
    pub bindings: Vec<BindingConfig>,
    pub resize_bindings: Vec<BindingConfig>,
}

/// Colors of borders, tab bars, empty frames and status-bar widgets, as hex
/// strings.
#[derive(Debug, Clone)]
pub struct AppearanceConfig {
    pub active_border: String,
    pub inactive_border: String,
    pub empty_border: String,
    pub urgent_border: String,
    pub tab_active: String,
    pub tab_focused_active: String,
    pub tab_inactive: String,
    pub tab_separator: String,
    pub tab_underline_focused: String,
    pub tab_underline_unfocused: String,
    /// Gradient colors; an empty string disables the gradient.
    pub tab_gradient_start: String,
    pub tab_gradient_end: String,
    pub tab_active_gradient_start: String,
    pub tab_active_gradient_end: String,
    pub tab_inactive_gradient_start: String,
    pub tab_inactive_gradient_end: String,
    pub tab_text_active: String,
    pub tab_text_inactive: String,
    pub empty_focused: String,
    pub empty_unfocused: String,
    /// Color of the resize boundary highlight (with alpha).
    pub resize_highlight: String,
    /// Workspace indicator colors per monitor.
    pub monitor_colors: Vec<String>,
    /// Background of the focused workspace in the status bar.
    pub waybar_focused_bg: String,
}

/// Pre-parsed ARGB8888 colors for pixel rendering.
#[derive(Debug, Clone)]
pub struct Colors {
    pub tab_active: u32,
    pub tab_focused_active: u32,
    pub tab_inactive: u32,
    pub tab_separator: u32,
    pub tab_underline_focused: u32,
    pub tab_underline_unfocused: u32,
    pub tab_gradient_start: Option<u32>,
    pub tab_gradient_end: Option<u32>,
    pub tab_active_gradient_start: Option<u32>,
    pub tab_active_gradient_end: Option<u32>,
    pub tab_inactive_gradient_start: Option<u32>,
    pub tab_inactive_gradient_end: Option<u32>,
    pub tab_text_active: u32,
    pub tab_text_inactive: u32,
    pub empty_focused: u32,
    pub empty_unfocused: u32,
}

/// The value of a hexadecimal digit byte, if it is one.
pub open spec fn hex_digit(b: u8) -> Option<int> {
    if 48 <= b <= 57 {
        Some(b - 48)
    } else if 97 <= b <= 102 {
        Some(b - 87)
    } else if 65 <= b <= 70 {
        Some(b - 55)
    } else {
        None
    }
}

/// The value of a run of hexadecimal digits (most significant first), if
/// every byte is a digit.
pub open spec fn hex_value(d: Seq<u8>) -> Option<int>
    decreases d.len(),
{
    if d.len() == 0 {
        Some(0)
    } else {
        match (hex_value(d.drop_last()), hex_digit(d.last())) {
            (Some(h), Some(x)) => Some(h * 16 + x),
            _ => None,
        }
    }
}

/// What `u32::from_str_radix(s, 16)` gives: an optional leading `+`, then
/// at least one hex digit, and a value that fits in 32 bits.
pub open spec fn parse_hex_u32(s: Seq<u8>) -> Option<u32> {
    let digits = if s.len() > 1 && s[0] == 43 { s.drop_first() } else { s };
    if digits.len() == 0 {
        None
    } else {
        match hex_value(digits) {
            Some(v) => if v <= u32::MAX { Some(v as u32) } else { None },
            None => None,
        }
    }
}

fn hex_digit_of(b: u8) -> (r: Option<u32>)
    ensures
        match r {
            Some(v) => hex_digit(b) == Some(v as int),
            None => hex_digit(b) is None,
        },
{
    if 48 <= b && b <= 57 {
        Some((b - 48) as u32)
    } else if 97 <= b && b <= 102 {
        Some((b - 87) as u32)
    } else if 65 <= b && b <= 70 {
        Some((b - 55) as u32)
    } else {
        None
    }
}

pub proof fn lemma_hex_value_bound(d: Seq<u8>)
    ensures
        hex_value(d) matches Some(v) ==> 0 <= v,
    decreases d.len(),
{
    if d.len() > 0 {
        lemma_hex_value_bound(d.drop_last());
    }
}

/// Parse `s` as a base-16 `u32`, as `u32::from_str_radix(s, 16)` does.
pub fn parse_hex(s: &[u8]) -> (r: Option<u32>)
    ensures
        r == parse_hex_u32(s@),
{
    let start: usize = if s.len() > 1 && s[0] == 43 { 1 } else { 0 };
    let ghost digits = if s@.len() > 1 && s@[0] == 43 { s@.drop_first() } else { s@ };
    proof {
        assert(digits =~= s@.subrange(start as int, s@.len() as int));
    }
    if start == s.len() {
        return None;
    }
    let mut acc: u64 = 0;
    let mut i = start;
    while i < s.len()
        invariant
            start <= i <= s@.len(),
            digits == s@.subrange(start as int, s@.len() as int),
            digits == (if s@.len() > 1 && s@[0] == 43 { s@.drop_first() } else { s@ }),
            hex_value(s@.subrange(start as int, i as int)) == Some(acc as int),
            acc <= u32::MAX,
        decreases s@.len() - i,
    {
        let ghost pre = s@.subrange(start as int, i as int);
        let ghost nxt = s@.subrange(start as int, i + 1);
        proof {
            assert(nxt.drop_last() =~= pre);
            assert(nxt.last() == s@[i as int]);
        }
        match hex_digit_of(s[i]) {
            Some(d) => {
                let next = acc * 16 + d as u64;
                proof {
                    assert(hex_value(nxt) == Some(next as int));
                    assert(digits.subrange(0, i + 1 - start) =~= nxt);
                }
                if next > 0xFFFF_FFFF {
                    proof {
                        // once the value is too large it only grows
                        lemma_hex_grows(s@.subrange(start as int, s@.len() as int), (i + 1 - start) as int);
                    }
                    return None;
                }
                acc = next;
            },
            None => {
                proof {
                    assert(digits[i - start] == s@[i as int]);
                    lemma_hex_invalid(s@.subrange(start as int, s@.len() as int), (i - start) as int);
                }
                return None;
            },
        }
        i += 1;
    }
    proof {
        assert(s@.subrange(start as int, s@.len() as int) =~= digits);
    }
    Some(acc as u32)
}

proof fn lemma_hex_invalid(d: Seq<u8>, k: int)
    requires
        0 <= k < d.len(),
        hex_digit(d[k]) is None,
    ensures
        hex_value(d) is None,
    decreases d.len(),
{
    if k == d.len() - 1 {
    } else {
        lemma_hex_invalid(d.drop_last(), k);
    }
}

proof fn lemma_hex_grows(d: Seq<u8>, k: int)
    requires
        0 < k <= d.len(),
        hex_value(d.subrange(0, k)) matches Some(v) && v > u32::MAX,
    ensures
        hex_value(d) matches Some(v) ==> v > u32::MAX,
    decreases d.len() - k,
{
    if k < d.len() {
        let a = d.subrange(0, k);
        let b = d.subrange(0, k + 1);
        assert(b.drop_last() =~= a);
        lemma_hex_value_bound(a);
        if hex_value(b) is Some {
            lemma_hex_grows(d, k + 1);
        } else {
            lemma_hex_none_extends(d, k + 1);
        }
    } else {
        assert(d.subrange(0, k) =~= d);
    }
}

proof fn lemma_hex_none_extends(d: Seq<u8>, k: int)
    requires
        0 < k <= d.len(),
        hex_value(d.subrange(0, k)) is None,
    ensures
        hex_value(d) is None,
    decreases d.len() - k,
{
    if k < d.len() {
        let b = d.subrange(0, k + 1);
        assert(b.drop_last() =~= d.subrange(0, k));
        lemma_hex_none_extends(d, k + 1);
    } else {
        assert(d.subrange(0, k) =~= d);
    }
}

/// Number of leading `#` bytes.
pub open spec fn lead_hashes(s: Seq<u8>) -> nat
    decreases s.len(),
{
    if s.len() > 0 && s[0] == 35 {
        1 + lead_hashes(s.drop_first())
    } else {
        0
    }
}

/// The ARGB8888 value of a color written `#RRGGBB` or `#RRGGBBAA` (any
/// number of leading `#`). Six digits are opaque; eight digits carry alpha
/// last and are rotated to alpha-first. Unparseable six-digit text gives
/// opaque `#333333`; unparseable eight-digit text falls back to the value
/// `0xFF333333` before rotation; any other length gives opaque `#333333`.
pub open spec fn argb_of(s: Seq<u8>) -> u32 {
    let t = s.subrange(lead_hashes(s) as int, s.len() as int);
    if t.len() == 6 {
        let v = match parse_hex_u32(t) {
            Some(v) => v as int,
            None => 0x333333,
        };
        (0xFF000000 + v) as u32
    } else if t.len() == 8 {
        let v = match parse_hex_u32(t) {
            Some(v) => v as int,
            None => 0xFF333333,
        };
        ((v % 256) * 0x1000000 + v / 256) as u32
    } else {
        0xFF333333
    }
}

pub proof fn lemma_lead_hashes(s: Seq<u8>, i: int)
    requires
        0 <= i <= s.len(),
        forall|j: int| 0 <= j < i ==> #[trigger] s[j] == 35,
        i == s.len() || s[i] != 35,
    ensures
        lead_hashes(s) == i,
    decreases i,
{
    if i > 0 {
        let t = s.drop_first();
        assert forall|j: int| 0 <= j < i - 1 implies #[trigger] t[j] == 35 by {
            assert(t[j] == s[j + 1]);
        }
        if i < s.len() {
            assert(t[i - 1] == s[i]);
        }
        lemma_lead_hashes(t, i - 1);
    }
}

pub proof fn lemma_hex_small(d: Seq<u8>)
    ensures
        hex_value(d) matches Some(v) ==> v < pow16(d.len()),
    decreases d.len(),
{
    if d.len() > 0 {
        lemma_hex_small(d.drop_last());
        if let (Some(h), Some(x)) = (hex_value(d.drop_last()), hex_digit(d.last())) {
            assert(h * 16 + x < pow16(d.len())) by (nonlinear_arith)
                requires
                    h < pow16((d.len() - 1) as nat),
                    0 <= x < 16,
                    pow16(d.len()) == 16 * pow16((d.len() - 1) as nat),
            ;
        }
    }
}

/// 16 to the power `n`.
pub open spec fn pow16(n: nat) -> int
    decreases n,
{
    if n == 0 {
        1
    } else {
        16 * pow16((n - 1) as nat)
    }
}

/// The ARGB8888 value of a color string (see `argb_of`; the rules read
/// its UTF-8 bytes).
pub open spec fn color_of(s: Seq<char>) -> u32 {
    argb_of(encode_utf8(s))
}

/// Parse a hex color string (`#RRGGBB` or `#RRGGBBAA`) to ARGB8888.
pub fn hex_to_argb(hex: &str) -> (r: u32)
    ensures
        r == color_of(hex@),
{
    let b = hex.as_bytes();
    let mut lo: usize = 0;
    while lo < b.len() && b[lo] == 35
        invariant
            lo <= b@.len(),
            forall|j: int| 0 <= j < lo ==> #[trigger] b@[j] == 35,
        decreases b@.len() - lo,
    {
        lo += 1;
    }
    proof {
        lemma_lead_hashes(b@, lo as int);
    }
    let mut t: Vec<u8> = Vec::new();
    let mut i = lo;
    while i < b.len()
        invariant
            lo <= i <= b@.len(),
            t@ == b@.subrange(lo as int, i as int),
        decreases b@.len() - i,
    {
        t.push(b[i]);
        i += 1;
    }
    let n = t.len();
    if n == 6 {
        let v: u32 = match parse_hex(t.as_slice()) {
            Some(v) => {
                proof {
                    let d = if t@.len() > 1 && t@[0] == 43 { t@.drop_first() } else { t@ };
                    lemma_hex_small(d);
                    lemma_hex_value_bound(d);
                    reveal_with_fuel(pow16, 7);
                    assert(pow16(6) == 0x1000000);
                    assert(pow16(5) == 0x100000);
                }
                v
            },
            None => 0x333333,
        };
        0xFF000000 + v
    } else if n == 8 {
        let v: u32 = match parse_hex(t.as_slice()) {
            Some(v) => v,
            None => 0xFF333333,
        };
        (v % 256) * 0x1000000 + v / 256
    } else {
        0xFF333333
    }
}

/// The parsed color of a hex string, or `None` for an empty string.
pub open spec fn optional_argb(s: String) -> Option<u32> {
    if s@.len() == 0 {
        None
    } else {
        Some(color_of(s@))
    }
}

fn optional_color(s: &String) -> (r: Option<u32>)
    ensures
        r == optional_argb(*s),
{
    if s.as_str().is_empty() {
        None
    } else {
        Some(hex_to_argb(s.as_str()))
    }
}

/// The decoded colors of an appearance configuration.
pub open spec fn colors_of(a: AppearanceConfig) -> Colors {
    Colors {
        tab_active: color_of(a.tab_active@),
        tab_focused_active: color_of(a.tab_focused_active@),
        tab_inactive: color_of(a.tab_inactive@),
        tab_separator: color_of(a.tab_separator@),
        tab_underline_focused: color_of(a.tab_underline_focused@),
        tab_underline_unfocused: color_of(a.tab_underline_unfocused@),
        tab_gradient_start: optional_argb(a.tab_gradient_start),
        tab_gradient_end: optional_argb(a.tab_gradient_end),
        tab_active_gradient_start: optional_argb(a.tab_active_gradient_start),
        tab_active_gradient_end: optional_argb(a.tab_active_gradient_end),
        tab_inactive_gradient_start: optional_argb(a.tab_inactive_gradient_start),
        tab_inactive_gradient_end: optional_argb(a.tab_inactive_gradient_end),
        tab_text_active: color_of(a.tab_text_active@),
        tab_text_inactive: color_of(a.tab_text_inactive@),
        empty_focused: color_of(a.empty_focused@),
        empty_unfocused: color_of(a.empty_unfocused@),
    }
}

impl AppearanceConfig {
    /// Parse all hex color strings into ARGB8888 values.
    pub fn colors(&self) -> (c: Colors)
        ensures
            c == colors_of(*self),
    {
        Colors {
            tab_active: hex_to_argb(self.tab_active.as_str()),
            tab_focused_active: hex_to_argb(self.tab_focused_active.as_str()),
            tab_inactive: hex_to_argb(self.tab_inactive.as_str()),
            tab_gradient_start: optional_color(&self.tab_gradient_start),
            tab_gradient_end: optional_color(&self.tab_gradient_end),
            tab_active_gradient_start: optional_color(&self.tab_active_gradient_start),
            tab_active_gradient_end: optional_color(&self.tab_active_gradient_end),
            tab_inactive_gradient_start: optional_color(&self.tab_inactive_gradient_start),
            tab_inactive_gradient_end: optional_color(&self.tab_inactive_gradient_end),
            tab_separator: hex_to_argb(self.tab_separator.as_str()),
            tab_underline_focused: hex_to_argb(self.tab_underline_focused.as_str()),
            tab_underline_unfocused: hex_to_argb(self.tab_underline_unfocused.as_str()),
            tab_text_active: hex_to_argb(self.tab_text_active.as_str()),
            tab_text_inactive: hex_to_argb(self.tab_text_inactive.as_str()),
            empty_focused: hex_to_argb(self.empty_focused.as_str()),
            empty_unfocused: hex_to_argb(self.empty_unfocused.as_str()),
        }
    }
}

impl Default for CommandsConfig {
    /// The terminal is `contour`, the launcher `rofi -show combi`, the
    /// window switcher `notion-rofi-window-switch`.
    fn default() -> (c: CommandsConfig)
        ensures
            c.terminal@ == "contour"@,
            string_views(c.launcher@) == seq!["rofi"@, "-show"@, "combi"@],
            string_views(c.window_switcher@) == seq!["notion-rofi-window-switch"@],
    {
        let mut launcher: Vec<String> = Vec::new();
        launcher.push("rofi".to_string());
        launcher.push("-show".to_string());
        launcher.push("combi".to_string());
        let mut window_switcher: Vec<String> = Vec::new();
        window_switcher.push("notion-rofi-window-switch".to_string());
        let c = CommandsConfig { terminal: "contour".to_string(), launcher, window_switcher };
        proof {
            assert(string_views(c.launcher@) =~= seq!["rofi"@, "-show"@, "combi"@]);
            assert(string_views(c.window_switcher@) =~= seq!["notion-rofi-window-switch"@]);
        }
        c
    }
}

impl Default for AppearanceConfig {
    /// The default purple-toned palette.
    fn default() -> (a: AppearanceConfig)
        ensures
            a.active_border@ == "#9b8ec4"@,
            a.inactive_border@ == "#2a2636"@,
            a.empty_border@ == "#5e5775"@,
            a.urgent_border@ == "#c45b84"@,
            a.tab_active@ == "#7c6f9b"@,
            a.tab_focused_active@ == "#9b8ec4"@,
            a.tab_inactive@ == "#1e1b26"@,
            a.tab_gradient_start@ == "#5a2ab5"@,
            a.tab_gradient_end@ == "#a8407f"@,
            a.tab_active_gradient_start@ == "#3a2850"@,
            a.tab_active_gradient_end@ == "#201828"@,
            a.tab_inactive_gradient_start@ == "#3a2850"@,
            a.tab_inactive_gradient_end@ == "#201828"@,
            a.tab_separator@ == "#5e5775"@,
            a.tab_underline_focused@ == "#cdb4ff"@,
            a.tab_underline_unfocused@ == "#7c6f9b"@,
            a.tab_text_active@ == "#ede8f5"@,
            a.tab_text_inactive@ == "#8a8399"@,
            a.empty_focused@ == "#7c6f9b"@,
            a.empty_unfocused@ == "#332e42"@,
            a.resize_highlight@ == "#cba6f780"@,
            string_views(a.monitor_colors@) == seq!["#b4a0e5"@, "#a6c9a1"@, "#e5cfa6"@, "#d68ba8"@],
            a.waybar_focused_bg@ == "#2a2636"@,
    {
        let mut monitor_colors: Vec<String> = Vec::new();
        monitor_colors.push("#b4a0e5".to_string());
        monitor_colors.push("#a6c9a1".to_string());
        monitor_colors.push("#e5cfa6".to_string());
        monitor_colors.push("#d68ba8".to_string());
        let a = AppearanceConfig {
            active_border: "#9b8ec4".to_string(),
            inactive_border: "#2a2636".to_string(),
            empty_border: "#5e5775".to_string(),
            urgent_border: "#c45b84".to_string(),
            tab_active: "#7c6f9b".to_string(),
            tab_focused_active: "#9b8ec4".to_string(),
            tab_inactive: "#1e1b26".to_string(),
            tab_gradient_start: "#5a2ab5".to_string(),
            tab_gradient_end: "#a8407f".to_string(),
            tab_active_gradient_start: "#3a2850".to_string(),
            tab_active_gradient_end: "#201828".to_string(),
            tab_inactive_gradient_start: "#3a2850".to_string(),
            tab_inactive_gradient_end: "#201828".to_string(),
            tab_separator: "#5e5775".to_string(),
            tab_underline_focused: "#cdb4ff".to_string(),
            tab_underline_unfocused: "#7c6f9b".to_string(),
            tab_text_active: "#ede8f5".to_string(),
            tab_text_inactive: "#8a8399".to_string(),
            empty_focused: "#7c6f9b".to_string(),
            empty_unfocused: "#332e42".to_string(),
            resize_highlight: "#cba6f780".to_string(),
            monitor_colors,
            waybar_focused_bg: "#2a2636".to_string(),
        };
        proof {
            assert(string_views(a.monitor_colors@) =~= seq!["#b4a0e5"@, "#a6c9a1"@, "#e5cfa6"@, "#d68ba8"@]);
        }
        a
    }
}

/// The workspaces configured by default: "main" (split side by side),
/// "secondary", "utility", "social", "work" and "term", none bound to an
/// output.
pub open spec fn default_workspace_names() -> Seq<Seq<char>> {
    seq!["main"@, "secondary"@, "utility"@, "social"@, "work"@, "term"@]
}

fn workspace_config(name: &str, hsplit: bool) -> (w: WorkspaceConfig)
    ensures
        w.name@ == name@,
        w.output is None,
        match w.initial_layout {
            Some(l) => hsplit && l@ == "hsplit"@,
            None => !hsplit,
        },
{
    WorkspaceConfig {
        name: name.to_string(),
        output: None,
        initial_layout: if hsplit { Some("hsplit".to_string()) } else { None },
    }
}

/// The default workspace list.
pub fn default_workspaces() -> (v: Vec<WorkspaceConfig>)
    ensures
        v@.len() == 6,
        forall|i: int| 0 <= i < 6 ==> (#[trigger] v@[i]).name@ == default_workspace_names()[i] && v@[i].output is None,
        v@[0].initial_layout matches Some(l) && l@ == "hsplit"@,
        forall|i: int| 1 <= i < 6 ==> (#[trigger] v@[i]).initial_layout is None,
{
    let mut v: Vec<WorkspaceConfig> = Vec::new();
    v.push(workspace_config("main", true));
    v.push(workspace_config("secondary", false));
    v.push(workspace_config("utility", false));
    v.push(workspace_config("social", false));
    v.push(workspace_config("work", false));
    v.push(workspace_config("term", false));
    v
}

} // verus!
