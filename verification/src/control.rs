//! The control socket: the requests clients send, the snapshot they read,
//! and what a command line asks for.

use vstd::prelude::*;
use crate::focus::shown_on_output;
use crate::ipc::SubscriptionKind;
use crate::layout::{find_leaf, leaf_ids, opt_view, Frame, FrameId, FrameView, Rect, Tree};
use crate::seqs::{first_match, lemma_first_match_none, lemma_first_match_unique};
use crate::ipc::{bright_part, bright_part_chars, dim_part, dim_part_chars, first_appearances, first_appearances_of, slot_in, slot_of};
use crate::monitors::chars_equal;
use crate::text::{escape_quotes, escape_quotes_chars, join_sep, join_with, push_chars, push_str};
use crate::workspace::{id_is, Workspace, WorkspaceManager};
use crate::numbers::{parse_i32, parse_i32_chars, parse_u64_chars, parse_unsigned, parse_usize_chars};
use crate::text::{char_vecs, chars_of, join_spaced, join_words_from, slice_chars, split_words, str_eq, string_from_chars, trim_chars, trimmed, words};

verus! {

/// A request for the manage cycle.
#[derive(Debug, Clone)]
pub enum ControlRequest {
    FocusWindow(u64),
    SwitchWorkspace(String),
    SetFixedDimensions(String, Option<(i32, i32)>),
    Bind { app_id: String, workspace: String, frame_index: usize, dimensions: Option<(i32, i32)> },
    Unbind(String),
}

/// A window as clients see it.
#[derive(Debug, Clone, Default)]
pub struct WindowInfo {
    pub id: u64,
    pub workspace: String,
    pub frame_id: u64,
    pub title: String,
    pub app_id: String,
    pub focused: bool,
    pub x: i32,
    pub y: i32,
    pub width: i32,
    pub height: i32,
}

/// A workspace as clients see it.
#[derive(Debug, Clone, Default)]
pub struct WorkspaceInfo {
    pub name: String,
    pub output: Option<String>,
    /// The first preferred output from the configuration (stable across
    /// workspace switches).
    pub preferred_output: Option<String>,
    pub focused: bool,
    pub visible: bool,
    pub has_windows: bool,
}

/// The state clients can list.
#[derive(Debug, Clone, Default)]
pub struct Snapshot {
    pub windows: Vec<WindowInfo>,
    pub workspaces: Vec<WorkspaceInfo>,
}

/// Why a command line is refused.
#[derive(Debug, Clone, Copy, PartialEq, Eq, Structural)]
pub enum ControlError {
    Empty,
    MissingOutputName,
    MissingWorkspaceName,
    MissingId,
    BadId,
    MissingName,
    BindUsage,
    MissingWorkspace,
    MissingFrameIndex,
    BadFrameIndex,
    MissingAppId,
    MissingDimensions,
    BadFormat,
    BadDimensions,
    Unknown,
}

pub open spec fn error_text(e: ControlError) -> Seq<char> {
    match e {
        ControlError::Empty => "ERR empty"@,
        ControlError::MissingOutputName => "ERR missing output name"@,
        ControlError::MissingWorkspaceName => "ERR missing workspace name"@,
        ControlError::MissingId => "ERR missing id"@,
        ControlError::BadId => "ERR bad id"@,
        ControlError::MissingName => "ERR missing name"@,
        ControlError::BindUsage => "ERR usage: bind <app_id> <workspace> <frame_index> [WxH]"@,
        ControlError::MissingWorkspace => "ERR missing workspace"@,
        ControlError::MissingFrameIndex => "ERR missing frame_index"@,
        ControlError::BadFrameIndex => "ERR bad frame_index"@,
        ControlError::MissingAppId => "ERR missing app_id"@,
        ControlError::MissingDimensions => "ERR missing dimensions (WxH or 'clear')"@,
        ControlError::BadFormat => "ERR bad format, use WxH"@,
        ControlError::BadDimensions => "ERR bad dimensions"@,
        ControlError::Unknown => "ERR unknown"@,
    }
}

impl ControlError {
    /// The reply line (without its newline) sent for this error.
    pub fn reply(&self) -> (s: &'static str)
        ensures
            s@ == error_text(*self),
    {
        match self {
            ControlError::Empty => "ERR empty",
            ControlError::MissingOutputName => "ERR missing output name",
            ControlError::MissingWorkspaceName => "ERR missing workspace name",
            ControlError::MissingId => "ERR missing id",
            ControlError::BadId => "ERR bad id",
            ControlError::MissingName => "ERR missing name",
            ControlError::BindUsage => "ERR usage: bind <app_id> <workspace> <frame_index> [WxH]",
            ControlError::MissingWorkspace => "ERR missing workspace",
            ControlError::MissingFrameIndex => "ERR missing frame_index",
            ControlError::BadFrameIndex => "ERR bad frame_index",
            ControlError::MissingAppId => "ERR missing app_id",
            ControlError::MissingDimensions => "ERR missing dimensions (WxH or 'clear')",
            ControlError::BadFormat => "ERR bad format, use WxH",
            ControlError::BadDimensions => "ERR bad dimensions",
            ControlError::Unknown => "ERR unknown",
        }
    }
}

/// What a command line asks for.
#[derive(Debug, Clone)]
pub enum ControlCommand {
    /// Keep the connection open and stream updates of this kind.
    Subscribe(SubscriptionKind),
    ListWindows,
    ListWorkspaces,
    /// Queue a request for the manage cycle and reply "OK".
    Request(ControlRequest),
    /// Reply with the error.
    Reject(ControlError),
}

/// The two sides of `s` around its only `sep`, if it holds exactly one.
pub open spec fn split_pair(s: Seq<char>, sep: char) -> Option<(Seq<char>, Seq<char>)> {
    if exists|c: int| 0 <= c < s.len() && s[c] == sep && (forall|j: int| 0 <= j < s.len() && j != c ==> s[j] != sep) {
        let c = choose|c: int| 0 <= c < s.len() && s[c] == sep && (forall|j: int| 0 <= j < s.len() && j != c ==> s[j] != sep);
        Some((s.take(c), s.skip(c + 1)))
    } else {
        None
    }
}

/// "WxH" as a pair of `i32`.
pub open spec fn dimensions_of(s: Seq<char>) -> Option<(i32, i32)> {
    match split_pair(s, 'x') {
        Some((a, b)) => match (parse_i32(a), parse_i32(b)) {
            (Some(w), Some(h)) => Some((w, h)),
            _ => None,
        },
        None => None,
    }
}

/// The rest of the words, from the second on, joined with spaces.
pub open spec fn rest_of(w: Seq<Seq<char>>) -> Seq<char> {
    join_spaced(w.skip(1))
}

/// `r` is what the command line `line` asks for.
pub open spec fn command_of(r: ControlCommand, line: Seq<char>) -> bool {
    let w = words(trimmed(line));
    let cmd = if w.len() > 0 { w[0] } else { Seq::empty() };
    if trimmed(line).len() == 0 {
        r == ControlCommand::Reject(ControlError::Empty)
    } else if cmd == "subscribe-output"@ {
        if rest_of(w).len() == 0 {
            r == ControlCommand::Reject(ControlError::MissingOutputName)
        } else {
            r matches ControlCommand::Subscribe(SubscriptionKind::Output(n)) && n@ == rest_of(w)
        }
    } else if cmd == "subscribe-workspace"@ {
        if rest_of(w).len() == 0 {
            r == ControlCommand::Reject(ControlError::MissingWorkspaceName)
        } else {
            r matches ControlCommand::Subscribe(SubscriptionKind::SingleWorkspace(n)) && n@ == rest_of(w)
        }
    } else if cmd == "subscribe-workspaces"@ {
        r matches ControlCommand::Subscribe(SubscriptionKind::AllWorkspaces)
    } else if cmd == "list-windows"@ {
        r matches ControlCommand::ListWindows
    } else if cmd == "list-workspaces"@ {
        r matches ControlCommand::ListWorkspaces
    } else if cmd == "focus-window"@ {
        if w.len() < 2 {
            r == ControlCommand::Reject(ControlError::MissingId)
        } else {
            match parse_unsigned(w[1], u64::MAX as int) {
                Some(id) => r matches ControlCommand::Request(ControlRequest::FocusWindow(x)) && x == id,
                None => r == ControlCommand::Reject(ControlError::BadId),
            }
        }
    } else if cmd == "switch-workspace"@ {
        if rest_of(w).len() == 0 {
            r == ControlCommand::Reject(ControlError::MissingName)
        } else {
            r matches ControlCommand::Request(ControlRequest::SwitchWorkspace(n)) && n@ == rest_of(w)
        }
    } else if cmd == "bind"@ {
        if w.len() < 2 {
            r == ControlCommand::Reject(ControlError::BindUsage)
        } else if w.len() < 3 {
            r == ControlCommand::Reject(ControlError::MissingWorkspace)
        } else if w.len() < 4 {
            r == ControlCommand::Reject(ControlError::MissingFrameIndex)
        } else {
            match parse_unsigned(w[3], usize::MAX as int) {
                Some(idx) => r matches ControlCommand::Request(ControlRequest::Bind { app_id, workspace, frame_index, dimensions })
                    && app_id@ == w[1] && workspace@ == w[2] && frame_index == idx
                    && dimensions == (if w.len() > 4 { dimensions_of(w[4]) } else { None }),
                None => r == ControlCommand::Reject(ControlError::BadFrameIndex),
            }
        }
    } else if cmd == "unbind"@ {
        if w.len() < 2 {
            r == ControlCommand::Reject(ControlError::MissingAppId)
        } else {
            r matches ControlCommand::Request(ControlRequest::Unbind(a)) && a@ == w[1]
        }
    } else if cmd == "set-fixed-dimensions"@ {
        if w.len() < 2 {
            r == ControlCommand::Reject(ControlError::MissingAppId)
        } else if w.len() < 3 {
            r == ControlCommand::Reject(ControlError::MissingDimensions)
        } else if w[2] == "clear"@ {
            r matches ControlCommand::Request(ControlRequest::SetFixedDimensions(a, d)) && a@ == w[1] && d is None
        } else {
            match split_pair(w[2], 'x') {
                None => r == ControlCommand::Reject(ControlError::BadFormat),
                Some(_) => match dimensions_of(w[2]) {
                    Some(dims) => r matches ControlCommand::Request(ControlRequest::SetFixedDimensions(a, d))
                        && a@ == w[1] && d == Some(dims),
                    None => r == ControlCommand::Reject(ControlError::BadDimensions),
                },
            }
        }
    } else {
        r == ControlCommand::Reject(ControlError::Unknown)
    }
}

/// The two sides of `s` around its only `sep`.
fn split_pair_chars(s: &[char], sep: char) -> (r: Option<(Vec<char>, Vec<char>)>)
    ensures
        match r {
            Some((a, b)) => split_pair(s@, sep) == Some((a@, b@)),
            None => split_pair(s@, sep) is None,
        },
{
    let mut count: usize = 0;
    let mut at: usize = 0;
    let mut i: usize = 0;
    while i < s.len()
        invariant
            i <= s@.len(),
            count <= i,
            count == 0 ==> forall|j: int| 0 <= j < i ==> s@[j] != sep,
            count >= 1 ==> at < i && s@[at as int] == sep,
            count == 1 ==> forall|j: int| 0 <= j < i && j != at ==> s@[j] != sep,
            count >= 2 ==> exists|j: int| 0 <= j < i && j != at && s@[j] == sep,
        decreases s@.len() - i,
    {
        if s[i] == sep {
            if count == 0 {
                at = i;
            }
            count += 1;
        }
        i += 1;
    }
    let ghost ex = exists|c: int| 0 <= c < s@.len() && s@[c] == sep && (forall|j: int| 0 <= j < s@.len() && j != c ==> s@[j] != sep);
    if count != 1 {
        proof {
            if ex {
                let c = choose|c: int| 0 <= c < s@.len() && s@[c] == sep && (forall|j: int| 0 <= j < s@.len() && j != c ==> s@[j] != sep);
                if count >= 2 {
                    let j = choose|j: int| 0 <= j < s@.len() && j != at && s@[j] == sep;
                    assert(j == c);
                    assert(at == c);
                } else {
                    assert(s@[c] != sep);
                }
            }
        }
        return None;
    }
    proof {
        assert(ex);
        let c = choose|c: int| 0 <= c < s@.len() && s@[c] == sep && (forall|j: int| 0 <= j < s@.len() && j != c ==> s@[j] != sep);
        assert(c == at);
    }
    let left = slice_chars(s, 0, at);
    let right = slice_chars(s, at + 1, s.len());
    proof {
        assert(left@ =~= s@.take(at as int));
        assert(right@ =~= s@.skip(at + 1));
    }
    Some((left, right))
}

fn dimensions_chars(s: &[char]) -> (r: Option<(i32, i32)>)
    ensures
        r == dimensions_of(s@),
{
    match split_pair_chars(s, 'x') {
        Some((a, b)) => match (parse_i32_chars(a.as_slice()), parse_i32_chars(b.as_slice())) {
            (Some(w), Some(h)) => Some((w, h)),
            _ => None,
        },
        None => None,
    }
}

fn chars_is(v: &Vec<char>, lit: &str) -> (b: bool)
    ensures
        b == (v@ == lit@),
{
    let s = string_from_chars(v.as_slice());
    str_eq(s.as_str(), lit)
}

/// What a command line received on the control socket asks for.
pub fn parse_control_line(line: &str) -> (r: ControlCommand)
    ensures
        command_of(r, line@),
{
    let cs = chars_of(line);
    let t = trim_chars(cs.as_slice());
    if t.len() == 0 {
        return ControlCommand::Reject(ControlError::Empty);
    }
    let w = split_words(t.as_slice());
    let ghost wv = char_vecs(w@);
    assert(wv == words(trimmed(line@)));
    proof {
        crate::text::lemma_words_nonempty(t@, 0);
    }
    let empty: Vec<char> = Vec::new();
    let cmd: &Vec<char> = if w.len() > 0 { &w[0] } else { &empty };
    proof {
        if wv.len() > 0 {
            assert(wv[0] == w@[0]@);
        }
    }
    let rest = join_words_from(&w, 1);
    let has_rest = rest.len() > 0;
    if chars_is(cmd, "subscribe-output") {
        if !has_rest {
            ControlCommand::Reject(ControlError::MissingOutputName)
        } else {
            ControlCommand::Subscribe(SubscriptionKind::Output(string_from_chars(rest.as_slice())))
        }
    } else if chars_is(cmd, "subscribe-workspace") {
        if !has_rest {
            ControlCommand::Reject(ControlError::MissingWorkspaceName)
        } else {
            ControlCommand::Subscribe(SubscriptionKind::SingleWorkspace(string_from_chars(rest.as_slice())))
        }
    } else if chars_is(cmd, "subscribe-workspaces") {
        ControlCommand::Subscribe(SubscriptionKind::AllWorkspaces)
    } else if chars_is(cmd, "list-windows") {
        ControlCommand::ListWindows
    } else if chars_is(cmd, "list-workspaces") {
        ControlCommand::ListWorkspaces
    } else if chars_is(cmd, "focus-window") {
        if w.len() < 2 {
            ControlCommand::Reject(ControlError::MissingId)
        } else {
            proof {
                assert(wv[1] == w@[1]@);
            }
            match parse_u64_chars(w[1].as_slice()) {
                Some(id) => ControlCommand::Request(ControlRequest::FocusWindow(id)),
                None => ControlCommand::Reject(ControlError::BadId),
            }
        }
    } else if chars_is(cmd, "switch-workspace") {
        if !has_rest {
            ControlCommand::Reject(ControlError::MissingName)
        } else {
            ControlCommand::Request(ControlRequest::SwitchWorkspace(string_from_chars(rest.as_slice())))
        }
    } else if chars_is(cmd, "bind") {
        if w.len() < 2 {
            ControlCommand::Reject(ControlError::BindUsage)
        } else if w.len() < 3 {
            ControlCommand::Reject(ControlError::MissingWorkspace)
        } else if w.len() < 4 {
            ControlCommand::Reject(ControlError::MissingFrameIndex)
        } else {
            proof {
                assert(wv[1] == w@[1]@ && wv[2] == w@[2]@ && wv[3] == w@[3]@);
                if w@.len() > 4 {
                    assert(wv[4] == w@[4]@);
                }
            }
            match parse_usize_chars(w[3].as_slice()) {
                Some(frame_index) => {
                    let dimensions = if w.len() > 4 { dimensions_chars(w[4].as_slice()) } else { None };
                    ControlCommand::Request(ControlRequest::Bind {
                        app_id: string_from_chars(w[1].as_slice()),
                        workspace: string_from_chars(w[2].as_slice()),
                        frame_index,
                        dimensions,
                    })
                },
                None => ControlCommand::Reject(ControlError::BadFrameIndex),
            }
        }
    } else if chars_is(cmd, "unbind") {
        if w.len() < 2 {
            ControlCommand::Reject(ControlError::MissingAppId)
        } else {
            proof {
                assert(wv[1] == w@[1]@);
            }
            ControlCommand::Request(ControlRequest::Unbind(string_from_chars(w[1].as_slice())))
        }
    } else if chars_is(cmd, "set-fixed-dimensions") {
        if w.len() < 2 {
            ControlCommand::Reject(ControlError::MissingAppId)
        } else if w.len() < 3 {
            ControlCommand::Reject(ControlError::MissingDimensions)
        } else {
            proof {
                assert(wv[1] == w@[1]@ && wv[2] == w@[2]@);
            }
            let app = string_from_chars(w[1].as_slice());
            if chars_is(&w[2], "clear") {
                ControlCommand::Request(ControlRequest::SetFixedDimensions(app, None))
            } else {
                match split_pair_chars(w[2].as_slice(), 'x') {
                    None => ControlCommand::Reject(ControlError::BadFormat),
                    Some(_) => match dimensions_chars(w[2].as_slice()) {
                        Some(dims) => ControlCommand::Request(ControlRequest::SetFixedDimensions(app, Some(dims))),
                        None => ControlCommand::Reject(ControlError::BadDimensions),
                    },
                }
            }
        }
    } else {
        ControlCommand::Reject(ControlError::Unknown)
    }
}

// ── The snapshot ──────────────────────────────────────────────────────────

/// The content of a `WindowInfo`.
pub struct WindowInfoView {
    pub id: u64,
    pub workspace: Seq<char>,
    pub frame_id: u64,
    pub title: Seq<char>,
    pub app_id: Seq<char>,
    pub focused: bool,
    pub x: i32,
    pub y: i32,
    pub width: i32,
    pub height: i32,
}

impl View for WindowInfo {
    type V = WindowInfoView;

    open spec fn view(&self) -> WindowInfoView {
        WindowInfoView {
            id: self.id,
            workspace: self.workspace@,
            frame_id: self.frame_id,
            title: self.title@,
            app_id: self.app_id@,
            focused: self.focused,
            x: self.x,
            y: self.y,
            width: self.width,
            height: self.height,
        }
    }
}

pub open spec fn window_views(v: Seq<WindowInfo>) -> Seq<WindowInfoView> {
    v.map_values(|w: WindowInfo| w@)
}

/// The rectangle a computed layout gives frame `id` (the last entry for it,
/// as collecting the layout into a map keeps).
pub open spec fn rect_for(layout: Seq<(FrameId, Rect)>, id: FrameId) -> Option<Rect>
    decreases layout.len(),
{
    if layout.len() == 0 {
        None
    } else if layout.last().0 == id {
        Some(layout.last().1)
    } else {
        rect_for(layout.drop_last(), id)
    }
}

/// The window entry for tab `k` of frame `f` (identifier `fid`) of
/// workspace `ws_name`; `focus` says whether the frame is the focused frame
/// of the focused workspace.
pub open spec fn window_entry(ws_name: Seq<char>, fid: FrameId, f: FrameView, k: int, rect: Option<Rect>, focus: bool) -> WindowInfoView {
    let w = f.windows[k];
    WindowInfoView {
        id: w.window_id,
        workspace: ws_name,
        frame_id: fid.0,
        title: w.title@,
        app_id: w.app_id@,
        focused: focus && f.active_tab < f.windows.len() && f.windows[f.active_tab as int].window_id == w.window_id,
        x: match rect { Some(r) => r.x, None => 0 },
        y: match rect { Some(r) => r.y, None => 0 },
        width: match rect { Some(r) => r.width, None => 0 },
        height: match rect { Some(r) => r.height, None => 0 },
    }
}

pub open spec fn frame_entries(ws_name: Seq<char>, fid: FrameId, f: Option<FrameView>, rect: Option<Rect>, focus: bool) -> Seq<WindowInfoView> {
    match f {
        Some(fv) => Seq::new(fv.windows.len(), |k: int| window_entry(ws_name, fid, fv, k, rect, focus)),
        None => Seq::empty(),
    }
}

/// The window entries of the frames `ids` of workspace `w`, in order.
pub open spec fn frames_entries<R>(w: Workspace<R>, ids: Seq<FrameId>, layout: Option<Seq<(FrameId, Rect)>>, focus_ws: bool, focus_frame: FrameId) -> Seq<WindowInfoView>
    decreases ids.len(),
{
    if ids.len() == 0 {
        Seq::empty()
    } else {
        let fid = ids.last();
        let rect = match layout { Some(l) => rect_for(l, fid), None => None };
        frames_entries(w, ids.drop_last(), layout, focus_ws, focus_frame)
            + frame_entries(w.name@, fid, find_leaf(w.root@, fid), rect, focus_ws && fid == focus_frame)
    }
}

/// The layout that applies to workspace `k`: its own when it is shown on
/// an existing output.
pub open spec fn applied_layout<R>(m: WorkspaceManager<R>, layouts: Seq<Seq<(FrameId, Rect)>>, k: int) -> Option<Seq<(FrameId, Rect)>> {
    if shown_on_output(m.workspaces@[k], m.outputs@) { Some(layouts[k]) } else { None }
}

/// The window entries of the first `n` workspaces.
pub open spec fn snapshot_windows<R>(m: WorkspaceManager<R>, layouts: Seq<Seq<(FrameId, Rect)>>, n: int) -> Seq<WindowInfoView>
    decreases n,
{
    if n <= 0 {
        Seq::empty()
    } else {
        let w = m.workspaces@[n - 1];
        let focus_frame = m.workspaces@[m.focused_workspace.0 as int].focused_frame;
        snapshot_windows(m, layouts, n - 1)
            + frames_entries(w, leaf_ids(w.root@), applied_layout(m, layouts, n - 1), w.id == m.focused_workspace, focus_frame)
    }
}

pub open spec fn frame_nonempty(f: Option<FrameView>) -> bool {
    f matches Some(x) && x.windows.len() > 0
}

/// Some frame of the tree holds a window.
pub open spec fn tree_has_windows<R>(t: Tree<R>) -> bool {
    exists|i: int| 0 <= i < leaf_ids(t).len() && frame_nonempty(#[trigger] find_leaf(t, leaf_ids(t)[i]))
}

/// The output name a workspace is shown on.
pub open spec fn shown_output_name<R>(m: WorkspaceManager<R>, w: Workspace<R>) -> Option<Seq<char>> {
    match w.active_output {
        Some(o) => match first_match(m.outputs@, id_is(o)) {
            Some(k) => opt_view(m.outputs@[k].name),
            None => None,
        },
        None => None,
    }
}

/// `i` is the snapshot entry of workspace `w`.
pub open spec fn workspace_entry<R>(i: WorkspaceInfo, m: WorkspaceManager<R>, w: Workspace<R>) -> bool {
    &&& i.name@ == w.name@
    &&& opt_view(i.output) == shown_output_name(m, w)
    &&& opt_view(i.preferred_output) == (if w.preferred_output@.len() > 0 { Some(w.preferred_output@[0]@) } else { None })
    &&& i.focused == (w.id == m.focused_workspace)
    &&& i.visible == (w.active_output is Some)
    &&& i.has_windows == tree_has_windows(w.root@)
}

fn rect_lookup(layout: &Vec<(FrameId, Rect)>, id: FrameId) -> (r: Option<Rect>)
    ensures
        r == rect_for(layout@, id),
{
    let mut i: usize = layout.len();
    proof {
        assert(layout@.take(layout@.len() as int) =~= layout@);
    }
    while i > 0
        invariant
            i <= layout@.len(),
            rect_for(layout@, id) == rect_for(layout@.take(i as int), id),
        decreases i,
    {
        let ghost t = layout@.take(i as int);
        proof {
            assert(t.drop_last() =~= layout@.take(i - 1));
            assert(t.last() == layout@[i - 1]);
        }
        if layout[i - 1].0 == id {
            return Some(layout[i - 1].1);
        }
        i -= 1;
    }
    None
}

fn copy_string(s: &String) -> (r: String)
    ensures
        r@ == s@,
{
    s.clone()
}

/// The entries of the windows of frame `f`.
fn push_frame_entries(out: &mut Vec<WindowInfo>, ws_name: &String, fid: FrameId, f: &Frame, rect: Option<Rect>, focus: bool)
    ensures
        window_views(final(out)@) == window_views(old(out)@) + frame_entries(ws_name@, fid, Some(f@), rect, focus),
{
    let ghost start = window_views(out@);
    let mut k: usize = 0;
    while k < f.windows.len()
        invariant
            k <= f.windows@.len(),
            out@.len() == start.len() + k,
            window_views(out@) == start + frame_entries(ws_name@, fid, Some(f@), rect, focus).take(k as int),
        decreases f.windows@.len() - k,
    {
        let win = &f.windows[k];
        let active = match f.active_window() {
            Some(a) => a.window_id == win.window_id,
            None => false,
        };
        let info = WindowInfo {
            id: win.window_id,
            workspace: copy_string(ws_name),
            frame_id: fid.0,
            title: copy_string(&win.title),
            app_id: copy_string(&win.app_id),
            focused: focus && active,
            x: match rect { Some(r) => r.x, None => 0 },
            y: match rect { Some(r) => r.y, None => 0 },
            width: match rect { Some(r) => r.width, None => 0 },
            height: match rect { Some(r) => r.height, None => 0 },
        };
        let ghost before = out@;
        out.push(info);
        proof {
            let e = frame_entries(ws_name@, fid, Some(f@), rect, focus);
            assert(e[k as int] == info@);
            assert(window_views(out@) =~= start + e.take(k + 1)) by {
                assert forall|j: int| 0 <= j < out@.len() implies #[trigger] window_views(out@)[j] == (start + e.take(k + 1))[j] by {
                    if j < before.len() {
                        assert(out@[j] == before[j]);
                        assert(window_views(before)[j] == (start + e.take(k as int))[j]);
                    } else {
                        assert(out@[j] == info);
                    }
                }
            }
        }
        k += 1;
    }
    proof {
        let e = frame_entries(ws_name@, fid, Some(f@), rect, focus);
        assert(e.take(f.windows@.len() as int) =~= e);
    }
}

impl<R: Copy> Workspace<R> {
    /// Whether some frame of this workspace holds a window.
    pub fn has_windows(&self) -> (b: bool)
        ensures
            b == tree_has_windows(self.root@),
    {
        let ids = self.root.all_frame_ids();
        let mut i: usize = 0;
        while i < ids.len()
            invariant
                i <= ids@.len(),
                ids@ == leaf_ids(self.root@),
                forall|j: int| 0 <= j < i ==> !frame_nonempty(#[trigger] find_leaf(self.root@, ids@[j])),
            decreases ids@.len() - i,
        {
            if let Some(f) = self.root.find_frame(ids[i]) {
                if !f.is_empty() {
                    return true;
                }
            }
            i += 1;
        }
        false
    }
}

/// The snapshot clients list: every window of every workspace (frame by
/// frame, tab by tab) with the rectangle of its frame where the workspace
/// is shown, and every workspace with its state. `layouts[k]` is the
/// computed layout of workspace `k` on its output.
pub fn build_snapshot<R: Copy>(workspaces: &WorkspaceManager<R>, layouts: &Vec<Vec<(FrameId, Rect)>>) -> (s: Snapshot)
    requires
        layouts@.len() == workspaces.workspaces@.len(),
        workspaces.focused_workspace.0 < workspaces.workspaces@.len(),
    ensures
        window_views(s.windows@) == snapshot_windows(
            *workspaces,
            layouts@.map_values(|l: Vec<(FrameId, Rect)>| l@),
            workspaces.workspaces@.len() as int,
        ),
        s.workspaces@.len() == workspaces.workspaces@.len(),
        forall|k: int| 0 <= k < s.workspaces@.len() ==> workspace_entry(#[trigger] s.workspaces@[k], *workspaces, workspaces.workspaces@[k]),
{
    let ghost lv = layouts@.map_values(|l: Vec<(FrameId, Rect)>| l@);
    let focused_ws = workspaces.focused_workspace;
    let focused_frame = workspaces.workspaces[focused_ws.0].focused_frame;
    let mut windows: Vec<WindowInfo> = Vec::new();
    let mut infos: Vec<WorkspaceInfo> = Vec::new();
    let mut i: usize = 0;
    while i < workspaces.workspaces.len()
        invariant
            i <= workspaces.workspaces@.len(),
            layouts@.len() == workspaces.workspaces@.len(),
            lv == layouts@.map_values(|l: Vec<(FrameId, Rect)>| l@),
            focused_ws == workspaces.focused_workspace,
            focused_ws.0 < workspaces.workspaces@.len(),
            focused_frame == workspaces.workspaces@[focused_ws.0 as int].focused_frame,
            window_views(windows@) == snapshot_windows(*workspaces, lv, i as int),
            infos@.len() == i,
            forall|k: int| 0 <= k < i ==> workspace_entry(#[trigger] infos@[k], *workspaces, workspaces.workspaces@[k]),
        decreases workspaces.workspaces@.len() - i,
    {
        let w = &workspaces.workspaces[i];
        let shown = match w.active_output {
            Some(oid) => workspaces.output(oid).is_some(),
            None => false,
        };
        proof {
            assert(lv[i as int] == layouts@[i as int]@);
        }
        let ids = w.root.all_frame_ids();
        let ghost before = window_views(windows@);
        let mut j: usize = 0;
        while j < ids.len()
            invariant
                j <= ids@.len(),
                ids@ == leaf_ids(w.root@),
                layouts@.len() == workspaces.workspaces@.len(),
                i < workspaces.workspaces@.len(),
                *w == workspaces.workspaces@[i as int],
                shown == shown_on_output(*w, workspaces.outputs@),
                lv == layouts@.map_values(|l: Vec<(FrameId, Rect)>| l@),
                lv[i as int] == layouts@[i as int]@,
                window_views(windows@) == before + frames_entries(*w, ids@.take(j as int),
                    applied_layout(*workspaces, lv, i as int), w.id == focused_ws, focused_frame),
            decreases ids@.len() - j,
        {
            let fid = ids[j];
            proof {
                let t = ids@.take(j + 1);
                assert(t.drop_last() =~= ids@.take(j as int));
                assert(t.last() == fid);
            }
            let rect = if shown { rect_lookup(&layouts[i], fid) } else { None };
            if let Some(f) = w.root.find_frame(fid) {
                push_frame_entries(&mut windows, &w.name, fid, f, rect, w.id == focused_ws && fid == focused_frame);
            }
            proof {
                assert(window_views(windows@) =~= before + frames_entries(*w, ids@.take(j + 1),
                    applied_layout(*workspaces, lv, i as int), w.id == focused_ws, focused_frame));
            }
            j += 1;
        }
        proof {
            assert(ids@.take(ids@.len() as int) =~= ids@);
        }
        let output = match w.active_output {
            Some(oid) => match workspaces.output(oid) {
                Some(o) => match &o.name {
                    Some(n) => Some(copy_string(n)),
                    None => None,
                },
                None => None,
            },
            None => None,
        };
        let preferred_output = if w.preferred_output.len() > 0 { Some(copy_string(&w.preferred_output[0])) } else { None };
        let info = WorkspaceInfo {
            name: copy_string(&w.name),
            output,
            preferred_output,
            focused: w.id == focused_ws,
            visible: w.active_output.is_some(),
            has_windows: w.has_windows(),
        };
        let ghost infos_before = infos@;
        infos.push(info);
        proof {
            assert forall|k: int| 0 <= k < i + 1 implies workspace_entry(#[trigger] infos@[k], *workspaces, workspaces.workspaces@[k]) by {
                if k < i {
                    assert(infos@[k] == infos_before[k]);
                }
            }
        }
        i += 1;
    }
    Snapshot { windows, workspaces: infos }
}

// ── Widgets built from the snapshot ──────────────────────────────────────

/// The group a listed workspace belongs to: its first preferred output, or
/// "none".
pub open spec fn info_group(w: WorkspaceInfo) -> Seq<char> {
    match w.preferred_output {
        Some(p) => p@,
        None => "none"@,
    }
}

/// The output a listed workspace is shown under: its first preferred
/// output, else the output it is on, else nothing.
pub open spec fn info_target(w: WorkspaceInfo) -> Seq<char> {
    match w.preferred_output {
        Some(p) => p@,
        None => match w.output {
            Some(o) => o@,
            None => Seq::empty(),
        },
    }
}

pub open spec fn info_groups(ws: Seq<WorkspaceInfo>) -> Seq<Seq<char>> {
    ws.map_values(|w: WorkspaceInfo| info_group(w))
}

/// The color of the `i`-th group.
pub open spec fn snapshot_color(i: int) -> Seq<char> {
    let k = i % 4;
    if k == 0 {
        "#cba6f7"@
    } else if k == 1 {
        "#94e2d5"@
    } else if k == 2 {
        "#e5cfa6"@
    } else {
        "#d68ba8"@
    }
}

/// The markup of a listed workspace.
pub open spec fn info_part(w: WorkspaceInfo, color: Seq<char>) -> Seq<char> {
    if w.focused {
        bright_part(color, "#2a2636"@, w.name@)
    } else if w.visible {
        dim_part("85%"@, color, w.name@)
    } else if w.has_windows {
        dim_part("60%"@, color, w.name@)
    } else {
        dim_part("35%"@, color, w.name@)
    }
}

/// The markup of the first `n` listed workspaces shown under `out`.
pub open spec fn info_parts(ws: Seq<WorkspaceInfo>, out: Seq<char>, color: Seq<char>, n: int) -> Seq<Seq<char>>
    decreases n,
{
    if n <= 0 {
        Seq::empty()
    } else {
        let rest = info_parts(ws, out, color, n - 1);
        if info_target(ws[n - 1]) == out { rest.push(info_part(ws[n - 1], color)) } else { rest }
    }
}

/// The name of the last focused one among the first `n` listed workspaces
/// shown under `out`, or nothing.
pub open spec fn info_focused(ws: Seq<WorkspaceInfo>, out: Seq<char>, n: int) -> Seq<char>
    decreases n,
{
    if n <= 0 {
        Seq::empty()
    } else if info_target(ws[n - 1]) == out && ws[n - 1].focused {
        ws[n - 1].name@
    } else {
        info_focused(ws, out, n - 1)
    }
}

/// The widget for the workspaces shown under output `out`, from a snapshot.
pub open spec fn snapshot_output_json(ws: Seq<WorkspaceInfo>, out: Seq<char>) -> Seq<char> {
    let color = snapshot_color(slot_of(first_appearances(info_groups(ws)), out));
    let parts = info_parts(ws, out, color, ws.len() as int);
    if parts.len() == 0 {
        "{\"text\": \"\", \"tooltip\": \"No workspaces on "@ + out + "\", \"class\": \"empty\"}"@
    } else {
        "{\"text\": \""@ + escape_quotes(join_sep(parts, "  "@)) + "\", \"tooltip\": \""@ + out + ": "@
            + info_focused(ws, out, ws.len() as int) + "\", \"class\": \"workspaces\"}"@
    }
}

fn info_group_chars(w: &WorkspaceInfo) -> (r: Vec<char>)
    ensures
        r@ == info_group(*w),
{
    match &w.preferred_output {
        Some(p) => chars_of(p.as_str()),
        None => chars_of("none"),
    }
}

fn info_target_chars(w: &WorkspaceInfo) -> (r: Vec<char>)
    ensures
        r@ == info_target(*w),
{
    match &w.preferred_output {
        Some(p) => chars_of(p.as_str()),
        None => match &w.output {
            Some(o) => chars_of(o.as_str()),
            None => Vec::new(),
        },
    }
}

/// The widget for the workspaces listed under output `output_name` in a
/// snapshot (for a subscriber that connects before the first update).
pub fn output_ws_json_from_snapshot(snap: &Snapshot, output_name: &str) -> (r: String)
    ensures
        r@ == snapshot_output_json(snap.workspaces@, output_name@),
{
    let ws = &snap.workspaces;
    let mut groups: Vec<Vec<char>> = Vec::new();
    let mut i: usize = 0;
    while i < ws.len()
        invariant
            i <= ws@.len(),
            char_vecs(groups@) == info_groups(ws@).take(i as int),
        decreases ws@.len() - i,
    {
        let ghost before = char_vecs(groups@);
        groups.push(info_group_chars(&ws[i]));
        proof {
            assert(char_vecs(groups@) =~= before.push(info_group(ws@[i as int])));
            assert(info_groups(ws@).take(i + 1) =~= info_groups(ws@).take(i as int).push(info_group(ws@[i as int])));
        }
        i += 1;
    }
    proof {
        assert(info_groups(ws@).take(i as int) =~= info_groups(ws@));
    }
    let names = first_appearances_of(&groups);
    let out = chars_of(output_name);
    let slot = slot_in(&names, out.as_slice());
    let color = match slot % 4 {
        0 => "#cba6f7",
        1 => "#94e2d5",
        2 => "#e5cfa6",
        _ => "#d68ba8",
    };
    let ghost cv = color@;
    proof {
        assert(cv == snapshot_color(slot as int));
    }
    let mut parts: Vec<Vec<char>> = Vec::new();
    let mut focused: Vec<char> = Vec::new();
    let mut i: usize = 0;
    while i < ws.len()
        invariant
            i <= ws@.len(),
            out@ == output_name@,
            cv == color@,
            char_vecs(parts@) == info_parts(ws@, output_name@, cv, i as int),
            focused@ == info_focused(ws@, output_name@, i as int),
        decreases ws@.len() - i,
    {
        let w = &ws[i];
        let t = info_target_chars(w);
        if chars_equal(t.as_slice(), out.as_slice()) {
            if w.focused {
                focused = chars_of(w.name.as_str());
            }
            let part = if w.focused {
                bright_part_chars(color, "#2a2636", w.name.as_str())
            } else if w.visible {
                dim_part_chars("85%", color, w.name.as_str())
            } else if w.has_windows {
                dim_part_chars("60%", color, w.name.as_str())
            } else {
                dim_part_chars("35%", color, w.name.as_str())
            };
            let ghost before = parts@;
            parts.push(part);
            proof {
                assert(char_vecs(parts@) =~= char_vecs(before).push(info_part(*w, cv)));
            }
        }
        i += 1;
    }
    let mut res: Vec<char> = Vec::new();
    if parts.len() == 0 {
        push_str(&mut res, "{\"text\": \"\", \"tooltip\": \"No workspaces on ");
        push_str(&mut res, output_name);
        push_str(&mut res, "\", \"class\": \"empty\"}");
    } else {
        let text = join_with(&parts, "  ");
        let esc = escape_quotes_chars(text.as_slice());
        push_str(&mut res, "{\"text\": \"");
        push_chars(&mut res, esc.as_slice());
        push_str(&mut res, "\", \"tooltip\": \"");
        push_str(&mut res, output_name);
        push_str(&mut res, ": ");
        push_chars(&mut res, focused.as_slice());
        push_str(&mut res, "\", \"class\": \"workspaces\"}");
    }
    string_from_chars(res.as_slice())
}

pub open spec fn info_named(name: Seq<char>) -> spec_fn(WorkspaceInfo) -> bool {
    |w: WorkspaceInfo| w.name@ == name
}

/// The widget for the listed workspace named `name`, from a snapshot.
pub open spec fn snapshot_single_json(ws: Seq<WorkspaceInfo>, name: Seq<char>) -> Seq<char> {
    match first_match(ws, info_named(name)) {
        Some(k) => {
            let w = ws[k];
            let cls = if w.focused { "focused"@ } else if w.visible { "visible"@ } else { "hidden"@ };
            let out = match w.output {
                Some(o) => o@,
                None => "?"@,
            };
            "{\"text\": \""@ + name + "\", \"tooltip\": \""@ + name + " on "@ + out + "\", \"class\": \""@ + cls + "\"}"@
        },
        None => "{\"text\": \""@ + name + "\", \"class\": \"empty\"}"@,
    }
}

/// The widget for the listed workspace named `name` in a snapshot: its
/// class and the output it is on; an unknown name gives an empty widget.
pub fn single_ws_json_from_snapshot(snap: &Snapshot, name: &str) -> (r: String)
    ensures
        r@ == snapshot_single_json(snap.workspaces@, name@),
{
    let ws = &snap.workspaces;
    let ghost p = info_named(name@);
    let mut i: usize = 0;
    while i < ws.len()
        invariant
            i <= ws@.len(),
            ws@ == snap.workspaces@,
            p == info_named(name@),
            forall|j: int| 0 <= j < i ==> !p(#[trigger] ws@[j]),
        decreases ws@.len() - i,
    {
        let w = &ws[i];
        if str_eq(w.name.as_str(), name) {
            proof {
                lemma_first_match_unique(ws@, p, i as int);
            }
            let cls = if w.focused {
                "focused"
            } else if w.visible {
                "visible"
            } else {
                "hidden"
            };
            let mut res: Vec<char> = Vec::new();
            push_str(&mut res, "{\"text\": \"");
            push_str(&mut res, name);
            push_str(&mut res, "\", \"tooltip\": \"");
            push_str(&mut res, name);
            push_str(&mut res, " on ");
            match &w.output {
                Some(o) => push_str(&mut res, o.as_str()),
                None => push_str(&mut res, "?"),
            }
            push_str(&mut res, "\", \"class\": \"");
            push_str(&mut res, cls);
            push_str(&mut res, "\"}");
            proof {
                assert(res@ =~= snapshot_single_json(ws@, name@));
            }
            return string_from_chars(res.as_slice());
        }
        i += 1;
    }
    proof {
        lemma_first_match_none(ws@, p);
    }
    let mut res: Vec<char> = Vec::new();
    push_str(&mut res, "{\"text\": \"");
    push_str(&mut res, name);
    push_str(&mut res, "\", \"class\": \"empty\"}");
    string_from_chars(res.as_slice())
}

} // verus!
