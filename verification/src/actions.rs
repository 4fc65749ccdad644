//! The actions key bindings trigger, and how configuration names them.

use vstd::prelude::*;
use crate::layout::{direction_named, Direction};
use crate::text::{lowercase, str_eq};

verus! {

/// Everything the window manager can be asked to do from a binding.
#[derive(Debug, Clone)]
pub enum Action {
    /// Close the focused window; on an empty frame, remove the frame.
    Close,
    /// Toggle fullscreen for the focused window.
    ToggleFullscreen,
    /// Toggle floating for the focused window.
    ToggleFloat,
    /// Toggle the split orientation of the focused frame's parent.
    ToggleSplit,
    /// Move focus to the frame in the given direction.
    FocusDirection(Direction),
    /// Focus the next tab in the current frame.
    FocusNextTab,
    /// Focus the previous tab in the current frame.
    FocusPrevTab,
    /// Focus parent (reserved for nested containers).
    FocusParent,
    /// Move the focused window to the frame in the given direction.
    MoveDirection(Direction),
    /// Move the focused window to a named workspace.
    MoveToWorkspace(String),
    /// Split the focused frame side by side.
    SplitHorizontal,
    /// Split the focused frame top and bottom.
    SplitVertical,
    /// Remove the focused frame, only if empty.
    Unsplit,
    /// Switch to a workspace by name.
    SwitchWorkspace(String),
    /// Enter resize mode.
    EnterResizeMode,
    /// Leave resize mode.
    ExitResizeMode,
    /// Resize the focused frame in the given direction.
    Resize(Direction),
    /// Spawn the configured terminal.
    SpawnTerminal,
    /// Spawn the configured launcher.
    SpawnLauncher,
    /// Spawn the configured window switcher.
    SpawnWindowSwitcher,
    /// Spawn an arbitrary command.
    Spawn(Vec<String>),
    /// Exit the window manager.
    Exit,
    /// Reload the configuration.
    ReloadConfig,
    /// Restart the window manager, keeping the windows where they are.
    Restart,
    /// Toggle the binding of the focused window's app to the focused frame.
    ToggleAppBinding,
    /// Bind the focused window's app to the focused frame only.
    BindAppExclusive,
    /// Do nothing.
    Noop,
}

/// The direction named by the first argument, in any letter case.
pub open spec fn direction_arg(args: Seq<String>) -> Option<Direction> {
    if args.len() > 0 {
        direction_named(lowercase(args[0]@))
    } else {
        None
    }
}

/// `r` is the action that configuration name `a` with arguments `args`
/// stands for. Names that need an argument and lack a usable one, and
/// unknown names, stand for `Action::Noop`.
pub open spec fn parsed_as(r: Action, a: Seq<char>, args: Seq<String>) -> bool {
    if a == "close"@ {
        r == Action::Close
    } else if a == "toggle_fullscreen"@ || a == "fullscreen"@ {
        r == Action::ToggleFullscreen
    } else if a == "toggle_float"@ || a == "floating"@ {
        r == Action::ToggleFloat
    } else if a == "toggle_split"@ {
        r == Action::ToggleSplit
    } else if a == "focus"@ {
        r == match direction_arg(args) {
            Some(d) => Action::FocusDirection(d),
            None => Action::Noop,
        }
    } else if a == "focus_next_tab"@ || a == "next_tab"@ {
        r == Action::FocusNextTab
    } else if a == "focus_prev_tab"@ || a == "prev_tab"@ {
        r == Action::FocusPrevTab
    } else if a == "focus_parent"@ {
        r == Action::FocusParent
    } else if a == "move"@ {
        r == match direction_arg(args) {
            Some(d) => Action::MoveDirection(d),
            None => Action::Noop,
        }
    } else if a == "move_to_workspace"@ {
        r == if args.len() > 0 { Action::MoveToWorkspace(args[0]) } else { Action::Noop }
    } else if a == "split_horizontal"@ || a == "split_h"@ || a == "hsplit"@ {
        r == Action::SplitHorizontal
    } else if a == "split_vertical"@ || a == "split_v"@ || a == "vsplit"@ {
        r == Action::SplitVertical
    } else if a == "unsplit"@ || a == "remove_frame"@ {
        r == Action::Unsplit
    } else if a == "workspace"@ {
        r == if args.len() > 0 { Action::SwitchWorkspace(args[0]) } else { Action::Noop }
    } else if a == "resize_mode"@ {
        r == Action::EnterResizeMode
    } else if a == "exit_resize_mode"@ || a == "normal_mode"@ {
        r == Action::ExitResizeMode
    } else if a == "resize"@ {
        r == match direction_arg(args) {
            Some(d) => Action::Resize(d),
            None => Action::Noop,
        }
    } else if a == "spawn_terminal"@ || a == "terminal"@ {
        r == Action::SpawnTerminal
    } else if a == "spawn_launcher"@ || a == "launcher"@ {
        r == Action::SpawnLauncher
    } else if a == "spawn_window_switcher"@ || a == "window_switcher"@ {
        r == Action::SpawnWindowSwitcher
    } else if a == "spawn"@ {
        if args.len() == 0 {
            r == Action::Noop
        } else {
            r matches Action::Spawn(v) && v@ == args
        }
    } else if a == "exit"@ || a == "exit_session"@ {
        r == Action::Exit
    } else if a == "reload"@ || a == "reload_config"@ {
        r == Action::ReloadConfig
    } else if a == "restart"@ {
        r == Action::Restart
    } else if a == "toggle_app_binding"@ {
        r == Action::ToggleAppBinding
    } else if a == "bind_app_exclusive"@ {
        r == Action::BindAppExclusive
    } else {
        r == Action::Noop
    }
}

fn first_direction(args: &[String]) -> (d: Option<Direction>)
    ensures
        d == direction_arg(args@),
{
    if args.len() > 0 {
        Direction::from_str(args[0].as_str())
    } else {
        None
    }
}

pub(crate) fn copy_strings(args: &[String]) -> (v: Vec<String>)
    ensures
        v@ == args@,
{
    let mut v: Vec<String> = Vec::new();
    let mut i: usize = 0;
    while i < args.len()
        invariant
            i <= args@.len(),
            v@ == args@.take(i as int),
        decreases args@.len() - i,
    {
        v.push(args[i].clone());
        proof {
            assert(v@ =~= args@.take(i + 1));
        }
        i += 1;
    }
    proof {
        assert(args@.take(args@.len() as int) =~= args@);
    }
    v
}

impl Action {
    /// The action that a configuration names, given its arguments.
    pub fn from_config(action: &str, args: &[String]) -> (r: Action)
        ensures
            parsed_as(r, action@, args@),
    {
        if str_eq(action, "close") {
            Action::Close
        } else if str_eq(action, "toggle_fullscreen") || str_eq(action, "fullscreen") {
            Action::ToggleFullscreen
        } else if str_eq(action, "toggle_float") || str_eq(action, "floating") {
            Action::ToggleFloat
        } else if str_eq(action, "toggle_split") {
            Action::ToggleSplit
        } else if str_eq(action, "focus") {
            match first_direction(args) {
                Some(d) => Action::FocusDirection(d),
                None => Action::Noop,
            }
        } else if str_eq(action, "focus_next_tab") || str_eq(action, "next_tab") {
            Action::FocusNextTab
        } else if str_eq(action, "focus_prev_tab") || str_eq(action, "prev_tab") {
            Action::FocusPrevTab
        } else if str_eq(action, "focus_parent") {
            Action::FocusParent
        } else if str_eq(action, "move") {
            match first_direction(args) {
                Some(d) => Action::MoveDirection(d),
                None => Action::Noop,
            }
        } else if str_eq(action, "move_to_workspace") {
            if args.len() > 0 {
                Action::MoveToWorkspace(args[0].clone())
            } else {
                Action::Noop
            }
        } else if str_eq(action, "split_horizontal") || str_eq(action, "split_h") || str_eq(action, "hsplit") {
            Action::SplitHorizontal
        } else if str_eq(action, "split_vertical") || str_eq(action, "split_v") || str_eq(action, "vsplit") {
            Action::SplitVertical
        } else if str_eq(action, "unsplit") || str_eq(action, "remove_frame") {
            Action::Unsplit
        } else if str_eq(action, "workspace") {
            if args.len() > 0 {
                Action::SwitchWorkspace(args[0].clone())
            } else {
                Action::Noop
            }
        } else if str_eq(action, "resize_mode") {
            Action::EnterResizeMode
        } else if str_eq(action, "exit_resize_mode") || str_eq(action, "normal_mode") {
            Action::ExitResizeMode
        } else if str_eq(action, "resize") {
            match first_direction(args) {
                Some(d) => Action::Resize(d),
                None => Action::Noop,
            }
        } else if str_eq(action, "spawn_terminal") || str_eq(action, "terminal") {
            Action::SpawnTerminal
        } else if str_eq(action, "spawn_launcher") || str_eq(action, "launcher") {
            Action::SpawnLauncher
        } else if str_eq(action, "spawn_window_switcher") || str_eq(action, "window_switcher") {
            Action::SpawnWindowSwitcher
        } else if str_eq(action, "spawn") {
            if args.len() == 0 {
                Action::Noop
            } else {
                Action::Spawn(copy_strings(args))
            }
        } else if str_eq(action, "exit") || str_eq(action, "exit_session") {
            Action::Exit
        } else if str_eq(action, "reload") || str_eq(action, "reload_config") {
            Action::ReloadConfig
        } else if str_eq(action, "restart") {
            Action::Restart
        } else if str_eq(action, "toggle_app_binding") {
            Action::ToggleAppBinding
        } else if str_eq(action, "bind_app_exclusive") {
            Action::BindAppExclusive
        } else {
            Action::Noop
        }
    }
}

/// A "move" binding whose argument names a direction (in any letter case)
/// moves the focused window that way, while a "focus" binding with the same
/// argument only moves the focus that way: the two never give the same
/// action.
pub proof fn law_move_and_focus_bindings(args: Seq<String>, d: Direction, mv: Action, fc: Action)
    requires
        args.len() > 0,
        direction_named(lowercase(args[0]@)) == Some(d),
        parsed_as(mv, "move"@, args),
        parsed_as(fc, "focus"@, args),
    ensures
        mv == Action::MoveDirection(d),
        fc == Action::FocusDirection(d),
        mv != fc,
{
    reveal_strlit("close");
    reveal_strlit("toggle_fullscreen");
    reveal_strlit("fullscreen");
    reveal_strlit("toggle_float");
    reveal_strlit("floating");
    reveal_strlit("toggle_split");
    reveal_strlit("focus");
    reveal_strlit("focus_next_tab");
    reveal_strlit("next_tab");
    reveal_strlit("focus_prev_tab");
    reveal_strlit("prev_tab");
    reveal_strlit("focus_parent");
    reveal_strlit("move");
    assert("move"@ != "close"@) by { assert("move"@.len() != "close"@.len() || "move"@[0] != "close"@[0]); }
    assert("move"@ != "toggle_fullscreen"@) by { assert("move"@.len() != "toggle_fullscreen"@.len() || "move"@[0] != "toggle_fullscreen"@[0]); }
    assert("move"@ != "fullscreen"@) by { assert("move"@.len() != "fullscreen"@.len() || "move"@[0] != "fullscreen"@[0]); }
    assert("move"@ != "toggle_float"@) by { assert("move"@.len() != "toggle_float"@.len() || "move"@[0] != "toggle_float"@[0]); }
    assert("move"@ != "floating"@) by { assert("move"@.len() != "floating"@.len() || "move"@[0] != "floating"@[0]); }
    assert("move"@ != "toggle_split"@) by { assert("move"@.len() != "toggle_split"@.len() || "move"@[0] != "toggle_split"@[0]); }
    assert("move"@ != "focus"@) by { assert("move"@.len() != "focus"@.len() || "move"@[0] != "focus"@[0]); }
    assert("move"@ != "focus_next_tab"@) by { assert("move"@.len() != "focus_next_tab"@.len() || "move"@[0] != "focus_next_tab"@[0]); }
    assert("move"@ != "next_tab"@) by { assert("move"@.len() != "next_tab"@.len() || "move"@[0] != "next_tab"@[0]); }
    assert("move"@ != "focus_prev_tab"@) by { assert("move"@.len() != "focus_prev_tab"@.len() || "move"@[0] != "focus_prev_tab"@[0]); }
    assert("move"@ != "prev_tab"@) by { assert("move"@.len() != "prev_tab"@.len() || "move"@[0] != "prev_tab"@[0]); }
    assert("move"@ != "focus_parent"@) by { assert("move"@.len() != "focus_parent"@.len() || "move"@[0] != "focus_parent"@[0]); }
    assert("focus"@ != "close"@) by { assert("focus"@.len() != "close"@.len() || "focus"@[0] != "close"@[0]); }
    assert("focus"@ != "toggle_fullscreen"@) by { assert("focus"@.len() != "toggle_fullscreen"@.len() || "focus"@[0] != "toggle_fullscreen"@[0]); }
    assert("focus"@ != "fullscreen"@) by { assert("focus"@.len() != "fullscreen"@.len() || "focus"@[0] != "fullscreen"@[0]); }
    assert("focus"@ != "toggle_float"@) by { assert("focus"@.len() != "toggle_float"@.len() || "focus"@[0] != "toggle_float"@[0]); }
    assert("focus"@ != "floating"@) by { assert("focus"@.len() != "floating"@.len() || "focus"@[0] != "floating"@[0]); }
    assert("focus"@ != "toggle_split"@) by { assert("focus"@.len() != "toggle_split"@.len() || "focus"@[0] != "toggle_split"@[0]); }
    assert(direction_arg(args) == Some(d));
}

/// A "resize" binding whose argument names a direction moves the focused
/// frame's boundary that way; "workspace" switches to the named workspace
/// and "move_to_workspace" sends the focused window there, whatever the
/// name.
pub proof fn law_argument_bindings(args: Seq<String>, rs: Action, sw: Action, mw: Action)
    requires
        args.len() > 0,
        parsed_as(rs, "resize"@, args),
        parsed_as(sw, "workspace"@, args),
        parsed_as(mw, "move_to_workspace"@, args),
    ensures
        direction_named(lowercase(args[0]@)) matches Some(d) ==> rs == Action::Resize(d),
        direction_named(lowercase(args[0]@)) is None ==> rs == Action::Noop,
        sw == Action::SwitchWorkspace(args[0]),
        mw == Action::MoveToWorkspace(args[0]),
        sw != mw,
{
    reveal_strlit("close");
    reveal_strlit("toggle_fullscreen");
    reveal_strlit("fullscreen");
    reveal_strlit("toggle_float");
    reveal_strlit("floating");
    reveal_strlit("toggle_split");
    reveal_strlit("focus");
    reveal_strlit("focus_next_tab");
    reveal_strlit("next_tab");
    reveal_strlit("focus_prev_tab");
    reveal_strlit("prev_tab");
    reveal_strlit("focus_parent");
    reveal_strlit("move");
    reveal_strlit("move_to_workspace");
    reveal_strlit("split_horizontal");
    reveal_strlit("split_h");
    reveal_strlit("hsplit");
    reveal_strlit("split_vertical");
    reveal_strlit("split_v");
    reveal_strlit("vsplit");
    reveal_strlit("unsplit");
    reveal_strlit("remove_frame");
    reveal_strlit("workspace");
    reveal_strlit("resize_mode");
    reveal_strlit("exit_resize_mode");
    reveal_strlit("normal_mode");
    reveal_strlit("resize");
    assert("resize"@ != "close"@) by { assert("resize"@.len() != "close"@.len()); }
    assert("resize"@ != "toggle_fullscreen"@) by { assert("resize"@.len() != "toggle_fullscreen"@.len()); }
    assert("resize"@ != "fullscreen"@) by { assert("resize"@.len() != "fullscreen"@.len()); }
    assert("resize"@ != "toggle_float"@) by { assert("resize"@.len() != "toggle_float"@.len()); }
    assert("resize"@ != "floating"@) by { assert("resize"@.len() != "floating"@.len()); }
    assert("resize"@ != "toggle_split"@) by { assert("resize"@.len() != "toggle_split"@.len()); }
    assert("resize"@ != "focus"@) by { assert("resize"@.len() != "focus"@.len()); }
    assert("resize"@ != "focus_next_tab"@) by { assert("resize"@.len() != "focus_next_tab"@.len()); }
    assert("resize"@ != "next_tab"@) by { assert("resize"@.len() != "next_tab"@.len()); }
    assert("resize"@ != "focus_prev_tab"@) by { assert("resize"@.len() != "focus_prev_tab"@.len()); }
    assert("resize"@ != "prev_tab"@) by { assert("resize"@.len() != "prev_tab"@.len()); }
    assert("resize"@ != "focus_parent"@) by { assert("resize"@.len() != "focus_parent"@.len()); }
    assert("resize"@ != "move"@) by { assert("resize"@.len() != "move"@.len()); }
    assert("resize"@ != "move_to_workspace"@) by { assert("resize"@.len() != "move_to_workspace"@.len()); }
    assert("resize"@ != "split_horizontal"@) by { assert("resize"@.len() != "split_horizontal"@.len()); }
    assert("resize"@ != "split_h"@) by { assert("resize"@.len() != "split_h"@.len()); }
    assert("resize"@ != "hsplit"@) by { assert("resize"@[0] != "hsplit"@[0]); }
    assert("resize"@ != "split_vertical"@) by { assert("resize"@.len() != "split_vertical"@.len()); }
    assert("resize"@ != "split_v"@) by { assert("resize"@.len() != "split_v"@.len()); }
    assert("resize"@ != "vsplit"@) by { assert("resize"@[0] != "vsplit"@[0]); }
    assert("resize"@ != "unsplit"@) by { assert("resize"@.len() != "unsplit"@.len()); }
    assert("resize"@ != "remove_frame"@) by { assert("resize"@.len() != "remove_frame"@.len()); }
    assert("resize"@ != "workspace"@) by { assert("resize"@.len() != "workspace"@.len()); }
    assert("resize"@ != "resize_mode"@) by { assert("resize"@.len() != "resize_mode"@.len()); }
    assert("resize"@ != "exit_resize_mode"@) by { assert("resize"@.len() != "exit_resize_mode"@.len()); }
    assert("resize"@ != "normal_mode"@) by { assert("resize"@.len() != "normal_mode"@.len()); }
    assert("workspace"@ != "close"@) by { assert("workspace"@.len() != "close"@.len()); }
    assert("workspace"@ != "toggle_fullscreen"@) by { assert("workspace"@.len() != "toggle_fullscreen"@.len()); }
    assert("workspace"@ != "fullscreen"@) by { assert("workspace"@.len() != "fullscreen"@.len()); }
    assert("workspace"@ != "toggle_float"@) by { assert("workspace"@.len() != "toggle_float"@.len()); }
    assert("workspace"@ != "floating"@) by { assert("workspace"@.len() != "floating"@.len()); }
    assert("workspace"@ != "toggle_split"@) by { assert("workspace"@.len() != "toggle_split"@.len()); }
    assert("workspace"@ != "focus"@) by { assert("workspace"@.len() != "focus"@.len()); }
    assert("workspace"@ != "focus_next_tab"@) by { assert("workspace"@.len() != "focus_next_tab"@.len()); }
    assert("workspace"@ != "next_tab"@) by { assert("workspace"@.len() != "next_tab"@.len()); }
    assert("workspace"@ != "focus_prev_tab"@) by { assert("workspace"@.len() != "focus_prev_tab"@.len()); }
    assert("workspace"@ != "prev_tab"@) by { assert("workspace"@.len() != "prev_tab"@.len()); }
    assert("workspace"@ != "focus_parent"@) by { assert("workspace"@.len() != "focus_parent"@.len()); }
    assert("workspace"@ != "move"@) by { assert("workspace"@.len() != "move"@.len()); }
    assert("workspace"@ != "move_to_workspace"@) by { assert("workspace"@.len() != "move_to_workspace"@.len()); }
    assert("workspace"@ != "split_horizontal"@) by { assert("workspace"@.len() != "split_horizontal"@.len()); }
    assert("workspace"@ != "split_h"@) by { assert("workspace"@.len() != "split_h"@.len()); }
    assert("workspace"@ != "hsplit"@) by { assert("workspace"@.len() != "hsplit"@.len()); }
    assert("workspace"@ != "split_vertical"@) by { assert("workspace"@.len() != "split_vertical"@.len()); }
    assert("workspace"@ != "split_v"@) by { assert("workspace"@.len() != "split_v"@.len()); }
    assert("workspace"@ != "vsplit"@) by { assert("workspace"@.len() != "vsplit"@.len()); }
    assert("workspace"@ != "unsplit"@) by { assert("workspace"@.len() != "unsplit"@.len()); }
    assert("workspace"@ != "remove_frame"@) by { assert("workspace"@.len() != "remove_frame"@.len()); }
    assert("move_to_workspace"@ != "close"@) by { assert("move_to_workspace"@.len() != "close"@.len()); }
    assert("move_to_workspace"@ != "toggle_fullscreen"@) by { assert("move_to_workspace"@[0] != "toggle_fullscreen"@[0]); }
    assert("move_to_workspace"@ != "fullscreen"@) by { assert("move_to_workspace"@.len() != "fullscreen"@.len()); }
    assert("move_to_workspace"@ != "toggle_float"@) by { assert("move_to_workspace"@.len() != "toggle_float"@.len()); }
    assert("move_to_workspace"@ != "floating"@) by { assert("move_to_workspace"@.len() != "floating"@.len()); }
    assert("move_to_workspace"@ != "toggle_split"@) by { assert("move_to_workspace"@.len() != "toggle_split"@.len()); }
    assert("move_to_workspace"@ != "focus"@) by { assert("move_to_workspace"@.len() != "focus"@.len()); }
    assert("move_to_workspace"@ != "focus_next_tab"@) by { assert("move_to_workspace"@.len() != "focus_next_tab"@.len()); }
    assert("move_to_workspace"@ != "next_tab"@) by { assert("move_to_workspace"@.len() != "next_tab"@.len()); }
    assert("move_to_workspace"@ != "focus_prev_tab"@) by { assert("move_to_workspace"@.len() != "focus_prev_tab"@.len()); }
    assert("move_to_workspace"@ != "prev_tab"@) by { assert("move_to_workspace"@.len() != "prev_tab"@.len()); }
    assert("move_to_workspace"@ != "focus_parent"@) by { assert("move_to_workspace"@.len() != "focus_parent"@.len()); }
    assert("move_to_workspace"@ != "move"@) by { assert("move_to_workspace"@.len() != "move"@.len()); }
}

} // verus!
