use notion_river::actions::Action;
use notion_river::config::{CommandsConfig, WorkspaceConfig};
use notion_river::layout::{find_neighbor_in_layout, Direction, FrameId, FrameIdAlloc, Rect, WindowRef};
use notion_river::monitor_memory::MonitorMemory;
use notion_river::window_actions::{
    adjacent_workspace, entry_frame, op_references_window, perform_action, remove_closed_windows,
    sync_window_titles,
    DirectionTargets, Effect,
};
use notion_river::wm::{InputMode, ManagedWindow, SeatOp};
use notion_river::workspace::{Output, OutputId, WorkspaceId, WorkspaceManager};

fn output(id: u64, name: &str, x: i32, y: i32, width: i32, height: i32) -> Output {
    let mut o = Output::new(OutputId(id));
    o.name = Some(name.to_owned());
    o.description = Some(format!("Monitor {id}"));
    o.x = x;
    o.y = y;
    o.width = width;
    o.height = height;
    o
}

fn ws(name: &str) -> WorkspaceConfig {
    WorkspaceConfig { name: name.to_owned(), output: None, initial_layout: None }
}

struct Setup {
    wm: WorkspaceManager<f32>,
    windows: Vec<ManagedWindow>,
    mode: InputMode,
    alloc: FrameIdAlloc,
    commands: CommandsConfig,
}

fn setup(window_ids: &[u64]) -> Setup {
    let mut alloc = FrameIdAlloc::new();
    let mut wm = WorkspaceManager::new(&[ws("main"), ws("web")], 0.5, MonitorMemory::default(), &mut alloc);
    wm.outputs = vec![output(10, "DP-1", 0, 0, 1920, 1080)];
    wm.reassign_outputs(&mut alloc);
    let mut windows = Vec::new();
    let fid = wm.workspaces[0].focused_frame;
    for &id in window_ids {
        let mut w = ManagedWindow::new(id);
        w.app_id = format!("app{id}");
        w.frame_id = Some(fid);
        windows.push(w);
        let frame = wm.workspaces[0].root.find_frame_mut(fid).unwrap();
        frame.add_window(WindowRef { window_id: id, app_id: format!("app{id}"), title: format!("t{id}") });
    }
    Setup {
        wm,
        windows,
        mode: InputMode::Normal,
        alloc,
        commands: CommandsConfig {
            terminal: "foot".into(),
            launcher: vec!["fuzzel".into(), "-l".into()],
            window_switcher: vec!["notion-rofi-window-switch".into()],
        },
    }
}

fn no_targets() -> DirectionTargets {
    DirectionTargets { neighbor: None, cross: None }
}

fn act(s: &mut Setup, action: Action, targets: DirectionTargets) -> Effect {
    perform_action(&mut s.wm, &mut s.windows, &mut s.mode, action, targets, &[10], &s.commands, 0.5, &mut s.alloc)
}

#[test]
fn split_moves_active_window_to_new_frame() {
    let mut s = setup(&[1, 2]);
    let old = s.wm.workspaces[0].focused_frame;
    let e = act(&mut s, Action::SplitHorizontal, no_targets());
    assert!(matches!(e, Effect::Nothing));
    let ids = s.wm.workspaces[0].root.all_frame_ids();
    assert_eq!(ids.len(), 2);
    let new_id = ids[1];
    assert_eq!(ids[0], old);
    assert_eq!(s.wm.workspaces[0].focused_frame, new_id);
    let moved = s.wm.workspaces[0].root.find_frame(new_id).unwrap();
    assert_eq!(moved.windows.len(), 1);
    assert_eq!(moved.windows[0].window_id, 2);
    assert_eq!(s.wm.workspaces[0].root.find_frame(old).unwrap().windows.len(), 1);
    assert_eq!(s.windows[1].frame_id, Some(new_id));
}

#[test]
fn split_with_one_window_keeps_focus() {
    let mut s = setup(&[1]);
    let old = s.wm.workspaces[0].focused_frame;
    act(&mut s, Action::SplitVertical, no_targets());
    assert_eq!(s.wm.workspaces[0].root.all_frame_ids().len(), 2);
    assert_eq!(s.wm.workspaces[0].focused_frame, old);
    assert_eq!(s.windows[0].frame_id, Some(old));
}

#[test]
fn unsplit_removes_empty_focused_frame() {
    let mut s = setup(&[1]);
    let first = s.wm.workspaces[0].focused_frame;
    act(&mut s, Action::SplitHorizontal, no_targets());
    let second = s.wm.workspaces[0].root.all_frame_ids()[1];
    s.wm.workspaces[0].focused_frame = second;
    act(&mut s, Action::Unsplit, no_targets());
    assert_eq!(s.wm.workspaces[0].root.all_frame_ids(), vec![first]);
    assert_eq!(s.wm.workspaces[0].focused_frame, first);
}

#[test]
fn unsplit_keeps_frame_with_windows_and_last_frame() {
    let mut s = setup(&[1]);
    act(&mut s, Action::Unsplit, no_targets());
    assert_eq!(s.wm.workspaces[0].root.all_frame_ids().len(), 1);
    act(&mut s, Action::SplitHorizontal, no_targets());
    act(&mut s, Action::Unsplit, no_targets());
    assert_eq!(s.wm.workspaces[0].root.all_frame_ids().len(), 2);
}

#[test]
fn close_asks_the_active_window_to_close() {
    let mut s = setup(&[1, 2]);
    let e = act(&mut s, Action::Close, no_targets());
    assert!(matches!(e, Effect::CloseWindow(2)));
}

#[test]
fn close_on_empty_frame_unsplits() {
    let mut s = setup(&[1]);
    act(&mut s, Action::SplitHorizontal, no_targets());
    let second = s.wm.workspaces[0].root.all_frame_ids()[1];
    s.wm.workspaces[0].focused_frame = second;
    let e = act(&mut s, Action::Close, no_targets());
    assert!(matches!(e, Effect::Nothing));
    assert_eq!(s.wm.workspaces[0].root.all_frame_ids().len(), 1);
}

#[test]
fn toggle_float_flips_the_active_window() {
    let mut s = setup(&[1]);
    act(&mut s, Action::ToggleFloat, no_targets());
    assert!(s.windows[0].floating);
    act(&mut s, Action::ToggleFloat, no_targets());
    assert!(!s.windows[0].floating);
}

#[test]
fn fullscreen_enters_then_exits() {
    let mut s = setup(&[1]);
    let e = act(&mut s, Action::ToggleFullscreen, no_targets());
    assert!(matches!(e, Effect::EnterFullscreen(1, OutputId(10))));
    assert!(s.windows[0].fullscreen);
    let e = act(&mut s, Action::ToggleFullscreen, no_targets());
    assert!(matches!(e, Effect::ExitFullscreen(1)));
    assert!(!s.windows[0].fullscreen);
}

#[test]
fn fullscreen_needs_a_known_output() {
    let mut s = setup(&[1]);
    let e = perform_action(&mut s.wm, &mut s.windows, &mut s.mode, Action::ToggleFullscreen, no_targets(), &[99], &s.commands, 0.5, &mut s.alloc);
    assert!(matches!(e, Effect::Nothing));
    assert!(!s.windows[0].fullscreen);
}

#[test]
fn tabs_cycle_both_ways() {
    let mut s = setup(&[1, 2, 3]);
    let fid = s.wm.workspaces[0].focused_frame;
    assert_eq!(s.wm.workspaces[0].root.find_frame(fid).unwrap().active_tab, 2);
    act(&mut s, Action::FocusNextTab, no_targets());
    assert_eq!(s.wm.workspaces[0].root.find_frame(fid).unwrap().active_tab, 0);
    act(&mut s, Action::FocusPrevTab, no_targets());
    assert_eq!(s.wm.workspaces[0].root.find_frame(fid).unwrap().active_tab, 2);
    act(&mut s, Action::FocusPrevTab, no_targets());
    assert_eq!(s.wm.workspaces[0].root.find_frame(fid).unwrap().active_tab, 1);
}

#[test]
fn focus_direction_goes_to_neighbor() {
    let mut s = setup(&[1]);
    act(&mut s, Action::SplitHorizontal, no_targets());
    let second = s.wm.workspaces[0].root.all_frame_ids()[1];
    act(&mut s, Action::FocusDirection(Direction::Right), DirectionTargets { neighbor: Some(second), cross: None });
    assert_eq!(s.wm.workspaces[0].focused_frame, second);
}

#[test]
fn focus_direction_crosses_to_other_monitor() {
    let mut s = setup(&[1]);
    let target = s.wm.workspaces[1].focused_frame;
    act(&mut s, Action::FocusDirection(Direction::Right), DirectionTargets { neighbor: None, cross: Some((WorkspaceId(1), target)) });
    assert_eq!(s.wm.focused_workspace, WorkspaceId(1));
    assert_eq!(s.wm.workspaces[1].focused_frame, target);
}

#[test]
fn move_direction_carries_window_and_focus() {
    let mut s = setup(&[1, 2]);
    let first = s.wm.workspaces[0].focused_frame;
    let mut t = setup(&[1]);
    let t_first = t.wm.workspaces[0].focused_frame;
    act(&mut t, Action::SplitHorizontal, no_targets());
    let second = t.wm.workspaces[0].root.all_frame_ids()[1];
    act(&mut t, Action::MoveDirection(Direction::Right), DirectionTargets { neighbor: Some(second), cross: None });
    assert_eq!(t.wm.workspaces[0].focused_frame, second);
    assert_eq!(t.wm.workspaces[0].root.find_frame(second).unwrap().windows[0].window_id, 1);
    assert!(t.wm.workspaces[0].root.find_frame(t_first).unwrap().windows.is_empty());
    assert_eq!(t.windows[0].frame_id, Some(second));
    // without a target nothing moves
    act(&mut s, Action::MoveDirection(Direction::Left), no_targets());
    assert_eq!(s.wm.workspaces[0].root.find_frame(first).unwrap().windows.len(), 2);
}

#[test]
fn move_to_workspace_puts_window_in_its_focused_frame() {
    let mut s = setup(&[1, 2]);
    let target = s.wm.workspaces[1].focused_frame;
    act(&mut s, Action::MoveToWorkspace("web".into()), no_targets());
    let dst = s.wm.workspaces[1].root.find_frame(target).unwrap();
    assert_eq!(dst.windows.len(), 1);
    assert_eq!(dst.windows[0].window_id, 2);
    assert_eq!(s.windows[1].frame_id, Some(target));
    let src = s.wm.workspaces[0].root.find_frame(s.wm.workspaces[0].focused_frame).unwrap();
    assert_eq!(src.windows.len(), 1);
    assert_eq!(s.wm.focused_workspace, WorkspaceId(0));
}

#[test]
fn toggle_split_flips_orientation() {
    let mut s = setup(&[1]);
    act(&mut s, Action::SplitHorizontal, no_targets());
    act(&mut s, Action::ToggleSplit, no_targets());
    match &s.wm.workspaces[0].root {
        notion_river::layout::SplitNode::Split { orientation, .. } => {
            assert_eq!(*orientation, notion_river::layout::Orientation::Vertical)
        }
        _ => panic!("expected a split"),
    }
}

#[test]
fn switch_workspace_focuses_named_workspace() {
    let mut s = setup(&[]);
    act(&mut s, Action::SwitchWorkspace("web".into()), no_targets());
    assert_eq!(s.wm.focused_workspace, WorkspaceId(1));
    assert_eq!(s.wm.workspaces[1].active_output, Some(OutputId(10)));
    assert_eq!(s.wm.workspaces[0].active_output, None);
}

#[test]
fn resize_mode_and_resize_effect() {
    let mut s = setup(&[1]);
    act(&mut s, Action::EnterResizeMode, no_targets());
    assert_eq!(s.mode, InputMode::Resize);
    let fid = s.wm.workspaces[0].focused_frame;
    let e = act(&mut s, Action::Resize(Direction::Left), no_targets());
    match e {
        Effect::ResizeFrame(f, Direction::Left) => assert_eq!(f, fid),
        other => panic!("unexpected {other:?}"),
    }
    act(&mut s, Action::ExitResizeMode, no_targets());
    assert_eq!(s.mode, InputMode::Normal);
}

#[test]
fn spawn_effects_carry_commands() {
    let mut s = setup(&[]);
    match act(&mut s, Action::SpawnTerminal, no_targets()) {
        Effect::Spawn(v) => assert_eq!(v, vec!["foot".to_string()]),
        other => panic!("unexpected {other:?}"),
    }
    match act(&mut s, Action::SpawnLauncher, no_targets()) {
        Effect::Spawn(v) => assert_eq!(v, vec!["fuzzel".to_string(), "-l".to_string()]),
        other => panic!("unexpected {other:?}"),
    }
    match act(&mut s, Action::SpawnWindowSwitcher, no_targets()) {
        Effect::Spawn(v) => assert_eq!(v, vec!["notion-rofi-window-switch".to_string()]),
        other => panic!("unexpected {other:?}"),
    }
    assert!(matches!(act(&mut s, Action::Spawn(vec![]), no_targets()), Effect::Nothing));
    assert!(matches!(act(&mut s, Action::Exit, no_targets()), Effect::ExitSession));
    assert!(matches!(act(&mut s, Action::ReloadConfig, no_targets()), Effect::ReloadConfig));
    assert!(matches!(act(&mut s, Action::Noop, no_targets()), Effect::Nothing));
}

#[test]
fn adjacent_workspace_finds_monitor_to_the_right() {
    let mut alloc = FrameIdAlloc::new();
    let mut wm: WorkspaceManager<f32> = WorkspaceManager::new(&[ws("main"), ws("web")], 0.5, MonitorMemory::default(), &mut alloc);
    wm.outputs = vec![output(10, "DP-1", 0, 0, 1920, 1080), output(20, "DP-2", 1920, 0, 1920, 1080)];
    wm.reassign_outputs(&mut alloc);
    let on_right = wm.workspaces.iter().position(|w| w.active_output == Some(OutputId(20))).unwrap();
    let r = adjacent_workspace(&wm, OutputId(10), Direction::Right, 0);
    assert_eq!(r, Some((on_right, Rect { x: 1920, y: 0, width: 1920, height: 1080 })));
    assert_eq!(adjacent_workspace(&wm, OutputId(10), Direction::Left, 0), None);
    assert_eq!(adjacent_workspace(&wm, OutputId(99), Direction::Right, 0), None);
}

#[test]
fn entry_frame_picks_closest_on_entry_edge() {
    let area = Rect { x: 1920, y: 0, width: 1920, height: 1080 };
    let layouts = vec![
        (FrameId(1), Rect { x: 1920, y: 0, width: 960, height: 540 }),
        (FrameId(2), Rect { x: 1920, y: 540, width: 960, height: 540 }),
        (FrameId(3), Rect { x: 2880, y: 0, width: 960, height: 1080 }),
    ];
    let src = Rect { x: 0, y: 600, width: 1920, height: 480 };
    assert_eq!(entry_frame(&layouts, area, Direction::Right, src, 0), Some(FrameId(2)));
    let src_top = Rect { x: 0, y: 0, width: 1920, height: 200 };
    assert_eq!(entry_frame(&layouts, area, Direction::Right, src_top, 0), Some(FrameId(1)));
    assert_eq!(entry_frame(&layouts, area, Direction::Left, src, 0), Some(FrameId(3)));
    assert_eq!(entry_frame(&[], area, Direction::Left, src, 0), None);
}

#[test]
fn neighbor_is_nearest_frame_beside() {
    let layout = vec![
        (FrameId(1), Rect { x: 0, y: 0, width: 100, height: 100 }),
        (FrameId(2), Rect { x: 300, y: 0, width: 100, height: 100 }),
        (FrameId(3), Rect { x: 104, y: 50, width: 100, height: 100 }),
        (FrameId(4), Rect { x: 0, y: 104, width: 100, height: 100 }),
    ];
    assert_eq!(find_neighbor_in_layout(&layout, FrameId(1), Direction::Right), Some(FrameId(3)));
    assert_eq!(find_neighbor_in_layout(&layout, FrameId(1), Direction::Down), Some(FrameId(4)));
    assert_eq!(find_neighbor_in_layout(&layout, FrameId(1), Direction::Left), None);
    assert_eq!(find_neighbor_in_layout(&layout, FrameId(9), Direction::Left), None);
    assert_eq!(find_neighbor_in_layout(&layout, FrameId(2), Direction::Left), Some(FrameId(3)));
}

#[test]
fn closed_windows_leave_their_frames_and_the_list() {
    let mut s = setup(&[1, 2, 3]);
    s.windows[0].closed = true;
    s.windows[2].closed = true;
    let ids = remove_closed_windows(&mut s.wm, &mut s.windows);
    assert_eq!(ids, vec![1, 3]);
    let fid = s.wm.workspaces[0].focused_frame;
    let frame = s.wm.workspaces[0].root.find_frame(fid).unwrap();
    let left: Vec<u64> = frame.windows.iter().map(|w| w.window_id).collect();
    assert_eq!(left, vec![2]);
    assert_eq!(frame.active_tab, 0);
    assert_eq!(s.windows.len(), 1);
    assert_eq!(s.windows[0].id, 2);
}

#[test]
fn nothing_closed_changes_nothing() {
    let mut s = setup(&[1, 2]);
    let ids = remove_closed_windows(&mut s.wm, &mut s.windows);
    assert!(ids.is_empty());
    assert_eq!(s.windows.len(), 2);
    let fid = s.wm.workspaces[0].focused_frame;
    assert_eq!(s.wm.workspaces[0].root.find_frame(fid).unwrap().windows.len(), 2);
}

#[test]
fn pointer_operations_end_with_their_window() {
    let mv = SeatOp::Move { window_id: 4, start_x: 0, start_y: 0 };
    assert!(op_references_window(&mv, 4));
    assert!(!op_references_window(&mv, 5));
    assert!(!op_references_window(&SeatOp::Idle, 4));
}

#[test]
fn frames_show_the_current_titles() {
    let mut s = setup(&[1, 2]);
    s.windows[0].title = "t1".into();
    s.windows[1].title = "renamed".into();
    s.windows[1].app_id = "other".into();
    sync_window_titles(&mut s.wm, &s.windows);
    let fid = s.wm.workspaces[0].focused_frame;
    let frame = s.wm.workspaces[0].root.find_frame(fid).unwrap();
    assert_eq!(frame.windows[0].title, "t1");
    assert_eq!(frame.windows[0].app_id, "app1");
    assert_eq!(frame.windows[1].title, "renamed");
    assert_eq!(frame.windows[1].app_id, "other");
    assert_eq!(frame.windows[1].window_id, 2);
}
