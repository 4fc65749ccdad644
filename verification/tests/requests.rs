use notion_river::requests::{bind_focused_app, clicked_windows, cycle_plan, follows_mouse, hovered_floating, tiled_drops, CycleStep};
use notion_river::actions::Action;
use notion_river::wm::SeatOp;
use notion_river::app_bindings::{AppBindings, BoundLocation};
use notion_river::config::WorkspaceConfig;
use notion_river::control::ControlRequest;
use notion_river::layout::{FrameIdAlloc, WindowRef};
use notion_river::monitor_memory::MonitorMemory;
use notion_river::requests::{click_window, focus_window_by_id, handle_control_request};
use notion_river::wm::ManagedWindow;
use notion_river::workspace::{Output, OutputId, WorkspaceId, WorkspaceManager};

fn manager() -> WorkspaceManager<f32> {
    let configs = vec![
        WorkspaceConfig { name: "main".into(), output: None, initial_layout: None },
        WorkspaceConfig { name: "web".into(), output: None, initial_layout: Some("vsplit".into()) },
    ];
    let mut alloc = FrameIdAlloc::new();
    let mut wm = WorkspaceManager::new(&configs, 0.5, MonitorMemory::default(), &mut alloc);
    let mut o = Output::new(OutputId(1));
    o.name = Some("DP-1".into());
    o.width = 1920;
    o.height = 1080;
    wm.add_output(o);
    wm.reassign_outputs(&mut alloc);
    wm
}

fn win(id: u64) -> WindowRef {
    WindowRef { window_id: id, app_id: "firefox".into(), title: format!("tab {id}") }
}

#[test]
fn focusing_a_window_on_a_hidden_workspace_shows_it() {
    let mut wm = manager();
    assert!(wm.workspaces[0].active_output.is_some());
    assert!(wm.workspaces[1].active_output.is_none());
    let second = wm.workspaces[1].root.all_frame_ids()[1];
    let frame = wm.workspaces[1].root.find_frame_mut(second).unwrap();
    frame.add_window(win(5));
    frame.add_window(win(6));
    frame.active_tab = 1;
    focus_window_by_id(&mut wm, 5);
    assert_eq!(wm.focused_workspace, WorkspaceId(1));
    assert_eq!(wm.workspaces[1].active_output, Some(OutputId(1)));
    assert!(wm.workspaces[0].active_output.is_none());
    assert_eq!(wm.workspaces[1].focused_frame, second);
    assert_eq!(wm.workspaces[1].root.find_frame(second).unwrap().active_tab, 0);
}

#[test]
fn focusing_an_unknown_window_changes_nothing() {
    let mut wm = manager();
    let before = wm.focused_workspace;
    focus_window_by_id(&mut wm, 99);
    assert_eq!(wm.focused_workspace, before);
    assert!(wm.workspaces[0].active_output.is_some());
}

#[test]
fn binding_requests_change_and_report_the_bindings() {
    let mut wm = manager();
    let mut bindings = AppBindings::default();
    let bind = ControlRequest::Bind { app_id: "foot".into(), workspace: "web".into(), frame_index: 1, dimensions: Some((800, 600)) };
    assert!(handle_control_request(&mut wm, &mut bindings, bind));
    assert_eq!(bindings.bindings.len(), 1);
    assert_eq!(
        bindings.bindings[0].1,
        vec![BoundLocation { workspace: "web".into(), frame_index: 1, fixed_dimensions: Some((800, 600)) }]
    );
    let dims = ControlRequest::SetFixedDimensions("foot".into(), None);
    assert!(handle_control_request(&mut wm, &mut bindings, dims));
    assert_eq!(bindings.fixed_dimensions_for("foot", "web", 1), None);
    let none = ControlRequest::SetFixedDimensions("kitty".into(), Some((1, 1)));
    assert!(!handle_control_request(&mut wm, &mut bindings, none));
    assert!(handle_control_request(&mut wm, &mut bindings, ControlRequest::Unbind("foot".into())));
    assert!(bindings.bindings.is_empty());
}

#[test]
fn switch_requests_switch_workspace() {
    let mut wm = manager();
    let mut bindings = AppBindings::default();
    assert!(!handle_control_request(&mut wm, &mut bindings, ControlRequest::SwitchWorkspace("web".into())));
    assert_eq!(wm.focused_workspace, WorkspaceId(1));
    assert_eq!(wm.workspaces[1].active_output, Some(OutputId(1)));
}

#[test]
fn clicking_windows_moves_focus() {
    let mut wm = manager();
    let second = wm.workspaces[1].root.all_frame_ids()[1];
    wm.workspaces[1].root.find_frame_mut(second).unwrap().add_window(win(5));
    let mut tiled = ManagedWindow::new(5);
    tiled.app_id = "firefox".into();
    tiled.frame_id = Some(second);
    let mut popup = ManagedWindow::new(9);
    popup.app_id = "firefox".into();
    popup.floating = true;
    let windows = vec![tiled, popup];
    let mut floating_focus = None;
    // a floating popup takes floating focus and shows its app's workspace
    click_window(&mut wm, &windows, &mut floating_focus, 9, false);
    assert_eq!(floating_focus, Some(9));
    assert_eq!(wm.workspaces[1].active_output, Some(OutputId(1)));
    // a tiled window clears it and takes focus with its frame
    click_window(&mut wm, &windows, &mut floating_focus, 5, false);
    assert_eq!(floating_focus, None);
    assert_eq!(wm.workspaces[1].focused_frame, second);
    assert_eq!(wm.focused_workspace, WorkspaceId(1));
}

#[test]
fn focused_app_binds_to_the_focused_frame() {
    let wm = {
        let mut wm = manager();
        let fid = wm.workspaces[0].focused_frame;
        wm.workspaces[0].root.find_frame_mut(fid).unwrap().add_window(win(5));
        wm
    };
    let mut bindings = AppBindings::default();
    assert!(bind_focused_app(&wm, &mut bindings, false));
    assert_eq!(bindings.bindings[0].0, "firefox");
    assert_eq!(bindings.bindings[0].1, vec![BoundLocation { workspace: "main".into(), frame_index: 0, fixed_dimensions: None }]);
    // toggling again removes it
    assert!(bind_focused_app(&wm, &mut bindings, false));
    assert!(bindings.bindings.is_empty());
    // exclusive binding
    assert!(bind_focused_app(&wm, &mut bindings, true));
    assert_eq!(bindings.bindings.len(), 1);
}

#[test]
fn a_pending_key_action_suppresses_focus_following_the_mouse() {
    assert!(follows_mouse(&vec![], true));
    assert!(follows_mouse(&vec![Action::Noop, Action::Noop], true));
    assert!(!follows_mouse(&vec![Action::Noop, Action::Close], true));
    assert!(!follows_mouse(&vec![], false));
}

#[test]
fn clicks_are_taken_in_order_unless_interaction_is_suppressed() {
    let clicks = vec![Some(4), None, Some(7)];
    assert_eq!(clicked_windows(&clicks, false), vec![4, 7]);
    assert_eq!(clicked_windows(&clicks, true), Vec::<u64>::new());
}

#[test]
fn the_first_hovered_floating_window_takes_the_floating_focus() {
    let mut a = ManagedWindow::new(1);
    a.floating = false;
    let mut b = ManagedWindow::new(2);
    b.floating = true;
    let mut c = ManagedWindow::new(3);
    c.floating = true;
    let windows = vec![a, b, c];
    assert_eq!(hovered_floating(&vec![None, Some(1), Some(3), Some(2)], &windows), Some(3));
    assert_eq!(hovered_floating(&vec![Some(1), Some(9)], &windows), None);
}

#[test]
fn only_released_moves_of_tiled_windows_are_drops() {
    let mut a = ManagedWindow::new(1);
    a.floating = false;
    let mut b = ManagedWindow::new(2);
    b.floating = true;
    let windows = vec![a, b];
    let releases = vec![
        (SeatOp::Move { window_id: 1, start_x: 0, start_y: 0 }, 10, 20),
        (SeatOp::Move { window_id: 2, start_x: 0, start_y: 0 }, 30, 40),
        (SeatOp::Idle, 50, 60),
    ];
    assert_eq!(tiled_drops(&releases, &windows), vec![(1, 10, 20)]);
}

#[test]
fn a_cycle_clicks_then_follows_the_mouse_then_acts_then_drops() {
    let mut a = ManagedWindow::new(1);
    a.floating = false;
    let mut b = ManagedWindow::new(2);
    b.floating = true;
    let windows = vec![a, b];
    // no key action: clicks, then the hovered floating window takes focus
    let plan = cycle_plan(&vec![Action::Noop], &vec![Some(1)], false, true, &vec![Some(2)], &windows);
    assert_eq!(plan, vec![CycleStep::Click(1), CycleStep::FocusFloating(2), CycleStep::Perform(0), CycleStep::DropReleased]);
    // over the tiled area focus follows the pointers
    let plan = cycle_plan(&vec![], &vec![], false, true, &vec![Some(1)], &windows);
    assert_eq!(plan, vec![CycleStep::FollowMouse, CycleStep::DropReleased]);
    // a key action keeps focus where it is; a tab click suppresses the clicks
    let plan = cycle_plan(&vec![Action::Close, Action::Noop], &vec![Some(1)], true, true, &vec![Some(2)], &windows);
    assert_eq!(plan, vec![CycleStep::Perform(0), CycleStep::Perform(1), CycleStep::DropReleased]);
}
