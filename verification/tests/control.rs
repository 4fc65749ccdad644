use notion_river::config::WorkspaceConfig;
use notion_river::control::{build_snapshot, parse_control_line, ControlCommand, ControlError, ControlRequest};
use notion_river::ipc::SubscriptionKind;
use notion_river::layout::{FrameId, FrameIdAlloc, Rect, WindowRef};
use notion_river::monitor_memory::MonitorMemory;
use notion_river::numbers::{parse_i32_chars, parse_u64_chars, parse_usize_chars};
use notion_river::workspace::{Output, OutputId, WorkspaceManager};

fn chars(s: &str) -> Vec<char> {
    s.chars().collect()
}

fn reject(line: &str) -> ControlError {
    match parse_control_line(line) {
        ControlCommand::Reject(e) => e,
        other => panic!("expected a rejection for {line:?}, got {other:?}"),
    }
}

#[test]
fn every_error_has_its_reply() {
    assert_eq!(reject("   ").reply(), "ERR empty");
    assert_eq!(reject("subscribe-output").reply(), "ERR missing output name");
    assert_eq!(reject("subscribe-workspace  ").reply(), "ERR missing workspace name");
    assert_eq!(reject("focus-window").reply(), "ERR missing id");
    assert_eq!(reject("focus-window 12x").reply(), "ERR bad id");
    assert_eq!(reject("switch-workspace").reply(), "ERR missing name");
    assert_eq!(reject("bind").reply(), "ERR usage: bind <app_id> <workspace> <frame_index> [WxH]");
    assert_eq!(reject("bind foot").reply(), "ERR missing workspace");
    assert_eq!(reject("bind foot main").reply(), "ERR missing frame_index");
    assert_eq!(reject("bind foot main one").reply(), "ERR bad frame_index");
    assert_eq!(reject("unbind").reply(), "ERR missing app_id");
    assert_eq!(reject("set-fixed-dimensions").reply(), "ERR missing app_id");
    assert_eq!(reject("set-fixed-dimensions foot").reply(), "ERR missing dimensions (WxH or 'clear')");
    assert_eq!(reject("set-fixed-dimensions foot 800").reply(), "ERR bad format, use WxH");
    assert_eq!(reject("set-fixed-dimensions foot 8x0x1").reply(), "ERR bad format, use WxH");
    assert_eq!(reject("set-fixed-dimensions foot axb").reply(), "ERR bad dimensions");
    assert_eq!(reject("dance").reply(), "ERR unknown");
}

#[test]
fn subscriptions_and_listings() {
    assert!(matches!(parse_control_line("subscribe-workspaces"), ControlCommand::Subscribe(SubscriptionKind::AllWorkspaces)));
    match parse_control_line("subscribe-output  DP-1   extra ") {
        ControlCommand::Subscribe(SubscriptionKind::Output(n)) => assert_eq!(n, "DP-1 extra"),
        other => panic!("{other:?}"),
    }
    match parse_control_line("subscribe-workspace my space") {
        ControlCommand::Subscribe(SubscriptionKind::SingleWorkspace(n)) => assert_eq!(n, "my space"),
        other => panic!("{other:?}"),
    }
    assert!(matches!(parse_control_line("list-windows"), ControlCommand::ListWindows));
    assert!(matches!(parse_control_line(" list-workspaces\n"), ControlCommand::ListWorkspaces));
}

#[test]
fn requests_carry_their_arguments() {
    match parse_control_line("focus-window 42") {
        ControlCommand::Request(ControlRequest::FocusWindow(42)) => {}
        other => panic!("{other:?}"),
    }
    match parse_control_line("switch-workspace web two") {
        ControlCommand::Request(ControlRequest::SwitchWorkspace(n)) => assert_eq!(n, "web two"),
        other => panic!("{other:?}"),
    }
    match parse_control_line("bind foot main 2 800x600") {
        ControlCommand::Request(ControlRequest::Bind { app_id, workspace, frame_index, dimensions }) => {
            assert_eq!(app_id, "foot");
            assert_eq!(workspace, "main");
            assert_eq!(frame_index, 2);
            assert_eq!(dimensions, Some((800, 600)));
        }
        other => panic!("{other:?}"),
    }
    match parse_control_line("unbind foot") {
        ControlCommand::Request(ControlRequest::Unbind(a)) => assert_eq!(a, "foot"),
        other => panic!("{other:?}"),
    }
    match parse_control_line("set-fixed-dimensions foot clear") {
        ControlCommand::Request(ControlRequest::SetFixedDimensions(a, None)) => assert_eq!(a, "foot"),
        other => panic!("{other:?}"),
    }
    match parse_control_line("set-fixed-dimensions foot -3x7") {
        ControlCommand::Request(ControlRequest::SetFixedDimensions(a, Some((-3, 7)))) => assert_eq!(a, "foot"),
        other => panic!("{other:?}"),
    }
}

#[test]
fn numbers_parse_like_std() {
    assert_eq!(parse_i32_chars(&chars("-2147483648")), Some(i32::MIN));
    assert_eq!(parse_i32_chars(&chars("2147483648")), None);
    assert_eq!(parse_i32_chars(&chars("+5")), Some(5));
    assert_eq!(parse_i32_chars(&chars("")), None);
    assert_eq!(parse_i32_chars(&chars("-")), None);
    assert_eq!(parse_u64_chars(&chars("18446744073709551615")), Some(u64::MAX));
    assert_eq!(parse_u64_chars(&chars("18446744073709551616")), None);
    assert_eq!(parse_u64_chars(&chars("-1")), None);
    assert_eq!(parse_usize_chars(&chars("007")), Some(7));
}

#[test]
fn snapshot_lists_windows_and_workspaces() {
    let mut alloc = FrameIdAlloc::new();
    let configs = vec![
        WorkspaceConfig { name: "main".into(), output: None, initial_layout: None },
        WorkspaceConfig { name: "web".into(), output: None, initial_layout: None },
    ];
    let mut wm: WorkspaceManager<f32> = WorkspaceManager::new(&configs, 0.5, MonitorMemory::default(), &mut alloc);
    let mut o = Output::new(OutputId(1));
    o.name = Some("DP-1".into());
    o.description = Some("Dell".into());
    o.width = 1920;
    o.height = 1080;
    wm.outputs = vec![o];
    wm.reassign_outputs(&mut alloc);
    let fid = wm.workspaces[0].focused_frame;
    wm.workspaces[0].root.find_frame_mut(fid).unwrap().add_window(WindowRef { window_id: 7, app_id: "foot".into(), title: "sh".into() });
    wm.workspaces[0].root.find_frame_mut(fid).unwrap().add_window(WindowRef { window_id: 8, app_id: "mpv".into(), title: "v".into() });
    let rect = Rect { x: 0, y: 0, width: 1920, height: 1080 };
    let layouts = vec![vec![(fid, rect)], vec![]];
    let snap = build_snapshot(&wm, &layouts);
    assert_eq!(snap.windows.len(), 2);
    assert_eq!(snap.windows[0].id, 7);
    assert!(!snap.windows[0].focused);
    assert!(snap.windows[1].focused);
    assert_eq!(snap.windows[1].width, 1920);
    assert_eq!(snap.windows[1].frame_id, fid.0);
    assert_eq!(snap.workspaces.len(), 2);
    assert_eq!(snap.workspaces[0].output.as_deref(), Some("DP-1"));
    assert!(snap.workspaces[0].focused && snap.workspaces[0].visible && snap.workspaces[0].has_windows);
    assert!(!snap.workspaces[1].visible && !snap.workspaces[1].has_windows);
    let _ = FrameId(0);
}
