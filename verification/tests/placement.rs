use notion_river::app_bindings::{AppBindings, BoundLocation};
use notion_river::config::WorkspaceConfig;
use notion_river::layout::{FrameIdAlloc, WindowRef};
use notion_river::monitor_memory::MonitorMemory;
use notion_river::placement::{apply_saved_active_tabs, init_new_window, restore_progress, Placement};
use notion_river::wm::{FloatingKind, ManagedWindow};
use notion_river::workspace::{Output, OutputId, WorkspaceId, WorkspaceManager};

fn manager() -> WorkspaceManager<f32> {
    let configs = vec![
        WorkspaceConfig { name: "main".into(), output: None, initial_layout: None },
        WorkspaceConfig { name: "web".into(), output: None, initial_layout: Some("hsplit".into()) },
    ];
    let mut alloc = FrameIdAlloc::new();
    let mut wm = WorkspaceManager::new(&configs, 0.5, MonitorMemory::default(), &mut alloc);
    let mut o = Output::new(OutputId(1));
    o.name = Some("DP-1".into());
    o.width = 1920;
    o.height = 1080;
    wm.add_output(o);
    wm.reassign_outputs(&mut alloc);
    wm
}

fn window(id: u64, app: &str, title: &str) -> ManagedWindow {
    let mut w = ManagedWindow::new(id);
    w.app_id = app.into();
    w.title = title.into();
    w
}

#[test]
fn untitled_window_of_a_running_app_floats_as_a_notification() {
    let mut wm = manager();
    let mut w = window(3, "thunderbird", "");
    w.width = 300;
    w.height = 100;
    let existing = vec!["thunderbird".to_string()];
    let p = init_new_window(&mut wm, &mut w, &existing, None, &AppBindings::default());
    assert_eq!(p, Placement::Floating { width: 300, height: 100 });
    assert!(w.floating);
    assert_eq!(w.floating_kind, FloatingKind::Notification);
    assert_eq!((w.float_x, w.float_y), (1600, 20));
    assert!(w.float_positioned);
    assert!(!w.new);
    assert_eq!(w.frame_id, Some(wm.workspaces[0].focused_frame));
}

#[test]
fn floating_dialog_of_unknown_size_is_centered() {
    let mut wm = manager();
    let mut w = window(4, "gimp", "Open");
    w.floating = true;
    let p = init_new_window(&mut wm, &mut w, &Vec::new(), None, &AppBindings::default());
    assert_eq!(p, Placement::Floating { width: 0, height: 0 });
    assert_eq!((w.float_x, w.float_y), (640, 300));
    assert!(!w.float_positioned);
}

#[test]
fn tiled_window_goes_to_the_focused_frame_as_its_active_tab() {
    let mut wm = manager();
    let fid = wm.workspaces[0].focused_frame;
    wm.workspaces[0].root.find_frame_mut(fid).unwrap().add_window(WindowRef {
        window_id: 1,
        app_id: "foot".into(),
        title: "a".into(),
    });
    let mut w = window(2, "foot", "b");
    let p = init_new_window(&mut wm, &mut w, &vec!["foot".to_string()], None, &AppBindings::default());
    assert_eq!(p, Placement::Tiled);
    let frame = wm.workspaces[0].root.find_frame(fid).unwrap();
    assert_eq!(frame.windows.len(), 2);
    assert_eq!(frame.active_tab, 1);
    assert_eq!(w.frame_id, Some(fid));
    assert!(!w.floating);
}

#[test]
fn bound_window_reveals_its_hidden_workspace() {
    let mut wm = manager();
    let bindings = AppBindings {
        bindings: vec![(
            "firefox".to_string(),
            vec![BoundLocation { workspace: "web".into(), frame_index: 1, fixed_dimensions: None }],
        )],
    };
    let target = wm.workspaces[1].root.all_frame_ids()[1];
    let mut w = window(5, "firefox", "news");
    init_new_window(&mut wm, &mut w, &Vec::new(), None, &bindings);
    assert_eq!(wm.focused_workspace, WorkspaceId(1));
    assert_eq!(wm.workspaces[1].active_output, Some(OutputId(1)));
    assert_eq!(wm.workspaces[1].root.find_frame(target).unwrap().windows[0].window_id, 5);
    assert_eq!(w.frame_id, Some(target));
}

#[test]
fn restored_window_joins_quietly_and_tabs_come_back_afterwards() {
    let mut wm = manager();
    let target = wm.workspaces[1].root.all_frame_ids()[0];
    let mut first = window(6, "foot", "one");
    let mut second = window(7, "foot", "two");
    init_new_window(&mut wm, &mut first, &Vec::new(), Some((WorkspaceId(1), target)), &AppBindings::default());
    init_new_window(&mut wm, &mut second, &Vec::new(), Some((WorkspaceId(1), target)), &AppBindings::default());
    // restoring keeps the workspace hidden and the active tab where it was
    assert!(wm.workspaces[1].active_output.is_none());
    assert_eq!(wm.workspaces[1].root.find_frame(target).unwrap().active_tab, 0);
    apply_saved_active_tabs(&mut wm, &vec![(target, 1)]);
    assert_eq!(wm.workspaces[1].root.find_frame(target).unwrap().active_tab, 1);
    // a tab past the end is ignored
    apply_saved_active_tabs(&mut wm, &vec![(target, 5)]);
    assert_eq!(wm.workspaces[1].root.find_frame(target).unwrap().active_tab, 1);
}

#[test]
fn restore_bookkeeping() {
    assert_eq!(restore_progress(true, 2, true), (0, false));
    assert_eq!(restore_progress(false, 2, true), (3, true));
    assert_eq!(restore_progress(false, 0, true), (1, false));
    assert_eq!(restore_progress(false, 0, false), (1, true));
}
