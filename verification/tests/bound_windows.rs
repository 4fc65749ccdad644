use notion_river::app_bindings::{AppBindings, BoundLocation};
use notion_river::bound_windows::enforce_app_bindings;
use notion_river::config::WorkspaceConfig;
use notion_river::layout::{FrameId, FrameIdAlloc, WindowRef};
use notion_river::monitor_memory::MonitorMemory;
use notion_river::wm::ManagedWindow;
use notion_river::workspace::{Output, OutputId, WorkspaceManager};

fn setup() -> (WorkspaceManager<f32>, Vec<ManagedWindow>, FrameId, FrameId) {
    let configs = vec![
        WorkspaceConfig { name: "main".into(), output: None, initial_layout: Some("hsplit".into()) },
        WorkspaceConfig { name: "hidden".into(), output: None, initial_layout: None },
    ];
    let mut alloc = FrameIdAlloc::new();
    let mut wm = WorkspaceManager::new(&configs, 0.5, MonitorMemory::default(), &mut alloc);
    let mut o = Output::new(OutputId(1));
    o.name = Some("HDMI-A-1".into());
    o.width = 1920;
    o.height = 1080;
    wm.add_output(o);
    wm.reassign_outputs(&mut alloc);
    let ids = wm.workspaces[0].root.all_frame_ids();
    let (left, right) = (ids[0], ids[1]);
    let mut windows = Vec::new();
    for (id, app, floating) in [(1u64, "foot", false), (2, "foot", true), (3, "firefox", false)] {
        let mut w = ManagedWindow::new(id);
        w.app_id = app.to_string();
        w.floating = floating;
        w.frame_id = Some(left);
        windows.push(w);
        wm.workspaces[0].root.find_frame_mut(left).unwrap().add_window(WindowRef {
            window_id: id,
            app_id: app.to_string(),
            title: format!("t{id}"),
        });
    }
    (wm, windows, left, right)
}

fn loc(ws: &str, index: usize) -> BoundLocation {
    BoundLocation { workspace: ws.to_string(), frame_index: index, fixed_dimensions: None }
}

fn ids_in(wm: &WorkspaceManager<f32>, fid: FrameId) -> Vec<u64> {
    wm.workspaces[0].root.find_frame(fid).unwrap().windows.iter().map(|w| w.window_id).collect()
}

#[test]
fn bound_tiled_windows_move_to_their_shown_frame() {
    let (mut wm, mut windows, left, right) = setup();
    let bindings = AppBindings { bindings: vec![("foot".to_string(), vec![loc("hidden", 0), loc("main", 1)])] };
    enforce_app_bindings(&mut wm, &mut windows, &bindings);
    // the tiled foot window moves; the floating one and firefox stay
    assert_eq!(ids_in(&wm, left), vec![2, 3]);
    assert_eq!(ids_in(&wm, right), vec![1]);
    assert_eq!(windows[0].frame_id, Some(right));
    assert_eq!(windows[1].frame_id, Some(left));
}

#[test]
fn bindings_to_hidden_workspaces_move_nothing() {
    let (mut wm, mut windows, left, right) = setup();
    let bindings = AppBindings { bindings: vec![("foot".to_string(), vec![loc("hidden", 0)])] };
    enforce_app_bindings(&mut wm, &mut windows, &bindings);
    assert_eq!(ids_in(&wm, left), vec![1, 2, 3]);
    assert!(ids_in(&wm, right).is_empty());
}

#[test]
fn windows_already_in_their_frame_stay() {
    let (mut wm, mut windows, left, _right) = setup();
    let bindings = AppBindings { bindings: vec![("firefox".to_string(), vec![loc("main", 0)])] };
    enforce_app_bindings(&mut wm, &mut windows, &bindings);
    assert_eq!(ids_in(&wm, left), vec![1, 2, 3]);
    assert_eq!(windows[2].frame_id, Some(left));
}
