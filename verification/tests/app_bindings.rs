use notion_river::app_bindings::{AppBindings, BoundLocation};
use notion_river::config::WorkspaceConfig;
use notion_river::layout::{FrameId, FrameIdAlloc, WindowRef};
use notion_river::monitor_memory::MonitorMemory;
use notion_river::workspace::{OutputId, WorkspaceId, WorkspaceManager};

fn manager() -> (WorkspaceManager<f32>, FrameIdAlloc) {
    let configs = vec![
        WorkspaceConfig { name: "main".into(), output: None, initial_layout: Some("hsplit".into()) },
        WorkspaceConfig { name: "web".into(), output: None, initial_layout: None },
    ];
    let mut alloc = FrameIdAlloc::new();
    let wm = WorkspaceManager::new(&configs, 0.5, MonitorMemory::default(), &mut alloc);
    (wm, alloc)
}

#[test]
fn toggle_adds_then_removes() {
    let mut b = AppBindings::default();
    b.toggle_binding("firefox", "web", 0);
    assert!(b.is_bound("web", 0));
    assert_eq!(b.app_at("web", 0), Some("firefox"));
    b.toggle_binding("firefox", "main", 1);
    assert_eq!(b.bindings[0].1.len(), 2);
    b.toggle_binding("firefox", "web", 0);
    assert!(!b.is_bound("web", 0));
    assert_eq!(b.bindings[0].1.len(), 1);
    b.toggle_binding("firefox", "main", 1);
    assert!(b.bindings.is_empty());
}

#[test]
fn exclusive_binding_replaces_locations() {
    let mut b = AppBindings::default();
    b.toggle_binding("foot", "web", 0);
    b.toggle_binding("foot", "main", 1);
    b.bind_exclusive("foot", "main", 0);
    assert_eq!(b.bindings.len(), 1);
    assert_eq!(
        b.bindings[0].1,
        vec![BoundLocation { workspace: "main".into(), frame_index: 0, fixed_dimensions: None }]
    );
}

#[test]
fn wildcard_patterns_and_fixed_dimensions() {
    let mut b = AppBindings::default();
    b.toggle_binding("steam_app_*", "main", 1);
    assert!(b.find_locations("steam_app_1086940").is_some());
    assert!(b.find_locations("steam").is_none());
    b.set_fixed_dimensions("steam_app_*", "main", 1, Some((1280, 720)));
    assert_eq!(b.fixed_dimensions_for("steam_app_42", "main", 1), Some((1280, 720)));
    assert_eq!(b.fixed_dimensions_for("steam_app_42", "main", 0), None);
    // Setting by a concrete app id does not touch the pattern's entry.
    b.set_fixed_dimensions("steam_app_42", "main", 1, None);
    assert_eq!(b.fixed_dimensions_for("steam_app_42", "main", 1), Some((1280, 720)));
}

#[test]
fn target_prefers_visible_frames_without_the_app() {
    let (mut wm, mut alloc) = manager();
    let mut out = notion_river::workspace::Output::new(OutputId(1));
    out.width = 100;
    out.height = 100;
    wm.outputs.push(out);
    wm.reassign_outputs(&mut alloc);
    // "main" (frames 1 and 2) is shown, "web" (frame 3) is hidden.
    assert_eq!(wm.workspaces[0].active_output, Some(OutputId(1)));
    let mut b = AppBindings::default();
    b.toggle_binding("foot", "web", 0);
    b.toggle_binding("foot", "main", 1);
    assert_eq!(b.find_target("foot", &wm), Some((WorkspaceId(0), FrameId(2))));
    // Once frame 2 holds a foot window, the hidden binding is the fallback.
    wm.workspaces[0]
        .root
        .find_frame_mut(FrameId(2))
        .unwrap()
        .add_window(WindowRef { window_id: 9, app_id: "foot".into(), title: "t".into() });
    assert_eq!(b.find_target("foot", &wm), Some((WorkspaceId(1), FrameId(3))));
    assert_eq!(b.find_target("other", &wm), None);
    assert_eq!(AppBindings::frame_index(&wm, WorkspaceId(0), FrameId(2)), Some(1));
    assert_eq!(AppBindings::frame_index(&wm, WorkspaceId(5), FrameId(2)), None);
}

fn dims_loc(ws: &str, index: usize, dims: Option<(i32, i32)>) -> BoundLocation {
    BoundLocation { workspace: ws.to_string(), frame_index: index, fixed_dimensions: dims }
}

#[test]
fn toggle_removes_a_location_whatever_its_dimensions() {
    let mut b = AppBindings { bindings: vec![("foot".to_string(), vec![dims_loc("main", 0, Some((1920, 1080)))])] };
    b.toggle_binding("foot", "main", 0);
    assert!(b.bindings.is_empty());
    assert!(!b.is_bound("main", 0));
}

#[test]
fn exclusive_binding_keeps_dimensions_set_at_that_frame() {
    let mut b = AppBindings {
        bindings: vec![("foot".to_string(), vec![dims_loc("web", 0, None), dims_loc("main", 1, Some((800, 600)))])],
    };
    b.bind_exclusive("foot", "main", 1);
    assert_eq!(b.bindings[0].1, vec![dims_loc("main", 1, Some((800, 600)))]);
    b.bind_exclusive("foot", "web", 0);
    assert_eq!(b.bindings[0].1, vec![dims_loc("web", 0, None)]);
}
