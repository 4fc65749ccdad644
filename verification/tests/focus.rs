use notion_river::config::{OutputSpec, WorkspaceConfig};
use notion_river::focus::{apply_focus_follows_mouse, compute_focus, FocusInput, FocusResult};
use notion_river::layout::{FrameId, FrameIdAlloc, Rect, WindowRef};
use notion_river::monitor_memory::MonitorMemory;
use notion_river::pointer_ops::{find_drop_target, DropZone};
use notion_river::workspace::{Output, OutputId, WorkspaceId, WorkspaceManager};

fn setup() -> (WorkspaceManager<f32>, Vec<Vec<(FrameId, Rect)>>) {
    let configs = vec![
        WorkspaceConfig { name: "main".into(), output: None, initial_layout: Some("hsplit".into()) },
        WorkspaceConfig { name: "hidden".into(), output: None, initial_layout: None },
    ];
    let mut alloc = FrameIdAlloc::new();
    let mut wm = WorkspaceManager::new(&configs, 0.5, MonitorMemory::default(), &mut alloc);
    let mut o = Output::new(OutputId(1));
    o.name = Some("HDMI-A-1".into());
    o.width = 1920;
    o.height = 1080;
    wm.add_output(o);
    wm.reassign_outputs(&mut alloc);
    let layouts = vec![
        vec![(FrameId(1), Rect::new(0, 0, 958, 1080)), (FrameId(2), Rect::new(962, 0, 958, 1080))],
        vec![(FrameId(3), Rect::new(0, 0, 1920, 1080))],
    ];
    (wm, layouts)
}

#[test]
fn hovered_window_decides_first() {
    let (mut wm, layouts) = setup();
    wm.workspaces[0].root.find_frame_mut(FrameId(2)).unwrap().add_window(WindowRef {
        window_id: 7,
        app_id: "foot".into(),
        title: "term".into(),
    });
    let input = FocusInput { hovered_window_id: Some(7), pointer_x: 100, pointer_y: 200 };
    assert_eq!(
        compute_focus(&input, &wm, &layouts, 4),
        Some(FocusResult { workspace: WorkspaceId(0), frame: FrameId(2) })
    );
    wm.workspaces[0].focused_frame = FrameId(2);
    assert_eq!(compute_focus(&input, &wm, &layouts, 4), None);
}

#[test]
fn pointer_position_picks_frames_inside_the_margin() {
    let (wm, layouts) = setup();
    let right = FocusInput { hovered_window_id: None, pointer_x: 1500, pointer_y: 540 };
    assert_eq!(
        compute_focus(&right, &wm, &layouts, 4),
        Some(FocusResult { workspace: WorkspaceId(0), frame: FrameId(2) })
    );
    // Already focused frame: no change.
    let left = FocusInput { hovered_window_id: None, pointer_x: 100, pointer_y: 540 };
    assert_eq!(compute_focus(&left, &wm, &layouts, 4), None);
    // Within the margin of an edge: nothing.
    let edge = FocusInput { hovered_window_id: None, pointer_x: 963, pointer_y: 540 };
    assert_eq!(compute_focus(&edge, &wm, &layouts, 4), None);
    // No position known yet.
    let origin = FocusInput { hovered_window_id: None, pointer_x: 0, pointer_y: 0 };
    assert_eq!(compute_focus(&origin, &wm, &layouts, 4), None);
}

#[test]
fn drops_land_on_shown_workspaces_only() {
    let (wm, layouts) = setup();
    let (ws, frame, rect, zone) = find_drop_target(&wm, &layouts, 1441, 200).unwrap();
    assert_eq!((ws, frame, rect), (WorkspaceId(0), FrameId(2), Rect::new(962, 0, 958, 1080)));
    assert_eq!(zone, DropZone::Tab);
    assert!(find_drop_target(&wm, &layouts, 960, 200).is_none());
}

// ── Focus follows the mouse, on the layouts the compositor geometry gives ──
// A horizontal split of a 1920x1080 output at ratio 0.5 with gap 4 lays the
// frames out at 0..958 and 962..1920.

fn make_workspace_manager(
    configs: &[WorkspaceConfig],
    outputs: Vec<(OutputId, &str, i32, i32, i32, i32)>,
) -> WorkspaceManager<f32> {
    let mut alloc = FrameIdAlloc::new();
    let mut wm = WorkspaceManager::new(configs, 0.5, MonitorMemory::default(), &mut alloc);
    for (oid, name, x, y, w, h) in outputs {
        let mut output = Output::new(oid);
        output.name = Some(name.to_string());
        output.x = x;
        output.y = y;
        output.width = w;
        output.height = h;
        wm.add_output(output);
    }
    wm.reassign_outputs(&mut alloc);
    wm
}

fn main_config() -> Vec<WorkspaceConfig> {
    vec![WorkspaceConfig {
        name: "main".to_string(),
        output: Some(OutputSpec::Single("HDMI-A-1".to_string())),
        initial_layout: Some("hsplit".to_string()),
    }]
}

fn split_layouts(wm: &WorkspaceManager<f32>) -> Vec<Vec<(FrameId, Rect)>> {
    let ids = wm.workspaces[0].root.all_frame_ids();
    vec![vec![(ids[0], Rect::new(0, 0, 958, 1080)), (ids[1], Rect::new(962, 0, 958, 1080))]]
}

fn two_monitor_configs() -> Vec<WorkspaceConfig> {
    vec![
        WorkspaceConfig {
            name: "main".to_string(),
            output: Some(OutputSpec::Single("HDMI-A-1".to_string())),
            initial_layout: Some("hsplit".to_string()),
        },
        WorkspaceConfig { name: "social".to_string(), output: Some(OutputSpec::Single("DP-1".to_string())), initial_layout: None },
    ]
}

fn two_monitor_layouts(wm: &WorkspaceManager<f32>) -> Vec<Vec<(FrameId, Rect)>> {
    let ids = wm.workspaces[0].root.all_frame_ids();
    let social = wm.workspaces[1].root.first_frame_id();
    vec![
        vec![(ids[0], Rect::new(0, 0, 958, 1080)), (ids[1], Rect::new(962, 0, 958, 1080))],
        vec![(social, Rect::new(1920, 0, 1080, 1920))],
    ]
}

fn window(id: u64, title: &str) -> WindowRef {
    WindowRef { window_id: id, app_id: "foot".to_string(), title: title.to_string() }
}

#[test]
fn test_focus_follows_mouse_between_frames_same_output() {
    let mut wm = make_workspace_manager(&main_config(), vec![(OutputId(1), "HDMI-A-1", 0, 0, 1920, 1080)]);
    let frame_ids = wm.workspaces[0].root.all_frame_ids();
    let frame1 = frame_ids[0];
    let frame2 = frame_ids[1];
    wm.workspaces[0].root.find_frame_mut(frame1).unwrap().add_window(window(100, "term"));
    wm.workspaces[0].root.find_frame_mut(frame2).unwrap().add_window(window(200, "term2"));
    wm.workspaces[0].focused_frame = frame1;
    let layouts = split_layouts(&wm);
    let input = FocusInput { hovered_window_id: Some(200), pointer_x: 1500, pointer_y: 540 };
    let result = compute_focus(&input, &wm, &layouts, 6);
    assert!(result.is_some(), "Focus should change when hovering window in different frame");
    assert_eq!(result.unwrap().frame, frame2);
}

#[test]
fn test_focus_stays_when_hovering_same_frame() {
    let mut wm = make_workspace_manager(&main_config(), vec![(OutputId(1), "HDMI-A-1", 0, 0, 1920, 1080)]);
    let frame1 = wm.workspaces[0].root.all_frame_ids()[0];
    wm.workspaces[0].root.find_frame_mut(frame1).unwrap().add_window(window(100, "term"));
    wm.workspaces[0].focused_frame = frame1;
    let layouts = split_layouts(&wm);
    let input = FocusInput { hovered_window_id: Some(100), pointer_x: 400, pointer_y: 540 };
    assert!(compute_focus(&input, &wm, &layouts, 6).is_none(), "Focus should not change when hovering same frame");
}

#[test]
fn test_focus_follows_pointer_position_into_empty_frame() {
    let mut wm = make_workspace_manager(&main_config(), vec![(OutputId(1), "HDMI-A-1", 0, 0, 1920, 1080)]);
    let frame_ids = wm.workspaces[0].root.all_frame_ids();
    let frame1 = frame_ids[0];
    let frame2 = frame_ids[1];
    wm.workspaces[0].root.find_frame_mut(frame1).unwrap().add_window(window(100, "term"));
    wm.workspaces[0].focused_frame = frame1;
    let layouts = split_layouts(&wm);
    let input = FocusInput { hovered_window_id: None, pointer_x: 1500, pointer_y: 540 };
    let result = compute_focus(&input, &wm, &layouts, 6);
    assert!(result.is_some(), "Focus should follow pointer into empty frame");
    assert_eq!(result.unwrap().frame, frame2);
}

#[test]
fn test_focus_follows_across_monitors() {
    let mut wm = make_workspace_manager(
        &two_monitor_configs(),
        vec![(OutputId(1), "HDMI-A-1", 0, 0, 1920, 1080), (OutputId(2), "DP-1", 1920, 0, 1080, 1920)],
    );
    let ws0_frame = wm.workspaces[0].root.first_frame_id();
    wm.workspaces[0].focused_frame = ws0_frame;
    wm.focused_workspace = WorkspaceId(0);
    let layouts = two_monitor_layouts(&wm);
    let input = FocusInput { hovered_window_id: None, pointer_x: 2400, pointer_y: 960 };
    let result = compute_focus(&input, &wm, &layouts, 6);
    assert!(result.is_some(), "Focus should follow pointer to second monitor");
    assert_eq!(result.unwrap().workspace, WorkspaceId(1));
}

#[test]
fn test_focus_ignores_pointer_at_origin() {
    let wm = make_workspace_manager(&main_config(), vec![(OutputId(1), "HDMI-A-1", 0, 0, 1920, 1080)]);
    let layouts = split_layouts(&wm);
    let input = FocusInput { hovered_window_id: None, pointer_x: 0, pointer_y: 0 };
    assert!(compute_focus(&input, &wm, &layouts, 6).is_none(), "Should ignore pointer at origin (0,0)");
}

#[test]
fn test_focus_respects_margin() {
    let mut wm = make_workspace_manager(&main_config(), vec![(OutputId(1), "HDMI-A-1", 0, 0, 1920, 1080)]);
    let frame1 = wm.workspaces[0].root.all_frame_ids()[0];
    wm.workspaces[0].focused_frame = frame1;
    let layouts = split_layouts(&wm);
    // Inside frame2's rectangle (962..1920) but within the margin of 6.
    let input = FocusInput { hovered_window_id: None, pointer_x: 963, pointer_y: 540 };
    assert!(
        compute_focus(&input, &wm, &layouts, 6).is_none(),
        "Should not change focus when pointer is within margin of frame edge"
    );
}

#[test]
fn test_hovered_window_takes_priority_over_position() {
    let mut wm = make_workspace_manager(&main_config(), vec![(OutputId(1), "HDMI-A-1", 0, 0, 1920, 1080)]);
    let frame_ids = wm.workspaces[0].root.all_frame_ids();
    let frame1 = frame_ids[0];
    let frame2 = frame_ids[1];
    wm.workspaces[0].root.find_frame_mut(frame1).unwrap().add_window(window(100, "term"));
    wm.workspaces[0].root.find_frame_mut(frame2).unwrap().add_window(window(200, "term2"));
    wm.workspaces[0].focused_frame = frame1;
    let layouts = split_layouts(&wm);
    let input = FocusInput { hovered_window_id: Some(200), pointer_x: 400, pointer_y: 540 };
    let result = compute_focus(&input, &wm, &layouts, 6);
    assert!(result.is_some());
    assert_eq!(result.unwrap().frame, frame2, "Hovered window should take priority over pointer position");
}

fn make_test_wm() -> (WorkspaceManager<f32>, Vec<Vec<(FrameId, Rect)>>) {
    let wm = make_workspace_manager(
        &two_monitor_configs(),
        vec![(OutputId(1), "HDMI-A-1", 0, 0, 1920, 1080), (OutputId(2), "DP-1", 1920, 0, 1080, 1920)],
    );
    let layouts = two_monitor_layouts(&wm);
    (wm, layouts)
}

#[test]
fn test_wm_focus_follows_hovered_window() {
    let (mut wm, layouts) = make_test_wm();
    let frame_ids = wm.workspaces[0].root.all_frame_ids();
    let frame1 = frame_ids[0];
    let frame2 = frame_ids[1];
    wm.workspaces[0].root.find_frame_mut(frame1).unwrap().add_window(window(100, "term1"));
    wm.workspaces[0].root.find_frame_mut(frame2).unwrap().add_window(window(200, "term2"));
    wm.workspaces[0].focused_frame = frame1;
    wm.focused_workspace = WorkspaceId(0);
    let inputs = vec![FocusInput { hovered_window_id: Some(200), pointer_x: 1500, pointer_y: 540 }];
    apply_focus_follows_mouse(&mut wm, &inputs, &layouts);
    assert_eq!(wm.workspaces[0].focused_frame, frame2, "Focus should have moved to frame2");
}

#[test]
fn test_wm_focus_follows_pointer_to_empty_frame() {
    let (mut wm, layouts) = make_test_wm();
    let frame_ids = wm.workspaces[0].root.all_frame_ids();
    let frame1 = frame_ids[0];
    let frame2 = frame_ids[1];
    wm.workspaces[0].root.find_frame_mut(frame1).unwrap().add_window(window(100, "term1"));
    wm.workspaces[0].focused_frame = frame1;
    let inputs = vec![FocusInput { hovered_window_id: None, pointer_x: 1500, pointer_y: 540 }];
    apply_focus_follows_mouse(&mut wm, &inputs, &layouts);
    assert_eq!(wm.workspaces[0].focused_frame, frame2, "Focus should follow pointer into empty frame");
}

#[test]
fn test_wm_focus_follows_across_monitors() {
    let (mut wm, layouts) = make_test_wm();
    let ws0_frame = wm.workspaces[0].root.first_frame_id();
    wm.workspaces[0].focused_frame = ws0_frame;
    wm.focused_workspace = WorkspaceId(0);
    let inputs = vec![FocusInput { hovered_window_id: None, pointer_x: 2400, pointer_y: 960 }];
    apply_focus_follows_mouse(&mut wm, &inputs, &layouts);
    assert_eq!(wm.focused_workspace, WorkspaceId(1), "Focus should switch to workspace on second monitor");
}

#[test]
fn test_wm_focus_no_change_when_already_focused() {
    let (mut wm, layouts) = make_test_wm();
    let frame1 = wm.workspaces[0].root.all_frame_ids()[0];
    wm.workspaces[0].root.find_frame_mut(frame1).unwrap().add_window(window(100, "term1"));
    wm.workspaces[0].focused_frame = frame1;
    wm.focused_workspace = WorkspaceId(0);
    let before_frame = wm.workspaces[0].focused_frame;
    let before_ws = wm.focused_workspace;
    let inputs = vec![FocusInput { hovered_window_id: Some(100), pointer_x: 400, pointer_y: 540 }];
    apply_focus_follows_mouse(&mut wm, &inputs, &layouts);
    assert_eq!(wm.workspaces[0].focused_frame, before_frame);
    assert_eq!(wm.focused_workspace, before_ws);
}

#[test]
fn test_wm_focus_not_applied_with_zero_position_and_no_hover() {
    let (mut wm, layouts) = make_test_wm();
    let frame1 = wm.workspaces[0].root.all_frame_ids()[0];
    wm.workspaces[0].focused_frame = frame1;
    wm.focused_workspace = WorkspaceId(0);
    let inputs = vec![FocusInput { hovered_window_id: None, pointer_x: 0, pointer_y: 0 }];
    apply_focus_follows_mouse(&mut wm, &inputs, &layouts);
    assert_eq!(wm.workspaces[0].focused_frame, frame1);
    assert_eq!(wm.focused_workspace, WorkspaceId(0));
}

#[test]
fn following_several_states_keeps_the_last_decision() {
    let (mut wm, layouts) = make_test_wm();
    let frame_ids = wm.workspaces[0].root.all_frame_ids();
    wm.workspaces[0].focused_frame = frame_ids[0];
    wm.focused_workspace = WorkspaceId(0);
    let inputs = vec![
        FocusInput { hovered_window_id: None, pointer_x: 1500, pointer_y: 540 },
        FocusInput { hovered_window_id: None, pointer_x: 2400, pointer_y: 960 },
    ];
    apply_focus_follows_mouse(&mut wm, &inputs, &layouts);
    assert_eq!(wm.workspaces[0].focused_frame, frame_ids[1]);
    assert_eq!(wm.focused_workspace, WorkspaceId(1));
}
