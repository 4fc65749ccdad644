use notion_river::app_bindings::{AppBindings, BoundLocation};
use notion_river::config::WorkspaceConfig;
use notion_river::layout::{FrameId, FrameIdAlloc, Rect, WindowRef};
use notion_river::manage::{
    layout_positions, settle_floating_windows, visibility_and_focus_plan, window_management_plan, BorderColour,
    EmptyFrame, WindowCommand, WindowPlacement,
};
use notion_river::monitor_memory::MonitorMemory;
use notion_river::wm::ManagedWindow;
use notion_river::workspace::{Output, OutputId, WorkspaceManager};

fn setup() -> (WorkspaceManager<f32>, Vec<ManagedWindow>, Vec<Vec<(FrameId, Rect)>>, FrameId, FrameId) {
    let configs = vec![
        WorkspaceConfig { name: "main".into(), output: None, initial_layout: Some("hsplit".into()) },
        WorkspaceConfig { name: "web".into(), output: None, initial_layout: None },
    ];
    let mut alloc = FrameIdAlloc::new();
    let mut wm = WorkspaceManager::new(&configs, 0.5, MonitorMemory::default(), &mut alloc);
    let mut o = Output::new(OutputId(1));
    o.name = Some("DP-1".into());
    o.width = 1920;
    o.height = 1080;
    wm.add_output(o);
    wm.reassign_outputs(&mut alloc);
    let ids = wm.workspaces[0].root.all_frame_ids();
    let (left, right) = (ids[0], ids[1]);
    let mut windows = Vec::new();
    for (id, app, fid) in [(1u64, "foot", left), (2, "firefox", left), (3, "mpv", right)] {
        wm.workspaces[0].root.find_frame_mut(fid).unwrap().add_window(WindowRef {
            window_id: id,
            app_id: app.into(),
            title: "t".into(),
        });
        let mut w = ManagedWindow::new(id);
        w.app_id = app.into();
        w.frame_id = Some(fid);
        windows.push(w);
    }
    let layouts = vec![
        vec![(left, Rect::new(0, 0, 958, 1080)), (right, Rect::new(962, 0, 958, 1080))],
        vec![(wm.workspaces[1].root.first_frame_id(), Rect::new(0, 0, 1920, 1080))],
    ];
    (wm, windows, layouts, left, right)
}

#[test]
fn active_tabs_are_offered_their_frame_or_bound_size() {
    let (wm, windows, layouts, _left, _right) = setup();
    let bindings = AppBindings {
        bindings: vec![(
            "mpv".to_string(),
            vec![BoundLocation { workspace: "main".into(), frame_index: 1, fixed_dimensions: Some((800, 600)) }],
        )],
    };
    let cmds = window_management_plan(&wm, &layouts, &windows, &bindings, 2);
    assert_eq!(
        cmds,
        vec![
            WindowCommand::Propose { window: 2, width: 954, height: 1052 },
            WindowCommand::Hide(1),
            WindowCommand::Show(2),
            WindowCommand::Propose { window: 3, width: 800, height: 600 },
            WindowCommand::Show(3),
        ]
    );
}

#[test]
fn hidden_workspaces_hide_their_windows_and_focus_goes_to_the_active_tab() {
    let (mut wm, mut windows, _layouts, left, _right) = setup();
    let mut w = ManagedWindow::new(9);
    w.frame_id = Some(wm.workspaces[1].root.first_frame_id());
    windows.push(w);
    wm.workspaces[0].focused_frame = left;
    let (cmds, ff) = visibility_and_focus_plan(&wm, &windows, Some(42));
    assert_eq!(ff, None);
    assert_eq!(cmds, vec![WindowCommand::Hide(9), WindowCommand::Focus(2)]);
}

#[test]
fn floating_windows_settle_once_their_size_is_known() {
    let mut a = ManagedWindow::new(5);
    a.floating = true;
    a.width = 400;
    a.height = 200;
    let mut b = ManagedWindow::new(6);
    b.floating = true;
    let mut windows = vec![a, b];
    let (cmds, newly) = settle_floating_windows(&mut windows, Some(Rect::new(0, 0, 1920, 1080)));
    assert_eq!((windows[0].float_x, windows[0].float_y), (760, 440));
    assert!(windows[0].float_positioned);
    assert_eq!(newly, Some((5, 960, 540)));
    assert_eq!(
        cmds,
        vec![
            WindowCommand::Propose { window: 5, width: 400, height: 200 },
            WindowCommand::Show(5),
            WindowCommand::Propose { window: 6, width: 0, height: 0 },
        ]
    );
    let (_, again) = settle_floating_windows(&mut windows, None);
    assert_eq!(again, None);
}

#[test]
fn shown_frames_place_their_active_window_below_the_tab_bar() {
    let (mut wm, windows, layouts, left, right) = setup();
    wm.workspaces[0].focused_frame = left;
    let (placed, empty) = layout_positions(&wm, &layouts, &windows, 2, false);
    assert_eq!(
        placed,
        vec![
            WindowPlacement { window: 2, frame: left, x: 2, y: 26, frame_width: 958, focused: true, colour: BorderColour::Active },
            WindowPlacement { window: 3, frame: right, x: 964, y: 26, frame_width: 958, focused: false, colour: BorderColour::Inactive },
        ]
    );
    assert!(empty.is_empty());
}

#[test]
fn empty_frames_are_reported_and_resize_mode_colours_the_focused_frame() {
    let (mut wm, windows, layouts, left, right) = setup();
    wm.workspaces[0].focused_frame = right;
    wm.workspaces[0].root.find_frame_mut(right).unwrap().remove_window(3);
    let (placed, empty) = layout_positions(&wm, &layouts, &windows, 2, true);
    assert_eq!(
        placed,
        vec![WindowPlacement { window: 2, frame: left, x: 2, y: 26, frame_width: 958, focused: false, colour: BorderColour::Inactive }]
    );
    assert_eq!(empty, vec![EmptyFrame { frame: right, rect: Rect::new(962, 0, 958, 1080), focused: true }]);
    wm.workspaces[0].focused_frame = left;
    let (placed, _) = layout_positions(&wm, &layouts, &windows, 2, true);
    assert_eq!(placed[0].colour, BorderColour::Resize);
}
