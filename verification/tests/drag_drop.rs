use notion_river::config::WorkspaceConfig;
use notion_river::layout::{FrameId, FrameIdAlloc, Rect, SplitNode, WindowRef};
use notion_river::monitor_memory::MonitorMemory;
use notion_river::pointer_ops::{handle_move_drop, pointer_op_start, PointerStart};
use notion_river::wm::ManagedWindow;
use notion_river::workspace::{Output, OutputId, WorkspaceManager};

struct Scene {
    wm: WorkspaceManager<f32>,
    windows: Vec<ManagedWindow>,
    layouts: Vec<Vec<(FrameId, Rect)>>,
    alloc: FrameIdAlloc,
    left: FrameId,
    right: FrameId,
}

fn win(id: u64) -> WindowRef {
    WindowRef { window_id: id, app_id: "foot".into(), title: format!("term {id}") }
}

/// One output with a horizontal split: window 7 on the left, window 8 on
/// the right; the left frame has focus.
fn scene() -> Scene {
    let configs = vec![WorkspaceConfig { name: "main".into(), output: None, initial_layout: Some("hsplit".into()) }];
    let mut alloc = FrameIdAlloc::new();
    let mut wm = WorkspaceManager::new(&configs, 0.5, MonitorMemory::default(), &mut alloc);
    let mut o = Output::new(OutputId(1));
    o.name = Some("HDMI-A-1".into());
    o.width = 1920;
    o.height = 1080;
    wm.add_output(o);
    wm.reassign_outputs(&mut alloc);
    let ids = wm.workspaces[0].root.all_frame_ids();
    let (left, right) = (ids[0], ids[1]);
    wm.workspaces[0].root.find_frame_mut(left).unwrap().add_window(win(7));
    wm.workspaces[0].root.find_frame_mut(right).unwrap().add_window(win(8));
    wm.workspaces[0].focused_frame = left;
    let mut w7 = ManagedWindow::new(7);
    w7.frame_id = Some(left);
    let mut w8 = ManagedWindow::new(8);
    w8.frame_id = Some(right);
    let layouts = vec![vec![(left, Rect::new(0, 0, 958, 1080)), (right, Rect::new(962, 0, 958, 1080))]];
    Scene { wm, windows: vec![w7, w8], layouts, alloc, left, right }
}

fn ids_in(wm: &WorkspaceManager<f32>, fid: FrameId) -> Vec<u64> {
    wm.workspaces[0].root.find_frame(fid).unwrap().windows.iter().map(|w| w.window_id).collect()
}

#[test]
fn drop_on_the_upper_center_adds_a_tab() {
    let mut s = scene();
    handle_move_drop(&mut s.wm, &mut s.windows, &s.layouts, 7, 1441, 200, 0.5, &mut s.alloc);
    assert!(ids_in(&s.wm, s.left).is_empty());
    assert_eq!(ids_in(&s.wm, s.right), vec![8, 7]);
    let f = s.wm.workspaces[0].root.find_frame(s.right).unwrap();
    assert_eq!(f.active_tab, 1);
    assert_eq!(s.wm.workspaces[0].focused_frame, s.right);
    assert_eq!(s.windows[0].frame_id, Some(s.right));
}

#[test]
fn drop_on_the_lower_center_swaps_with_the_active_window() {
    let mut s = scene();
    let next = s.alloc.next;
    handle_move_drop(&mut s.wm, &mut s.windows, &s.layouts, 7, 1441, 900, 0.5, &mut s.alloc);
    assert_eq!(ids_in(&s.wm, s.left), vec![8]);
    assert_eq!(ids_in(&s.wm, s.right), vec![7]);
    // focus and frame identifiers are untouched by a swap
    assert_eq!(s.wm.workspaces[0].focused_frame, s.left);
    assert_eq!(s.alloc.next, next);
    assert_eq!(s.windows[0].frame_id, Some(s.right));
    assert_eq!(s.windows[1].frame_id, Some(s.left));
}

#[test]
fn swap_onto_an_empty_frame_is_a_tab_move() {
    let mut s = scene();
    s.wm.workspaces[0].root.find_frame_mut(s.right).unwrap().remove_window(8);
    handle_move_drop(&mut s.wm, &mut s.windows, &s.layouts, 7, 1441, 900, 0.5, &mut s.alloc);
    assert!(ids_in(&s.wm, s.left).is_empty());
    assert_eq!(ids_in(&s.wm, s.right), vec![7]);
    assert_eq!(s.wm.workspaces[0].focused_frame, s.right);
}

#[test]
fn drop_on_the_left_band_splits_with_the_window_on_the_left() {
    let mut s = scene();
    let next = s.alloc.next;
    handle_move_drop(&mut s.wm, &mut s.windows, &s.layouts, 7, 970, 540, 0.5, &mut s.alloc);
    let new_frame = FrameId(next);
    assert_eq!(s.alloc.next, next + 1);
    assert_eq!(ids_in(&s.wm, new_frame), vec![7]);
    assert_eq!(ids_in(&s.wm, s.right), vec![8]);
    assert_eq!(s.wm.workspaces[0].focused_frame, new_frame);
    assert_eq!(s.windows[0].frame_id, Some(new_frame));
    // the new frame comes before the target in the split
    assert_eq!(s.wm.workspaces[0].root.all_frame_ids(), vec![s.left, new_frame, s.right]);
    match &s.wm.workspaces[0].root {
        SplitNode::Split { second, .. } => match second.as_ref() {
            SplitNode::Split { first, .. } => assert!(first.contains_frame(new_frame)),
            _ => panic!("the right frame should have been split"),
        },
        _ => panic!("the root should be a split"),
    }
}

#[test]
fn drop_outside_every_frame_changes_nothing() {
    let mut s = scene();
    handle_move_drop(&mut s.wm, &mut s.windows, &s.layouts, 7, 960, 540, 0.5, &mut s.alloc);
    assert_eq!(ids_in(&s.wm, s.left), vec![7]);
    assert_eq!(ids_in(&s.wm, s.right), vec![8]);
    assert_eq!(s.wm.workspaces[0].focused_frame, s.left);
}

#[test]
fn pressing_a_pointer_binding_starts_the_right_operation() {
    let mut s = scene();
    let mut ff = None;
    // moving the hovered tiled window starts at its content origin
    let op = pointer_op_start(&s.wm, &s.layouts, &s.windows, Some(8), None, true, 1200, 500, 2, 4, &mut ff);
    assert_eq!(op, PointerStart::Move { window: 8, start_x: 964, start_y: 26 });
    // a move drags the visible, hovered window even from another tab
    let op = pointer_op_start(&s.wm, &s.layouts, &s.windows, Some(8), Some(7), true, 10, 10, 2, 4, &mut ff);
    assert!(matches!(op, PointerStart::Move { window: 8, .. }));
    // a resize from a tab works on that tab's window
    let op = pointer_op_start(&s.wm, &s.layouts, &s.windows, Some(8), Some(7), false, 100, 100, 2, 4, &mut ff);
    assert!(matches!(op, PointerStart::ResizeWindow { window: 7, frame: Some(f), .. } if f == s.left));
    // resizing a tiled window works on its frame
    let op = pointer_op_start(&s.wm, &s.layouts, &s.windows, Some(7), None, false, 100, 100, 2, 4, &mut ff);
    assert!(matches!(op, PointerStart::ResizeWindow { window: 7, frame: Some(f), resize_h: true, resize_v: false, .. } if f == s.left));
    // an empty spot resizes the frame under the pointer
    let op = pointer_op_start(&s.wm, &s.layouts, &s.windows, None, None, false, 1500, 500, 2, 4, &mut ff);
    assert_eq!(op, PointerStart::ResizeEmpty { frame: s.right, resize_h: true, resize_v: false });
    assert_eq!(pointer_op_start(&s.wm, &s.layouts, &s.windows, None, None, true, 1500, 500, 2, 4, &mut ff), PointerStart::Nothing);
    // a floating window that starts moving takes the floating focus
    s.windows[1].floating = true;
    s.windows[1].float_x = 300;
    s.windows[1].float_y = 40;
    let op = pointer_op_start(&s.wm, &s.layouts, &s.windows, Some(8), None, true, 0, 0, 2, 4, &mut ff);
    assert_eq!(op, PointerStart::Move { window: 8, start_x: 300, start_y: 40 });
    assert_eq!(ff, Some(8));
}
