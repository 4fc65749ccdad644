use notion_river::layout::{FrameId, Rect};
use notion_river::pointer_ops::{
    detect_resize_axes, drag_floating_window, drop_target_in_layout, split_bands, DropZone, SPLIT_BAND_MAX,
};
use notion_river::wm::{ManagedWindow, SeatOp};

fn cell() -> Rect {
    Rect::new(0, 0, 1000, 800)
}

#[test]
fn split_bands_are_narrow() {
    let r = cell();
    let (bx, by) = split_bands(&r);
    assert_eq!(bx, 50); // 5% of 1000
    assert_eq!(by, 40); // 5% of 800
}

#[test]
fn split_bands_respect_min_and_max() {
    // Tiny frame: the pixel floor wins, but never more than a third.
    let (bx, _) = split_bands(&Rect::new(0, 0, 60, 60));
    assert_eq!(bx, 10);
    // Huge frame: the pixel ceiling wins.
    let (bx, _) = split_bands(&Rect::new(0, 0, 4000, 4000));
    assert_eq!(bx, SPLIT_BAND_MAX);
}

#[test]
fn edges_split_center_tabs_or_swaps() {
    let r = cell();
    assert_eq!(DropZone::from_position(500, 5, &r), DropZone::Top);
    assert_eq!(DropZone::from_position(500, 795, &r), DropZone::Bottom);
    assert_eq!(DropZone::from_position(5, 400, &r), DropZone::Left);
    assert_eq!(DropZone::from_position(995, 400, &r), DropZone::Right);
    assert_eq!(DropZone::from_position(500, 200, &r), DropZone::Tab);
    assert_eq!(DropZone::from_position(500, 600, &r), DropZone::Swap);
}

#[test]
fn quarter_way_in_is_no_longer_a_split() {
    // The old 25% bands made this a split; it must now be a plain tab.
    let r = cell();
    assert_eq!(DropZone::from_position(500, 100, &r), DropZone::Tab);
    assert_eq!(DropZone::from_position(100, 300, &r), DropZone::Tab);
}

#[test]
fn corners_pick_the_proportionally_nearest_edge() {
    let r = cell();
    // 5px from the top, 30px from the left: bands are 40 tall / 50 wide, so
    // 5/40 beats 30/50 and the top wins.
    assert_eq!(DropZone::from_position(30, 5, &r), DropZone::Top);
    assert_eq!(DropZone::from_position(5, 30, &r), DropZone::Left);
}

#[test]
fn tiny_frames_get_a_band_of_a_third() {
    assert_eq!(split_bands(&Rect::new(0, 0, 12, 2)), (4, 1));
    assert_eq!(split_bands(&Rect::new(0, 0, 0, -5)), (1, 1));
    assert_eq!(split_bands(&Rect::new(0, 0, 400, 1199)), (20, 59));
}

#[test]
fn equal_relative_distance_prefers_the_earlier_edge() {
    // square cell: bands are equal, so the corner pixel ties between top and left
    let r = Rect::new(0, 0, 800, 800);
    assert_eq!(DropZone::from_position(0, 0, &r), DropZone::Top);
    assert_eq!(DropZone::from_position(799, 799, &r), DropZone::Bottom);
}

#[test]
fn labels_name_the_action() {
    assert_eq!(DropZone::Tab.label(), "Add as tab");
    assert_eq!(DropZone::Swap.label(), "Swap windows");
    assert_eq!(DropZone::Top.label(), "Split top");
    assert_eq!(DropZone::Bottom.label(), "Split bottom");
    assert_eq!(DropZone::Left.label(), "Split left");
    assert_eq!(DropZone::Right.label(), "Split right");
}

#[test]
fn drop_target_is_the_frame_under_the_pointer() {
    let layout = vec![
        (FrameId(1), Rect::new(0, 0, 958, 1080)),
        (FrameId(2), Rect::new(962, 0, 958, 1080)),
    ];
    let (id, rect, zone) = drop_target_in_layout(&layout, 1500, 300).unwrap();
    assert_eq!(id, FrameId(2));
    assert_eq!(rect, Rect::new(962, 0, 958, 1080));
    assert_eq!(zone, DropZone::Tab);
    // in the gap between the frames nothing is hit
    assert!(drop_target_in_layout(&layout, 960, 300).is_none());
}

#[test]
fn a_dragged_floating_window_follows_the_pointer_from_its_start() {
    let mut a = ManagedWindow::new(1);
    a.floating = true;
    let mut b = ManagedWindow::new(2);
    b.floating = false;
    b.float_x = 7;
    let mut windows = vec![a, b];
    let op = SeatOp::Move { window_id: 1, start_x: 100, start_y: 200 };
    assert!(drag_floating_window(&mut windows, &op, 5, -7));
    assert_eq!((windows[0].float_x, windows[0].float_y), (105, 193));
    let op = SeatOp::Move { window_id: 2, start_x: 100, start_y: 200 };
    assert!(!drag_floating_window(&mut windows, &op, 5, -7));
    assert_eq!((windows[1].float_x, windows[1].float_y), (7, 100));
    assert!(!drag_floating_window(&mut windows, &SeatOp::Idle, 5, -7));
    assert_eq!((windows[0].float_x, windows[0].float_y), (105, 193));
}

#[test]
fn resize_axes_follow_the_neighbors_and_the_nearest_edge() {
    let (a, b, c, d) = (FrameId(1), FrameId(2), FrameId(3), FrameId(4));
    let grid = vec![
        (a, Rect::new(0, 0, 500, 500)),
        (b, Rect::new(500, 0, 500, 500)),
        (c, Rect::new(0, 500, 500, 500)),
        (d, Rect::new(500, 500, 500, 500)),
    ];
    // near the right edge: the side-by-side boundary
    assert_eq!(detect_resize_axes(&grid, a, 480, 250, 0), (true, false));
    // near the bottom edge: the stacked boundary
    assert_eq!(detect_resize_axes(&grid, a, 250, 490, 0), (false, true));
    // in the corner: both
    assert_eq!(detect_resize_axes(&grid, a, 490, 490, 0), (true, true));
    // equally far from both edges, outside the corner: the stacked one
    assert_eq!(detect_resize_axes(&grid, a, 300, 300, 0), (false, true));
    // only a side neighbor
    let pair = vec![(a, Rect::new(0, 0, 500, 500)), (b, Rect::new(504, 0, 500, 500))];
    assert_eq!(detect_resize_axes(&pair, a, 250, 490, 4), (true, false));
    // a lone frame has nothing to resize; an unknown one tries both
    assert_eq!(detect_resize_axes(&vec![(a, Rect::new(0, 0, 500, 500))], a, 10, 10, 0), (false, false));
    assert_eq!(detect_resize_axes(&grid, FrameId(9), 10, 10, 0), (true, true));
}
