use notion_river::layout::{
    Direction, Frame, FrameId, FrameIdAlloc, Orientation, Rect, SplitNode, WindowRef,
    find_neighbor_in_layout, horizontal_overlap, vertical_overlap,
};

fn win(id: u64, app: &str, title: &str) -> WindowRef {
    WindowRef { window_id: id, app_id: app.to_string(), title: title.to_string() }
}

#[test]
fn test_frame_tabbing() {
    let mut alloc = FrameIdAlloc::new();
    let mut frame = Frame::new(&mut alloc);
    assert!(frame.is_empty());
    frame.add_window(WindowRef {
        window_id: 1,
        app_id: "foot".to_string(),
        title: "terminal".to_string(),
    });
    frame.add_window(WindowRef {
        window_id: 2,
        app_id: "firefox".to_string(),
        title: "browser".to_string(),
    });
    assert_eq!(frame.active_tab, 1); // last added is active
    frame.prev_tab();
    assert_eq!(frame.active_tab, 0);
    frame.next_tab();
    assert_eq!(frame.active_tab, 1);
    frame.remove_window(2);
    assert_eq!(frame.active_tab, 0);
    assert_eq!(frame.window_count(), 1);
}

#[test]
fn test_split_frame() {
    let mut alloc = FrameIdAlloc::new();
    let mut tree: SplitNode<f32> = SplitNode::single_frame(&mut alloc);
    let first_id = tree.first_frame_id();
    let new_id = tree.split_frame(first_id, Orientation::Horizontal, 0.5, &mut alloc);
    assert!(new_id.is_some());
    assert_eq!(tree.all_frame_ids().len(), 2);
}

#[test]
fn test_remove_empty_frame() {
    let mut alloc = FrameIdAlloc::new();
    let mut tree: SplitNode<f32> = SplitNode::hsplit(&mut alloc, 0.5);
    let ids = tree.all_frame_ids();
    assert_eq!(ids.len(), 2);
    // Remove second frame (it's empty)
    assert!(tree.remove_frame(ids[1]));
    // Tree should now be a single leaf
    assert_eq!(tree.all_frame_ids().len(), 1);
}

#[test]
fn ids_come_from_the_allocator_in_order() {
    let mut alloc = FrameIdAlloc::new();
    let a = FrameId::new(&mut alloc);
    let b = FrameId::new(&mut alloc);
    assert_eq!(a, FrameId(1));
    assert_eq!(b, FrameId(2));
    assert_eq!(alloc.next, 3);
}

#[test]
fn split_puts_new_frame_after_target_and_unsplit_restores() {
    let mut alloc = FrameIdAlloc::new();
    let mut tree: SplitNode<f32> = SplitNode::hsplit(&mut alloc, 0.5);
    let ids = tree.all_frame_ids();
    assert_eq!(ids, vec![FrameId(1), FrameId(2)]);
    let new_id = tree.split_frame(FrameId(1), Orientation::Vertical, 0.3, &mut alloc);
    assert_eq!(new_id, Some(FrameId(3)));
    assert_eq!(tree.all_frame_ids(), vec![FrameId(1), FrameId(3), FrameId(2)]);
    assert!(tree.remove_frame(FrameId(3)));
    assert_eq!(tree.all_frame_ids(), vec![FrameId(1), FrameId(2)]);
    match &tree {
        SplitNode::Split { orientation, ratio, .. } => {
            assert_eq!(*orientation, Orientation::Horizontal);
            assert_eq!(*ratio, 0.5);
        }
        _ => panic!("expected a split"),
    }
}

#[test]
fn split_of_missing_frame_changes_nothing() {
    let mut alloc = FrameIdAlloc::new();
    let mut tree: SplitNode<f32> = SplitNode::single_frame(&mut alloc);
    assert_eq!(tree.split_frame(FrameId(99), Orientation::Vertical, 0.5, &mut alloc), None);
    assert_eq!(alloc.next, 2);
    assert_eq!(tree.all_frame_ids(), vec![FrameId(1)]);
}

#[test]
fn frames_holding_windows_are_not_removed() {
    let mut alloc = FrameIdAlloc::new();
    let mut tree: SplitNode<f32> = SplitNode::vsplit(&mut alloc, 0.5);
    tree.find_frame_mut(FrameId(2)).unwrap().add_window(win(7, "foot", "t"));
    assert!(!tree.remove_frame(FrameId(2)));
    assert_eq!(tree.all_frame_ids().len(), 2);
    // the root frame can never be removed
    let mut single: SplitNode<f32> = SplitNode::single_frame(&mut alloc);
    let id = single.first_frame_id();
    assert!(!single.remove_frame(id));
}

#[test]
fn finding_frames_by_window_and_name() {
    let mut alloc = FrameIdAlloc::new();
    let mut tree: SplitNode<f32> = SplitNode::Leaf(Frame::named(&mut alloc, "browser"));
    let id = tree.first_frame_id();
    let second = tree.split_frame(id, Orientation::Horizontal, 0.5, &mut alloc).unwrap();
    tree.find_frame_mut(second).unwrap().add_window(win(42, "firefox", "web"));
    assert_eq!(tree.find_frame_with_window(42), Some(second));
    assert_eq!(tree.find_frame_with_window(43), None);
    assert_eq!(tree.find_frame_by_name("browser"), Some(id));
    assert_eq!(tree.find_frame_by_name("terminal"), None);
    assert!(tree.find_frame(second).unwrap().contains_window(42));
    assert!(tree.find_frame(FrameId(1000)).is_none());
}

#[test]
fn toggle_twice_restores_orientation() {
    let mut alloc = FrameIdAlloc::new();
    let mut tree: SplitNode<f32> = SplitNode::hsplit(&mut alloc, 0.5);
    assert!(tree.toggle_orientation(FrameId(1)));
    match &tree {
        SplitNode::Split { orientation, .. } => assert_eq!(*orientation, Orientation::Vertical),
        _ => panic!("expected a split"),
    }
    assert!(tree.toggle_orientation(FrameId(2)));
    match &tree {
        SplitNode::Split { orientation, .. } => assert_eq!(*orientation, Orientation::Horizontal),
        _ => panic!("expected a split"),
    }
    let mut single: SplitNode<f32> = SplitNode::single_frame(&mut alloc);
    let id = single.first_frame_id();
    assert!(!single.toggle_orientation(id));
}

#[test]
fn remove_window_keeps_active_tab_in_range_and_reports_missing() {
    let mut alloc = FrameIdAlloc::new();
    let mut f = Frame::new(&mut alloc);
    f.add_window(win(1, "a", "a"));
    f.add_window(win(2, "b", "b"));
    f.add_window(win(3, "c", "c"));
    assert_eq!(f.active_tab, 2);
    assert!(f.remove_window(9).is_none());
    let removed = f.remove_window(3).unwrap();
    assert_eq!(removed.window_id, 3);
    assert_eq!(f.active_tab, 1);
    assert_eq!(f.active_window().unwrap().window_id, 2);
    f.add_window_quiet(win(4, "d", "d"));
    assert_eq!(f.active_tab, 1);
    f.next_tab();
    f.next_tab();
    assert_eq!(f.active_tab, 0); // wraps
    f.prev_tab();
    assert_eq!(f.active_tab, 2); // wraps back
}

#[test]
fn overlaps_of_rectangles() {
    let a = Rect::new(0, 0, 100, 100);
    let b = Rect::new(50, 80, 100, 100);
    assert_eq!(vertical_overlap(a, b), 20);
    assert_eq!(horizontal_overlap(a, b), 50);
    let c = Rect::new(200, 200, 10, 10);
    assert_eq!(vertical_overlap(a, c), 0);
    assert_eq!(horizontal_overlap(a, c), 0);
}

#[test]
fn test_neighbor_finding() {
    // An even horizontal split of a 1920x1080 output with a 4 px gap.
    let layout = vec![
        (FrameId(1), Rect::new(0, 0, 958, 1080)),
        (FrameId(2), Rect::new(962, 0, 958, 1080)),
    ];
    assert_eq!(find_neighbor_in_layout(&layout, FrameId(1), Direction::Right), Some(FrameId(2)));
    assert_eq!(find_neighbor_in_layout(&layout, FrameId(2), Direction::Left), Some(FrameId(1)));
    assert_eq!(find_neighbor_in_layout(&layout, FrameId(1), Direction::Up), None);
}

#[test]
fn nearest_neighbor_wins() {
    let layout = vec![
        (FrameId(1), Rect::new(0, 0, 100, 100)),
        (FrameId(2), Rect::new(300, 0, 100, 100)),
        (FrameId(3), Rect::new(150, 50, 100, 100)),
        (FrameId(4), Rect::new(150, 500, 100, 100)),
    ];
    assert_eq!(find_neighbor_in_layout(&layout, FrameId(1), Direction::Right), Some(FrameId(3)));
    assert_eq!(find_neighbor_in_layout(&layout, FrameId(3), Direction::Down), Some(FrameId(4)));
    assert_eq!(find_neighbor_in_layout(&layout, FrameId(9), Direction::Down), None);
}

#[test]
fn directions_parse_in_any_case() {
    assert_eq!(Direction::from_str("Left"), Some(Direction::Left));
    assert_eq!(Direction::from_str("RIGHT"), Some(Direction::Right));
    assert_eq!(Direction::from_str("up"), Some(Direction::Up));
    assert_eq!(Direction::from_str("Down"), Some(Direction::Down));
    assert_eq!(Direction::from_str("sideways"), None);
}

#[test]
fn resizing_changes_the_innermost_split_along_the_axis() {
    let mut alloc = FrameIdAlloc::new();
    let mut tree: SplitNode<f32> = SplitNode::single_frame(&mut alloc);
    let a = tree.first_frame_id();
    let b = tree.split_frame(a, Orientation::Horizontal, 0.5, &mut alloc).unwrap();
    let c = tree.split_frame(b, Orientation::Vertical, 0.5, &mut alloc).unwrap();
    // a | (b / c)
    assert_eq!(tree.resize_path(a, Direction::Right), Some(vec![]));
    assert_eq!(tree.resize_path(c, Direction::Left), Some(vec![]));
    assert_eq!(tree.resize_path(c, Direction::Up), Some(vec![true]));
    assert_eq!(tree.resize_path(b, Direction::Down), Some(vec![true]));
    assert_eq!(tree.resize_path(a, Direction::Up), None);
    assert_eq!(tree.resize_path(FrameId(999), Direction::Left), None);
    let single: SplitNode<f32> = SplitNode::single_frame(&mut alloc);
    assert_eq!(single.resize_path(single.first_frame_id(), Direction::Left), None);
}
