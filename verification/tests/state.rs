use notion_river::config::WorkspaceConfig;
use notion_river::layout::{FrameIdAlloc, Orientation, SplitNode, WindowRef};
use notion_river::monitor_memory::MonitorMemory;
use notion_river::state::{
    count_leaves, find_and_consume_match, has_remaining_matches, match_window_to_saved_frame, node_has_windows,
    restore_layout, restore_node, save_node, saved_state, SavedNode, SavedState, SavedWindow, SavedWorkspace,
};
use notion_river::wm::ManagedWindow;
use notion_river::workspace::{Output, OutputId, WorkspaceId, WorkspaceManager};

fn sw(app: &str, title: &str, ident: Option<&str>) -> SavedWindow {
    SavedWindow { app_id: app.into(), title: title.into(), identifier: ident.map(|s| s.to_string()) }
}

fn leaf(windows: Vec<SavedWindow>, active_tab: usize) -> SavedNode<f32> {
    SavedNode::Leaf { windows, active_tab }
}

fn split(o: &str, a: SavedNode<f32>, b: SavedNode<f32>) -> SavedNode<f32> {
    SavedNode::Split { orientation: o.into(), ratio: 0.5, first: Box::new(a), second: Box::new(b) }
}

fn ws(name: &str) -> WorkspaceConfig {
    WorkspaceConfig { name: name.to_owned(), output: None, initial_layout: None }
}

fn manager() -> (WorkspaceManager<f32>, FrameIdAlloc) {
    let mut alloc = FrameIdAlloc::new();
    let wm = WorkspaceManager::new(&[ws("main"), ws("web")], 0.5, MonitorMemory::default(), &mut alloc);
    (wm, alloc)
}

#[test]
fn count_leaves_counts_frames() {
    let t = split("h", leaf(vec![], 0), split("v", leaf(vec![], 0), leaf(vec![], 0)));
    assert_eq!(count_leaves(&t), 3);
}

#[test]
fn consume_prefers_identifier_then_title_then_app() {
    let mut t = split(
        "h",
        leaf(vec![sw("foot", "shell", None), sw("foot", "editor", None), sw("firefox", "news", Some("id-7"))], 0),
        leaf(vec![sw("mpv", "video", None)], 0),
    );
    // the title match wins inside the leaf: "shell" stays
    assert_eq!(find_and_consume_match(&mut t, "foot", "editor", None, 0), Some(0));
    assert_eq!(find_and_consume_match(&mut t, "mpv", "other", None, 0), Some(1));
    assert_eq!(find_and_consume_match(&mut t, "firefox", "other", Some("id-7"), 0), Some(0));
    // an identifier that does not match never falls back to the app id
    assert_eq!(find_and_consume_match(&mut t, "foot", "shell", Some("id-9"), 0), None);
    assert_eq!(find_and_consume_match(&mut t, "foot", "anything", None, 0), Some(0));
    assert!(!node_has_windows(&t));
    assert_eq!(find_and_consume_match(&mut t, "foot", "shell", None, 0), None);
}

#[test]
fn consumed_slot_is_not_used_twice() {
    let mut t = leaf(vec![sw("foot", "a", None)], 0);
    assert_eq!(find_and_consume_match(&mut t, "foot", "a", None, 3), Some(3));
    assert_eq!(find_and_consume_match(&mut t, "foot", "a", None, 3), None);
}

#[test]
fn restore_node_rebuilds_splits_with_fresh_empty_frames() {
    let mut alloc = FrameIdAlloc::new();
    alloc.next = 40;
    let saved = split("v", leaf(vec![sw("a", "b", None)], 0), split("h", leaf(vec![], 0), leaf(vec![], 0)));
    let n = restore_node(&saved, &mut alloc);
    assert_eq!(alloc.next, 43);
    let ids: Vec<u64> = n.all_frame_ids().iter().map(|f| f.0).collect();
    assert_eq!(ids, vec![40, 41, 42]);
    match &n {
        SplitNode::Split { orientation, second, .. } => {
            assert_eq!(*orientation, Orientation::Vertical);
            match &**second {
                SplitNode::Split { orientation, .. } => assert_eq!(*orientation, Orientation::Horizontal),
                _ => panic!("expected split"),
            }
        }
        _ => panic!("expected split"),
    }
    for id in n.all_frame_ids() {
        assert!(n.find_frame(id).unwrap().windows.is_empty());
    }
}

#[test]
fn save_then_restore_keeps_the_tree() {
    let (mut wm, mut alloc) = manager();
    let fid = wm.workspaces[0].focused_frame;
    wm.workspaces[0].root.split_frame(fid, Orientation::Horizontal, 0.3, &mut alloc);
    let ids = wm.workspaces[0].root.all_frame_ids();
    wm.workspaces[0].focused_frame = ids[1];
    wm.workspaces[0].root.find_frame_mut(ids[0]).unwrap().add_window(WindowRef { window_id: 5, app_id: "foot".into(), title: "sh".into() });
    let mut mw = ManagedWindow::new(5);
    mw.identifier = Some("stable-5".into());
    let state = saved_state(&wm, &[mw]);
    assert_eq!(state.workspaces.len(), 2);
    assert_eq!(state.workspaces[0].name, "main");
    assert_eq!(state.workspaces[0].focused_frame_index, 1);
    assert_eq!(state.focused_workspace, "main");
    match &state.workspaces[0].root {
        SavedNode::Split { orientation, first, .. } => {
            assert_eq!(orientation, "h");
            match &**first {
                SavedNode::Leaf { windows, .. } => {
                    assert_eq!(windows.len(), 1);
                    assert_eq!(windows[0].app_id, "foot");
                    assert_eq!(windows[0].identifier.as_deref(), Some("stable-5"));
                }
                _ => panic!("expected leaf"),
            }
        }
        _ => panic!("expected split"),
    }

    let (mut fresh, mut alloc2) = manager();
    let tabs = restore_layout(&mut fresh, &state, &mut alloc2);
    let new_ids = fresh.workspaces[0].root.all_frame_ids();
    assert_eq!(new_ids.len(), 2);
    assert_eq!(fresh.workspaces[0].focused_frame, new_ids[1]);
    assert_eq!(tabs, vec![(new_ids[0], 0)]);
    match &fresh.workspaces[0].root {
        SplitNode::Split { orientation, .. } => assert_eq!(*orientation, Orientation::Horizontal),
        _ => panic!("expected split"),
    }
}

#[test]
fn save_node_records_windows_in_order() {
    let mut alloc = FrameIdAlloc::new();
    let mut n: SplitNode<f32> = SplitNode::single_frame(&mut alloc);
    let id = n.first_frame_id();
    n.find_frame_mut(id).unwrap().add_window(WindowRef { window_id: 1, app_id: "a".into(), title: "x".into() });
    n.find_frame_mut(id).unwrap().add_window(WindowRef { window_id: 2, app_id: "b".into(), title: "y".into() });
    match save_node(&n, &[]) {
        SavedNode::Leaf { windows, active_tab } => {
            assert_eq!(active_tab, 1);
            assert_eq!(windows.iter().map(|w| w.app_id.as_str()).collect::<Vec<_>>(), vec!["a", "b"]);
            assert!(windows[0].identifier.is_none());
        }
        _ => panic!("expected leaf"),
    }
}

#[test]
fn restore_focuses_saved_workspace() {
    let (mut wm, mut alloc) = manager();
    let state = SavedState::<f32> {
        workspaces: vec![SavedWorkspace { name: "web".into(), root: leaf(vec![], 0), focused_frame_index: 0 }],
        focused_workspace: "web".into(),
        visible_workspaces: vec![],
    };
    restore_layout(&mut wm, &state, &mut alloc);
    assert_eq!(wm.focused_workspace, WorkspaceId(1));
}

#[test]
fn matching_a_reappearing_window_finds_its_frame() {
    let (mut wm, mut alloc) = manager();
    let mut state = SavedState::<f32> {
        workspaces: vec![SavedWorkspace {
            name: "main".into(),
            root: split("h", leaf(vec![], 0), leaf(vec![sw("foot", "sh", None)], 0)),
            focused_frame_index: 0,
        }],
        focused_workspace: "main".into(),
        visible_workspaces: vec![],
    };
    restore_layout(&mut wm, &state, &mut alloc);
    assert!(has_remaining_matches(&state));
    let ids = wm.workspaces[0].root.all_frame_ids();
    let r = match_window_to_saved_frame(&wm, &mut state, "foot", "sh", None);
    assert_eq!(r, Some((WorkspaceId(0), ids[1])));
    assert!(!has_remaining_matches(&state));
    assert_eq!(match_window_to_saved_frame(&wm, &mut state, "foot", "sh", None), None);
}

#[test]
fn saved_workspace_without_live_workspace_is_skipped() {
    let (wm, _alloc) = manager();
    let mut state = SavedState::<f32> {
        workspaces: vec![SavedWorkspace { name: "gone".into(), root: leaf(vec![sw("foot", "sh", None)], 0), focused_frame_index: 0 }],
        focused_workspace: "main".into(),
        visible_workspaces: vec![],
    };
    assert_eq!(match_window_to_saved_frame(&wm, &mut state, "foot", "sh", None), None);
    assert!(has_remaining_matches(&state));
}

#[test]
fn saved_state_lists_visible_workspaces() {
    let (mut wm, mut alloc) = manager();
    let mut o = Output::new(OutputId(3));
    o.name = Some("DP-1".into());
    o.description = Some("Dell".into());
    o.width = 1920;
    o.height = 1080;
    wm.outputs = vec![o];
    wm.reassign_outputs(&mut alloc);
    let state = saved_state(&wm, &[]);
    assert_eq!(state.visible_workspaces, vec![("DP-1".to_string(), "main".to_string())]);
}
