use notion_river::config::{AppearanceConfig, WorkspaceConfig};
use notion_river::control::{output_ws_json_from_snapshot, single_ws_json_from_snapshot, Snapshot, WorkspaceInfo};
use notion_river::ipc::{output_workspaces_json, single_workspace_json, workspace_json};
use notion_river::config::OutputSpec;
use notion_river::layout::{FrameIdAlloc, WindowRef};
use notion_river::monitor_memory::MonitorMemory;
use notion_river::workspace::{Output, OutputId, WorkspaceManager};

fn info(name: &str, output: Option<&str>, pref: Option<&str>, focused: bool, visible: bool, has_windows: bool) -> WorkspaceInfo {
    WorkspaceInfo {
        name: name.into(),
        output: output.map(|s| s.to_string()),
        preferred_output: pref.map(|s| s.to_string()),
        focused,
        visible,
        has_windows,
    }
}

fn snap() -> Snapshot {
    Snapshot {
        windows: vec![],
        workspaces: vec![
            info("main", Some("DP-1"), Some("center"), true, true, true),
            info("web", None, Some("center"), false, false, true),
            info("chat", Some("eDP-1"), Some("laptop"), false, true, false),
            info("misc", None, None, false, false, false),
        ],
    }
}

#[test]
fn single_from_snapshot_reports_class_and_output() {
    assert_eq!(
        single_ws_json_from_snapshot(&snap(), "main"),
        r#"{"text": "main", "tooltip": "main on DP-1", "class": "focused"}"#
    );
    assert_eq!(
        single_ws_json_from_snapshot(&snap(), "web"),
        r#"{"text": "web", "tooltip": "web on ?", "class": "hidden"}"#
    );
    assert_eq!(
        single_ws_json_from_snapshot(&snap(), "chat"),
        r#"{"text": "chat", "tooltip": "chat on eDP-1", "class": "visible"}"#
    );
    assert_eq!(single_ws_json_from_snapshot(&snap(), "nope"), r#"{"text": "nope", "class": "empty"}"#);
}

#[test]
fn output_from_snapshot_colors_and_escapes() {
    let j = output_ws_json_from_snapshot(&snap(), "center");
    let expected_text = "<span color='#cba6f7' background='#2a2636' bgalpha='80%'><b> main </b></span>  <span alpha='60%' color='#cba6f7'>web</span>"
        .replace('"', "&quot;");
    assert_eq!(j, format!(r#"{{"text": "{expected_text}", "tooltip": "center: main", "class": "workspaces"}}"#));
    let j = output_ws_json_from_snapshot(&snap(), "laptop");
    assert_eq!(
        j,
        r#"{"text": "<span alpha='85%' color='#94e2d5'>chat</span>", "tooltip": "laptop: ", "class": "workspaces"}"#
    );
}

#[test]
fn output_from_snapshot_empty_output() {
    assert_eq!(
        output_ws_json_from_snapshot(&snap(), "HDMI-A-1"),
        r#"{"text": "", "tooltip": "No workspaces on HDMI-A-1", "class": "empty"}"#
    );
}

#[test]
fn quotes_in_names_are_escaped() {
    let s = Snapshot { windows: vec![], workspaces: vec![info("a\"b", None, Some("x"), false, false, false)] };
    assert_eq!(
        output_ws_json_from_snapshot(&s, "x"),
        r#"{"text": "<span alpha='35%' color='#cba6f7'>a&quot;b</span>", "tooltip": "x: ", "class": "workspaces"}"#
    );
}

fn manager() -> WorkspaceManager<f32> {
    let mut alloc = FrameIdAlloc::new();
    let configs = vec![
        WorkspaceConfig { name: "main".into(), output: Some(OutputSpec::Single("DP-1".into())), initial_layout: None },
        WorkspaceConfig { name: "web".into(), output: Some(OutputSpec::Single("DP-1".into())), initial_layout: None },
        WorkspaceConfig { name: "chat".into(), output: None, initial_layout: None },
    ];
    let mut wm = WorkspaceManager::new(&configs, 0.5, MonitorMemory::default(), &mut alloc);
    let mut o = Output::new(OutputId(1));
    o.name = Some("DP-1".into());
    o.description = Some("Dell".into());
    o.width = 1920;
    o.height = 1080;
    wm.outputs = vec![o];
    wm.reassign_outputs(&mut alloc);
    let fid = wm.workspaces[1].focused_frame;
    wm.workspaces[1].root.find_frame_mut(fid).unwrap().add_window(WindowRef { window_id: 9, app_id: "a".into(), title: "t".into() });
    wm
}

#[test]
fn single_workspace_classes() {
    let wm = manager();
    assert_eq!(single_workspace_json(&wm, "main"), r#"{"text": "main", "tooltip": "main on DP-1", "class": "focused"}"#);
    assert_eq!(single_workspace_json(&wm, "web"), r#"{"text": "web", "tooltip": "web on DP-1", "class": "hidden"}"#);
    assert_eq!(single_workspace_json(&wm, "chat"), r#"{"text": "chat", "tooltip": "chat on ?", "class": "empty"}"#);
    assert_eq!(single_workspace_json(&wm, "zzz"), r#"{"text": "zzz", "class": "empty"}"#);
}

#[test]
fn output_widget_lists_its_workspaces() {
    let wm = manager();
    let a = AppearanceConfig::default();
    assert_eq!(
        output_workspaces_json(&wm, "DP-1", &a),
        r#"{"text": "<span color='#b4a0e5' background='#2a2636' bgalpha='80%'><b> main </b></span>  <span alpha='60%' color='#b4a0e5'>web</span>", "tooltip": "DP-1: main", "class": "focused"}"#
    );
    assert_eq!(
        output_workspaces_json(&wm, "none", &a),
        r#"{"text": "<span alpha='35%' color='#a6c9a1'>chat</span>", "tooltip": "none: ", "class": "visible"}"#
    );
    assert_eq!(
        output_workspaces_json(&wm, "HDMI-A-1", &a),
        r#"{"text": "", "tooltip": "No workspaces on HDMI-A-1", "class": "empty"}"#
    );
}

#[test]
fn all_workspaces_widget_groups_by_output() {
    let wm = manager();
    let a = AppearanceConfig::default();
    let g1 = " <span color='#b4a0e5' background='#2a2636' bgalpha='80%'><b> main </b></span>  <span alpha='70%' color='#b4a0e5'>○ </span> <span alpha='70%' color='#b4a0e5'>web</span>";
    let g2 = "<span alpha='35%' color='#a6c9a1'>· </span> <span alpha='35%' color='#a6c9a1'>chat</span>";
    let text = format!("{g1}  {g2}");
    assert_eq!(
        workspace_json(&wm, &a),
        format!(r#"{{"text": "{text}", "tooltip": "Focused: main", "class": "workspaces"}}"#)
    );
}

#[test]
fn configured_monitor_colors_are_used() {
    let wm = manager();
    let mut a = AppearanceConfig::default();
    a.monitor_colors = vec!["#111111".into()];
    let j = output_workspaces_json(&wm, "none", &a);
    assert!(j.contains("color='#111111'"));
}
