use notion_river::config::{OutputSpec, WorkspaceConfig};
use notion_river::layout::FrameIdAlloc;
use notion_river::matching::{find_matching_output, find_preferred_output, find_preferred_output_ranked};
use notion_river::numbers::parse_i32_chars;
use notion_river::monitor_memory::MonitorMemory;
use notion_river::workspace::{output_geometry_key, Output, OutputId, WorkspaceId, WorkspaceManager};

fn output(id: u64, x: i32, y: i32, width: i32, height: i32) -> Output {
    let mut output = Output::new(OutputId(id));
    output.width = width;
    output.height = height;
    output.x = x;
    output.y = y;
    output
}

fn named_output(id: u64, name: &str, desc: &str, x: i32, y: i32, width: i32, height: i32) -> Output {
    let mut o = output(id, x, y, width, height);
    o.name = Some(name.to_owned());
    o.description = Some(desc.to_owned());
    o
}

fn ws(name: &str, output: Option<OutputSpec>) -> WorkspaceConfig {
    WorkspaceConfig { name: name.to_owned(), output, initial_layout: None }
}

fn three_workspace_setup() -> (WorkspaceManager<f32>, FrameIdAlloc) {
    let configs = vec![
        ws("main", Some(OutputSpec::Single("center".into()))),
        ws("secondary", Some(OutputSpec::Single("center".into()))),
        ws("utility", Some(OutputSpec::Single("center".into()))),
        ws("social", Some(OutputSpec::Fallback(vec!["portrait".into(), "laptop".into()]))),
        ws("work", Some(OutputSpec::Single("laptop".into()))),
        ws("term", Some(OutputSpec::Fallback(vec!["portrait".into(), "laptop".into()]))),
    ];
    let mut alloc = FrameIdAlloc::new();
    let wm = WorkspaceManager::new(&configs, 0.5, MonitorMemory::default(), &mut alloc);
    (wm, alloc)
}

fn workspace_for(wm: &WorkspaceManager<f32>, oid: OutputId) -> Option<&str> {
    wm.workspaces.iter().find(|w| w.active_output == Some(oid)).map(|w| w.name.as_str())
}

fn three_monitors() -> Vec<Output> {
    vec![
        named_output(10, "eDP-1", "Sharp 0x1515", 0, 1692, 1280, 800),
        named_output(20, "DP-2", "LG 503NTWG54001", 1280, 611, 2560, 1440),
        named_output(30, "DP-10", "LG 507NTFALB971", 3840, 0, 1440, 2560),
    ]
}

#[test]
fn center_prefers_horizontal_middle_over_portrait() {
    let outputs = vec![
        output(1, 0, 1692, 1280, 800),
        output(2, 1280, 611, 2560, 1440),
        output(3, 3840, 0, 1440, 2560),
    ];
    let preferred = find_preferred_output(&["center".to_owned()], &outputs);
    assert_eq!(preferred, Some(OutputId(2)));
}

#[test]
fn first_assignment_uses_preferred_outputs() {
    let (mut wm, mut alloc) = three_workspace_setup();
    wm.outputs = three_monitors();
    wm.reassign_outputs(&mut alloc);

    assert_eq!(workspace_for(&wm, OutputId(10)), Some("work"));
    assert_eq!(workspace_for(&wm, OutputId(20)), Some("main"));
    assert_eq!(workspace_for(&wm, OutputId(30)), Some("social"));
}

#[test]
fn memory_overrides_preferred_on_subsequent_runs() {
    let (mut wm, mut alloc) = three_workspace_setup();
    wm.outputs = three_monitors();
    wm.monitor_memory.record("edid:LG 507NTFALB971".into(), "utility".into());
    wm.reassign_outputs(&mut alloc);

    assert_eq!(workspace_for(&wm, OutputId(30)), Some("utility"));
    assert_eq!(workspace_for(&wm, OutputId(20)), Some("main"));
}

#[test]
fn unplugging_a_monitor_keeps_others_unchanged() {
    let (mut wm, mut alloc) = three_workspace_setup();
    wm.outputs = three_monitors();
    wm.reassign_outputs(&mut alloc);

    wm.remove_output(OutputId(30));
    wm.reassign_outputs(&mut alloc);

    assert_eq!(workspace_for(&wm, OutputId(10)), Some("work"));
    assert_eq!(workspace_for(&wm, OutputId(20)), Some("main"));
    assert!(wm
        .workspaces
        .iter()
        .find(|w| w.name == "social")
        .is_some_and(|w| w.active_output.is_none()));
}

#[test]
fn replugging_restores_remembered_workspace() {
    let (mut wm, mut alloc) = three_workspace_setup();
    wm.outputs = three_monitors();
    wm.reassign_outputs(&mut alloc);
    wm.monitor_memory.record("edid:LG 507NTFALB971".into(), "term".into());

    wm.remove_output(OutputId(30));
    wm.reassign_outputs(&mut alloc);
    assert!(workspace_for(&wm, OutputId(30)).is_none());

    wm.outputs.push(named_output(40, "DP-10", "LG 507NTFALB971", 3840, 0, 1440, 2560));
    wm.reassign_outputs(&mut alloc);

    assert_eq!(workspace_for(&wm, OutputId(40)), Some("term"));
}

#[test]
fn temporary_switch_during_partial_replug_does_not_overwrite_memory() {
    let (mut wm, mut alloc) = three_workspace_setup();
    wm.outputs = vec![
        named_output(10, "eDP-1", "Sharp 0x1515", 640, 1440, 1280, 800),
        named_output(20, "DP-7", "LG 507NTFALB971", 2560, 0, 1440, 2560),
        named_output(30, "DP-3", "LG 503NTWG54001", 0, 0, 2560, 1440),
    ];
    wm.monitor_memory.record("edid:Sharp 0x1515".into(), "work".into());
    wm.monitor_memory.record("edid:LG 507NTFALB971".into(), "term".into());
    wm.monitor_memory.record("edid:LG 503NTWG54001".into(), "main".into());
    wm.reassign_outputs(&mut alloc);

    wm.remove_output(OutputId(30));
    wm.reassign_outputs(&mut alloc);

    wm.switch_workspace("main");

    assert_eq!(wm.monitor_memory.get("edid:LG 507NTFALB971"), Some("term"));
    assert_eq!(wm.monitor_memory.get("edid:LG 503NTWG54001"), Some("main"));
}

#[test]
fn maybe_reassign_skips_when_set_unchanged() {
    let (mut wm, mut alloc) = three_workspace_setup();
    wm.outputs = vec![
        named_output(10, "eDP-1", "Sharp 0x1515", 0, 1692, 1280, 800),
        named_output(20, "DP-2", "LG 503NTWG54001", 1280, 611, 2560, 1440),
    ];
    wm.maybe_reassign_outputs(&mut alloc);
    assert_eq!(workspace_for(&wm, OutputId(10)), Some("work"));
    assert_eq!(workspace_for(&wm, OutputId(20)), Some("main"));

    wm.workspaces[0].active_output = Some(OutputId(20));
    wm.workspaces[1].active_output = Some(OutputId(10));
    wm.output_workspace.insert(20, WorkspaceId(0));
    wm.output_workspace.insert(10, WorkspaceId(1));

    wm.maybe_reassign_outputs(&mut alloc);
    assert_eq!(workspace_for(&wm, OutputId(20)), Some("main"));
    assert_eq!(workspace_for(&wm, OutputId(10)), Some("secondary"));
}

#[test]
fn same_resolution_monitors_do_not_collide() {
    let (mut wm, mut alloc) = three_workspace_setup();
    wm.outputs = vec![
        named_output(10, "eDP-1", "Sharp 0x1515", 0, 1692, 1280, 800),
        named_output(20, "DP-3", "LG Electronics LG HDR 4K 503NTWG54001", 1280, 0, 3840, 2160),
        named_output(30, "DP-7", "LG Electronics LG HDR 4K 507NTFALB971", 5120, 0, 3840, 2160),
    ];
    wm.monitor_memory.record("edid:LG Electronics LG HDR 4K 503NTWG54001".into(), "main".into());
    wm.monitor_memory.record("edid:LG Electronics LG HDR 4K 507NTFALB971".into(), "social".into());
    wm.monitor_memory.record("edid:Sharp 0x1515".into(), "work".into());

    wm.maybe_reassign_outputs(&mut alloc);
    assert_eq!(workspace_for(&wm, OutputId(10)), Some("work"));
    assert_eq!(workspace_for(&wm, OutputId(20)), Some("main"));
    assert_eq!(workspace_for(&wm, OutputId(30)), Some("social"));

    wm.workspaces[0].active_output = Some(OutputId(30));
    wm.workspaces[3].active_output = Some(OutputId(20));
    wm.output_workspace.insert(30, WorkspaceId(0));
    wm.output_workspace.insert(20, WorkspaceId(3));

    wm.reassign_outputs(&mut alloc);
    assert_eq!(workspace_for(&wm, OutputId(10)), Some("work"));
    assert_eq!(workspace_for(&wm, OutputId(20)), Some("main"));
    assert_eq!(workspace_for(&wm, OutputId(30)), Some("social"));
}

#[test]
fn reassign_deferred_until_description_arrives() {
    let (mut wm, mut alloc) = three_workspace_setup();
    let mut external = output(20, 1280, 611, 3840, 2160);
    external.name = Some("DP-3".to_owned());
    wm.outputs = vec![named_output(10, "eDP-1", "Sharp 0x1515", 0, 1692, 1280, 800), external];

    assert!(wm.all_outputs_have_geometry());
    assert!(!wm.all_outputs_have_stable_identity());

    wm.maybe_reassign_outputs(&mut alloc);
    assert!(wm.output_workspace.is_empty());
    assert!(wm.workspaces.iter().all(|ws| ws.active_output.is_none()));

    wm.output_mut(OutputId(20)).unwrap().description = Some("LG Electronics LG HDR 4K 503NTWG54001".to_owned());

    assert!(wm.all_outputs_have_stable_identity());

    wm.maybe_reassign_outputs(&mut alloc);
    assert_eq!(workspace_for(&wm, OutputId(10)), Some("work"));
    assert_eq!(workspace_for(&wm, OutputId(20)), Some("main"));
}

// ── Further cases ─────────────────────────────────────────────────────────

#[test]
fn extra_output_gets_an_auto_workspace() {
    let configs = vec![ws("only", None)];
    let mut alloc = FrameIdAlloc::new();
    let mut wm: WorkspaceManager<f32> = WorkspaceManager::new(&configs, 0.5, MonitorMemory::default(), &mut alloc);
    wm.outputs = vec![
        named_output(1, "DP-1", "A", 0, 0, 100, 100),
        named_output(2, "DP-2", "B", 100, 0, 100, 100),
        output(3, 200, 0, 100, 100),
    ];
    wm.reassign_outputs(&mut alloc);
    assert_eq!(workspace_for(&wm, OutputId(1)), Some("only"));
    assert_eq!(workspace_for(&wm, OutputId(2)), Some("auto:DP-2"));
    assert_eq!(workspace_for(&wm, OutputId(3)), Some("auto:3"));
    assert_eq!(wm.workspaces.len(), 3);
    assert!(wm.workspaces[1].auto_created);
    assert_eq!(wm.output_workspace.get(&3), Some(&WorkspaceId(2)));

    // A second pass drops the automatic workspaces and makes them again.
    wm.reassign_outputs(&mut alloc);
    assert_eq!(wm.workspaces.len(), 3);
    assert_eq!(workspace_for(&wm, OutputId(2)), Some("auto:DP-2"));
}

#[test]
fn switching_to_a_hidden_workspace_displaces_the_occupant() {
    let (mut wm, mut alloc) = three_workspace_setup();
    wm.outputs = three_monitors();
    wm.reassign_outputs(&mut alloc);
    // "secondary" prefers the center monitor, where "main" is.
    wm.switch_workspace("secondary");
    assert_eq!(workspace_for(&wm, OutputId(20)), Some("secondary"));
    assert!(wm.workspace_by_name("main").unwrap().active_output.is_none());
    assert_eq!(wm.focused_workspace, WorkspaceId(1));
    // Switching to a visible workspace only focuses it.
    wm.switch_workspace("work");
    assert_eq!(wm.focused_workspace, WorkspaceId(4));
    assert_eq!(workspace_for(&wm, OutputId(10)), Some("work"));
    // Unknown names change nothing.
    wm.switch_workspace("nope");
    assert_eq!(wm.focused_workspace, WorkspaceId(4));
}

#[test]
fn matching_specifiers() {
    let outputs = three_monitors();
    assert_eq!(find_matching_output("portrait", &outputs), Some(OutputId(30)));
    assert_eq!(find_matching_output("laptop", &outputs), Some(OutputId(10)));
    assert_eq!(find_matching_output("1280,611", &outputs), Some(OutputId(20)));
    assert_eq!(find_matching_output("1280,612", &outputs), None);
    assert_eq!(find_matching_output("1,2,3", &outputs), None);
    assert_eq!(find_matching_output("DP-10", &outputs), Some(OutputId(30)));
    assert_eq!(find_matching_output("HDMI-A-1", &outputs), None);
    assert_eq!(find_preferred_output_ranked(&["HDMI-A-1".to_owned(), "laptop".to_owned()], &outputs), Some((1, OutputId(10))));
    // Outputs without dimensions never match.
    assert_eq!(find_matching_output("center", &[output(1, 0, 0, 0, 0)]), None);
}

#[test]
fn negative_positions_and_parse_limits() {
    let outputs = vec![output(5, -1920, 0, 1920, 1080), output(6, 0, 0, 1920, 1080)];
    assert_eq!(find_matching_output("-1920,0", &outputs), Some(OutputId(5)));
    let digits: Vec<char> = "2147483647".chars().collect();
    assert_eq!(parse_i32_chars(&digits), Some(i32::MAX));
    let too_big: Vec<char> = "2147483648".chars().collect();
    assert_eq!(parse_i32_chars(&too_big), None);
    let min: Vec<char> = "-2147483648".chars().collect();
    assert_eq!(parse_i32_chars(&min), Some(i32::MIN));
    let dash: Vec<char> = "-".chars().collect();
    assert_eq!(parse_i32_chars(&dash), None);
}

#[test]
fn geometry_key_and_removal() {
    let (mut wm, mut alloc) = three_workspace_setup();
    wm.outputs = three_monitors();
    assert_eq!(output_geometry_key(&wm.outputs[1]).as_deref(), Some("2560x1440@1280,611"));
    wm.reassign_outputs(&mut alloc);
    wm.remove_output(OutputId(20));
    assert!(wm.output(OutputId(20)).is_none());
    assert_eq!(wm.outputs.len(), 2);
    assert_eq!(wm.output_workspace.get(&20), None);
    assert!(wm.connected_monitor_keys_changed());
    assert_eq!(wm.visible_workspaces().len(), 2);
}

#[test]
fn closed_outputs_are_dropped_and_focus_lands_on_a_shown_workspace() {
    let (mut wm, mut alloc) = three_workspace_setup();
    wm.outputs = three_monitors();
    wm.reassign_outputs(&mut alloc);
    let social = wm.workspaces.iter().position(|w| w.name == "social").unwrap();
    wm.focused_workspace = WorkspaceId(social);
    wm.outputs[2].removed = true;
    wm.remove_closed_outputs(&mut alloc);
    assert_eq!(wm.outputs.len(), 2);
    assert!(wm.outputs.iter().all(|o| o.id != OutputId(30)));
    assert!(wm.workspaces[social].active_output.is_none());
    assert_eq!(workspace_for(&wm, OutputId(10)), Some("work"));
    assert_eq!(workspace_for(&wm, OutputId(20)), Some("main"));
    // "social" is no longer shown: focus moves to the first shown workspace.
    let first_shown = wm.workspaces.iter().find(|w| w.active_output.is_some()).unwrap().id;
    assert_eq!(wm.focused_workspace, first_shown);
    assert_eq!(wm.workspaces[wm.focused_workspace.0].name, "main");
}

#[test]
fn nothing_changes_without_closed_outputs() {
    let (mut wm, mut alloc) = three_workspace_setup();
    wm.outputs = three_monitors();
    wm.reassign_outputs(&mut alloc);
    let before: Vec<Option<OutputId>> = wm.workspaces.iter().map(|w| w.active_output).collect();
    let focus = wm.focused_workspace;
    wm.remove_closed_outputs(&mut alloc);
    let after: Vec<Option<OutputId>> = wm.workspaces.iter().map(|w| w.active_output).collect();
    assert_eq!(before, after);
    assert_eq!(wm.focused_workspace, focus);
    assert_eq!(wm.outputs.len(), 3);
}

#[test]
fn placements_are_recorded_in_the_monitor_memory() {
    let (mut wm, mut alloc) = three_workspace_setup();
    wm.outputs = three_monitors();
    wm.reassign_outputs(&mut alloc);
    assert_eq!(wm.monitor_memory.get("edid:Sharp 0x1515"), Some("work"));
    assert_eq!(wm.monitor_memory.get("edid:LG 503NTWG54001"), Some("main"));
    assert_eq!(wm.monitor_memory.get("edid:LG 507NTFALB971"), Some("social"));
}

#[test]
fn reassigning_twice_changes_nothing() {
    let (mut wm, mut alloc) = three_workspace_setup();
    wm.outputs = three_monitors();
    wm.reassign_outputs(&mut alloc);
    let shown: Vec<_> = wm.workspaces.iter().map(|w| (w.name.clone(), w.active_output)).collect();
    let map = wm.output_workspace.clone();
    wm.reassign_outputs(&mut alloc);
    let again: Vec<_> = wm.workspaces.iter().map(|w| (w.name.clone(), w.active_output)).collect();
    assert_eq!(again, shown);
    assert_eq!(wm.output_workspace, map);
    assert_eq!(wm.monitor_memory.get("edid:Sharp 0x1515"), Some("work"));
}
