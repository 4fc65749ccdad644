use notion_river::config::{OutputSpec, WorkspaceConfig};
use notion_river::layout::FrameIdAlloc;
use notion_river::monitor_memory::MonitorMemory;
use notion_river::output_profiles::OutputProfiles;
use notion_river::workspace::{Output, OutputId, WorkspaceId, WorkspaceManager};

fn out(id: u64, name: &str, x: i32) -> Output {
    let mut o = Output::new(OutputId(id));
    o.name = Some(name.into());
    o.description = Some(format!("Monitor {name}"));
    o.x = x;
    o.width = 1920;
    o.height = 1080;
    o
}

fn manager() -> (WorkspaceManager<f32>, FrameIdAlloc) {
    let mut alloc = FrameIdAlloc::new();
    let configs = vec![
        WorkspaceConfig { name: "a".into(), output: Some(OutputSpec::Single("DP-2".into())), initial_layout: None },
        WorkspaceConfig { name: "b".into(), output: Some(OutputSpec::Single("DP-1".into())), initial_layout: None },
        WorkspaceConfig { name: "c".into(), output: None, initial_layout: None },
    ];
    let mut wm = WorkspaceManager::new(&configs, 0.5, MonitorMemory::default(), &mut alloc);
    wm.outputs = vec![out(1, "DP-2", 0), out(2, "DP-1", 1920)];
    wm.reassign_outputs(&mut alloc);
    (wm, alloc)
}

#[test]
fn profile_key_sorts_live_names() {
    let (mut wm, _) = manager();
    assert_eq!(OutputProfiles::profile_key(&wm), "DP-1+DP-2");
    wm.outputs[0].removed = true;
    assert_eq!(OutputProfiles::profile_key(&wm), "DP-1");
    wm.outputs[1].name = None;
    assert_eq!(OutputProfiles::profile_key(&wm), "");
}

#[test]
fn profile_key_keeps_repeated_names() {
    let (mut wm, _) = manager();
    wm.outputs[0].name = Some("DP-1".into());
    assert_eq!(OutputProfiles::profile_key(&wm), "DP-1+DP-1");
}

#[test]
fn save_then_restore_gives_back_assignments() {
    let (mut wm, _) = manager();
    let mut p = OutputProfiles::default();
    assert!(p.save_current(&wm));
    let saved = p.profiles.get("DP-1+DP-2").unwrap();
    assert_eq!(saved.focused_workspace, "a");
    let mut pairs = saved.assignments.clone();
    pairs.sort();
    assert_eq!(pairs, vec![("DP-1".to_string(), "b".to_string()), ("DP-2".to_string(), "a".to_string())]);

    // move things around, then restore
    wm.switch_workspace("c");
    assert_eq!(wm.focused_workspace, WorkspaceId(2));
    assert!(p.restore_for_current(&mut wm));
    assert_eq!(wm.workspaces[0].active_output, Some(OutputId(1)));
    assert_eq!(wm.workspaces[1].active_output, Some(OutputId(2)));
    assert_eq!(wm.workspaces[2].active_output, None);
    assert_eq!(wm.focused_workspace, WorkspaceId(0));
}

#[test]
fn nothing_saved_without_named_outputs() {
    let (mut wm, _) = manager();
    for o in wm.outputs.iter_mut() {
        o.name = None;
    }
    let mut p = OutputProfiles::default();
    assert!(!p.save_current(&wm));
    assert!(!p.restore_for_current(&mut wm));
}

#[test]
fn unknown_configuration_restores_nothing() {
    let (mut wm, _) = manager();
    let p = OutputProfiles::default();
    let before: Vec<_> = wm.workspaces.iter().map(|w| w.active_output).collect();
    assert!(!p.restore_for_current(&mut wm));
    let after: Vec<_> = wm.workspaces.iter().map(|w| w.active_output).collect();
    assert_eq!(before, after);
}
