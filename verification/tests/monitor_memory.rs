use notion_river::monitor_memory::{is_stable_key, monitor_key, MonitorMemory};
use notion_river::workspace::{Output, OutputId};

fn output(name: Option<&str>, desc: Option<&str>, w: i32, h: i32) -> Output {
    let mut o = Output::new(OutputId(1));
    o.name = name.map(str::to_owned);
    o.description = desc.map(str::to_owned);
    o.width = w;
    o.height = h;
    o
}

#[test]
fn description_strips_connector_suffix() {
    let o = output(
        Some("DP-2"),
        Some("LG Electronics LG HDR 4K 503NTWG54001 (DP-2)"),
        2560,
        1440,
    );
    assert_eq!(
        monitor_key(&o).as_deref(),
        Some("edid:LG Electronics LG HDR 4K 503NTWG54001"),
    );
}

#[test]
fn description_keeps_full_string_without_suffix() {
    let o = output(Some("DP-2"), Some("Some Monitor X1"), 2560, 1440);
    assert_eq!(monitor_key(&o).as_deref(), Some("edid:Some Monitor X1"));
}

#[test]
fn monitor_key_returns_none_for_geometry_only() {
    let o = output(None, None, 2560, 1440);
    assert_eq!(monitor_key(&o), None);
}

#[test]
fn monitor_key_returns_none_for_external_connector_only() {
    let o = output(Some("DP-2"), None, 2560, 1440);
    assert_eq!(monitor_key(&o), None);
}

#[test]
fn monitor_key_returns_some_for_builtin_connector_only() {
    let o = output(Some("eDP-1"), None, 2560, 1440);
    assert_eq!(monitor_key(&o).as_deref(), Some("conn:eDP-1"));
}

#[test]
fn returns_none_without_anything() {
    let o = output(None, None, 0, 0);
    assert_eq!(monitor_key(&o), None);
}

#[test]
fn record_returns_true_on_change_only() {
    let mut m = MonitorMemory::default();
    assert!(m.record("a".into(), "main".into()));
    assert!(!m.record("a".into(), "main".into()));
    assert!(m.record("a".into(), "utility".into()));
}

#[test]
fn recorded_workspace_is_remembered_per_monitor() {
    let mut m = MonitorMemory::default();
    m.record("edid:one".into(), "main".into());
    m.record("edid:two".into(), "work".into());
    m.record("edid:one".into(), "term".into());
    assert_eq!(m.get("edid:one"), Some("term"));
    assert_eq!(m.get("edid:two"), Some("work"));
    assert_eq!(m.get("edid:three"), None);
    assert_eq!(m.entries.len(), 2);
}

#[test]
fn prune_drops_geom_and_external_conn_entries() {
    let mut memory = MonitorMemory::default();
    for (k, v) in [
        ("edid:one", "main"),
        ("edid:two", "work"),
        ("edid:three", "social"),
        ("conn:eDP-1", "term"),
        ("conn:DP-3", "secondary"),
        ("geom:3840x2160", "utility"),
        ("geom:1920x1200", "main"),
    ] {
        memory.record(k.into(), v.into());
    }
    assert!(memory.prune_unstable());
    assert_eq!(memory.entries.len(), 4);
    assert_eq!(memory.get("edid:one"), Some("main"));
    assert_eq!(memory.get("edid:two"), Some("work"));
    assert_eq!(memory.get("edid:three"), Some("social"));
    assert_eq!(memory.get("conn:eDP-1"), Some("term"));
    assert_eq!(memory.get("conn:DP-3"), None);
    assert_eq!(memory.get("geom:3840x2160"), None);
    assert!(!memory.prune_unstable());
}

#[test]
fn stable_keys() {
    assert!(is_stable_key("edid:anything"));
    assert!(is_stable_key("conn:eDP-1"));
    assert!(is_stable_key("conn:DSI-2"));
    assert!(!is_stable_key("conn:HDMI-A-1"));
    assert!(!is_stable_key("geom:1x1"));
}
