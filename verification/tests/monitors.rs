use std::collections::HashMap;
use notion_river::monitors::{
    canonical_descriptor, heads_have_apply_modes, monitor_key, set_key_from, snapshot, HeadLive, Monitors,
    FLAP_COOLDOWN, FLAP_THRESHOLD, FLAP_WINDOW, MAX_APPLY_ATTEMPTS, RETRY_BACKOFF, RETRY_BACKOFF_MAX, SETTLE_DELAY,
};

fn live(name: &str, desc: &str, w: i32, h: i32, x: i32, y: i32) -> HeadLive {
    HeadLive {
        name: Some(name.into()),
        description: Some(desc.into()),
        enabled: true,
        mode_w: w,
        mode_h: h,
        mode_refresh_mhz: 60_000,
        position_x: x,
        position_y: y,
        scale_fixed: 120_000,
        transform: 0,
        mode_ids: vec![],
        current_mode_id: None,
    }
}

#[test]
fn canonical_strips_connector() {
    assert_eq!(canonical_descriptor("LG HDR 4K 503NTWG54001 (DP-3)"), "LG HDR 4K 503NTWG54001");
}

#[test]
fn canonical_keeps_paren_in_name() {
    assert_eq!(canonical_descriptor("Some (Test) Monitor"), "Some (Test) Monitor");
}

#[test]
fn monitor_key_falls_back_to_internal_connector() {
    assert_eq!(monitor_key(Some("eDP-1"), None).as_deref(), Some("eDP-1"));
    assert_eq!(monitor_key(Some("DP-3"), None), None);
}

#[test]
fn set_key_is_sorted_and_deduped() {
    assert_eq!(set_key_from(&["B", "A", "B"]), "A\nB");
}

#[test]
fn canonical_trims_and_keeps_non_token_parens() {
    assert_eq!(canonical_descriptor("  Dell U2720Q  (HDMI-A-1)  "), "Dell U2720Q");
    assert_eq!(canonical_descriptor("Panel (not a port)"), "Panel (not a port)");
    assert_eq!(canonical_descriptor("Panel (DP-1"), "Panel (DP-1");
    assert_eq!(canonical_descriptor("   "), "");
}

#[test]
fn monitor_key_prefers_description() {
    assert_eq!(
        monitor_key(Some("DP-3"), Some("LG 503NTWG54001 (DP-3)")).as_deref(),
        Some("LG 503NTWG54001")
    );
    assert_eq!(monitor_key(Some("LVDS-1"), Some("   ")).as_deref(), Some("LVDS-1"));
    assert_eq!(monitor_key(None, None), None);
}

#[test]
fn set_key_of_nothing_and_of_one() {
    assert_eq!(set_key_from(&[]), "");
    assert_eq!(set_key_from(&["only"]), "only");
    assert_eq!(set_key_from(&["b", "a", "c", "a"]), set_key_from(&["c", "b", "a"]));
}

#[test]
fn apply_modes_ready_requires_modes_for_enabled_heads() {
    let mut heads = HashMap::new();
    // Enabled head with no mode_ids → not ready.
    heads.insert(1, live("eDP-1", "Sharp", 1920, 1200, 0, 0));
    assert!(!heads_have_apply_modes(&heads));
    // Give it a mode → ready.
    heads.get_mut(&1).unwrap().mode_ids = vec![10];
    assert!(heads_have_apply_modes(&heads));
}

#[test]
fn apply_modes_ready_ignores_disabled_heads() {
    let mut heads = HashMap::new();
    let mut h = live("eDP-1", "Sharp", 1920, 1200, 0, 0);
    h.enabled = false;
    heads.insert(1, h);
    // A disabled head with no modes does not block readiness.
    assert!(heads_have_apply_modes(&heads));
}


#[test]
fn snapshot_complete() {
    let mut heads = HashMap::new();
    heads.insert(1, live("eDP-1", "Sharp 0x1515", 1920, 1200, 0, 0));
    heads.insert(2, live("DP-3", "LG 503NTWG54001 (DP-3)", 3840, 2160, 1920, 0));
    let modes = HashMap::new();
    let (key, entries) = snapshot(&heads, &modes).unwrap();
    let snap: HashMap<String, _> = entries.into_iter().collect();
    assert_eq!(key, "LG 503NTWG54001\nSharp 0x1515");
    assert_eq!(snap.len(), 2);
    assert_eq!(snap.get("Sharp 0x1515").unwrap().mode_w, 1920);
    assert_eq!(snap.get("LG 503NTWG54001").unwrap().position_x, 1920);
}

#[test]
fn snapshot_none_when_metadata_missing() {
    let mut heads = HashMap::new();
    let mut h = live("eDP-1", "Sharp", 0, 0, 0, 0);
    h.scale_fixed = 0;
    heads.insert(1, h);
    assert!(snapshot(&heads, &HashMap::new()).is_none());
}

#[test]
fn snapshot_disabled_head_saved_as_disabled() {
    let mut heads = HashMap::new();
    let mut h = live("DP-3", "Dell U2720Q", 0, 0, 0, 0);
    h.enabled = false;
    heads.insert(7, h);
    let (key, entries) = snapshot(&heads, &HashMap::new()).unwrap();
    assert_eq!(key, "Dell U2720Q");
    assert_eq!(entries.len(), 1);
    assert!(!entries[0].1.enabled);
    assert_eq!(entries[0].1.scale_fixed, 120_000);
}

#[test]
fn snapshot_none_without_heads() {
    assert!(snapshot(&HashMap::new(), &HashMap::new()).is_none());
}

#[test]
fn snapshot_uses_current_mode_size() {
    let mut heads = HashMap::new();
    let mut h = live("eDP-1", "Sharp", 0, 0, 0, 0);
    h.current_mode_id = Some(42);
    heads.insert(1, h);
    let mut modes = HashMap::new();
    modes.insert(42, notion_river::monitors::ModeLive { w: 2560, h: 1600, refresh_mhz: 60_000, preferred: true });
    let (_, entries) = snapshot(&heads, &modes).unwrap();
    assert_eq!(entries[0].1.mode_w, 2560);
    assert_eq!(entries[0].1.mode_h, 1600);
}

fn saved(w: i32, h: i32) -> (i32, i32) {
    (w, h)
}

const NOW: u64 = 1_000_000;

#[test]
fn schedule_apply_sets_deadline_in_future() {
    let mut mons: Monitors<(i32, i32)> = Monitors::default();
    let now = NOW;
    mons.schedule_apply("k".into(), saved(1920, 1080), now);
    let p = mons.pending_apply.as_ref().unwrap();
    assert_eq!(p.set_key, "k");
    assert!(p.deadline >= now + SETTLE_DELAY);
}

#[test]
fn bump_pushes_deadline_forward_only() {
    let mut mons: Monitors<(i32, i32)> = Monitors::default();
    let now = NOW;
    mons.schedule_apply("k".into(), saved(1920, 1080), now);
    let first = mons.pending_apply.as_ref().unwrap().deadline;
    let later = now + 300;
    mons.bump_pending_deadline(later);
    let second = mons.pending_apply.as_ref().unwrap().deadline;
    assert!(second > first);
    mons.bump_pending_deadline(now);
    assert_eq!(mons.pending_apply.as_ref().unwrap().deadline, second);
}

#[test]
fn topology_quiet_gate() {
    let mut mons: Monitors<(i32, i32)> = Monitors::default();
    let now = NOW;
    assert!(mons.topology_quiet_for(SETTLE_DELAY, now));
    mons.note_topology_change(now);
    assert!(!mons.topology_quiet_for(SETTLE_DELAY, now));
    assert!(!mons.topology_quiet_for(SETTLE_DELAY, now + SETTLE_DELAY - 1));
    assert!(mons.topology_quiet_for(SETTLE_DELAY, now + SETTLE_DELAY));
}

#[test]
fn note_topology_change_also_bumps_deadline() {
    let mut mons: Monitors<(i32, i32)> = Monitors::default();
    let now = NOW;
    mons.schedule_apply("k".into(), saved(1920, 1080), now);
    let first = mons.pending_apply.as_ref().unwrap().deadline;
    mons.note_topology_change(now + 300);
    assert!(mons.pending_apply.as_ref().unwrap().deadline > first);
}

#[test]
fn retry_backoff_escalates_with_attempts() {
    let mut mons: Monitors<(i32, i32)> = Monitors::default();
    let now = NOW;
    mons.note_apply_failure("k", now);
    let first = *mons.retry_after.get("k").unwrap();
    mons.note_apply_failure("k", now);
    let second = *mons.retry_after.get("k").unwrap();
    assert!(second > first);
    for _ in 0..20 {
        mons.note_apply_failure("k", now);
    }
    assert!(*mons.retry_after.get("k").unwrap() <= now + RETRY_BACKOFF_MAX);
}

#[test]
fn retry_backoff_delays_next_schedule() {
    let mut mons: Monitors<(i32, i32)> = Monitors::default();
    let now = NOW;
    assert!(mons.note_apply_failure("k", now));
    mons.schedule_apply("k".into(), saved(1920, 1080), now);
    let deadline = mons.pending_apply.as_ref().unwrap().deadline;
    assert!(deadline >= now + RETRY_BACKOFF);
}

#[test]
fn retry_backoff_exact_values() {
    let mut mons: Monitors<(i32, i32)> = Monitors::default();
    mons.note_apply_failure("k", NOW);
    assert_eq!(*mons.retry_after.get("k").unwrap(), NOW + 800);
    mons.note_apply_failure("k", NOW);
    assert_eq!(*mons.retry_after.get("k").unwrap(), NOW + 1600);
    mons.note_apply_failure("k", NOW);
    mons.note_apply_failure("k", NOW);
    mons.note_apply_failure("k", NOW);
    assert_eq!(*mons.retry_after.get("k").unwrap(), NOW + 4000);
    mons.note_apply_failure("k", NOW);
    assert_eq!(*mons.retry_after.get("k").unwrap(), NOW + 4000);
    mons.schedule_apply("k".into(), saved(1, 1), NOW);
    assert_eq!(mons.pending_apply.as_ref().unwrap().deadline, NOW + 4000 + 600);
}

#[test]
fn attempts_exhaust_after_max() {
    let mut mons: Monitors<(i32, i32)> = Monitors::default();
    let now = NOW;
    for _ in 0..MAX_APPLY_ATTEMPTS - 1 {
        assert!(mons.note_apply_failure("k", now));
    }
    assert!(!mons.note_apply_failure("k", now));
    assert!(mons.attempts_exhausted("k"));
}

#[test]
fn clear_failure_resets_budget() {
    let mut mons: Monitors<(i32, i32)> = Monitors::default();
    let now = NOW;
    for _ in 0..MAX_APPLY_ATTEMPTS {
        mons.note_apply_failure("k", now);
    }
    assert!(mons.attempts_exhausted("k"));
    mons.clear_failure("k");
    assert!(!mons.attempts_exhausted("k"));
}

#[test]
fn reset_attempts_except_keeps_live_set() {
    let mut mons: Monitors<(i32, i32)> = Monitors::default();
    let now = NOW;
    mons.note_apply_failure("old", now);
    mons.note_apply_failure("live", now);
    mons.reset_attempts_except("live");
    assert!(!mons.apply_attempts.contains_key("old"));
    assert!(mons.apply_attempts.contains_key("live"));
    assert!(!mons.retry_after.contains_key("old"));
    assert!(mons.retry_after.contains_key("live"));
}

#[test]
fn flap_quarantines_after_threshold() {
    let mut mons: Monitors<(i32, i32)> = Monitors::default();
    let now = NOW;
    for i in 0..FLAP_THRESHOLD {
        assert!(
            !mons.note_set_appearance("k", now + i as u64 * 10),
            "should not quarantine at appearance {i}"
        );
    }
    assert!(mons.note_set_appearance("k", now + 100));
}

#[test]
fn flap_ignores_appearances_outside_window() {
    let mut mons: Monitors<(i32, i32)> = Monitors::default();
    let now = NOW;
    for i in 0..FLAP_THRESHOLD + 3 {
        let t = now + FLAP_WINDOW * i as u64;
        assert!(!mons.note_set_appearance("k", t));
    }
}

#[test]
fn flap_quarantine_lifts_after_cooldown() {
    let mut mons: Monitors<(i32, i32)> = Monitors::default();
    let now = NOW;
    for _ in 0..=FLAP_THRESHOLD {
        mons.note_set_appearance("k", now);
    }
    assert!(mons.flap_quarantined("k", now));
    assert!(mons.flap_quarantined("k", now + FLAP_COOLDOWN - 1));
    assert!(!mons.flap_quarantined("k", now + FLAP_COOLDOWN));
    assert!(!mons.flap_history.contains_key("k"));
}

#[test]
fn clear_flap_removes_quarantine() {
    let mut mons: Monitors<(i32, i32)> = Monitors::default();
    let now = NOW;
    for _ in 0..=FLAP_THRESHOLD {
        mons.note_set_appearance("k", now);
    }
    assert!(mons.flap_quarantined("k", now));
    mons.clear_flap("k");
    assert!(!mons.flap_quarantined("k", now));
}

#[test]
fn flap_reappearance_extends_quarantine() {
    let mut mons: Monitors<(i32, i32)> = Monitors::default();
    let now = NOW;
    for _ in 0..=FLAP_THRESHOLD {
        mons.note_set_appearance("k", now);
    }
    let late = now + FLAP_COOLDOWN - 10;
    assert!(mons.note_set_appearance("k", late));
    assert!(mons.flap_quarantined("k", now + FLAP_COOLDOWN));
}

#[test]
fn clear_pending_apply_cancels() {
    let mut mons: Monitors<(i32, i32)> = Monitors::default();
    mons.schedule_apply("k".into(), saved(1, 1), NOW);
    mons.clear_pending_apply();
    assert!(mons.pending_apply.is_none());
}
