use notion_river::actions::Action;
use notion_river::layout::{Direction, Rect};
use notion_river::wm::{should_reveal_bound_workspace, FloatingKind, ManagedWindow};

#[test]
fn reveal_bound_only_when_hidden_and_not_restored() {
    // Bound app landing on a hidden workspace -> reveal it.
    assert!(should_reveal_bound_workspace(false, true, false));
    // Already visible: nothing to do.
    assert!(!should_reveal_bound_workspace(false, true, true));
    // Restore path: never reveal, even if hidden (preserves startup view).
    assert!(!should_reveal_bound_workspace(true, true, false));
    // Default placement (not from a binding): never reveal.
    assert!(!should_reveal_bound_workspace(false, false, false));
    assert!(!should_reveal_bound_workspace(false, false, true));
}

#[test]
fn notifications_do_not_take_focus() {
    assert!(FloatingKind::Dialog.should_auto_focus());
    assert!(!FloatingKind::Notification.should_auto_focus());
}

#[test]
fn dialogs_center_and_notifications_sit_top_right() {
    let area = Rect::new(0, 0, 1920, 1080);
    let mut w = ManagedWindow::new(7);
    assert_eq!(w.floating_dimensions(), (640, 480));
    w.position_floating(area);
    assert_eq!((w.float_x, w.float_y), (640, 300));
    w.width = 301;
    w.height = 101;
    w.position_floating(Rect::new(100, 50, 800, 600));
    assert_eq!((w.float_x, w.float_y), (100 + 249, 50 + 249));
    w.floating_kind = FloatingKind::Notification;
    w.position_floating(area);
    assert_eq!((w.float_x, w.float_y), (1920 - 301 - 20, 20));
    // A window wider than the area: the offset rounds toward zero.
    let mut big = ManagedWindow::new(8);
    big.width = 1001;
    big.height = 480;
    big.position_floating(Rect::new(0, 0, 1000, 480));
    assert_eq!((big.float_x, big.float_y), (0, 0));
}

#[test]
fn actions_from_configuration_names() {
    let none: Vec<String> = Vec::new();
    assert!(matches!(Action::from_config("close", &none), Action::Close));
    assert!(matches!(Action::from_config("fullscreen", &none), Action::ToggleFullscreen));
    assert!(matches!(
        Action::from_config("focus", &["Left".to_string()]),
        Action::FocusDirection(Direction::Left)
    ));
    assert!(matches!(Action::from_config("focus", &none), Action::Noop));
    assert!(matches!(Action::from_config("focus", &["sideways".to_string()]), Action::Noop));
    match Action::from_config("workspace", &["web".to_string()]) {
        Action::SwitchWorkspace(n) => assert_eq!(n, "web"),
        other => panic!("unexpected {other:?}"),
    }
    match Action::from_config("spawn", &["foot".to_string(), "-e".to_string()]) {
        Action::Spawn(v) => assert_eq!(v, vec!["foot".to_string(), "-e".to_string()]),
        other => panic!("unexpected {other:?}"),
    }
    assert!(matches!(Action::from_config("spawn", &none), Action::Noop));
    assert!(matches!(Action::from_config("window_switcher", &none), Action::SpawnWindowSwitcher));
    assert!(matches!(Action::from_config("spawn_window_switcher", &none), Action::SpawnWindowSwitcher));
    assert!(matches!(Action::from_config("hsplit", &none), Action::SplitHorizontal));
    assert!(matches!(Action::from_config("normal_mode", &none), Action::ExitResizeMode));
    assert!(matches!(Action::from_config("reload", &none), Action::ReloadConfig));
    assert!(matches!(Action::from_config("frobnicate", &none), Action::Noop));
}
