use notion_river::bindings::keysym_choice;
use notion_river::actions::Action;
use notion_river::bindings::modifiers;
use notion_river::bindings::{
    builtin_i3_neo_bindings, builtin_i3_neo_resize_bindings, builtin_notion_bindings,
    builtin_notion_resize_bindings, get_profile_bindings, parse_all_bindings, parse_binding,
    parse_modifiers,
};
use notion_river::config::{BindingConfig, ProfileConfig};

fn cfg(mods: &str, key: &str, action: &str, args: &[&str]) -> BindingConfig {
    BindingConfig {
        modifiers: mods.to_string(),
        key: key.to_string(),
        action: action.to_string(),
        args: args.iter().map(|s| s.to_string()).collect(),
    }
}

#[test]
fn modifiers_combine_and_ignore_case_and_spaces() {
    assert_eq!(parse_modifiers("super+shift"), modifiers::MOD4 | modifiers::SHIFT);
    assert_eq!(parse_modifiers(" Super + CTRL "), modifiers::MOD4 | modifiers::CTRL);
    assert_eq!(parse_modifiers("alt"), modifiers::MOD1);
    assert_eq!(parse_modifiers("logo+mod1+mod2+mod3+mod5"), 64 | 8 | 16 | 32 | 128);
    assert_eq!(parse_modifiers(""), 0);
    assert_eq!(parse_modifiers("hyper"), 0);
    assert_eq!(parse_modifiers("shift++control"), modifiers::SHIFT | modifiers::CTRL);
}

#[test]
fn unknown_keys_drop_the_binding() {
    let c = cfg("super", "nosuchkey", "close", &[]);
    assert!(parse_binding(&c, None, false, 0).is_none());
    let b = parse_binding(&c, Some(0x63), true, 2).unwrap();
    assert_eq!(b.keysym, 0x63);
    assert_eq!(b.modifiers, modifiers::MOD4);
    assert!(matches!(b.action, Action::Close));
    assert_eq!(b.layout_override, Some(2));
    let b = parse_binding(&c, Some(0x63), false, 2).unwrap();
    assert_eq!(b.layout_override, None);
}

#[test]
fn parse_all_keeps_resolved_in_order() {
    let cfgs = vec![
        cfg("super", "a", "close", &[]),
        cfg("super", "bogus", "close", &[]),
        cfg("alt", "1", "workspace", &["main"]),
    ];
    let all = parse_all_bindings(&cfgs, &[Some(0x61), None, Some(0x31)], false, 0);
    assert_eq!(all.len(), 2);
    assert_eq!(all[0].keysym, 0x61);
    assert_eq!(all[1].keysym, 0x31);
    assert_eq!(all[1].modifiers, modifiers::MOD1);
    assert!(matches!(&all[1].action, Action::SwitchWorkspace(n) if n == "main"));
}

#[test]
fn builtin_profiles_have_their_bindings() {
    let neo = builtin_i3_neo_bindings();
    assert_eq!(neo.len(), 45);
    assert_eq!(neo[0].modifiers, "super");
    assert_eq!(neo[0].key, "space");
    assert_eq!(neo[0].action, "spawn_terminal");
    assert_eq!(neo[5].args, vec!["left".to_string()]);
    let switcher = neo.iter().find(|b| b.modifiers == "super+shift" && b.key == "o").unwrap();
    assert_eq!(switcher.action, "spawn_window_switcher");
    assert!(switcher.args.is_empty());
    assert_eq!(builtin_i3_neo_resize_bindings().len(), 11);
    let notion = builtin_notion_bindings();
    assert_eq!(notion.len(), 35);
    assert_eq!(notion.last().unwrap().action, "exit");
    let action_of = |mods: &str, key: &str| notion.iter().find(|b| b.modifiers == mods && b.key == key).unwrap().action.clone();
    assert_eq!(action_of("super", "Return"), "toggle_fullscreen");
    assert_eq!(action_of("super+shift", "p"), "spawn_window_switcher");
    assert_eq!(action_of("super", "f"), "toggle_app_binding");
    assert_eq!(action_of("super+shift", "f"), "bind_app_exclusive");
    assert_eq!(action_of("super+shift", "r"), "restart");
    let resize = builtin_notion_resize_bindings();
    assert_eq!(resize.len(), 10);
    assert!(resize.iter().any(|b| b.modifiers == "super" && b.key == "r" && b.action == "exit_resize_mode"));
    assert!(resize.iter().any(|b| b.modifiers.is_empty() && b.key == "Escape" && b.action == "exit_resize_mode"));
}

#[test]
fn profile_falls_back_to_builtins() {
    let (n, r) = get_profile_bindings(&[], "notion");
    assert_eq!(n.len(), 35);
    assert_eq!(r.len(), 10);
    let (n, _) = get_profile_bindings(&[], "anything");
    assert_eq!(n.len(), 45);
    let custom = ProfileConfig { bindings: vec![cfg("super", "x", "exit", &[])], resize_bindings: vec![] };
    let profiles = vec![("mine".to_string(), custom)];
    let (n, r) = get_profile_bindings(&profiles, "mine");
    assert_eq!(n.len(), 1);
    assert_eq!(n[0].action, "exit");
    assert!(r.is_empty());
    // A configured profile without bindings falls back to the built-ins.
    let empty = vec![("notion".to_string(), ProfileConfig::default())];
    let (n, _) = get_profile_bindings(&empty, "notion");
    assert_eq!(n.len(), 35);
}

#[test]
fn exact_key_lookup_wins_over_any_case() {
    assert_eq!(keysym_choice(0xff0d, 0), Some(0xff0d));
    assert_eq!(keysym_choice(0x41, 0x61), Some(0x41));
    assert_eq!(keysym_choice(0, 0xff0d), Some(0xff0d));
    assert_eq!(keysym_choice(0, 0), None);
}
