use dualcut::prefs::pref_value;
use dualcut::bindings::{action_for, apply_preset, binding, default_preset, presets, set_binding};
use dualcut::keys::{Action, Combo, KeyEntry, KeyTable};

const Z: u32 = 0x7a;
const UPPER_Z: u32 = 0x5a;
const SPACE: u32 = 0x20;

/// The keys that the bindings name, with their X11 symbols.
fn table() -> KeyTable {
    let mut entries = Vec::new();
    for c in b'a'..=b'z' {
        let lower = c as u32;
        let upper = c.to_ascii_uppercase();
        entries.push(KeyEntry { name: (c as char).to_string(), code: lower, lower });
        entries.push(KeyEntry { name: (upper as char).to_string(), code: upper as u32, lower });
    }
    for (name, code) in [
        ("space", 0x20u32),
        ("comma", 0x2c),
        ("period", 0x2e),
        ("Left", 0xff51),
        ("Right", 0xff53),
        ("Up", 0xff52),
        ("Down", 0xff54),
        ("Home", 0xff50),
        ("End", 0xff57),
        ("Delete", 0xffff),
        ("BackSpace", 0xff08),
    ] {
        entries.push(KeyEntry { name: name.to_string(), code, lower: code });
    }
    KeyTable { entries }
}

#[test]
fn parse_and_format_roundtrip() {
    let t = table();
    for s in ["space", "Left", "ctrl+z", "ctrl+shift+z", "shift+Delete", "ctrl+k"] {
        let combo = Combo::parse(s, &t).unwrap_or_else(|| panic!("failed to parse {s:?}"));
        let reparsed = Combo::parse(&combo.format(&t), &t)
            .unwrap_or_else(|| panic!("failed to reparse {:?}", combo.format(&t)));
        assert_eq!(combo, reparsed, "roundtrip mismatch for {s:?}");
    }
}

#[test]
fn parse_is_case_insensitive_for_modifiers() {
    let t = table();
    let a = Combo::parse("ctrl+z", &t).unwrap();
    let b = Combo::parse("Ctrl+Z", &t).unwrap();
    assert_eq!(a, b);
}

#[test]
fn matches_requires_exact_modifier_state() {
    let t = table();
    let combo = Combo::parse("ctrl+z", &t).unwrap();
    assert!(combo.matches(Z, true, false, &t));
    assert!(combo.matches(UPPER_Z, true, false, &t));
    assert!(!combo.matches(Z, false, false, &t));
    assert!(!combo.matches(Z, true, true, &t));
}

#[test]
fn bare_key_does_not_match_with_modifiers_held() {
    let t = table();
    let combo = Combo::parse("space", &t).unwrap();
    assert!(combo.matches(SPACE, false, false, &t));
    assert!(!combo.matches(SPACE, true, false, &t));
}

#[test]
fn every_default_and_preset_binding_parses() {
    let t = table();
    for (action, s) in &default_preset().bindings {
        assert!(Combo::parse(s, &t).is_some(), "DEFAULT[{action:?}] = {s:?} failed to parse");
    }
    for preset in presets() {
        for (action, s) in &preset.bindings {
            assert!(
                Combo::parse(s, &t).is_some(),
                "preset {:?}[{action:?}] = {s:?} failed to parse",
                preset.name
            );
        }
    }
}

#[test]
fn every_preset_covers_every_action() {
    for preset in presets() {
        for action in Action::all() {
            assert!(
                preset.bindings.iter().any(|(a, _)| *a == action),
                "preset {:?} has no binding for {action:?}",
                preset.name
            );
        }
    }
}

#[test]
fn display_and_gtk_accel_are_nonempty_for_every_default() {
    let t = table();
    for (action, s) in &default_preset().bindings {
        let combo = Combo::parse(s, &t).unwrap();
        assert!(!combo.display(&t).is_empty(), "{action:?} has empty display()");
        assert!(!combo.gtk_accel(&t).is_empty(), "{action:?} has empty gtk_accel()");
    }
}

#[test]
fn a_binding_that_is_set_is_the_one_in_force() {
    let t = table();
    let combo = Combo::parse("ctrl+shift+k", &t).unwrap();
    let text = set_binding("preview_scale=0.5\n", Action::Split, combo, &t);
    assert_eq!(binding(&text, Action::Split, &t), combo);
    assert_eq!(action_for(&text, b'k' as u32, true, true, &t), Some(Action::Split));
    assert!(text.contains("preview_scale=0.5"));
}

#[test]
fn a_preset_that_is_applied_is_in_force() {
    let t = table();
    for preset in presets() {
        let text = apply_preset("", &preset, &t);
        for (action, s) in &preset.bindings {
            assert_eq!(binding(&text, *action, &t), Combo::parse(s, &t).unwrap());
        }
    }
}

#[test]
fn without_a_preference_the_default_binding_holds() {
    let t = table();
    for (action, s) in &default_preset().bindings {
        assert_eq!(binding("", *action, &t), Combo::parse(s, &t).unwrap());
    }
}

#[test]
fn a_preset_leaves_other_preferences_alone() {
    let t = table();
    for preset in presets() {
        let text = apply_preset("theme=dark\nkey.undo=ctrl+u\nscale=0.5\n", &preset, &t);
        assert_eq!(pref_value(&text, "theme").unwrap(), "dark");
        assert_eq!(pref_value(&text, "scale").unwrap(), "0.5");
    }
}
