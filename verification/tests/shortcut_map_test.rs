use longcut::key::{XkbNames, Key, Modifier, Symbol};
use longcut::shortcut_map::ShortcutMap;

fn xkb() -> XkbNames {
    let keysyms: Vec<(String, u32)> = [
        ("Escape", 0xff1b),
        ("Return", 0xff0d),
        ("BackSpace", 0xff08),
        ("Caps_Lock", 0xffe5),
        ("space", 0x20),
        ("Tab", 0xff09),
        ("Prior", 0xff55),
        ("Page_Up", 0xff55),
        ("Up", 0xff52),
        ("Shift_L", 0xffe1),
        ("XF86AudioMute", 0x1008ff12),
    ]
    .iter()
    .map(|(n, k)| (n.to_string(), *k))
    .collect();
    let names: Vec<(u32, String)> = [
        (0xff1b, "Escape"),
        (0xff0d, "Return"),
        (0xff08, "BackSpace"),
        (0xffe5, "Caps_Lock"),
        (0x20, "space"),
        (0xff09, "Tab"),
        (0xff55, "Prior"),
        (0xff52, "Up"),
        (0xffe1, "Shift_L"),
        (0x1008ff12, "XF86AudioMute"),
    ]
    .iter()
    .map(|(k, n)| (*k, n.to_string()))
    .collect();
    XkbNames { keysyms, names }
}

fn key(name: &str) -> Key {
    Key::new(Symbol::from_str(name, &xkb()).unwrap())
}

#[test]
fn can_insert_and_match_inserted() {
    let mut shortcuts = ShortcutMap::new();
    let key = key("a");
    shortcuts.try_assign(key, 1).unwrap();
    assert_eq!(shortcuts.get(&key).unwrap(), &1);
}

#[test]
fn double_insert_is_conflict() {
    let mut shortcuts = ShortcutMap::new();
    let key = key("a");

    let result_1 = shortcuts.try_assign(key, 1);
    assert!(result_1.is_ok());

    let result_2 = shortcuts.try_assign(key, 2);
    assert!(result_2.is_err());
}

#[test]
fn a_key_with_extra_modifiers_does_not_match_a_modifierless_shortcut() {
    let mut shortcuts = ShortcutMap::new();
    let key_without_mods = key("a");

    let mut key_with_mods = key("a");
    key_with_mods.add_modifier(Modifier::Control);

    shortcuts.try_assign(key_without_mods, 1).unwrap();
    assert!(shortcuts.match_exact(&key_without_mods).is_some());
    assert!(shortcuts.match_exact(&key_with_mods).is_none());
}

#[test]
fn a_key_without_modifiers_does_not_match_a_modified_shortcut() {
    let mut shortcuts = ShortcutMap::new();
    let key_without_mods = key("a");

    let mut key_with_mods = key("a");
    key_with_mods.add_modifier(Modifier::Control);

    shortcuts.try_assign(key_with_mods, 1).unwrap();
    assert!(shortcuts.match_exact(&key_without_mods).is_none());
    assert!(shortcuts.match_exact(&key_with_mods).is_some());
}

#[test]
fn auto_assign_with_unique_keys_works() {
    let mut shortcuts = ShortcutMap::new();

    let options: Vec<(&str, u8)> = vec![("alpha", 0), ("beta", 1)];
    shortcuts.auto_assign_mnemonics(options);

    assert_eq!(shortcuts.match_exact(&key("a")).unwrap(), &0);
    assert_eq!(shortcuts.match_exact(&key("b")).unwrap(), &1);
    assert!(shortcuts.match_exact(&key("c")).is_none());
}

#[test]
fn auto_assign_resolves_conflict_by_using_the_next_character() {
    let mut shortcuts = ShortcutMap::new();

    let options: Vec<(&str, u8)> = vec![("alpha", 0), ("apple", 1)];
    shortcuts.auto_assign_mnemonics(options);

    assert_eq!(shortcuts.match_exact(&key("a")).unwrap(), &0);
    assert_eq!(shortcuts.match_exact(&key("p")).unwrap(), &1);
}

#[test]
fn auto_assign_assigns_priority_by_order_of_inputs_when_conflicting() {
    let key_a = key("a");

    {
        let mut shortcuts = ShortcutMap::new();
        let alpha_first: Vec<(&str, u8)> = vec![("alpha", 0), ("apple", 1)];
        shortcuts.auto_assign_mnemonics(alpha_first);
        assert_eq!(shortcuts.match_exact(&key_a).unwrap(), &0);
    }

    {
        let mut shortcuts = ShortcutMap::new();
        let apple_first: Vec<(&str, u8)> = vec![("apple", 1), ("alpha", 0)];
        shortcuts.auto_assign_mnemonics(apple_first);
        assert_eq!(shortcuts.match_exact(&key_a).unwrap(), &1);
    }
}

#[test]
fn auto_assign_conflict_resolution_prioritizes_conflict_free_mappings() {
    let mut shortcuts = ShortcutMap::new();

    let options: Vec<(&str, u8)> = vec![("alpha", 0), ("abracadabra", 1), ("banana", 2)];
    shortcuts.auto_assign_mnemonics(options);

    assert_eq!(shortcuts.match_exact(&key("a")).unwrap(), &0);
    assert_eq!(shortcuts.match_exact(&key("b")).unwrap(), &2);
    assert_eq!(shortcuts.match_exact(&key("r")).unwrap(), &1);
}

#[test]
fn auto_assign_falls_back_to_a_set_of_predefined_characters() {
    let mut shortcuts = ShortcutMap::new();
    let options: Vec<(&str, u8)> = vec![("a", 0), ("a", 1), ("a", 2)];
    shortcuts.auto_assign_mnemonics(options);

    assert_eq!(shortcuts.match_exact(&key("a")).unwrap(), &0);
    assert_eq!(shortcuts.match_exact(&key("1")).unwrap(), &1);
    assert_eq!(shortcuts.match_exact(&key("2")).unwrap(), &2);
}

#[test]
fn mnemonics_keep_the_shortcuts_already_assigned() {
    let mut shortcuts = ShortcutMap::new();
    shortcuts.try_assign(key("a"), 9).unwrap();
    shortcuts.auto_assign_mnemonics(vec![("alpha", 0)]);
    assert_eq!(shortcuts.match_exact(&key("a")).unwrap(), &9);
    assert_eq!(shortcuts.match_exact(&key("l")).unwrap(), &0);
    assert_eq!(shortcuts.len(), 2);
}

#[test]
fn entries_come_in_key_order() {
    let mut shortcuts = ShortcutMap::new();
    shortcuts.try_assign(key("c"), 3).unwrap();
    shortcuts.try_assign(key("a"), 1).unwrap();
    shortcuts.try_assign(key("b"), 2).unwrap();
    let values: Vec<i32> = shortcuts.entries().iter().map(|(_, v)| *v).collect();
    assert_eq!(values, vec![1, 2, 3]);
}
