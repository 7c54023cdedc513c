use longcut::key::{XkbNames, Key, Symbol};
use longcut::parameter::{CharacterParameter, ChooseParameter, ParameterValueVariant, TextParameter};
use longcut::parameter_input::{
    character_input_step, split_generated_options, unique_strings, ChooseInput, ParameterInputResult,
    TextInput,
};

fn xkb() -> XkbNames {
    let keysyms: Vec<(String, u32)> = [
        ("Escape", 0xff1b),
        ("Return", 0xff0d),
        ("BackSpace", 0xff08),
        ("Caps_Lock", 0xffe5),
        ("space", 0x20),
        ("Tab", 0xff09),
        ("Prior", 0xff55),
        ("Page_Up", 0xff55),
        ("Up", 0xff52),
        ("Shift_L", 0xffe1),
        ("XF86AudioMute", 0x1008ff12),
    ]
    .iter()
    .map(|(n, k)| (n.to_string(), *k))
    .collect();
    let names: Vec<(u32, String)> = [
        (0xff1b, "Escape"),
        (0xff0d, "Return"),
        (0xff08, "BackSpace"),
        (0xffe5, "Caps_Lock"),
        (0x20, "space"),
        (0xff09, "Tab"),
        (0xff55, "Prior"),
        (0xff52, "Up"),
        (0xffe1, "Shift_L"),
        (0x1008ff12, "XF86AudioMute"),
    ]
    .iter()
    .map(|(k, n)| (*k, n.to_string()))
    .collect();
    XkbNames { keysyms, names }
}

fn key(name: &str) -> Key {
    Key::new(Symbol::from_str(name, &xkb()).unwrap())
}

fn keys() -> (Vec<Key>, Vec<Key>) {
    (vec![Key::new(Symbol::escape())], vec![Key::new(Symbol::backspace())])
}

#[test]
fn a_character_is_read_from_the_first_typing_press() {
    let (exit, back) = keys();
    assert!(character_input_step(&CharacterParameter, &key("Shift_L"), &exit, &back).is_none());
    match character_input_step(&CharacterParameter, &key("x"), &exit, &back) {
        Some(ParameterInputResult::Value(ParameterValueVariant::Character(v))) => {
            assert_eq!(v.take(), 'x')
        }
        other => panic!("unexpected {other:?}"),
    }
    assert!(matches!(
        character_input_step(&CharacterParameter, &exit[0], &exit, &back),
        Some(ParameterInputResult::Exit)
    ));
    assert!(matches!(
        character_input_step(&CharacterParameter, &back[0], &exit, &back),
        Some(ParameterInputResult::Cancel)
    ));
}

#[test]
fn text_is_typed_corrected_and_submitted() {
    let (exit, back) = keys();
    let mut input = TextInput::new();
    assert!(matches!(
        input.handle_press(&TextParameter, &back[0], &exit, &back),
        Some(ParameterInputResult::Cancel)
    ));
    for name in ["h", "i", "x"] {
        assert!(input.handle_press(&TextParameter, &key(name), &exit, &back).is_none());
    }
    assert!(input.handle_press(&TextParameter, &back[0], &exit, &back).is_none());
    assert_eq!(input.input, "hi");
    match input.handle_press(&TextParameter, &Key::new(Symbol::return_key()), &exit, &back) {
        Some(ParameterInputResult::Value(ParameterValueVariant::Text(v))) => {
            assert_eq!(v.take(), "hi")
        }
        other => panic!("unexpected {other:?}"),
    }
}

#[test]
fn generated_output_is_split_trimmed_and_filtered() {
    assert_eq!(
        split_generated_options(" one \n\ntwo\n  \nthree\n", "\n"),
        vec!["one".to_string(), "two".to_string(), "three".to_string()]
    );
    assert_eq!(
        split_generated_options("a, b,,c", ","),
        vec!["a".to_string(), "b".to_string(), "c".to_string()]
    );
    assert_eq!(
        split_generated_options("ab", ""),
        vec!["a".to_string(), "b".to_string()]
    );
}

#[test]
fn repeated_options_are_offered_once() {
    let options = vec!["b".to_string(), "a".to_string(), "b".to_string()];
    assert_eq!(unique_strings(&options), vec!["b".to_string(), "a".to_string()]);
}

#[test]
fn choosing_offers_configured_then_generated_options() {
    let (exit, back) = keys();
    let parameter = ChooseParameter::new(
        Some(vec!["apple".to_string(), "banana".to_string()]),
        Some("ls".to_string()),
        None,
    )
    .unwrap();
    let input = ChooseInput::new(&parameter, Some("cherry\napple\n"));
    let offered = input.view_options();
    assert_eq!(offered.len(), 3);
    assert!(offered.contains(&(key("a"), "apple".to_string())));
    assert!(offered.contains(&(key("b"), "banana".to_string())));
    assert!(offered.contains(&(key("c"), "cherry".to_string())));

    match input.handle_press(&parameter, &key("b"), &exit, &back) {
        Some(ParameterInputResult::Value(ParameterValueVariant::Choose(v))) => {
            assert_eq!(v.take(), "banana")
        }
        other => panic!("unexpected {other:?}"),
    }
    // A generated option is offered but is not one of the configured options.
    assert!(input.handle_press(&parameter, &key("c"), &exit, &back).is_none());
    assert!(input.handle_press(&parameter, &key("z"), &exit, &back).is_none());
    assert!(matches!(
        input.handle_press(&parameter, &exit[0], &exit, &back),
        Some(ParameterInputResult::Exit)
    ));
}

#[test]
fn configured_options_keep_their_shortcuts_whatever_is_generated() {
    let parameter = ChooseParameter::new(
        Some(vec!["alpha".to_string(), "apple".to_string()]),
        Some("gen".to_string()),
        None,
    )
    .unwrap();
    let alone = ChooseInput::new(&parameter, None).view_options();
    let with_pear = ChooseInput::new(&parameter, Some("pear")).view_options();
    assert!(alone.contains(&(key("p"), "apple".to_string())));
    assert!(with_pear.contains(&(key("p"), "apple".to_string())));
    assert!(with_pear.contains(&(key("a"), "alpha".to_string())));
    assert!(with_pear.contains(&(key("e"), "pear".to_string())));
    assert_eq!(with_pear.len(), 3);
}
