use longcut::key::{XkbNames, Key, KeyParseError, Modifier, Symbol};
use xkeysym::{key, Keysym};

/// The name libxkbcommon gives a keysym: xkeysym's name for it (the one xkbcommon re-exports)
/// without the `XK_` of the C constant.
fn xkb_name(keysym: u32) -> String {
    Keysym::new(keysym).name().unwrap().replacen("XK_", "", 1)
}

/// Names and keysyms as xkb knows them, taken from the keysym constants and names of xkeysym.
fn xkb() -> XkbNames {
    let known = [
        key::Escape,
        key::Return,
        key::BackSpace,
        key::Caps_Lock,
        key::space,
        key::Tab,
        key::Prior,
        key::Up,
        key::Shift_L,
        key::XF86_AudioMute,
    ];
    let mut keysyms: Vec<(String, u32)> = known.iter().map(|k| (xkb_name(*k), *k)).collect();
    keysyms.push(("Page_Up".to_string(), key::Page_Up));
    let names: Vec<(u32, String)> = known.iter().map(|k| (*k, xkb_name(*k))).collect();
    XkbNames { keysyms, names }
}

#[test]
fn a_single_character_parses_to_the_symbol_that_types_it() {
    assert_eq!(Symbol::from_str("a", &xkb()), Ok(Symbol(0x61)));
    assert_eq!(Symbol::from_str("A", &xkb()), Ok(Symbol(0x41)));
    assert_eq!(Symbol::from_str("!", &xkb()), Ok(Symbol(0x21)));
    assert_eq!(Symbol::from_str("ä", &xkb()), Ok(Symbol(0xe4)));
    assert_eq!(Symbol::from_str(" ", &xkb()), Ok(Symbol(0x20)));
}

#[test]
fn an_xkb_keysym_name_parses_exactly() {
    assert_eq!(Symbol::from_str("Escape", &xkb()), Ok(Symbol::escape()));
    assert_eq!(Symbol::from_str("Caps_Lock", &xkb()), Ok(Symbol(0xffe5)));
    assert_eq!(Symbol::from_str("space", &xkb()), Ok(Symbol(0x20)));
    assert_eq!(Symbol::from_str("XF86AudioMute", &xkb()), Ok(Symbol(0x1008ff12)));
}

#[test]
fn every_xkb_spelling_of_a_symbol_is_accepted() {
    assert_eq!(Symbol::from_str("Page_Up", &xkb()), Symbol::from_str("Prior", &xkb()));
}

#[test]
fn a_name_xkb_does_not_know_is_rejected() {
    for name in ["capslock", "escape", "Caps Lock", ""] {
        assert_eq!(
            Symbol::from_str(name, &xkb()),
            Err(KeyParseError::UnknownSymbol(name.to_string()))
        );
    }
}

#[test]
fn a_modifier_parses_by_its_exact_name() {
    assert_eq!(Modifier::from_str("Shift"), Ok(Modifier::Shift));
    assert_eq!(
        Modifier::from_str("shift"),
        Err(KeyParseError::UnknownModifier("shift".to_string()))
    );
}

#[test]
fn a_symbol_that_types_a_visible_character_renders_as_that_character() {
    assert_eq!(Symbol(0x61).to_string(&xkb()), "a");
    assert_eq!(Symbol(0x41).to_string(&xkb()), "A");
    assert_eq!(Symbol(0x21).to_string(&xkb()), "!");
    assert_eq!(Symbol(0xffb1).to_string(&xkb()), "1");
}

#[test]
fn other_symbols_render_by_their_canonical_xkb_name() {
    assert_eq!(Symbol(0x20).to_string(&xkb()), "space");
    assert_eq!(Symbol(0xff09).to_string(&xkb()), "Tab");
    assert_eq!(Symbol(0xffe5).to_string(&xkb()), "Caps_Lock");
    assert_eq!(Symbol(0xff55).to_string(&xkb()), "Prior");
}

#[test]
fn a_symbol_types_its_character_unless_it_is_a_control_character() {
    assert_eq!(Symbol(0x61).character(), Some('a'));
    assert_eq!(Symbol(0x20).character(), Some(' '));
    assert_eq!(Symbol::return_key().character(), None);
    assert_eq!(Symbol::escape().character(), None);
}

#[test]
fn a_key_renders_its_modifiers_before_the_symbol() {
    let mut key = Key::new(Symbol(0xff52));
    key.add_modifier(Modifier::Shift);
    key.add_modifier(Modifier::Control);
    assert_eq!(key.to_string(&xkb()), "Control+Shift+Up");
}

#[test]
fn a_key_parse_error_is_reported_with_the_quoted_name() {
    assert_eq!(
        KeyParseError::UnknownSymbol("capslock".to_string()).to_string(),
        "\"capslock\" is not an xkb keysym name"
    );
    assert_eq!(
        KeyParseError::UnknownModifier("shift".to_string()).to_string(),
        "\"shift\" is not a modifier name"
    );
}

#[test]
fn modifier_names_are_their_xkb_names() {
    assert_eq!(Modifier::Alt.name(), "Alt");
    assert_eq!(Modifier::Control.name(), "Control");
    assert_eq!(Modifier::Shift.name(), "Shift");
    assert_eq!(Modifier::Super.name(), "Super");
}

#[test]
fn keys_order_by_symbol_then_by_modifiers() {
    let a = Key::new(Symbol(0x61));
    let mut a_shift = Key::new(Symbol(0x61));
    a_shift.add_modifier(Modifier::Shift);
    let b = Key::new(Symbol(0x62));
    assert!(a.code() < a_shift.code());
    assert!(a_shift.code() < b.code());
}

#[test]
fn characters_beyond_latin_1_have_their_own_keysyms() {
    assert_eq!(Symbol::from_char('ą'), Some(Symbol(0x1b1)));
    assert_eq!(Symbol(0x1b1).character(), Some('ą'));
    assert_eq!(Symbol::from_keysym(0), None);
}

#[test]
fn names_are_looked_up_in_the_xkb_table() {
    let names = xkb();
    assert_eq!(names.find_keysym("Page_Up"), 0xff55);
    assert_eq!(names.find_keysym("Nonsense"), 0);
    assert_eq!(names.find_name(0xff55), "Prior");
    assert_eq!(names.find_name(0x1234), "");
}

#[test]
fn control_characters_stand_for_their_function_keys() {
    assert_eq!(Symbol::from_char('\r'), Some(Symbol::return_key()));
    assert_eq!(Symbol::from_char('\u{8}'), Some(Symbol::backspace()));
    assert_eq!(Symbol::from_char('\u{1b}'), Some(Symbol::escape()));
    assert_eq!(Symbol::from_char('\u{7f}'), Some(Symbol(0xffff)));
    assert_eq!(Symbol::from_char('\u{fdd0}'), None);
    assert_eq!(Symbol::from_char('\u{fffe}'), None);
}

#[test]
fn keypad_and_unicode_keysyms_type_their_characters() {
    assert_eq!(Symbol(0xff80).character(), Some(' '));
    assert_eq!(Symbol(0xffb7).character(), Some('7'));
    assert_eq!(Symbol(0xff8d).character(), None);
    assert_eq!(Symbol(0x010020ac).character(), Some('€'));
    assert_eq!(Symbol(0x0100d800).character(), None);
}

#[test]
fn a_looked_up_keysym_is_the_symbol_unless_it_is_none() {
    assert_eq!(Symbol::from_lookup("Prior", 0xff55), Ok(Symbol(0xff55)));
    assert_eq!(
        Symbol::from_lookup("Nothing", 0),
        Err(KeyParseError::UnknownSymbol("Nothing".to_string()))
    );
}
