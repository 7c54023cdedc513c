use longcut::command::Command;
use longcut::effect::{EffectTemplate, ShellCommandTemplate};
use longcut::key::{XkbNames, Key, Symbol};
use longcut::layer::{Action, Layer};
use longcut::navigation::{LayerNavigation, NavigationOutcome, ViewAction};

fn xkb() -> XkbNames {
    let keysyms: Vec<(String, u32)> = [
        ("Escape", 0xff1b),
        ("Return", 0xff0d),
        ("BackSpace", 0xff08),
        ("Caps_Lock", 0xffe5),
        ("space", 0x20),
        ("Tab", 0xff09),
        ("Prior", 0xff55),
        ("Page_Up", 0xff55),
        ("Up", 0xff52),
        ("Shift_L", 0xffe1),
        ("XF86AudioMute", 0x1008ff12),
    ]
    .iter()
    .map(|(n, k)| (n.to_string(), *k))
    .collect();
    let names: Vec<(u32, String)> = [
        (0xff1b, "Escape"),
        (0xff0d, "Return"),
        (0xff08, "BackSpace"),
        (0xffe5, "Caps_Lock"),
        (0x20, "space"),
        (0xff09, "Tab"),
        (0xff55, "Prior"),
        (0xff52, "Up"),
        (0xffe1, "Shift_L"),
        (0x1008ff12, "XF86AudioMute"),
    ]
    .iter()
    .map(|(k, n)| (*k, n.to_string()))
    .collect();
    XkbNames { keysyms, names }
}

fn key(name: &str) -> Key {
    Key::new(Symbol::from_str(name, &xkb()).unwrap())
}

fn command(name: &str) -> Command {
    let step = EffectTemplate::ShellCommand(ShellCommandTemplate::new("true").unwrap());
    Command::new(name.to_string(), vec![step], vec![]).unwrap()
}

fn tree() -> Layer {
    let mut apps = Layer::new("Apps".to_string());
    apps.add_command(key("f"), command("Firefox")).unwrap();
    let mut root = Layer::new("Root".to_string());
    root.add_layer(key("a"), apps).unwrap();
    root.add_command(key("t"), command("Terminal")).unwrap();
    root
}

#[test]
fn a_branch_key_enters_the_sub_layer_and_back_leaves_it() {
    let root = tree();
    let exit = vec![Key::new(Symbol::escape())];
    let back = vec![Key::new(Symbol::backspace())];
    let mut navigation = LayerNavigation::new(&root);
    assert!(!navigation.is_branched());

    assert!(matches!(navigation.handle_press(&key("a"), &exit, &back), NavigationOutcome::Branched));
    assert!(navigation.is_branched());
    assert_eq!(navigation.active_layer().name, "Apps");
    assert_eq!(navigation.layer_names(), vec!["Root".to_string(), "Apps".to_string()]);

    assert!(matches!(navigation.handle_press(&back[0], &exit, &back), NavigationOutcome::Unbranched));
    assert!(!navigation.is_branched());
    assert_eq!(navigation.active_layer().name, "Root");
}

#[test]
fn a_back_key_at_the_root_means_nothing() {
    let root = tree();
    let exit = vec![Key::new(Symbol::escape())];
    let back = vec![Key::new(Symbol::backspace())];
    let mut navigation = LayerNavigation::new(&root);
    assert!(matches!(navigation.handle_press(&back[0], &exit, &back), NavigationOutcome::Ignored));
}

#[test]
fn an_exit_key_ends_the_session_at_any_depth() {
    let root = tree();
    let exit = vec![Key::new(Symbol::escape())];
    let back: Vec<Key> = vec![];
    let mut navigation = LayerNavigation::new(&root);
    assert!(matches!(navigation.handle_press(&exit[0], &exit, &back), NavigationOutcome::Exit));
    navigation.handle_press(&key("a"), &exit, &back);
    assert!(matches!(navigation.handle_press(&exit[0], &exit, &back), NavigationOutcome::Exit));
}

#[test]
fn a_command_key_hands_back_the_command() {
    let root = tree();
    let exit = vec![Key::new(Symbol::escape())];
    let back: Vec<Key> = vec![];
    let mut navigation = LayerNavigation::new(&root);
    match navigation.handle_press(&key("t"), &exit, &back) {
        NavigationOutcome::Execute(command) => assert_eq!(command.name(), "Terminal"),
        _ => panic!("the terminal command was not handed back"),
    }
    assert!(matches!(navigation.handle_press(&key("z"), &exit, &back), NavigationOutcome::Ignored));
}

#[test]
fn the_view_offers_the_layer_then_back_then_exit() {
    let root = tree();
    let exit = vec![Key::new(Symbol::escape())];
    let back = vec![Key::new(Symbol::backspace())];
    let mut navigation = LayerNavigation::new(&root);
    let at_root = navigation.view_actions(&exit, &back);
    assert_eq!(at_root.len(), 3);
    assert!(matches!(&at_root[0].1, ViewAction::Branch(name) if name == "Apps"));
    assert!(matches!(&at_root[1].1, ViewAction::Execute(name) if name == "Terminal"));
    assert!(matches!(at_root[2].1, ViewAction::Exit));

    navigation.handle_press(&key("a"), &exit, &back);
    let in_apps = navigation.view_actions(&exit, &back);
    assert_eq!(in_apps.len(), 3);
    assert!(matches!(&in_apps[0].1, ViewAction::Execute(name) if name == "Firefox"));
    assert!(matches!(in_apps[1].1, ViewAction::Unbranch));
    assert!(matches!(in_apps[2].1, ViewAction::Exit));
}

#[test]
fn a_taken_shortcut_is_refused() {
    let mut root = Layer::new("Root".to_string());
    root.add_command(key("t"), command("Terminal")).unwrap();
    let refused = root.add_command(key("t"), command("Other"));
    match refused {
        Err((k, Action::Execute(c))) => {
            assert_eq!(k, key("t"));
            assert_eq!(c.name(), "Other");
        }
        _ => panic!("the second binding was accepted"),
    }
    assert!(matches!(root.resolve_shortcut(&key("t")), Some(Action::Execute(c)) if c.name() == "Terminal"));
}
