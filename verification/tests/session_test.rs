use longcut::key::{Key, Symbol};
use longcut::navigation::ViewAction;
use longcut::startup::{check_module_config, init_error, ConfigError};
use longcut::window::{
    dismisses_unconfigured, retry_keys, unconfigured_details, unconfigured_type,
    unconfigured_view_actions, window_label,
};

#[test]
fn an_unnamed_window_is_called_unknown() {
    assert_eq!(window_label(""), "unknown");
    assert_eq!(window_label("xterm"), "xterm");
    assert_eq!(
        unconfigured_details(""),
        "No matching configuration found for \"unknown\" application"
    );
    assert_eq!(
        unconfigured_details("Firefox"),
        "No matching configuration found for \"Firefox\" application"
    );
    assert_eq!(unconfigured_type(), "Application unconfigured");
}

#[test]
fn back_and_exit_keys_dismiss_the_unconfigured_message() {
    let back = vec![Key::new(Symbol::backspace())];
    let exit = vec![Key::new(Symbol::escape())];
    assert!(dismisses_unconfigured(&back[0], &exit, &back));
    assert!(dismisses_unconfigured(&exit[0], &exit, &back));
    assert!(!dismisses_unconfigured(&Key::new(Symbol(0x61)), &exit, &back));
    let actions = unconfigured_view_actions(&back, &exit);
    assert_eq!(actions.len(), 2);
    assert!(matches!(actions[0].1, ViewAction::Unbranch));
    assert!(matches!(actions[1].1, ViewAction::Exit));
}

#[test]
fn retrying_is_confirmed_with_return() {
    assert_eq!(retry_keys(), vec![Key::new(Symbol::return_key())]);
}

#[test]
fn startup_failures_name_the_part_and_the_cause() {
    assert_eq!(
        init_error("config", "file not found"),
        "config initialization failed.\n\nCause: file not found"
    );
    assert_eq!(check_module_config("core", Ok(())), Ok(()));
    assert_eq!(
        check_module_config("core", Err(ConfigError::KeyNotFound)),
        Err("Missing configuration for module core".to_string())
    );
    assert_eq!(
        check_module_config(
            "gui",
            Err(ConfigError::DeserializationError("bad font".to_string()))
        ),
        Err("Invalid configuration for module gui: bad font".to_string())
    );
}
