use longcut::config::{
    command_from_schema, find_application, key_from_schema, parameter_from_schema, reject_shadowed_shortcuts,
    try_parse_layer, ApplicationConfigSchema, CommandSchema, Config, ConfigSchema,
    GenerateOptionsSchema, KeyAndModifiersSchema, KeySchema, LayerSchema, ModifierSchema,
    OneOrManySchema, ParameterSchema, StepSchema, SymbolSchema,
};
use longcut::key::{Key, Modifier, Symbol, XkbNames};
use longcut::layer::Action;
use longcut::parameter::ParameterDefinitionVariant;

fn xkb() -> XkbNames {
    let keysyms: Vec<(String, u32)> = [
        ("Escape", 0xff1b),
        ("Return", 0xff0d),
        ("BackSpace", 0xff08),
        ("Caps_Lock", 0xffe5),
        ("space", 0x20),
        ("Tab", 0xff09),
        ("Prior", 0xff55),
        ("Page_Up", 0xff55),
        ("Up", 0xff52),
        ("Shift_L", 0xffe1),
        ("XF86AudioMute", 0x1008ff12),
    ]
    .iter()
    .map(|(n, k)| (n.to_string(), *k))
    .collect();
    let names: Vec<(u32, String)> = [
        (0xff1b, "Escape"),
        (0xff0d, "Return"),
        (0xff08, "BackSpace"),
        (0xffe5, "Caps_Lock"),
        (0x20, "space"),
        (0xff09, "Tab"),
        (0xff55, "Prior"),
        (0xff52, "Up"),
        (0xffe1, "Shift_L"),
        (0x1008ff12, "XF86AudioMute"),
    ]
    .iter()
    .map(|(k, n)| (*k, n.to_string()))
    .collect();
    XkbNames { keysyms, names }
}

fn key_schema(name: &str) -> KeySchema {
    KeySchema::Key(SymbolSchema(name.to_string()))
}

fn command_schema(name: &str, shortcut: &str, program: &str) -> CommandSchema {
    CommandSchema {
        name: name.to_string(),
        shortcut: key_schema(shortcut),
        steps: vec![StepSchema { bash: program.to_string() }],
        parameters: None,
        is_final: true,
        is_synchronous: true,
    }
}

fn key(name: &str) -> Key {
    Key::new(Symbol::from_str(name, &xkb()).unwrap())
}

fn empty_config() -> ConfigSchema {
    ConfigSchema {
        keys_back: None,
        keys_exit: None,
        layers: None,
        commands: None,
        app_specific_layers: vec![],
    }
}

#[test]
fn a_key_with_modifiers_is_parsed() {
    let schema = KeySchema::KeyAndModifiers(KeyAndModifiersSchema {
        key: SymbolSchema("t".to_string()),
        modifiers: OneOrManySchema::Many(vec![
            ModifierSchema("Control".to_string()),
            ModifierSchema("Alt".to_string()),
        ]),
    });
    let mut expected = key("t");
    expected.add_modifier(Modifier::Control);
    expected.add_modifier(Modifier::Alt);
    assert_eq!(key_from_schema(schema, &xkb()), Ok(expected));

    let bad = KeySchema::KeyAndModifiers(KeyAndModifiersSchema {
        key: SymbolSchema("t".to_string()),
        modifiers: OneOrManySchema::One(ModifierSchema("Ctrl".to_string())),
    });
    assert_eq!(key_from_schema(bad, &xkb()), Err("\"Ctrl\" is not a modifier name".to_string()));
    assert_eq!(
        key_from_schema(key_schema("nokey"), &xkb()),
        Err("\"nokey\" is not an xkb keysym name".to_string())
    );
}

#[test]
fn parameters_are_built_by_type() {
    let text = parameter_from_schema(ParameterSchema {
        name: "who".to_string(),
        type_: "text".to_string(),
        options: None,
        generate_options: None,
    })
    .unwrap();
    assert!(matches!(text.parameter, ParameterDefinitionVariant::Text(_)));
    let choose = parameter_from_schema(ParameterSchema {
        name: "file".to_string(),
        type_: "choose".to_string(),
        options: None,
        generate_options: Some(GenerateOptionsSchema {
            command: "ls".to_string(),
            split_by: Some(",".to_string()),
        }),
    })
    .unwrap();
    match choose.parameter {
        ParameterDefinitionVariant::Choose(p) => {
            assert_eq!(p.gen_options_command, Some("ls".to_string()));
            assert_eq!(p.gen_options_split_by, ",");
        }
        _ => panic!("not a choose parameter"),
    }
    let unknown = parameter_from_schema(ParameterSchema {
        name: "n".to_string(),
        type_: "number".to_string(),
        options: None,
        generate_options: None,
    });
    assert_eq!(unknown.unwrap_err(), "parameter type number is unsupported");
    let empty_choice = parameter_from_schema(ParameterSchema {
        name: "n".to_string(),
        type_: "choose".to_string(),
        options: None,
        generate_options: None,
    });
    assert_eq!(
        empty_choice.unwrap_err(),
        "Invalid 'choose' parameter configuration: either options or generate_options must be given"
    );
}

#[test]
fn command_errors_are_reported_as_text() {
    let mut missing = command_schema("Greet", "g", "echo {0}");
    missing.parameters = None;
    assert_eq!(
        command_from_schema(missing, &xkb()).unwrap_err(),
        "required 0. parameter was not declared"
    );
    let mut unused = command_schema("Greet", "g", "echo hi");
    unused.parameters = Some(OneOrManySchema::One(ParameterSchema {
        name: "who".to_string(),
        type_: "text".to_string(),
        options: None,
        generate_options: None,
    }));
    assert_eq!(
        command_from_schema(unused, &xkb()).unwrap_err(),
        "declared 0. parameter is unused"
    );
    let mut stepless = command_schema("Nothing", "n", "true");
    stepless.steps = vec![];
    assert_eq!(
        command_from_schema(stepless, &xkb()).unwrap_err(),
        "Command has no associated steps"
    );
}

#[test]
fn a_command_is_synchronous_and_final_as_configured() {
    let mut schema = command_schema("Open", "o", "xdg-open .");
    schema.is_final = false;
    schema.is_synchronous = false;
    let (k, command) = command_from_schema(schema, &xkb()).unwrap();
    assert_eq!(k, key("o"));
    assert!(!command.is_final());
}

#[test]
fn layers_nest_and_reject_taken_keys() {
    let sub = LayerSchema {
        layers: None,
        commands: Some(vec![command_schema("Firefox", "f", "firefox")]),
        shortcut: key_schema("a"),
        name: "Apps".to_string(),
    };
    let layer = try_parse_layer(
        "Root".to_string(),
        Some(vec![sub]),
        Some(vec![command_schema("Terminal", "t", "xterm")]), &xkb(),
    )
    .unwrap();
    assert_eq!(layer.name, "Root");
    assert!(matches!(layer.resolve_shortcut(&key("a")), Some(Action::Branch(l)) if l.name == "Apps"));
    assert!(matches!(layer.resolve_shortcut(&key("t")), Some(Action::Execute(c)) if c.name() == "Terminal"));

    let conflict = try_parse_layer(
        "Root".to_string(),
        None,
        Some(vec![
            command_schema("Terminal", "t", "xterm"),
            command_schema("Top", "t", "top"),
        ]), &xkb(),
    );
    assert_eq!(
        conflict.unwrap_err(),
        "Could not assign command to key t because of an existing binding!"
    );

    let layer_conflict = try_parse_layer(
        "Root".to_string(),
        Some(vec![
            LayerSchema { layers: None, commands: None, shortcut: key_schema("a"), name: "A".to_string() },
            LayerSchema { layers: None, commands: None, shortcut: key_schema("a"), name: "B".to_string() },
        ]),
        None, &xkb(),
    );
    assert_eq!(
        layer_conflict.unwrap_err(),
        "Can not assign layer to key a because of an existing binding!"
    );
}

#[test]
fn shortcuts_consumed_by_exit_or_back_keys_are_rejected() {
    let sub = LayerSchema {
        layers: None,
        commands: Some(vec![command_schema("Back", "BackSpace", "true")]),
        shortcut: key_schema("a"),
        name: "Apps".to_string(),
    };
    let layer = try_parse_layer("Root".to_string(), Some(vec![sub]), None, &xkb()).unwrap();
    let exit = vec![Key::new(Symbol::escape())];
    let back = vec![Key::new(Symbol::backspace())];
    assert_eq!(
        reject_shadowed_shortcuts(&layer, &exit, &back, &xkb()).unwrap_err(),
        "Shortcut BackSpace in layer \"Apps\" can never be pressed because it is consumed by keys_back"
    );
    let root_back = try_parse_layer(
        "Root".to_string(),
        None,
        Some(vec![command_schema("Back", "BackSpace", "true")]), &xkb(),
    )
    .unwrap();
    assert!(reject_shadowed_shortcuts(&root_back, &exit, &back, &xkb()).is_ok());
}

#[test]
fn an_empty_configuration_exits_with_escape() {
    let config = Config::try_from(empty_config(), &xkb()).unwrap();
    assert!(config.keys_back.is_empty());
    assert_eq!(config.keys_exit, vec![Key::new(Symbol::escape())]);
    assert_eq!(config.root_layer.name, "Root");
    assert!(config.app_specific_layers.is_empty());
}

#[test]
fn an_exit_key_bound_in_the_root_layer_is_rejected() {
    let mut schema = empty_config();
    schema.commands = Some(vec![command_schema("Quit", "Escape", "true")]);
    assert_eq!(
        Config::try_from(schema, &xkb()).unwrap_err(),
        "Shortcut Escape in layer \"Root\" can never be pressed because it is consumed by keys_exit"
    );
}

#[test]
fn applications_are_found_by_their_pattern() {
    let mut schema = empty_config();
    schema.app_specific_layers = vec![
        ApplicationConfigSchema {
            pattern: "^Mozilla".to_string(),
            layers: None,
            commands: Some(vec![command_schema("Reload", "r", "xdotool key F5")]),
        },
        ApplicationConfigSchema {
            pattern: "term".to_string(),
            layers: None,
            commands: None,
        },
    ];
    let config = Config::try_from(schema, &xkb()).unwrap();
    assert_eq!(config.app_specific_layers[0].root_layer.name, "^Mozilla");
    assert_eq!(find_application(&config.app_specific_layers, "Mozilla Firefox"), Some(0));
    assert_eq!(find_application(&config.app_specific_layers, "xterm"), Some(1));
    assert_eq!(find_application(&config.app_specific_layers, "Emacs"), None);
}

#[test]
fn an_invalid_pattern_is_reported() {
    let mut schema = empty_config();
    schema.app_specific_layers = vec![ApplicationConfigSchema {
        pattern: "(".to_string(),
        layers: None,
        commands: None,
    }];
    let error = Config::try_from(schema, &xkb()).unwrap_err();
    assert!(error.starts_with("Invalid regex pattern \"(\": "));
}

#[test]
fn back_and_exit_keys_can_be_configured() {
    let mut schema = empty_config();
    schema.keys_back = Some(OneOrManySchema::One(key_schema("BackSpace")));
    schema.keys_exit = Some(OneOrManySchema::Many(vec![key_schema("Escape"), key_schema("q")]));
    let config = Config::try_from(schema, &xkb()).unwrap();
    assert_eq!(config.keys_back, vec![Key::new(Symbol::backspace())]);
    assert_eq!(config.keys_exit, vec![Key::new(Symbol::escape()), key("q")]);
}
