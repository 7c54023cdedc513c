use longcut::command::{Command, CommandError, CommandParameter, EffectRenderError};
use longcut::effect::{Effect, EffectTemplate, ShellCommandTemplate};
use longcut::parameter::{
    CharacterParameter, ChooseParameter, Parameter, ParameterDefinitionVariant,
    ParameterValueVariant, TextParameter,
};

fn step(program: &str) -> EffectTemplate {
    EffectTemplate::ShellCommand(ShellCommandTemplate::new(program).unwrap())
}

#[test]
fn can_build_parameterless_command() {
    let greeter = step("echo 'Hello world!'");
    let result = Command::new("Greet the world".into(), vec![greeter], vec![]);
    assert!(result.is_ok());
}

#[test]
fn stepless_command_cannot_be_built() {
    let result = Command::new("Do nothing".into(), vec![], vec![]);
    assert!(result.is_err());
}

#[test]
fn can_build_parameterless_multi_step_command() {
    let greet_you = step("echo 'Hi there!'");
    let greet_me = step("echo 'Hello myself!'");
    let result = Command::new("Greet us".into(), vec![greet_you, greet_me], vec![]);
    assert!(result.is_ok());
}

#[test]
fn can_build_command_with_parameters() {
    let greet_target = step("echo 'Hi {0}!'");
    let param_target = CommandParameter::new(
        "Example".into(),
        ParameterDefinitionVariant::Text(TextParameter),
    );
    let result = Command::new("Greet".into(), vec![greet_target], vec![param_target]);
    assert!(result.is_ok());
}

#[test]
fn required_parameters_must_be_declared() {
    let greet_target = step("echo 'Hi {0}!'");
    let result = Command::new("Greet".into(), vec![greet_target], vec![]);
    assert!(result.is_err());
    assert_eq!(result.unwrap_err(), CommandError::MissingParameter(0));
}

#[test]
fn declared_parameters_must_be_required() {
    let greet_target = step("echo 'Hello!'");
    let param_target = CommandParameter::new(
        "Example".into(),
        ParameterDefinitionVariant::Text(TextParameter),
    );
    let result = Command::new("Greet".into(), vec![greet_target], vec![param_target]);
    assert!(result.is_err());
    assert_eq!(result.unwrap_err(), CommandError::UnusedParameter(0));
}

#[test]
fn command_effects_can_be_rendered() {
    let greet_target = step("echo 'Hello {0}'");
    let param_target = CommandParameter::new(
        "Example".into(),
        ParameterDefinitionVariant::Text(TextParameter),
    );
    let command = Command::new("Greet".into(), vec![greet_target], vec![param_target]).unwrap();
    let values = vec![ParameterValueVariant::Text(
        TextParameter.try_assign_value("World".to_string()).unwrap(),
    )];
    let effects = command.render_effects(values).unwrap();
    assert_eq!(effects.len(), 1);
    let Effect::ShellCommand { program, .. } = &effects[0];
    assert_eq!(program, "echo 'Hello World'");
}

#[test]
fn the_least_undeclared_index_is_reported() {
    let result = Command::new("Two".into(), vec![step("echo {3} {1}")], vec![]);
    assert_eq!(result.unwrap_err(), CommandError::MissingParameter(1));
}

#[test]
fn the_least_unused_index_is_reported() {
    let parameters = vec![
        CommandParameter::new("a".into(), ParameterDefinitionVariant::Text(TextParameter)),
        CommandParameter::new("b".into(), ParameterDefinitionVariant::Text(TextParameter)),
        CommandParameter::new("c".into(), ParameterDefinitionVariant::Text(TextParameter)),
    ];
    let result = Command::new("Uses one".into(), vec![step("echo {1}")], parameters);
    assert_eq!(result.unwrap_err(), CommandError::UnusedParameter(0));
}

#[test]
fn a_new_command_does_not_end_the_session_until_set_final() {
    let mut command = Command::new("Greet".into(), vec![step("echo hi")], vec![]).unwrap();
    assert!(!command.is_final());
    command.set_final(true);
    assert!(command.is_final());
    assert_eq!(command.name(), "Greet");
}

#[test]
fn a_value_of_another_kind_does_not_render() {
    let command = Command::new(
        "Greet".into(),
        vec![step("echo {0}")],
        vec![CommandParameter::new(
            "who".into(),
            ParameterDefinitionVariant::Character(CharacterParameter),
        )],
    )
    .unwrap();
    let values = vec![ParameterValueVariant::Text(
        TextParameter.try_assign_value("World".to_string()).unwrap(),
    )];
    assert_eq!(
        command.render_effects(values).unwrap_err(),
        EffectRenderError::ParameterDefinitionAndValueMismatch
    );
}

#[test]
fn a_missing_value_does_not_render() {
    let command = Command::new(
        "Greet".into(),
        vec![step("echo {0}")],
        vec![CommandParameter::new(
            "who".into(),
            ParameterDefinitionVariant::Text(TextParameter),
        )],
    )
    .unwrap();
    assert_eq!(
        command.render_effects(vec![]).unwrap_err(),
        EffectRenderError::ParameterMissing
    );
}

#[test]
fn a_chosen_value_renders_in_place_of_its_placeholder() {
    let choose = ChooseParameter::new(
        Some(vec!["left".to_string(), "right".to_string()]),
        None,
        None,
    )
    .unwrap();
    let value = choose.try_assign_value("right".to_string()).unwrap();
    let command = Command::new(
        "Turn".into(),
        vec![step("turn {0} now")],
        vec![CommandParameter::new(
            "direction".into(),
            ParameterDefinitionVariant::Choose(choose),
        )],
    )
    .unwrap();
    let effects = command
        .render_effects(vec![ParameterValueVariant::Choose(value)])
        .unwrap();
    let Effect::ShellCommand { program, is_synchronous } = &effects[0];
    assert_eq!(program, "turn right now");
    assert!(!is_synchronous);
}

#[test]
fn an_option_outside_the_list_is_not_accepted() {
    let choose = ChooseParameter::new(Some(vec!["left".to_string()]), None, None).unwrap();
    assert!(choose.try_assign_value("up".to_string()).is_err());
}

#[test]
fn a_choose_parameter_needs_options_or_a_generating_command() {
    let error = ChooseParameter::new(None, None, None).unwrap_err();
    assert_eq!(error, "either options or generate_options must be given");
    let generated = ChooseParameter::new(None, Some("ls".to_string()), None).unwrap();
    assert_eq!(generated.gen_options_split_by, "\n");
}

#[test]
fn a_character_value_is_taken_back_unchanged() {
    let value = CharacterParameter.try_assign_value('x').unwrap();
    assert_eq!(value.take(), 'x');
}
