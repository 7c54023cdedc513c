use longcut::command::{Command, CommandParameter};
use longcut::effect::{Effect, EffectTemplate, ShellCommandTemplate};
use longcut::execution::{
    error_choice, error_details, error_type, error_view_actions, CommandExecution,
    CommandExecutionResult, ErrorResult, ExecutionStep,
};
use longcut::key::{Key, Symbol};
use longcut::navigation::ViewAction;
use longcut::parameter::{
    CharacterParameter, Parameter, ParameterDefinitionVariant, ParameterValueVariant, TextParameter,
};
use longcut::parameter_input::ParameterInputResult;
use longcut::port::ExecutorError;

fn step(program: &str) -> EffectTemplate {
    EffectTemplate::ShellCommand(ShellCommandTemplate::new(program).unwrap())
}

fn greeting() -> Command {
    Command::new(
        "Greet".to_string(),
        vec![step("echo {0}"), step("echo {1}!")],
        vec![
            CommandParameter::new("who".into(), ParameterDefinitionVariant::Text(TextParameter)),
            CommandParameter::new(
                "mark".into(),
                ParameterDefinitionVariant::Character(CharacterParameter),
            ),
        ],
    )
    .unwrap()
}

fn text(value: &str) -> ParameterInputResult {
    ParameterInputResult::Value(ParameterValueVariant::Text(
        TextParameter.try_assign_value(value.to_string()).unwrap(),
    ))
}

fn character(value: char) -> ParameterInputResult {
    ParameterInputResult::Value(ParameterValueVariant::Character(
        CharacterParameter.try_assign_value(value).unwrap(),
    ))
}

fn program_of(step: &ExecutionStep) -> String {
    match step {
        ExecutionStep::Run(Effect::ShellCommand { program, .. }) => program.clone(),
        other => panic!("expected an effect to run, got {other:?}"),
    }
}

#[test]
fn values_are_read_then_effects_run_in_order() {
    let command = greeting();
    let (mut execution, first) = CommandExecution::start(&command);
    assert!(matches!(first, ExecutionStep::ReadParameter(0)));
    let second = execution.parameter_read(text("world"));
    assert!(matches!(second, ExecutionStep::ReadParameter(1)));
    let run = execution.parameter_read(character('?'));
    assert_eq!(program_of(&run), "echo world");
    let run = execution.effect_succeeded();
    assert_eq!(program_of(&run), "echo ?!");
    let done = execution.effect_succeeded();
    assert!(matches!(done, ExecutionStep::Done(CommandExecutionResult::KeepGoing)));
}

#[test]
fn a_final_command_ends_the_session_after_its_effects() {
    let mut command = Command::new("Lock".to_string(), vec![step("lock")], vec![]).unwrap();
    command.set_final(true);
    let (mut execution, first) = CommandExecution::start(&command);
    assert_eq!(program_of(&first), "lock");
    assert!(matches!(
        execution.effect_succeeded(),
        ExecutionStep::Done(CommandExecutionResult::Finished)
    ));
}

#[test]
fn a_value_of_the_wrong_kind_is_read_again() {
    let command = greeting();
    let (mut execution, _) = CommandExecution::start(&command);
    assert!(matches!(execution.parameter_read(character('x')), ExecutionStep::ReadParameter(0)));
}

#[test]
fn cancelling_keeps_the_session_and_exiting_ends_it() {
    let command = greeting();
    let (mut execution, _) = CommandExecution::start(&command);
    assert!(matches!(
        execution.parameter_read(ParameterInputResult::Cancel),
        ExecutionStep::Done(CommandExecutionResult::KeepGoing)
    ));
    let (mut execution, _) = CommandExecution::start(&command);
    assert!(matches!(
        execution.parameter_read(ParameterInputResult::Exit),
        ExecutionStep::Done(CommandExecutionResult::Finished)
    ));
}

#[test]
fn after_a_failure_the_choice_decides() {
    let command = Command::new("Once".to_string(), vec![step("false")], vec![]).unwrap();
    let (execution, _) = CommandExecution::start(&command);
    assert!(matches!(
        execution.error_resolved(ErrorResult::Abort),
        ExecutionStep::Done(CommandExecutionResult::Finished)
    ));
    assert!(matches!(
        execution.error_resolved(ErrorResult::Cancel),
        ExecutionStep::Done(CommandExecutionResult::KeepGoing)
    ));
    assert_eq!(program_of(&execution.error_resolved(ErrorResult::Retry)), "false");
}

#[test]
fn the_error_keys_choose_in_order_of_precedence() {
    let escape = Key::new(Symbol::escape());
    let back = Key::new(Symbol::backspace());
    let ret = Key::new(Symbol::return_key());
    let exit_keys = vec![escape];
    let back_keys = vec![back, escape];
    let retry_keys = vec![ret, back];
    assert_eq!(error_choice(&escape, &exit_keys, &back_keys, &retry_keys), Some(ErrorResult::Abort));
    assert_eq!(error_choice(&back, &exit_keys, &back_keys, &retry_keys), Some(ErrorResult::Cancel));
    assert_eq!(error_choice(&ret, &exit_keys, &back_keys, &retry_keys), Some(ErrorResult::Retry));
    let other = Key::new(Symbol(0x61));
    assert_eq!(error_choice(&other, &exit_keys, &back_keys, &retry_keys), None);
}

#[test]
fn errors_are_shown_with_their_type_and_details() {
    let runtime = ExecutorError::RuntimeError("  exit status 1\n".to_string());
    assert_eq!(error_type(&runtime), "Runtime error");
    assert_eq!(error_details(&runtime), "exit status 1");
    assert_eq!(error_type(&ExecutorError::StartupError), "Startup error");
    assert_eq!(
        error_details(&ExecutorError::StartupError),
        "Failed to start the target command"
    );
    assert_eq!(error_type(&ExecutorError::UnknownError), "Unknown error");
    assert_eq!(
        error_details(&ExecutorError::UnknownError),
        "No error details available"
    );
}

#[test]
fn the_error_view_binds_back_exit_and_retry() {
    let back = vec![Key::new(Symbol::backspace())];
    let exit = vec![Key::new(Symbol::escape())];
    let retry = vec![Key::new(Symbol::return_key())];
    let actions = error_view_actions(&back, &exit, &retry);
    assert_eq!(actions.len(), 3);
    assert_eq!(actions[0].0, back[0]);
    assert!(matches!(actions[0].1, ViewAction::Unbranch));
    assert_eq!(actions[1].0, exit[0]);
    assert!(matches!(actions[1].1, ViewAction::Exit));
    assert_eq!(actions[2].0, retry[0]);
    assert!(matches!(actions[2].1, ViewAction::Retry));
}
