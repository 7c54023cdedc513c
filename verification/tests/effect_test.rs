use longcut::effect::{Effect, EffectTemplate, ShellCommandTemplate};
use std::collections::BTreeSet;

fn strings(values: &[&str]) -> Vec<String> {
    values.iter().map(|v| v.to_string()).collect()
}

#[test]
fn empty_string_is_not_allowed() {
    let empty_program = "";
    assert!(ShellCommandTemplate::new(empty_program).is_err());
}

#[test]
fn empty_parameter_placeholder_is_not_allowed() {
    let program_with_empty_param = "echo {}";
    assert!(ShellCommandTemplate::new(program_with_empty_param).is_err());
}

#[test]
fn parameterless_usage() {
    let program = "echo Hello!";
    let template = ShellCommandTemplate::new(program).unwrap();
    assert_eq!(template.get_required_parameters().len(), 0);

    let no_parameters: Vec<String> = vec![];
    let effect = template.render(&no_parameters).unwrap();
    let Effect::ShellCommand {
        program: rendered,
        is_synchronous,
    } = effect;
    assert_eq!(rendered, program);
    assert!(!is_synchronous);
}

#[test]
fn single_parameter_usage() {
    let program_with_parameters = "echo 'Hello {2}'";
    let template = ShellCommandTemplate::new(program_with_parameters).unwrap();
    assert_eq!(template.get_required_parameters(), BTreeSet::from([2]));

    let parameters = strings(&["foo", "bar", "baz"]);
    let effect = template.render(&parameters).unwrap();
    let Effect::ShellCommand { program, .. } = effect;
    assert_eq!(program, "echo 'Hello baz'");
}

#[test]
fn placeholders_at_either_end_and_back_to_back_render() {
    let template = ShellCommandTemplate::new("{0}{1} and {2}").unwrap();
    assert_eq!(
        template.get_required_parameters(),
        BTreeSet::from([0, 1, 2])
    );

    let effect = template.render(&strings(&["a", "b", "c"])).unwrap();
    let Effect::ShellCommand { program, .. } = effect;
    assert_eq!(program, "ab and c");
}

#[test]
fn multiple_parameter_usage() {
    let program_with_parameters = "echo 'Hello {2}, {0}, and {2} again!'";
    let template = ShellCommandTemplate::new(program_with_parameters).unwrap();
    assert_eq!(template.get_required_parameters(), BTreeSet::from([0, 2]));

    let parameters = strings(&["foo", "bar", "baz"]);
    let effect = template.render(&parameters).unwrap();
    let Effect::ShellCommand { program, .. } = effect;
    assert_eq!(program, "echo 'Hello baz, foo, and baz again!'");
}

#[test]
fn render_fails_when_parameters_are_missing() {
    let template_string = "echo 'Hello {0}!";
    let template = ShellCommandTemplate::new(template_string).unwrap();
    let no_parameters: Vec<String> = vec![];
    let result = template.render(&no_parameters);
    assert!(result.is_err());
}

#[test]
fn an_index_that_is_not_a_number_is_reported() {
    let error = ShellCommandTemplate::new("echo {x}").unwrap_err();
    assert_eq!(
        error,
        "x is not a valid parameter index: invalid digit found in string"
    );
    assert_eq!(
        ShellCommandTemplate::new("").unwrap_err(),
        "program must not be an empty string"
    );
}

#[test]
fn unmatched_braces_are_text() {
    let template = ShellCommandTemplate::new("a } b {0").unwrap();
    assert!(template.get_required_parameters().is_empty());
    let Effect::ShellCommand { program, .. } = template.render(&strings(&[])).unwrap();
    assert_eq!(program, "a } b {0");

    let nested = ShellCommandTemplate::new("{{0}}").unwrap();
    let Effect::ShellCommand { program, .. } = nested.render(&strings(&["x"])).unwrap();
    assert_eq!(program, "{x}");
}

#[test]
fn a_braced_word_is_not_an_index() {
    let error = ShellCommandTemplate::new("awk '{print}'").unwrap_err();
    assert_eq!(
        error,
        "print is not a valid parameter index: invalid digit found in string"
    );
}

#[test]
fn a_synchronous_template_renders_a_synchronous_effect() {
    let mut template = EffectTemplate::ShellCommand(ShellCommandTemplate::new("sleep {0}").unwrap());
    template.set_synchronous(true);
    assert_eq!(template.get_required_parameters(), BTreeSet::from([0]));
    assert_eq!(template.parameter_indexes(), vec![0]);
    let Effect::ShellCommand { program, is_synchronous } =
        template.render(&strings(&["1"])).unwrap();
    assert_eq!(program, "sleep 1");
    assert!(is_synchronous);
}

#[test]
fn parameter_indexes_follow_the_program_order() {
    let template = ShellCommandTemplate::new("echo {2} {0} {2} {1}").unwrap();
    assert_eq!(template.parameter_indexes(), vec![2, 0, 2, 1]);
}

#[test]
fn a_value_put_into_a_placeholder_is_not_searched_again() {
    let template = ShellCommandTemplate::new("echo {0}{1}").unwrap();
    match template.render(&strings(&["{1}", "x"])).unwrap() {
        Effect::ShellCommand { program, .. } => assert_eq!(program, "echo {1}x"),
    }
}
