//! Running a command: reading its parameter values one by one, running its effects one after
//! another, and what a failed effect leads to. The outside work (key presses, shell commands)
//! is done by the caller, which hands each outcome back and is told what to do next.
use crate::command::{
    effect_view, lemma_fitting_values_substitute, renders_to, substitutions, Command,
    CommandParameter,
};
use crate::effect::Effect;
use crate::key::Key;
use crate::navigation::{append_key_actions, keys_contain, shows_system, SystemAction, ViewAction};
use crate::parameter::{value_fits, ParameterValueVariant};
use crate::parameter_input::ParameterInputResult;
use crate::port::ExecutorError;
use crate::text::{chars_of, str_to_string, trim, trimmed_range};
use vstd::prelude::*;

verus! {

/// How running a command ended for the session.
#[derive(Debug, Clone, Copy, PartialEq, Eq, Structural)]
pub enum CommandExecutionResult {
    /// The session ends.
    Finished,
    /// The session goes on.
    KeepGoing,
}

/// What the user chose after an effect failed.
#[derive(Debug, Clone, Copy, PartialEq, Eq, Structural)]
pub enum ErrorResult {
    /// End the session.
    Abort,
    /// Abandon the command, keep the session.
    Cancel,
    /// Run the failed effect again.
    Retry,
}

/// The choice a press makes while an error is shown: exit keys abort, back keys cancel, retry
/// keys retry, in that order of precedence; other presses choose nothing.
pub fn error_choice(press: &Key, keys_exit: &[Key], keys_back: &[Key], keys_retry: &[Key]) -> (r:
    Option<ErrorResult>)
    ensures
        keys_exit@.contains(*press) ==> r == Some(ErrorResult::Abort),
        !keys_exit@.contains(*press) && keys_back@.contains(*press) ==> r == Some(
            ErrorResult::Cancel,
        ),
        !keys_exit@.contains(*press) && !keys_back@.contains(*press) && keys_retry@.contains(*press)
            ==> r == Some(ErrorResult::Retry),
        !keys_exit@.contains(*press) && !keys_back@.contains(*press) && !keys_retry@.contains(
            *press,
        ) ==> r is None,
{
    if keys_contain(keys_exit, press) {
        Some(ErrorResult::Abort)
    } else if keys_contain(keys_back, press) {
        Some(ErrorResult::Cancel)
    } else if keys_contain(keys_retry, press) {
        Some(ErrorResult::Retry)
    } else {
        None
    }
}

/// The heading shown for an error.
pub open spec fn error_type_text(error: ExecutorError) -> Seq<char> {
    match error {
        ExecutorError::RuntimeError(_) => "Runtime error"@,
        ExecutorError::StartupError => "Startup error"@,
        ExecutorError::UnknownError => "Unknown error"@,
    }
}

/// The details shown for an error: what the failed command reported, trimmed, or a fixed
/// explanation.
pub open spec fn error_details_text(error: ExecutorError) -> Seq<char> {
    match error {
        ExecutorError::RuntimeError(details) => trim(details@),
        ExecutorError::StartupError => "Failed to start the target command"@,
        ExecutorError::UnknownError => "No error details available"@,
    }
}

/// The heading shown for an error.
pub fn error_type(error: &ExecutorError) -> (r: &'static str)
    ensures
        r@ == error_type_text(*error),
{
    match error {
        ExecutorError::RuntimeError(_) => "Runtime error",
        ExecutorError::StartupError => "Startup error",
        ExecutorError::UnknownError => "Unknown error",
    }
}

/// The details shown for an error.
pub fn error_details(error: &ExecutorError) -> (r: String)
    ensures
        r@ == error_details_text(*error),
{
    match error {
        ExecutorError::RuntimeError(details) => {
            let chars = chars_of(details.as_str());
            let r = trimmed_range(&chars, 0, chars.len());
            proof {
                assert(chars@.subrange(0, chars@.len() as int) =~= details@);
            }
            r
        },
        ExecutorError::StartupError => str_to_string("Failed to start the target command"),
        ExecutorError::UnknownError => str_to_string("No error details available"),
    }
}

/// Whether `actions` binds, in order, each key of the three lists to its system action: the
/// back keys first, then `second`, then `third`.
pub open spec fn binds_in_order(
    actions: Seq<(Key, ViewAction)>,
    lists: Seq<(Seq<Key>, SystemAction)>,
) -> bool
    decreases lists.len(),
{
    if lists.len() == 0 {
        actions.len() == 0
    } else {
        let (keys, s) = lists[0];
        &&& actions.len() >= keys.len()
        &&& forall|i: int|
            0 <= i < keys.len() ==> (#[trigger] actions[i]).0 == keys[i] && shows_system(
                s,
                actions[i].1,
            )
        &&& binds_in_order(actions.skip(keys.len() as int), lists.drop_first())
    }
}

/// The key bindings shown with an error: back keys cancel, exit keys abort, retry keys retry.
pub fn error_view_actions(keys_back: &[Key], keys_exit: &[Key], keys_retry: &[Key]) -> (r: Vec<
    (Key, ViewAction),
>)
    ensures
        binds_in_order(
            r@,
            seq![
                (keys_back@, SystemAction::Unbranch),
                (keys_exit@, SystemAction::Exit),
                (keys_retry@, SystemAction::Retry),
            ],
        ),
{
    let mut r: Vec<(Key, ViewAction)> = Vec::new();
    let ghost a0 = r@;
    append_key_actions(&mut r, keys_back, SystemAction::Unbranch);
    let ghost a1 = r@;
    append_key_actions(&mut r, keys_exit, SystemAction::Exit);
    let ghost a2 = r@;
    append_key_actions(&mut r, keys_retry, SystemAction::Retry);
    proof {
        let lists = seq![
            (keys_back@, SystemAction::Unbranch),
            (keys_exit@, SystemAction::Exit),
            (keys_retry@, SystemAction::Retry),
        ];
        let n1 = keys_back@.len() as int;
        let n2 = keys_exit@.len() as int;
        let n3 = keys_retry@.len() as int;
        let rest1 = r@.skip(n1);
        let rest2 = rest1.skip(n2);
        let rest3 = rest2.skip(n3);
        assert(rest3 =~= Seq::<(Key, ViewAction)>::empty());
        assert(lists.drop_first().drop_first().drop_first() =~= Seq::<(Seq<Key>, SystemAction)>::empty());
        assert(binds_in_order(rest3, lists.drop_first().drop_first().drop_first()));
        assert forall|i: int| 0 <= i < n3 implies (#[trigger] rest2[i]).0 == keys_retry@[i]
            && shows_system(SystemAction::Retry, rest2[i].1) by {
            assert(rest2[i] == r@[n1 + n2 + i]);
        }
        assert(lists.drop_first().drop_first() =~= seq![(keys_retry@, SystemAction::Retry)]);
        assert(binds_in_order(rest2, lists.drop_first().drop_first()));
        assert forall|i: int| 0 <= i < n2 implies (#[trigger] rest1[i]).0 == keys_exit@[i]
            && shows_system(SystemAction::Exit, rest1[i].1) by {
            assert(rest1[i] == r@[n1 + i]);
            assert(r@[n1 + i] == a2[n1 + i]);
        }
        assert(lists.drop_first() =~= seq![
            (keys_exit@, SystemAction::Exit),
            (keys_retry@, SystemAction::Retry),
        ]);
        assert(binds_in_order(rest1, lists.drop_first()));
        assert forall|i: int| 0 <= i < n1 implies (#[trigger] r@[i]).0 == keys_back@[i]
            && shows_system(SystemAction::Unbranch, r@[i].1) by {
            assert(r@[i] == a2[i]);
            assert(a2[i] == a1[i]);
            assert(a1[a0.len() + i] == a1[i]);
        }
    }
    r
}

/// What the caller does next while a command runs.
#[derive(Debug)]
pub enum ExecutionStep {
    /// Read a value for the parameter at this index and hand the outcome to
    /// [`CommandExecution::parameter_read`].
    ReadParameter(usize),
    /// Run this effect: when it succeeds, call [`CommandExecution::effect_succeeded`]; when it
    /// fails, show the error and hand the user's choice to [`CommandExecution::error_resolved`].
    Run(Effect),
    /// The command is over.
    Done(CommandExecutionResult),
}

/// How a command that ran all its effects leaves the session.
pub open spec fn completion(command: Command) -> CommandExecutionResult {
    if command.ends_session() {
        CommandExecutionResult::Finished
    } else {
        CommandExecutionResult::KeepGoing
    }
}

/// A command on its way: the values read so far, then the rendered effects and how many of them
/// have run.
pub struct CommandExecution<'a> {
    command: &'a Command,
    values: Vec<ParameterValueVariant>,
    read: Ghost<Seq<ParameterValueVariant>>,
    effects: Vec<Effect>,
    next: usize,
}

/// A copy of an effect.
fn copy_effect(e: &Effect) -> (r: Effect)
    ensures
        effect_view(r) == effect_view(*e),
{
    match e {
        Effect::ShellCommand { program, is_synchronous } => Effect::ShellCommand {
            program: program.clone(),
            is_synchronous: *is_synchronous,
        },
    }
}

impl<'a> CommandExecution<'a> {
    /// The command being run.
    pub closed spec fn command(self) -> Command {
        *self.command
    }

    /// The parameter values read so far, in order.
    pub closed spec fn value_seq(self) -> Seq<ParameterValueVariant> {
        self.read@
    }

    /// The rendered effects; empty while values are being read.
    pub closed spec fn effect_seq(self) -> Seq<Effect> {
        self.effects@
    }

    /// How many effects have run.
    pub closed spec fn position(self) -> nat {
        self.next as nat
    }

    /// The declared parameters of the command.
    pub open spec fn parameters(self) -> Seq<CommandParameter> {
        self.command().parameter_seq()
    }

    /// Whether values are still being read.
    pub open spec fn reading(self) -> bool {
        self.value_seq().len() < self.parameters().len()
    }

    /// The command is well formed, each value read fits its parameter, and once all are read the
    /// effects are the command's steps rendered with them.
    pub open spec fn wf(self) -> bool {
        &&& self.command().wf()
        &&& self.value_seq().len() <= self.parameters().len()
        &&& forall|i: int|
            0 <= i < self.value_seq().len() ==> value_fits(
                #[trigger] self.parameters()[i].parameter,
                self.value_seq()[i],
            )
        &&& self.reading() ==> self.effect_seq().len() == 0 && self.position() == 0
        &&& !self.reading() ==> (substitutions(self.parameters(), self.value_seq()) matches Ok(subs)
            && self.effect_seq().len() == self.command().step_seq().len() && self.position()
            <= self.effect_seq().len() && forall|i: int|
            0 <= i < self.effect_seq().len() ==> renders_to(
                self.command().step_seq()[i],
                subs,
                #[trigger] self.effect_seq()[i],
            ))
        &&& self.valid()
    }

    /// While values are read, the values held are those read.
    pub closed spec fn valid(self) -> bool {
        self.reading() ==> self.values@ == self.read@
    }

    /// Whether `step` is what comes next: the next parameter while values are read, then the
    /// next effect, then the end of the command.
    pub open spec fn next_step_is(self, step: ExecutionStep) -> bool {
        if self.reading() {
            step == ExecutionStep::ReadParameter(self.value_seq().len() as usize)
        } else if self.position() < self.effect_seq().len() {
            step matches ExecutionStep::Run(e) && effect_view(e) == effect_view(
                self.effect_seq()[self.position() as int],
            )
        } else {
            step == ExecutionStep::Done(completion(self.command()))
        }
    }

    /// The step that comes next, once all values are read.
    fn step_after_reading(&self) -> (r: ExecutionStep)
        requires
            self.wf(),
            !self.reading(),
        ensures
            self.next_step_is(r),
    {
        if self.next < self.effects.len() {
            ExecutionStep::Run(copy_effect(&self.effects[self.next]))
        } else if self.command.is_final() {
            ExecutionStep::Done(CommandExecutionResult::Finished)
        } else {
            ExecutionStep::Done(CommandExecutionResult::KeepGoing)
        }
    }

    /// Renders the effects once every value is read.
    fn render(&mut self)
        requires
            old(self).command().wf(),
            old(self).value_seq().len() == old(self).parameters().len(),
            forall|i: int|
                0 <= i < old(self).value_seq().len() ==> value_fits(
                    #[trigger] old(self).parameters()[i].parameter,
                    old(self).value_seq()[i],
                ),
            old(self).values@ == old(self).read@,
        ensures
            final(self).wf(),
            final(self).command() == old(self).command(),
            final(self).value_seq() == old(self).value_seq(),
            final(self).position() == 0,
    {
        proof {
            lemma_fitting_values_substitute(self.parameters(), self.value_seq());
        }
        let mut values: Vec<ParameterValueVariant> = Vec::new();
        std::mem::swap(&mut values, &mut self.values);
        match self.command.render_effects(values) {
            Ok(effects) => {
                self.effects = effects;
                self.next = 0;
            },
            Err(_) => {
                proof {
                    assert(false);
                }
            },
        }
    }

    /// Starts running `command`: its first parameter is read, or, without parameters, its first
    /// effect runs.
    pub fn start(command: &'a Command) -> (r: (CommandExecution<'a>, ExecutionStep))
        requires
            command.wf(),
        ensures
            r.0.wf(),
            r.0.command() == *command,
            r.0.value_seq().len() == 0,
            r.0.position() == 0,
            r.0.next_step_is(r.1),
    {
        let mut execution = CommandExecution {
            command,
            values: Vec::new(),
            read: Ghost(Seq::empty()),
            effects: Vec::new(),
            next: 0,
        };
        if command.get_parameters().len() == 0 {
            execution.render();
            let step = execution.step_after_reading();
            (execution, step)
        } else {
            (execution, ExecutionStep::ReadParameter(0))
        }
    }

    /// Takes the outcome of reading the next parameter. A back key abandons the command and keeps
    /// the session; an exit key ends the session. A value that fits the parameter is kept, and
    /// once the last one is read the effects are rendered and the first one runs; a value that
    /// does not fit is not kept and the parameter is read again.
    pub fn parameter_read(&mut self, result: ParameterInputResult) -> (r: ExecutionStep)
        requires
            old(self).wf(),
            old(self).reading(),
        ensures
            final(self).wf(),
            final(self).command() == old(self).command(),
            match result {
                ParameterInputResult::Cancel => r == ExecutionStep::Done(
                    CommandExecutionResult::KeepGoing,
                ) && final(self).value_seq() == old(self).value_seq(),
                ParameterInputResult::Exit => r == ExecutionStep::Done(
                    CommandExecutionResult::Finished,
                ) && final(self).value_seq() == old(self).value_seq(),
                ParameterInputResult::Value(v) => if value_fits(
                    old(self).parameters()[old(self).value_seq().len() as int].parameter,
                    v,
                ) {
                    &&& final(self).value_seq() == old(self).value_seq().push(v)
                    &&& final(self).position() == 0
                    &&& final(self).next_step_is(r)
                } else {
                    final(self).value_seq() == old(self).value_seq() && r
                        == ExecutionStep::ReadParameter(old(self).value_seq().len() as usize)
                },
            },
    {
        match result {
            ParameterInputResult::Cancel => ExecutionStep::Done(CommandExecutionResult::KeepGoing),
            ParameterInputResult::Exit => ExecutionStep::Done(CommandExecutionResult::Finished),
            ParameterInputResult::Value(v) => {
                let index = self.values.len();
                let parameters = self.command.get_parameters();
                if !parameters[index].parameter.fits(&v) {
                    return ExecutionStep::ReadParameter(index);
                }
                let ghost v0 = v;
                self.values.push(v);
                self.read = Ghost(self.read@.push(v0));
                if self.values.len() < parameters.len() {
                    ExecutionStep::ReadParameter(self.values.len())
                } else {
                    self.render();
                    self.step_after_reading()
                }
            },
        }
    }

    /// The running effect succeeded: the next one runs, or, after the last, the command is over
    /// and the session ends if the command is final.
    pub fn effect_succeeded(&mut self) -> (r: ExecutionStep)
        requires
            old(self).wf(),
            !old(self).reading(),
            old(self).position() < old(self).effect_seq().len(),
        ensures
            final(self).wf(),
            final(self).command() == old(self).command(),
            final(self).value_seq() == old(self).value_seq(),
            final(self).effect_seq() == old(self).effect_seq(),
            final(self).position() == old(self).position() + 1,
            final(self).next_step_is(r),
    {
        assert(self.next < self.effects.len());
        self.next = self.next + 1;
        self.step_after_reading()
    }

    /// The running effect failed and the user chose: aborting ends the session, cancelling
    /// abandons the command, retrying runs the same effect again.
    pub fn error_resolved(&self, choice: ErrorResult) -> (r: ExecutionStep)
        requires
            self.wf(),
            !self.reading(),
            self.position() < self.effect_seq().len(),
        ensures
            choice == ErrorResult::Abort ==> r == ExecutionStep::Done(
                CommandExecutionResult::Finished,
            ),
            choice == ErrorResult::Cancel ==> r == ExecutionStep::Done(
                CommandExecutionResult::KeepGoing,
            ),
            choice == ErrorResult::Retry ==> self.next_step_is(r),
    {
        match choice {
            ErrorResult::Abort => ExecutionStep::Done(CommandExecutionResult::Finished),
            ErrorResult::Cancel => ExecutionStep::Done(CommandExecutionResult::KeepGoing),
            ErrorResult::Retry => self.step_after_reading(),
        }
    }
}

} // verus!
