//! Commands: named sequences of effect templates with declared parameters.
use crate::effect::{
    lemma_render_some, lemma_render_succeeds_iff, render_tokens, required_indexes, Effect, EffectTemplate, TemplateToken,
};
use crate::parameter::{
    is_option, value_fits, Parameter, ParameterDefinitionVariant, ParameterValueVariant,
};
use crate::text::string_push;
use vstd::prelude::*;

verus! {

/// One declared parameter of a command.
#[derive(Debug)]
pub struct CommandParameter {
    pub name: String,
    pub parameter: ParameterDefinitionVariant,
}

impl CommandParameter {
    /// A parameter with the given name and definition.
    pub fn new(name: String, parameter: ParameterDefinitionVariant) -> (r: CommandParameter)
        ensures
            r.name == name,
            r.parameter == parameter,
    {
        CommandParameter { name, parameter }
    }
}

/// A named sequence of effect templates together with the parameters they use.
#[derive(Debug)]
pub struct Command {
    pub name: String,
    steps: Vec<EffectTemplate>,
    parameters: Vec<CommandParameter>,
    pub is_final: bool,
}

/// Why a command could not be built.
#[derive(Debug, PartialEq, Eq, Clone, Copy, Structural)]
pub enum CommandError {
    NoStepsProvided,
    MissingParameter(usize),
    UnusedParameter(usize),
}

/// Why a command's effects could not be rendered.
#[derive(Debug, PartialEq, Eq, Clone, Copy, Structural)]
pub enum EffectRenderError {
    ParameterDefinitionAndValueMismatch,
    ParameterMissing,
}

/// The token sequences of the steps, in order.
pub open spec fn step_tokens(steps: Seq<EffectTemplate>) -> Seq<Seq<TemplateToken>> {
    steps.map_values(|s: EffectTemplate| s.token_seq())
}

/// Whether some of the token sequences uses parameter index `k`.
pub open spec fn tokens_use(ts: Seq<Seq<TemplateToken>>, k: nat) -> bool {
    exists|t: int| 0 <= t < ts.len() && required_indexes(ts[t]).contains(k)
}

/// Whether some step uses parameter index `k`.
pub open spec fn step_uses(steps: Seq<EffectTemplate>, k: nat) -> bool {
    tokens_use(step_tokens(steps), k)
}

/// A step uses an index exactly when the index is among those its template requires.
pub proof fn lemma_step_uses(steps: Seq<EffectTemplate>, k: nat)
    ensures
        step_uses(steps, k) <==> exists|t: int|
            0 <= t < steps.len() && required_indexes(steps[t].token_seq()).contains(k),
{
    let ts = step_tokens(steps);
    if step_uses(steps, k) {
        let t = choose|t: int| 0 <= t < ts.len() && required_indexes(ts[t]).contains(k);
        assert(ts[t] == steps[t].token_seq());
    }
    if exists|t: int| 0 <= t < steps.len() && required_indexes(steps[t].token_seq()).contains(k) {
        let t = choose|t: int|
            0 <= t < steps.len() && required_indexes(steps[t].token_seq()).contains(k);
        assert(ts[t] == steps[t].token_seq());
    }
}

/// Whether `k` is a used parameter index with no declared parameter, among `n` declared ones.
pub open spec fn is_missing(ts: Seq<Seq<TemplateToken>>, n: nat, k: nat) -> bool {
    tokens_use(ts, k) && k >= n
}

/// Whether `k` is a declared parameter, among `n`, that no step uses.
pub open spec fn is_unused(ts: Seq<Seq<TemplateToken>>, n: nat, k: nat) -> bool {
    k < n && !tokens_use(ts, k)
}

/// The outcome of checking the token sequences of a command's steps against `n` declared
/// parameters: no steps is an error; then the least used index without a declaration; then the
/// least declared index that no step uses.
pub open spec fn check_tokens(ts: Seq<Seq<TemplateToken>>, n: nat) -> Result<(), CommandError> {
    if ts.len() == 0 {
        Err(CommandError::NoStepsProvided)
    } else if exists|k: nat| is_missing(ts, n, k) {
        let k = choose|k: nat| is_missing(ts, n, k) && forall|k2: nat| is_missing(ts, n, k2) ==> k <= k2;
        Err(CommandError::MissingParameter(k as usize))
    } else if exists|k: nat| is_unused(ts, n, k) {
        let k = choose|k: nat| is_unused(ts, n, k) && forall|k2: nat| is_unused(ts, n, k2) ==> k <= k2;
        Err(CommandError::UnusedParameter(k as usize))
    } else {
        Ok(())
    }
}

/// The outcome of checking steps against `n` declared parameters.
pub open spec fn command_check(steps: Seq<EffectTemplate>, n: nat) -> Result<(), CommandError> {
    check_tokens(step_tokens(steps), n)
}

/// The text a value substitutes for its parameter, or `None` when the value does not match the
/// definition: a different kind of parameter, or a choice that is not one of the options.
pub open spec fn substitution(def: ParameterDefinitionVariant, val: ParameterValueVariant) -> Option<Seq<char>> {
    match (def, val) {
        (ParameterDefinitionVariant::Character(_), ParameterValueVariant::Character(v)) => Some(seq![v.value()]),
        (ParameterDefinitionVariant::Choose(d), ParameterValueVariant::Choose(v)) => if is_option(d.options@, v.value()@) {
            Some(v.value()@)
        } else {
            None
        },
        (ParameterDefinitionVariant::Text(_), ParameterValueVariant::Text(v)) => Some(v.value()@),
        _ => None,
    }
}

/// The substitutions for the first `k` definition-value pairs, or the error for the first pair
/// that has no substitution: a mismatch, or a definition or value without a partner.
pub open spec fn substitutions_upto(
    defs: Seq<CommandParameter>,
    vals: Seq<ParameterValueVariant>,
    k: nat,
) -> Result<Seq<Seq<char>>, EffectRenderError>
    decreases k,
{
    if k == 0 {
        Ok(Seq::empty())
    } else {
        match substitutions_upto(defs, vals, (k - 1) as nat) {
            Err(e) => Err(e),
            Ok(x) => if k - 1 < defs.len() && k - 1 < vals.len() {
                match substitution(defs[k - 1].parameter, vals[k - 1]) {
                    Some(s) => Ok(x.push(s)),
                    None => Err(EffectRenderError::ParameterDefinitionAndValueMismatch),
                }
            } else {
                Err(EffectRenderError::ParameterMissing)
            },
        }
    }
}

/// The substitutions for all pairs of definitions and values, taken in order.
pub open spec fn substitutions(defs: Seq<CommandParameter>, vals: Seq<ParameterValueVariant>) -> Result<
    Seq<Seq<char>>,
    EffectRenderError,
> {
    substitutions_upto(defs, vals, if defs.len() >= vals.len() { defs.len() } else { vals.len() })
}

/// An effect as its program and whether it runs synchronously.
pub open spec fn effect_view(e: Effect) -> (Seq<char>, bool) {
    match e {
        Effect::ShellCommand { program, is_synchronous } => (program@, is_synchronous),
    }
}

/// Whether `e` is what `step` renders to with the substitutions `subs`.
pub open spec fn renders_to(step: EffectTemplate, subs: Seq<Seq<char>>, e: Effect) -> bool {
    render_tokens(step.token_seq(), subs) == Some(effect_view(e).0) && effect_view(e).1
        == step.synchronous()
}

/// The text substituted for one definition-value pair.
fn format_substitution(def: &ParameterDefinitionVariant, val: ParameterValueVariant) -> (r: Option<String>)
    ensures
        r is Some <==> substitution(*def, val) is Some,
        r matches Some(s) ==> substitution(*def, val) == Some(s@),
{
    match (def, val) {
        (ParameterDefinitionVariant::Character(d), ParameterValueVariant::Character(v)) => {
            match d.try_assign_value(v.take()) {
                Ok(verified) => {
                    let mut s = String::new();
                    string_push(&mut s, verified.take());
                    Some(s)
                },
                Err(_) => None,
            }
        },
        (ParameterDefinitionVariant::Choose(d), ParameterValueVariant::Choose(v)) => {
            match d.try_assign_value(v.take()) {
                Ok(verified) => Some(verified.take()),
                Err(_) => None,
            }
        },
        (ParameterDefinitionVariant::Text(d), ParameterValueVariant::Text(v)) => {
            match d.try_assign_value(v.take()) {
                Ok(verified) => Some(verified.take()),
                Err(_) => None,
            }
        },
        _ => None,
    }
}

/// Once the substitutions of a prefix fail, those of every longer prefix fail the same way.
pub proof fn lemma_substitutions_error_stays(
    defs: Seq<CommandParameter>,
    vals: Seq<ParameterValueVariant>,
    k: nat,
    m: nat,
)
    requires
        k <= m,
        substitutions_upto(defs, vals, k) is Err,
    ensures
        substitutions_upto(defs, vals, m) == substitutions_upto(defs, vals, k),
    decreases m - k,
{
    if k < m {
        lemma_substitutions_error_stays(defs, vals, k + 1, m);
    }
}

/// Values that fit their parameters, one for each of the first `k`, have substitutions for
/// those `k` pairs.
proof fn lemma_fitting_prefix_substitutes(
    defs: Seq<CommandParameter>,
    vals: Seq<ParameterValueVariant>,
    k: nat,
)
    requires
        k <= defs.len(),
        k <= vals.len(),
        forall|i: int| 0 <= i < k ==> value_fits(#[trigger] defs[i].parameter, vals[i]),
    ensures
        substitutions_upto(defs, vals, k) is Ok,
        substitutions_upto(defs, vals, k) matches Ok(subs) && subs.len() == k,
    decreases k,
{
    if k > 0 {
        lemma_fitting_prefix_substitutes(defs, vals, (k - 1) as nat);
        assert(value_fits(defs[k - 1].parameter, vals[k - 1]));
    }
}

/// A value for each declared parameter, each fitting its parameter, always substitutes: the
/// command can then always be rendered.
pub proof fn lemma_fitting_values_substitute(
    defs: Seq<CommandParameter>,
    vals: Seq<ParameterValueVariant>,
)
    requires
        defs.len() == vals.len(),
        forall|i: int| 0 <= i < vals.len() ==> value_fits(#[trigger] defs[i].parameter, vals[i]),
    ensures
        substitutions(defs, vals) matches Ok(subs) && subs.len() == defs.len(),
{
    lemma_fitting_prefix_substitutes(defs, vals, defs.len());
}

impl Command {
    /// The effect templates, in order.
    pub closed spec fn step_seq(self) -> Seq<EffectTemplate> {
        self.steps@
    }

    /// The declared parameters, in order.
    pub closed spec fn parameter_seq(self) -> Seq<CommandParameter> {
        self.parameters@
    }

    /// The command's name.
    pub closed spec fn name_view(self) -> Seq<char> {
        self.name@
    }

    /// Whether the session ends after the command runs.
    pub closed spec fn ends_session(self) -> bool {
        self.is_final
    }

    /// Every used parameter index is declared and every declared parameter is used.
    pub open spec fn wf(self) -> bool {
        &&& self.step_seq().len() > 0
        &&& forall|k: nat| step_uses(self.step_seq(), k) <==> k < self.parameter_seq().len()
    }

    /// A copy of the command's name.
    pub fn name(&self) -> (r: String)
        ensures
            r@ == self.name_view(),
    {
        self.name.clone()
    }

    /// Whether the session ends after the command runs.
    pub fn is_final(&self) -> (r: bool)
        ensures
            r == self.ends_session(),
    {
        self.is_final
    }

    /// Builds a command from its steps and declared parameters.
    ///
    /// # Errors
    ///
    /// A command needs at least one step, every parameter index a step uses must be declared,
    /// and every declared parameter must be used.
    #[verifier::rlimit(40)]
    pub fn new(name: String, steps: Vec<EffectTemplate>, parameters: Vec<CommandParameter>) -> (r:
        Result<Command, CommandError>)
        ensures
            match command_check(steps@, parameters@.len()) {
                Ok(()) => r matches Ok(c) && c.wf() && c.name_view() == name@ && c.step_seq()
                    == steps@ && c.parameter_seq() == parameters@ && !c.ends_session(),
                Err(e) => r == Err::<Command, CommandError>(e),
            },
    {
        if steps.len() == 0 {
            return Err(CommandError::NoStepsProvided);
        }
        let n = parameters.len();
        let mut used: Vec<bool> = Vec::new();
        while used.len() < n
            invariant
                used.len() <= n,
                forall|i: int| 0 <= i < used.len() ==> !used@[i],
            decreases n - used.len(),
        {
            used.push(false);
        }
        let mut least_missing: Option<usize> = None;
        let mut s: usize = 0;
        while s < steps.len()
            invariant
                s <= steps.len(),
                n == parameters@.len(),
                used.len() == n,
                forall|i: int|
                    0 <= i < n ==> (used@[i] <==> exists|t: int|
                        0 <= t < s && required_indexes(steps@[t].token_seq()).contains(i as nat)),
                least_missing is None <==> forall|t: int, k: nat|
                    0 <= t < s && required_indexes(steps@[t].token_seq()).contains(k) ==> k < n,
                least_missing matches Some(m) ==> m >= n && (exists|t: int|
                    0 <= t < s && required_indexes(steps@[t].token_seq()).contains(m as nat)) && (
                forall|t: int, k: nat|
                    0 <= t < s && required_indexes(steps@[t].token_seq()).contains(k) && k >= n
                        ==> m <= k),
            decreases steps.len() - s,
        {
            let idxs = steps[s].parameter_indexes();
            let ghost req = required_indexes(steps@[s as int].token_seq());
            let mut j: usize = 0;
            while j < idxs.len()
                invariant
                    j <= idxs.len(),
                    s < steps.len(),
                    n == parameters@.len(),
                    used.len() == n,
                    req == required_indexes(steps@[s as int].token_seq()),
                    forall|jj: int| 0 <= jj < idxs@.len() ==> req.contains(#[trigger] idxs@[jj] as nat),
                    forall|i: int|
                        0 <= i < n ==> (used@[i] <==> (exists|t: int|
                            0 <= t < s && required_indexes(steps@[t].token_seq()).contains(i as nat))
                            || (exists|jj: int| 0 <= jj < j && idxs@[jj] == i)),
                    least_missing is None <==> (forall|t: int, k: nat|
                        0 <= t < s && required_indexes(steps@[t].token_seq()).contains(k) ==> k < n)
                        && (forall|jj: int| 0 <= jj < j ==> idxs@[jj] < n),
                    least_missing matches Some(m) ==> m >= n && ((exists|t: int|
                        0 <= t < s && required_indexes(steps@[t].token_seq()).contains(m as nat))
                        || (exists|jj: int| 0 <= jj < j && idxs@[jj] == m)) && (forall|t: int, k: nat|
                        0 <= t < s && required_indexes(steps@[t].token_seq()).contains(k) && k >= n
                            ==> m <= k) && (forall|jj: int| 0 <= jj < j && idxs@[jj] >= n ==> m <= idxs@[jj]),
                decreases idxs.len() - j,
            {
                let idx = idxs[j];
                if idx < n {
                    used.set(idx, true);
                } else {
                    least_missing = match least_missing {
                        None => Some(idx),
                        Some(m) => if idx < m {
                            Some(idx)
                        } else {
                            Some(m)
                        },
                    };
                }
                j += 1;
            }
            proof {
                assert forall|i: int|
                    0 <= i < n implies (used@[i] <==> exists|t: int|
                        0 <= t < s + 1 && required_indexes(steps@[t].token_seq()).contains(i as nat)) by {
                    if required_indexes(steps@[s as int].token_seq()).contains(i as nat) {
                        let jj = choose|jj: int| 0 <= jj < idxs@.len() && #[trigger] idxs@[jj] as nat == i as nat;
                        assert(idxs@[jj] == i);
                    }
                }
                assert forall|t: int, k: nat|
                    0 <= t < s + 1 && required_indexes(steps@[t].token_seq()).contains(k) && k >= n
                        && least_missing is Some implies least_missing->Some_0 <= k by {
                    if t == s {
                        let jj = choose|jj: int| 0 <= jj < idxs@.len() && #[trigger] idxs@[jj] as nat == k;
                    }
                }
                if least_missing is None {
                    assert forall|t: int, k: nat|
                        0 <= t < s + 1 && required_indexes(steps@[t].token_seq()).contains(k) implies k < n by {
                        if t == s {
                            let jj = choose|jj: int| 0 <= jj < idxs@.len() && #[trigger] idxs@[jj] as nat == k;
                        }
                    }
                }
            }
            s += 1;
        }
        if let Some(m) = least_missing {
            proof {
                assert forall|k: nat| is_missing(step_tokens(steps@), n as nat, k) implies m as nat <= k by {
                    lemma_step_uses(steps@, k);
                }
                lemma_step_uses(steps@, m as nat);
                assert(is_missing(step_tokens(steps@), n as nat, m as nat));
                let k = choose|k: nat|
                    is_missing(step_tokens(steps@), n as nat, k) && forall|k2: nat| is_missing(step_tokens(steps@), n as nat, k2) ==> k <= k2;
                assert(k <= m as nat);
                assert(m as nat <= k);
            }
            return Err(CommandError::MissingParameter(m));
        }
        proof {
            assert forall|k: nat| !is_missing(step_tokens(steps@), n as nat, k) by {
                lemma_step_uses(steps@, k);
            }
            assert forall|x: int| 0 <= x < n implies (used@[x] <==> step_uses(steps@, x as nat)) by {
                lemma_step_uses(steps@, x as nat);
            }
        }
        let mut i: usize = 0;
        while i < n
            invariant
                i <= n,
                n == parameters@.len(),
                used.len() == n,
                forall|x: int| 0 <= x < n ==> (used@[x] <==> step_uses(steps@, x as nat)),
                forall|x: nat| x < i ==> !is_unused(step_tokens(steps@), n as nat, x),
                forall|k: nat| !is_missing(step_tokens(steps@), n as nat, k),
                steps@.len() > 0,
            decreases n - i,
        {
            if !used[i] {
                proof {
                    assert(is_unused(step_tokens(steps@), n as nat, i as nat));
                    assert(!exists|k: nat| is_missing(step_tokens(steps@), n as nat, k));
                    let k = choose|k: nat|
                        is_unused(step_tokens(steps@), n as nat, k) && forall|k2: nat| is_unused(step_tokens(steps@), n as nat, k2) ==> k <= k2;
                    assert(k <= i as nat);
                    assert(i as nat <= k);
                }
                return Err(CommandError::UnusedParameter(i));
            }
            i += 1;
        }
        let c = Command { name, steps, parameters, is_final: false };
        proof {
            assert forall|k: nat| step_uses(c.step_seq(), k) <==> k < c.parameter_seq().len() by {
                if k < n {
                    assert(!is_unused(step_tokens(steps@), n as nat, k));
                } else {
                    assert(!is_missing(step_tokens(steps@), n as nat, k));
                }
            }
            assert(!exists|k: nat| is_unused(step_tokens(steps@), n as nat, k));
        }
        Ok(c)
    }

    /// The declared parameters, in order.
    pub fn get_parameters(&self) -> (r: &Vec<CommandParameter>)
        ensures
            r@ == self.parameter_seq(),
    {
        &self.parameters
    }

    /// Renders the command into its effects. The values must match the declared parameters in
    /// number, order, kind and, for choices, in being one of the options.
    ///
    /// # Errors
    ///
    /// Returns the error of the first definition-value pair, in order, that does not match or
    /// lacks a partner.
    pub fn render_effects(&self, values: Vec<ParameterValueVariant>) -> (r: Result<
        Vec<Effect>,
        EffectRenderError,
    >)
        requires
            self.wf(),
        ensures
            match substitutions(self.parameter_seq(), values@) {
                Err(e) => r == Err::<Vec<Effect>, EffectRenderError>(e),
                Ok(subs) => r matches Ok(effects) && effects@.len() == self.step_seq().len()
                    && forall|i: int|
                    0 <= i < effects@.len() ==> renders_to(
                        self.step_seq()[i],
                        subs,
                        #[trigger] effects@[i],
                    ),
            },
    {
        let ghost defs = self.parameters@;
        let ghost vals = values@;
        let n = self.parameters.len();
        let total = if n >= values.len() {
            n
        } else {
            values.len()
        };
        let mut rest = values;
        let mut subs: Vec<String> = Vec::new();
        let mut k: usize = 0;
        proof {
            assert(subs@.map_values(|s: String| s@) =~= Seq::<Seq<char>>::empty());
            assert(vals.skip(0) =~= vals);
        }
        while k < total
            invariant
                k <= total,
                k <= n,
                n == defs.len(),
                defs == self.parameters@,
                total == (if defs.len() >= vals.len() { defs.len() } else { vals.len() }),
                rest@ == vals.skip(k as int),
                vals == values@,
                subs@.len() == k,
                k <= vals.len(),
                substitutions_upto(defs, vals, k as nat) == Ok::<Seq<Seq<char>>, EffectRenderError>(
                    subs@.map_values(|s: String| s@),
                ),
            decreases total - k,
        {
            proof {
                assert(substitutions_upto(defs, vals, (k + 1) as nat) == match substitutions_upto(defs, vals, k as nat) {
                    Err(e) => Err(e),
                    Ok(x) => if (k as nat) < defs.len() && (k as nat) < vals.len() {
                        match substitution(defs[k as int].parameter, vals[k as int]) {
                            Some(s) => Ok(x.push(s)),
                            None => Err(EffectRenderError::ParameterDefinitionAndValueMismatch),
                        }
                    } else {
                        Err(EffectRenderError::ParameterMissing)
                    },
                });
            }
            if k >= n || rest.len() == 0 {
                proof {
                    assert(rest@.len() == vals.len() - k);
                    assert(substitutions_upto(defs, vals, (k + 1) as nat) == Err::<Seq<Seq<char>>, EffectRenderError>(EffectRenderError::ParameterMissing));
                    lemma_substitutions_error_stays(defs, vals, (k + 1) as nat, total as nat);
                    assert(substitutions(self.parameter_seq(), vals) == Err::<Seq<Seq<char>>, EffectRenderError>(EffectRenderError::ParameterMissing));
                }
                return Err(EffectRenderError::ParameterMissing);
            }
            let v = rest.remove(0);
            proof {
                assert(v == vals[k as int]);
                assert(vals.skip(k as int).skip(1) =~= vals.skip(k + 1));
            }
            match format_substitution(&self.parameters[k].parameter, v) {
                Some(text) => {
                    let ghost before = subs@.map_values(|s: String| s@);
                    subs.push(text);
                    proof {
                        assert(subs@.map_values(|s: String| s@) =~= before.push(text@));
                    }
                },
                None => {
                    proof {
                        assert(substitutions_upto(defs, vals, (k + 1) as nat) == Err::<Seq<Seq<char>>, EffectRenderError>(EffectRenderError::ParameterDefinitionAndValueMismatch));
                        lemma_substitutions_error_stays(defs, vals, (k + 1) as nat, total as nat);
                        assert(substitutions(self.parameter_seq(), vals) == Err::<Seq<Seq<char>>, EffectRenderError>(EffectRenderError::ParameterDefinitionAndValueMismatch));
                    }
                    return Err(EffectRenderError::ParameterDefinitionAndValueMismatch);
                },
            }
            k += 1;
        }
        let ghost sv = subs@.map_values(|s: String| s@);
        proof {
            assert(k == total);
            assert(total == n);
            assert(sv.len() == subs@.len());
            assert(substitutions(self.parameter_seq(), vals) == Ok::<Seq<Seq<char>>, EffectRenderError>(sv));
        }
        let mut effects: Vec<Effect> = Vec::new();
        let mut t: usize = 0;
        while t < self.steps.len()
            invariant
                t <= self.steps.len(),
                self.wf(),
                sv == subs@.map_values(|s: String| s@),
                sv.len() == self.parameter_seq().len(),
                substitutions(self.parameter_seq(), values@) == Ok::<Seq<Seq<char>>, EffectRenderError>(sv),
                effects@.len() == t,
                forall|i: int| 0 <= i < t ==> renders_to(self.step_seq()[i], sv, #[trigger] effects@[i]),
            decreases self.steps.len() - t,
        {
            proof {
                let ts = self.step_seq()[t as int].token_seq();
                assert forall|m: nat| required_indexes(ts).contains(m) implies m < sv.len() by {
                    lemma_step_uses(self.step_seq(), m);
                    assert(step_uses(self.step_seq(), m));
                }
                lemma_render_some(ts, sv);
            }
            match self.steps[t].render(subs.as_slice()) {
                Ok(e) => {
                    effects.push(e);
                },
                Err(_) => {
                    proof {
                        assert(false);
                    }
                    return Err(EffectRenderError::ParameterMissing);
                },
            }
            t += 1;
        }
        Ok(effects)
    }

    /// Sets whether the session ends after the command runs.
    pub fn set_final(&mut self, value: bool) -> (r: &mut Command)
        ensures
            r.ends_session() == value,
            r.step_seq() == old(self).step_seq(),
            r.parameter_seq() == old(self).parameter_seq(),
            r.name_view() == old(self).name_view(),
            *final(self) == *final(r),
    {
        self.is_final = value;
        self
    }
}

/// Substitutions for the first `k` pairs exist only when there are `k` definitions and `k`
/// values, each value fitting its definition.
proof fn lemma_substituted_prefix_fits(defs: Seq<CommandParameter>, vals: Seq<ParameterValueVariant>, k: nat)
    requires
        substitutions_upto(defs, vals, k) is Ok,
    ensures
        k <= defs.len(),
        k <= vals.len(),
        forall|i: int| 0 <= i < k ==> value_fits(#[trigger] defs[i].parameter, vals[i]),
        substitutions_upto(defs, vals, k) matches Ok(subs) && subs.len() == k,
    decreases k,
{
    if k > 0 {
        lemma_substituted_prefix_fits(defs, vals, (k - 1) as nat);
        assert(substitution(defs[k - 1].parameter, vals[k - 1]) is Some);
        assert forall|i: int| 0 <= i < k implies value_fits(#[trigger] defs[i].parameter, vals[i]) by {
            if i == k - 1 {
                assert(substitution(defs[i].parameter, vals[i]) is Some);
            }
        }
    }
}

/// Rendering a well-formed command's effects succeeds exactly when there is one value for each
/// declared parameter, in order, each of the declared kind and, for a choice, one of its
/// options; then every step renders with the values' texts, in step order.
pub proof fn lemma_render_effects_succeeds_iff(c: Command, vals: Seq<ParameterValueVariant>)
    requires
        c.wf(),
    ensures
        (substitutions(c.parameter_seq(), vals) is Ok) <==> (vals.len() == c.parameter_seq().len()
            && forall|i: int|
            0 <= i < vals.len() ==> value_fits(#[trigger] c.parameter_seq()[i].parameter, vals[i])),
        substitutions(c.parameter_seq(), vals) matches Ok(subs) ==> subs.len() == vals.len()
            && forall|t: int|
            0 <= t < c.step_seq().len() ==> render_tokens(
                #[trigger] c.step_seq()[t].token_seq(),
                subs,
            ) is Some,
{
    let defs = c.parameter_seq();
    let n = if defs.len() >= vals.len() {
        defs.len()
    } else {
        vals.len()
    };
    if substitutions(defs, vals) is Ok {
        lemma_substituted_prefix_fits(defs, vals, n);
    }
    if vals.len() == defs.len() && forall|i: int|
        0 <= i < vals.len() ==> value_fits(#[trigger] defs[i].parameter, vals[i]) {
        lemma_fitting_values_substitute(defs, vals);
    }
    if let Ok(subs) = substitutions(defs, vals) {
        lemma_substituted_prefix_fits(defs, vals, n);
        assert forall|t: int| 0 <= t < c.step_seq().len() implies render_tokens(
            #[trigger] c.step_seq()[t].token_seq(),
            subs,
        ) is Some by {
            lemma_render_succeeds_iff(c.step_seq()[t].token_seq(), subs);
            assert forall|k: nat| #[trigger] required_indexes(c.step_seq()[t].token_seq()).contains(
                k,
            ) implies k < subs.len() by {
                lemma_step_uses(c.step_seq(), k);
            }
        }
    }
}

/// The text a value puts into a program: a character as the one-character string of itself, a
/// text or a choice as itself.
pub open spec fn value_text(v: ParameterValueVariant) -> Seq<char> {
    match v {
        ParameterValueVariant::Character(c) => seq![c.value()],
        ParameterValueVariant::Text(t) => t.value()@,
        ParameterValueVariant::Choose(t) => t.value()@,
    }
}

/// The substitutions for the first `k` pairs are the values' own texts.
proof fn lemma_prefix_texts(defs: Seq<CommandParameter>, vals: Seq<ParameterValueVariant>, k: nat)
    requires
        substitutions_upto(defs, vals, k) is Ok,
    ensures
        substitutions_upto(defs, vals, k) matches Ok(subs) && subs.len() == k && forall|i: int|
            0 <= i < k ==> subs[i] == value_text(#[trigger] vals[i]),
    decreases k,
{
    if k > 0 {
        lemma_prefix_texts(defs, vals, (k - 1) as nat);
    }
}

/// Rendering substitutes each value's own text, unchanged: a character value `A` gives `A`, a
/// text or a choice gives exactly its text. So the program of a rendered effect holds the values
/// as they were read.
pub proof fn lemma_substituted_texts_are_the_values(
    defs: Seq<CommandParameter>,
    vals: Seq<ParameterValueVariant>,
)
    ensures
        substitutions(defs, vals) matches Ok(subs) ==> subs.len() == vals.len() && forall|i: int|
            0 <= i < vals.len() ==> subs[i] == value_text(#[trigger] vals[i]),
{
    let n = if defs.len() >= vals.len() {
        defs.len()
    } else {
        vals.len()
    };
    if substitutions(defs, vals) is Ok {
        lemma_prefix_texts(defs, vals, n);
        lemma_substituted_prefix_fits(defs, vals, n);
    }
}

} // verus!
