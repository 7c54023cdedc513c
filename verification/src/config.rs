//! The configuration: the schema it is read into, and its checked conversion into keys, layers,
//! commands and application-specific layers.
use crate::command::{
    check_tokens, command_check, step_tokens, Command, CommandError, CommandParameter,
};
use crate::effect::{parse_program, EffectTemplate, ShellCommandTemplate, TemplateToken};
use crate::key::{
    key_parse_error_text, key_text, modifier_name, no_symbol, parse_symbol_keysym, plain_key, Key,
    KeyParseError, Modifier, Symbol, XkbNames,
};
use crate::layer::{layer_wf, lemma_layer_action_wf, Action, Layer};
use crate::navigation::keys_contain;
use crate::parameter::{
    CharacterParameter, ChooseParameter, ParameterDefinitionVariant, TextParameter,
};
use crate::text::{
    debug_str, debug_text, decimal, decimal_string, str_eq, str_to_string, string_push_str,
};
use vstd::prelude::*;

verus! {

/// A symbol as the configuration names it.
#[derive(Debug)]
pub struct SymbolSchema(pub String);

/// A modifier as the configuration names it.
#[derive(Debug)]
pub struct ModifierSchema(pub String);

/// A value given either as a list or as a single item.
#[derive(Debug)]
pub enum OneOrManySchema<T> {
    Many(Vec<T>),
    One(T),
}

/// A symbol together with the modifiers held with it.
#[derive(Debug)]
pub struct KeyAndModifiersSchema {
    pub key: SymbolSchema,
    pub modifiers: OneOrManySchema<ModifierSchema>,
}

/// A key as the configuration spells it: a symbol name alone, or a symbol name with modifiers.
#[derive(Debug)]
pub enum KeySchema {
    Key(SymbolSchema),
    KeyAndModifiers(KeyAndModifiersSchema),
}

/// The items of a one-or-many value, in order.
pub open spec fn items<T>(o: OneOrManySchema<T>) -> Seq<T> {
    match o {
        OneOrManySchema::Many(v) => v@,
        OneOrManySchema::One(x) => seq![x],
    }
}

/// The symbol a name stands for, or the reported parse error.
pub open spec fn symbol_result(xkb: XkbNames, name: Seq<char>) -> Result<Symbol, Seq<char>> {
    if parse_symbol_keysym(xkb, name) == no_symbol() {
        Err(debug_text(name) + " is not an xkb keysym name"@)
    } else {
        Ok(Symbol(parse_symbol_keysym(xkb, name)))
    }
}

/// The modifier a name stands for, or the reported parse error.
pub open spec fn modifier_result(name: Seq<char>) -> Result<Modifier, Seq<char>> {
    if name == modifier_name(Modifier::Alt) {
        Ok(Modifier::Alt)
    } else if name == modifier_name(Modifier::Control) {
        Ok(Modifier::Control)
    } else if name == modifier_name(Modifier::Shift) {
        Ok(Modifier::Shift)
    } else if name == modifier_name(Modifier::Super) {
        Ok(Modifier::Super)
    } else {
        Err(debug_text(name) + " is not a modifier name"@)
    }
}

/// The modifiers named, in order, or the error of the first name that is not one.
pub open spec fn modifiers_result(names: Seq<ModifierSchema>) -> Result<Seq<Modifier>, Seq<char>>
    decreases names.len(),
{
    if names.len() == 0 {
        Ok(Seq::empty())
    } else {
        match modifiers_result(names.drop_last()) {
            Err(e) => Err(e),
            Ok(ms) => match modifier_result(names.last().0@) {
                Err(e) => Err(e),
                Ok(m) => Ok(ms.push(m)),
            },
        }
    }
}

/// The key with the modifiers added one after another.
pub open spec fn with_modifiers(k: Key, ms: Seq<Modifier>) -> Key
    decreases ms.len(),
{
    if ms.len() == 0 {
        k
    } else {
        let k2 = with_modifiers(k, ms.drop_last());
        Key { symbol: k2.symbol, modifiers: k2.modifiers.with(ms.last()) }
    }
}

/// The key a key schema stands for, or the error of its first bad name: the symbol first, then
/// the modifiers in order.
pub open spec fn key_result(xkb: XkbNames, k: KeySchema) -> Result<Key, Seq<char>> {
    match k {
        KeySchema::Key(s) => match symbol_result(xkb, s.0@) {
            Ok(sym) => Ok(plain_key(sym)),
            Err(e) => Err(e),
        },
        KeySchema::KeyAndModifiers(km) => match symbol_result(xkb, km.key.0@) {
            Err(e) => Err(e),
            Ok(sym) => match modifiers_result(items(km.modifiers)) {
                Err(e) => Err(e),
                Ok(ms) => Ok(with_modifiers(plain_key(sym), ms)),
            },
        },
    }
}

/// Parses a symbol name, reporting the error as text.
pub fn symbol_from_schema(value: SymbolSchema, xkb: &XkbNames) -> (r: Result<Symbol, String>)
    ensures
        match symbol_result(*xkb, value.0@) {
            Ok(s) => r == Ok::<Symbol, String>(s),
            Err(m) => r matches Err(e) && e@ == m,
        },
{
    match Symbol::from_str(value.0.as_str(), xkb) {
        Ok(s) => Ok(s),
        Err(e) => Err(e.to_string()),
    }
}

/// Parses a modifier name, reporting the error as text.
pub fn modifier_from_schema(value: ModifierSchema) -> (r: Result<Modifier, String>)
    ensures
        match modifier_result(value.0@) {
            Ok(m) => r == Ok::<Modifier, String>(m),
            Err(m) => r matches Err(e) && e@ == m,
        },
{
    proof {
        reveal_strlit("Alt");
        reveal_strlit("Control");
        reveal_strlit("Shift");
        reveal_strlit("Super");
    }
    match Modifier::from_str(value.0.as_str()) {
        Ok(m) => {
            proof {
                assert(modifier_name(Modifier::Alt).len() == 3);
                assert(modifier_name(Modifier::Control).len() == 7);
                assert(modifier_name(Modifier::Shift).len() == 5);
                assert(modifier_name(Modifier::Super).len() == 5);
                assert(modifier_name(Modifier::Shift)[1] != modifier_name(Modifier::Super)[1]);
                assert(modifier_result(value.0@) == Ok::<Modifier, Seq<char>>(m));
            }
            Ok(m)
        },
        Err(e) => {
            proof {
                assert(modifier_name(Modifier::Alt) != value.0@);
                assert(modifier_name(Modifier::Control) != value.0@);
                assert(modifier_name(Modifier::Shift) != value.0@);
                assert(modifier_name(Modifier::Super) != value.0@);
            }
            Err(e.to_string())
        },
    }
}

/// Parses modifier names in order, stopping at the first that is not one.
pub fn modifiers_from_schema(value: OneOrManySchema<ModifierSchema>) -> (r: Result<
    Vec<Modifier>,
    String,
>)
    ensures
        match modifiers_result(items(value)) {
            Ok(ms) => r matches Ok(v) && v@ == ms,
            Err(m) => r matches Err(e) && e@ == m,
        },
{
    let mut names: Vec<ModifierSchema> = match value {
        OneOrManySchema::Many(v) => v,
        OneOrManySchema::One(x) => {
            let mut v = Vec::new();
            v.push(x);
            v
        },
    };
    let ghost all = names@;
    proof {
        assert(all =~= items(value));
    }
    let mut out: Vec<Modifier> = Vec::new();
    let mut i: usize = 0;
    let total = names.len();
    proof {
        assert(all.take(0) =~= Seq::<ModifierSchema>::empty());
        assert(all.skip(0) =~= all);
    }
    while i < total
        invariant
            i <= total,
            total == all.len(),
            all == items(value),
            names@ == all.skip(i as int),
            modifiers_result(all.take(i as int)) == Ok::<Seq<Modifier>, Seq<char>>(out@),
        decreases total - i,
    {
        let name = names.remove(0);
        proof {
            assert(name == all[i as int]);
            assert(all.skip(i as int).skip(1) =~= all.skip(i + 1));
            assert(all.take(i + 1).drop_last() =~= all.take(i as int));
            assert(all.take(i + 1).last() == all[i as int]);
        }
        match modifier_from_schema(name) {
            Ok(m) => {
                out.push(m);
            },
            Err(e) => {
                proof {
                    assert(modifiers_result(all.take(i + 1)) == Err::<Seq<Modifier>, Seq<char>>(
                        e@,
                    ));
                    lemma_modifiers_error_stays(all, (i + 1) as nat);
                }
                return Err(e);
            },
        }
        i += 1;
    }
    proof {
        assert(all.take(i as int) =~= all);
    }
    Ok(out)
}

/// Once a prefix of the names holds an error, the whole list reports that error.
proof fn lemma_modifiers_error_stays(names: Seq<ModifierSchema>, k: nat)
    requires
        k <= names.len(),
        modifiers_result(names.take(k as int)) is Err,
    ensures
        modifiers_result(names) == modifiers_result(names.take(k as int)),
    decreases names.len() - k,
{
    if k < names.len() {
        assert(names.take(k + 1int).drop_last() =~= names.take(k as int));
        lemma_modifiers_error_stays(names, k + 1);
    } else {
        assert(names.take(k as int) =~= names);
    }
}

/// Parses a key schema: its symbol, then its modifiers.
pub fn key_from_schema(value: KeySchema, xkb: &XkbNames) -> (r: Result<Key, String>)
    ensures
        match key_result(*xkb, value) {
            Ok(k) => r == Ok::<Key, String>(k),
            Err(m) => r matches Err(e) && e@ == m,
        },
{
    match value {
        KeySchema::Key(s) => match symbol_from_schema(s, xkb) {
            Ok(sym) => Ok(Key::new(sym)),
            Err(e) => Err(e),
        },
        KeySchema::KeyAndModifiers(km) => {
            let sym = match symbol_from_schema(km.key, xkb) {
                Ok(sym) => sym,
                Err(e) => {
                    return Err(e);
                },
            };
            let modifiers = match modifiers_from_schema(km.modifiers) {
                Ok(ms) => ms,
                Err(e) => {
                    return Err(e);
                },
            };
            let mut key = Key::new(sym);
            let mut i: usize = 0;
            while i < modifiers.len()
                invariant
                    i <= modifiers.len(),
                    key == with_modifiers(plain_key(sym), modifiers@.take(i as int)),
                decreases modifiers.len() - i,
            {
                proof {
                    assert(modifiers@.take(i + 1).drop_last() =~= modifiers@.take(i as int));
                }
                key.add_modifier(modifiers[i]);
                i += 1;
            }
            proof {
                assert(modifiers@.take(i as int) =~= modifiers@);
            }
            Ok(key)
        },
    }
}


/// A shell command whose output lists generated options.
#[derive(Debug)]
pub struct GenerateOptionsSchema {
    pub command: String,
    pub split_by: Option<String>,
}

/// A declared parameter of a command.
#[derive(Debug)]
pub struct ParameterSchema {
    pub name: String,
    pub type_: String,
    pub options: Option<Vec<String>>,
    pub generate_options: Option<GenerateOptionsSchema>,
}

/// One step of a command: a shell program.
#[derive(Debug)]
pub struct StepSchema {
    pub bash: String,
}

/// A command bound to a shortcut.
#[derive(Debug)]
pub struct CommandSchema {
    pub name: String,
    pub shortcut: KeySchema,
    pub steps: Vec<StepSchema>,
    pub parameters: Option<OneOrManySchema<ParameterSchema>>,
    /// Whether the session ends after the command ran (by default it does).
    pub is_final: bool,
    /// Whether each step runs to completion before the next (by default it does).
    pub is_synchronous: bool,
}

/// The value of a boolean setting that is left out.
pub fn default_true() -> (r: bool)
    ensures
        r,
{
    true
}

/// The error a parameter schema is reported with, if any: an unknown type, or a choose
/// parameter with neither options nor a command generating them.
pub open spec fn parameter_error(p: ParameterSchema) -> Option<Seq<char>> {
    if p.type_@ == "character"@ || p.type_@ == "text"@ {
        None
    } else if p.type_@ == "choose"@ {
        if p.options is None && p.generate_options is None {
            Some(
                "Invalid 'choose' parameter configuration: "@
                    + "either options or generate_options must be given"@,
            )
        } else {
            None
        }
    } else {
        Some("parameter type "@ + p.type_@ + " is unsupported"@)
    }
}

/// Whether `c` is the parameter a schema without error describes.
pub open spec fn parameter_built(c: CommandParameter, p: ParameterSchema) -> bool {
    &&& c.name@ == p.name@
    &&& match c.parameter {
        ParameterDefinitionVariant::Character(_) => p.type_@ == "character"@,
        ParameterDefinitionVariant::Text(_) => p.type_@ == "text"@,
        ParameterDefinitionVariant::Choose(d) => {
            &&& p.type_@ == "choose"@
            &&& d.options@ == match p.options {
                Some(o) => o@,
                None => Seq::<String>::empty(),
            }
            &&& d.gen_options_command == match p.generate_options {
                Some(g) => Some(g.command),
                None => None,
            }
            &&& d.gen_options_split_by@ == match p.generate_options {
                Some(g) => match g.split_by {
                    Some(sep) => sep@,
                    None => seq!['\n'],
                },
                None => seq!['\n'],
            }
        },
    }
}

/// Builds a declared parameter from its schema.
pub fn parameter_from_schema(value: ParameterSchema) -> (r: Result<CommandParameter, String>)
    ensures
        match parameter_error(value) {
            Some(m) => r matches Err(e) && e@ == m,
            None => r matches Ok(c) && parameter_built(c, value),
        },
{
    proof {
        reveal_strlit("character");
        reveal_strlit("text");
        reveal_strlit("choose");
    }
    let ghost v = value;
    let definition = if str_eq(value.type_.as_str(), "character") {
        ParameterDefinitionVariant::Character(CharacterParameter)
    } else if str_eq(value.type_.as_str(), "text") {
        ParameterDefinitionVariant::Text(TextParameter)
    } else if str_eq(value.type_.as_str(), "choose") {
        let (command, split_by) = match value.generate_options {
            Some(g) => (Some(g.command), g.split_by),
            None => (None, None),
        };
        match ChooseParameter::new(value.options, command, split_by) {
            Ok(p) => ParameterDefinitionVariant::Choose(p),
            Err(error) => {
                let mut m = str_to_string("Invalid 'choose' parameter configuration: ");
                string_push_str(&mut m, error.as_str());
                return Err(m);
            },
        }
    } else {
        let mut m = str_to_string("parameter type ");
        string_push_str(&mut m, value.type_.as_str());
        string_push_str(&mut m, " is unsupported");
        return Err(m);
    };
    Ok(CommandParameter::new(value.name, definition))
}

/// The parameter schemas of a command, in order.
pub open spec fn parameter_schemas(p: Option<OneOrManySchema<ParameterSchema>>) -> Seq<
    ParameterSchema,
> {
    match p {
        Some(o) => items(o),
        None => Seq::empty(),
    }
}

/// The error of the first parameter schema that has one.
pub open spec fn parameters_error(ps: Seq<ParameterSchema>) -> Option<Seq<char>>
    decreases ps.len(),
{
    if ps.len() == 0 {
        None
    } else {
        match parameters_error(ps.drop_last()) {
            Some(e) => Some(e),
            None => parameter_error(ps.last()),
        }
    }
}

/// The token sequences of the steps, or the error of the first program that does not parse.
pub open spec fn steps_result(steps: Seq<StepSchema>) -> Result<Seq<Seq<TemplateToken>>, Seq<char>>
    decreases steps.len(),
{
    if steps.len() == 0 {
        Ok(Seq::empty())
    } else {
        match steps_result(steps.drop_last()) {
            Err(e) => Err(e),
            Ok(ts) => match parse_program(steps.last().bash@) {
                Err(e) => Err(e),
                Ok(t) => Ok(ts.push(t)),
            },
        }
    }
}

/// How a failed command check is reported.
pub open spec fn command_error_text(e: CommandError) -> Seq<char> {
    match e {
        CommandError::NoStepsProvided => "Command has no associated steps"@,
        CommandError::MissingParameter(i) => "required "@ + decimal(i as nat)
            + ". parameter was not declared"@,
        CommandError::UnusedParameter(i) => "declared "@ + decimal(i as nat) + ". parameter is unused"@,
    }
}

/// The error a command schema is reported with, if any: its shortcut, then its steps in order,
/// then its parameters in order, then the check of the steps against the parameters.
pub open spec fn command_error(xkb: XkbNames, c: CommandSchema) -> Option<Seq<char>> {
    match key_result(xkb, c.shortcut) {
        Err(e) => Some(e),
        Ok(_) => match steps_result(c.steps@) {
            Err(e) => Some(e),
            Ok(ts) => match parameters_error(parameter_schemas(c.parameters)) {
                Some(e) => Some(e),
                None => match check_tokens(ts, parameter_schemas(c.parameters).len()) {
                    Err(e) => Some(command_error_text(e)),
                    Ok(()) => None,
                },
            },
        },
    }
}

/// Whether `cmd`, bound to `k`, is the command a schema without error describes.
pub open spec fn command_built(xkb: XkbNames, k: Key, cmd: Command, c: CommandSchema) -> bool {
    &&& key_result(xkb, c.shortcut) == Ok::<Key, Seq<char>>(k)
    &&& cmd.wf()
    &&& cmd.name_view() == c.name@
    &&& cmd.ends_session() == c.is_final
    &&& steps_result(c.steps@) == Ok::<Seq<Seq<TemplateToken>>, Seq<char>>(
        step_tokens(cmd.step_seq()),
    )
    &&& forall|i: int|
        0 <= i < cmd.step_seq().len() ==> (#[trigger] cmd.step_seq()[i]).synchronous()
            == c.is_synchronous
    &&& cmd.parameter_seq().len() == parameter_schemas(c.parameters).len()
    &&& forall|i: int|
        0 <= i < cmd.parameter_seq().len() ==> parameter_built(
            #[trigger] cmd.parameter_seq()[i],
            parameter_schemas(c.parameters)[i],
        )
}

/// The message for a failed command check.
fn command_error_message(e: CommandError) -> (r: String)
    ensures
        r@ == command_error_text(e),
{
    match e {
        CommandError::NoStepsProvided => str_to_string("Command has no associated steps"),
        CommandError::MissingParameter(i) => {
            let mut m = str_to_string("required ");
            let d = decimal_string(i);
            string_push_str(&mut m, d.as_str());
            string_push_str(&mut m, ". parameter was not declared");
            m
        },
        CommandError::UnusedParameter(i) => {
            let mut m = str_to_string("declared ");
            let d = decimal_string(i);
            string_push_str(&mut m, d.as_str());
            string_push_str(&mut m, ". parameter is unused");
            m
        },
    }
}


/// Once a prefix of the steps holds an error, all of them report that error.
proof fn lemma_steps_error_stays(steps: Seq<StepSchema>, k: nat)
    requires
        k <= steps.len(),
        steps_result(steps.take(k as int)) is Err,
    ensures
        steps_result(steps) == steps_result(steps.take(k as int)),
    decreases steps.len() - k,
{
    if k < steps.len() {
        assert(steps.take(k + 1int).drop_last() =~= steps.take(k as int));
        lemma_steps_error_stays(steps, k + 1);
    } else {
        assert(steps.take(k as int) =~= steps);
    }
}

/// Once a prefix of the parameters holds an error, all of them report that error.
proof fn lemma_parameters_error_stays(ps: Seq<ParameterSchema>, k: nat)
    requires
        k <= ps.len(),
        parameters_error(ps.take(k as int)) is Some,
    ensures
        parameters_error(ps) == parameters_error(ps.take(k as int)),
    decreases ps.len() - k,
{
    if k < ps.len() {
        assert(ps.take(k + 1int).drop_last() =~= ps.take(k as int));
        lemma_parameters_error_stays(ps, k + 1);
    } else {
        assert(ps.take(k as int) =~= ps);
    }
}

/// Parses the step programs in order; each template runs synchronously when `synchronous`
/// holds.
fn steps_from_schema(steps: &Vec<StepSchema>, synchronous: bool) -> (r: Result<
    Vec<EffectTemplate>,
    String,
>)
    ensures
        match steps_result(steps@) {
            Err(m) => r matches Err(e) && e@ == m,
            Ok(ts) => r matches Ok(v) && step_tokens(v@) == ts && forall|j: int|
                0 <= j < v@.len() ==> (#[trigger] v@[j]).synchronous() == synchronous,
        },
{
    let mut out: Vec<EffectTemplate> = Vec::new();
    let mut i: usize = 0;
    proof {
        assert(steps@.take(0) =~= Seq::<StepSchema>::empty());
        assert(step_tokens(out@) =~= Seq::<Seq<TemplateToken>>::empty());
    }
    while i < steps.len()
        invariant
            i <= steps.len(),
            steps_result(steps@.take(i as int)) == Ok::<Seq<Seq<TemplateToken>>, Seq<char>>(
                step_tokens(out@),
            ),
            forall|j: int| 0 <= j < out@.len() ==> (#[trigger] out@[j]).synchronous() == synchronous,
        decreases steps.len() - i,
    {
        proof {
            assert(steps@.take(i + 1).drop_last() =~= steps@.take(i as int));
            assert(steps@.take(i + 1).last() == steps@[i as int]);
        }
        match ShellCommandTemplate::new(steps[i].bash.as_str()) {
            Ok(t) => {
                let mut t = t;
                if synchronous {
                    t.set_synchronous(true);
                }
                let ghost before = out@;
                out.push(EffectTemplate::ShellCommand(t));
                proof {
                    assert(step_tokens(out@) =~= step_tokens(before).push(t.token_seq()));
                }
            },
            Err(e) => {
                proof {
                    lemma_steps_error_stays(steps@, (i + 1) as nat);
                }
                return Err(e);
            },
        }
        i += 1;
    }
    proof {
        assert(steps@.take(i as int) =~= steps@);
    }
    Ok(out)
}

/// Builds the declared parameters in order.
fn parameters_from_schema(value: Option<OneOrManySchema<ParameterSchema>>) -> (r: Result<
    Vec<CommandParameter>,
    String,
>)
    ensures
        match parameters_error(parameter_schemas(value)) {
            Some(m) => r matches Err(e) && e@ == m,
            None => r matches Ok(v) && v@.len() == parameter_schemas(value).len() && forall|j: int|
                0 <= j < v@.len() ==> parameter_built(
                    #[trigger] v@[j],
                    parameter_schemas(value)[j],
                ),
        },
{
    let mut schemas: Vec<ParameterSchema> = match value {
        Some(OneOrManySchema::Many(v)) => v,
        Some(OneOrManySchema::One(x)) => {
            let mut v = Vec::new();
            v.push(x);
            v
        },
        None => Vec::new(),
    };
    let ghost all = schemas@;
    proof {
        assert(all =~= parameter_schemas(value));
        assert(all.take(0) =~= Seq::<ParameterSchema>::empty());
        assert(all.skip(0) =~= all);
    }
    let total = schemas.len();
    let mut out: Vec<CommandParameter> = Vec::new();
    let mut i: usize = 0;
    while i < total
        invariant
            i <= total,
            total == all.len(),
            all == parameter_schemas(value),
            schemas@ == all.skip(i as int),
            parameters_error(all.take(i as int)) is None,
            out@.len() == i,
            forall|j: int| 0 <= j < i ==> parameter_built(#[trigger] out@[j], all[j]),
        decreases total - i,
    {
        let schema = schemas.remove(0);
        proof {
            assert(schema == all[i as int]);
            assert(all.skip(i as int).skip(1) =~= all.skip(i + 1));
            assert(all.take(i + 1).drop_last() =~= all.take(i as int));
            assert(all.take(i + 1).last() == all[i as int]);
        }
        match parameter_from_schema(schema) {
            Ok(p) => {
                out.push(p);
            },
            Err(e) => {
                proof {
                    lemma_parameters_error_stays(all, (i + 1) as nat);
                }
                return Err(e);
            },
        }
        i += 1;
    }
    proof {
        assert(all.take(i as int) =~= all);
    }
    Ok(out)
}

/// Builds a command and its shortcut from the schema.
pub fn command_from_schema(value: CommandSchema, xkb: &XkbNames) -> (r: Result<
    (Key, Command),
    String,
>)
    ensures
        match command_error(*xkb, value) {
            Some(m) => r matches Err(e) && e@ == m,
            None => r matches Ok((k, c)) && command_built(*xkb, k, c, value),
        },
{
    let ghost v = value;
    let key = match key_from_schema(value.shortcut, xkb) {
        Ok(k) => k,
        Err(e) => {
            return Err(e);
        },
    };
    let steps = match steps_from_schema(&value.steps, value.is_synchronous) {
        Ok(s) => s,
        Err(e) => {
            return Err(e);
        },
    };
    let parameters = match parameters_from_schema(value.parameters) {
        Ok(p) => p,
        Err(e) => {
            return Err(e);
        },
    };
    let ghost sv = steps@;
    let ghost pv = parameters@;
    match Command::new(value.name, steps, parameters) {
        Ok(command) => {
            let mut command = command;
            command.set_final(value.is_final);
            proof {
                assert(command.step_seq() == sv);
                assert(command.parameter_seq() == pv);
            }
            Ok((key, command))
        },
        Err(e) => Err(command_error_message(e)),
    }
}


/// A layer bound to a shortcut, with its own sub-layers and commands.
#[derive(Debug)]
pub struct LayerSchema {
    pub layers: Option<Vec<LayerSchema>>,
    pub commands: Option<Vec<CommandSchema>>,
    pub shortcut: KeySchema,
    pub name: String,
}

/// The items of an optional list, in order.
pub open spec fn listed<T>(o: Option<Vec<T>>) -> Seq<T> {
    match o {
        Some(v) => v@,
        None => Seq::empty(),
    }
}

/// The key of a layer schema whose shortcut parses.
pub open spec fn layer_key(xkb: XkbNames, l: LayerSchema) -> Key {
    key_result(xkb, l.shortcut)->Ok_0
}

/// The key of a command schema whose shortcut parses.
pub open spec fn command_key(xkb: XkbNames, c: CommandSchema) -> Key {
    key_result(xkb, c.shortcut)->Ok_0
}

/// How a layer bound to a taken key is reported.
pub open spec fn layer_conflict_text(xkb: XkbNames, k: Key) -> Seq<char> {
    "Can not assign layer to key "@ + key_text(xkb, k) + " because of an existing binding!"@
}

/// How a command bound to a taken key is reported.
pub open spec fn command_conflict_text(xkb: XkbNames, k: Key) -> Seq<char> {
    "Could not assign command to key "@ + key_text(xkb, k) + " because of an existing binding!"@
}

/// The error of the sub-layer schemas from index `i` on, when those before it had none: a
/// shortcut that does not parse, an error inside the sub-layer, or a shortcut already taken.
pub open spec fn sublayers_error(xkb: XkbNames, ls: Seq<LayerSchema>, i: int) -> Option<Seq<char>>
    decreases ls, ls.len() - i,
{
    if i < 0 || i >= ls.len() {
        None
    } else {
        match key_result(xkb, ls[i].shortcut) {
            Err(e) => Some(e),
            Ok(k) => match layer_error(xkb, ls[i].layers, ls[i].commands) {
                Some(e) => Some(e),
                None => if exists|j: int| 0 <= j < i && layer_key(xkb, #[trigger] ls[j]) == k {
                    Some(layer_conflict_text(xkb, k))
                } else {
                    sublayers_error(xkb, ls, i + 1)
                },
            },
        }
    }
}

/// The error of the command schemas from index `i` on, when those before it and all sub-layers
/// had none: an error of the command, or a shortcut already taken by a sub-layer or an earlier
/// command.
pub open spec fn commands_error(xkb: XkbNames, ls: Seq<LayerSchema>, cs: Seq<CommandSchema>, i: int) -> Option<
    Seq<char>,
>
    decreases cs.len() - i,
{
    if i < 0 || i >= cs.len() {
        None
    } else {
        match command_error(xkb, cs[i]) {
            Some(e) => Some(e),
            None => if (exists|j: int| 0 <= j < ls.len() && layer_key(xkb, #[trigger] ls[j]) == command_key(xkb, cs[i]))
                || (exists|j: int| 0 <= j < i && command_key(xkb, #[trigger] cs[j]) == command_key(xkb, cs[i])) {
                Some(command_conflict_text(xkb, command_key(xkb, cs[i])))
            } else {
                commands_error(xkb, ls, cs, i + 1)
            },
        }
    }
}

/// The error a layer is reported with, if any: its sub-layers are taken in order, then its
/// commands in order.
pub open spec fn layer_error(xkb: XkbNames, 
    layers: Option<Vec<LayerSchema>>,
    commands: Option<Vec<CommandSchema>>,
) -> Option<Seq<char>>
    decreases layers, 0int,
{
    match layers {
        Some(v) => match sublayers_error(xkb, v@, 0) {
            Some(e) => Some(e),
            None => commands_error(xkb, v@, listed(commands), 0),
        },
        None => commands_error(xkb, Seq::empty(), listed(commands), 0),
    }
}



/// The keys of the sub-layer and command schemas.
pub open spec fn item_keys(xkb: XkbNames, ls: Seq<LayerSchema>, cs: Seq<CommandSchema>) -> Set<Key> {
    Set::new(
        |k: Key|
            (exists|i: int| 0 <= i < ls.len() && layer_key(xkb, #[trigger] ls[i]) == k) || (exists|j: int|
                0 <= j < cs.len() && command_key(xkb, #[trigger] cs[j]) == k),
    )
}

/// Whether `l` is the layer named `name` that schemas without error describe: exactly their
/// shortcuts, each sub-layer built from its schema and each command from its own.
pub open spec fn layer_built(xkb: XkbNames, 
    l: Layer,
    name: Seq<char>,
    layers: Option<Vec<LayerSchema>>,
    commands: Option<Vec<CommandSchema>>,
) -> bool
    decreases layers,
{
    &&& l.name@ == name
    &&& l.shortcuts@.dom() == item_keys(xkb, listed(layers), listed(commands))
    &&& match layers {
        Some(v) => forall|i: int|
            0 <= i < v@.len() ==> (l.shortcuts@[layer_key(xkb, #[trigger] v@[i])] matches Action::Branch(
                sub,
            ) && layer_built(xkb, sub, v@[i].name@, v@[i].layers, v@[i].commands)),
        None => true,
    }
    &&& forall|j: int|
        0 <= j < listed(commands).len() ==> (l.shortcuts@[command_key(xkb, 
            #[trigger] listed(commands)[j],
        )] matches Action::Execute(c) && command_built(xkb, 
            command_key(xkb, listed(commands)[j]),
            c,
            listed(commands)[j],
        ))
}

/// Renders a conflict message: the text before the key, the key, the text after it.
fn conflict_message(before: &str, key: &Key, after: &str, xkb: &XkbNames) -> (r: String)
    ensures
        r@ == before@ + key_text(*xkb, *key) + after@,
{
    let mut m = str_to_string(before);
    let k = key.to_string(xkb);
    string_push_str(&mut m, k.as_str());
    string_push_str(&mut m, after);
    m
}

/// Builds a layer named `name` from the schemas of its sub-layers and commands.
///
/// # Errors
///
/// Returns the error of the first sub-layer, then of the first command, that fails: a shortcut
/// or command that does not parse, or a shortcut that is already taken.
pub fn try_parse_layer(
    name: String,
    layers: Option<Vec<LayerSchema>>,
    commands: Option<Vec<CommandSchema>>,
    xkb: &XkbNames,
) -> (r: Result<Layer, String>)
    ensures
        match layer_error(*xkb, layers, commands) {
            Some(m) => r matches Err(e) && e@ == m,
            None => r matches Ok(l) && layer_built(*xkb, l, name@, layers, commands) && layer_wf(l),
        },
    decreases layers,
{
    let ghost name0 = name@;
    let ghost layers0 = layers;
    let mut layer = Layer::new(name);
    let ghost ls = listed(layers);
    let ghost cs = listed(commands);
    let mut rest: Vec<LayerSchema> = match layers {
        Some(v) => v,
        None => Vec::new(),
    };
    let total = rest.len();
    let mut i: usize = 0;
    proof {
        assert(ls.skip(0) =~= ls);
        assert(layer.shortcuts@.dom() =~= item_keys(*xkb, ls.take(0), Seq::empty()));
    }
    while i < total
        invariant
            i <= total,
            total == ls.len(),
            ls == listed(layers),
            layers0 == layers,
            rest@ == ls.skip(i as int),
            layer_wf(layer),
            layer.name@ == name0,
            sublayers_error(*xkb, ls, 0) == sublayers_error(*xkb, ls, i as int),
            layer.shortcuts@.dom() == item_keys(*xkb, ls.take(i as int), Seq::empty()),
            forall|j: int|
                0 <= j < i ==> (layer.shortcuts@[layer_key(*xkb, #[trigger] ls[j])] matches Action::Branch(
                    sub,
                ) && layer_built(*xkb, sub, ls[j].name@, ls[j].layers, ls[j].commands)),
        decreases total - i,
    {
        let schema = rest.remove(0);
        proof {
            assert(schema == ls[i as int]);
            assert(ls.skip(i as int).skip(1) =~= ls.skip(i + 1));
            match layers0 {
                Some(v) => {
                    assert(decreases_to!(layers0 => v));
                    assert(decreases_to!(v => v@));
                    assert(decreases_to!(v@ => v@[i as int]));
                    assert(decreases_to!(v@[i as int] => v@[i as int].layers));
                },
                None => {},
            }
        }
        let key = match key_from_schema(schema.shortcut, xkb) {
            Ok(k) => k,
            Err(e) => {
                return Err(e);
            },
        };
        let sub = match try_parse_layer(schema.name, schema.layers, schema.commands, xkb) {
            Ok(l) => l,
            Err(e) => {
                return Err(e);
            },
        };
        let ghost sub0 = sub;
        proof {
            assert(layer.shortcuts@.contains_key(key) == exists|j: int|
                0 <= j < i && layer_key(*xkb, #[trigger] ls[j]) == key) by {
                if layer.shortcuts@.contains_key(key) {
                    assert(item_keys(*xkb, ls.take(i as int), Seq::empty()).contains(key));
                    let j = choose|j: int|
                        0 <= j < i && layer_key(*xkb, #[trigger] ls.take(i as int)[j]) == key;
                    assert(ls.take(i as int)[j] == ls[j]);
                }
                if exists|j: int| 0 <= j < i && layer_key(*xkb, #[trigger] ls[j]) == key {
                    let j = choose|j: int| 0 <= j < i && layer_key(*xkb, #[trigger] ls[j]) == key;
                    assert(ls.take(i as int)[j] == ls[j]);
                    assert(item_keys(*xkb, ls.take(i as int), Seq::empty()).contains(key));
                }
            }
        }
        let ghost before = layer;
        match layer.add_layer(key, sub) {
            Ok(()) => {},
            Err((k, _)) => {
                return Err(
                    conflict_message(
                        "Can not assign layer to key ",
                        &k,
                        " because of an existing binding!",
                        xkb,
                    ),
                );
            },
        }
        proof {
            assert(layer.shortcuts@.dom() =~= item_keys(*xkb, ls.take(i + 1), Seq::empty())) by {
                assert forall|k: Key| item_keys(*xkb, ls.take(i + 1), Seq::empty()).contains(k) implies layer.shortcuts@.contains_key(k) by {
                    let j = choose|j: int| 0 <= j < i + 1 && layer_key(*xkb, #[trigger] ls.take(i + 1)[j]) == k;
                    if j < i {
                        assert(ls.take(i as int)[j] == ls.take(i + 1)[j]);
                        assert(item_keys(*xkb, ls.take(i as int), Seq::empty()).contains(k));
                    }
                }
                assert forall|k: Key| layer.shortcuts@.contains_key(k) implies item_keys(*xkb, ls.take(i + 1), Seq::empty()).contains(k) by {
                    if k != key {
                        assert(item_keys(*xkb, ls.take(i as int), Seq::empty()).contains(k));
                        let j = choose|j: int| 0 <= j < i && layer_key(*xkb, #[trigger] ls.take(i as int)[j]) == k;
                        assert(ls.take(i as int)[j] == ls.take(i + 1)[j]);
                    } else {
                        assert(ls.take(i + 1)[i as int] == ls[i as int]);
                    }
                }
            }
            assert forall|j: int| 0 <= j < i + 1 implies (layer.shortcuts@[layer_key(*xkb, #[trigger] ls[j])] matches Action::Branch(
                sub,
            ) && layer_built(*xkb, sub, ls[j].name@, ls[j].layers, ls[j].commands)) by {
                if j < i {
                    assert(ls.take(i as int)[j] == ls[j]);
                    assert(layer_key(*xkb, ls.take(i as int)[j]) == layer_key(*xkb, ls[j]));
                    assert(item_keys(*xkb, ls.take(i as int), Seq::empty()).contains(layer_key(*xkb, ls[j])));
                    assert(before.shortcuts@.contains_key(layer_key(*xkb, ls[j])));
                    assert(layer_key(*xkb, ls[j]) != key);
                }
            }
        }
        i += 1;
    }
    proof {
        assert(ls.take(i as int) =~= ls);
        assert(sublayers_error(*xkb, ls, i as int) is None);
        assert(cs.take(0) =~= Seq::<CommandSchema>::empty());
        assert(item_keys(*xkb, ls, cs.take(0)) =~= item_keys(*xkb, ls, Seq::empty()));
    }
    let mut rest: Vec<CommandSchema> = match commands {
        Some(v) => v,
        None => Vec::new(),
    };
    let total = rest.len();
    let mut i: usize = 0;
    proof {
        assert(cs.skip(0) =~= cs);
    }
    while i < total
        invariant
            i <= total,
            total == cs.len(),
            cs == listed(commands),
            ls == listed(layers),
            rest@ == cs.skip(i as int),
            layer_wf(layer),
            layer.name@ == name0,
            sublayers_error(*xkb, ls, 0) is None,
            commands_error(*xkb, ls, cs, 0) == commands_error(*xkb, ls, cs, i as int),
            layer.shortcuts@.dom() == item_keys(*xkb, ls, cs.take(i as int)),
            forall|j: int|
                0 <= j < ls.len() ==> (layer.shortcuts@[layer_key(*xkb, #[trigger] ls[j])] matches Action::Branch(
                    sub,
                ) && layer_built(*xkb, sub, ls[j].name@, ls[j].layers, ls[j].commands)),
            forall|j: int|
                0 <= j < i ==> (layer.shortcuts@[command_key(*xkb, #[trigger] cs[j])] matches Action::Execute(
                    c,
                ) && command_built(*xkb, command_key(*xkb, cs[j]), c, cs[j])),
        decreases total - i,
    {
        let schema = rest.remove(0);
        proof {
            assert(schema == cs[i as int]);
            assert(cs.skip(i as int).skip(1) =~= cs.skip(i + 1));
        }
        let (key, command) = match command_from_schema(schema, xkb) {
            Ok(kc) => kc,
            Err(e) => {
                return Err(e);
            },
        };
        proof {
            assert(command_key(*xkb, cs[i as int]) == key);
            assert(layer.shortcuts@.contains_key(key) == ((exists|j: int|
                0 <= j < ls.len() && layer_key(*xkb, #[trigger] ls[j]) == key) || (exists|j: int|
                0 <= j < i && command_key(*xkb, #[trigger] cs[j]) == key))) by {
                if layer.shortcuts@.contains_key(key) {
                    assert(item_keys(*xkb, ls, cs.take(i as int)).contains(key));
                    if exists|j: int| 0 <= j < i && command_key(*xkb, #[trigger] cs.take(i as int)[j]) == key {
                        let j = choose|j: int|
                            0 <= j < i && command_key(*xkb, #[trigger] cs.take(i as int)[j]) == key;
                        assert(cs.take(i as int)[j] == cs[j]);
                    }
                }
                if exists|j: int| 0 <= j < i && command_key(*xkb, #[trigger] cs[j]) == key {
                    let j = choose|j: int| 0 <= j < i && command_key(*xkb, #[trigger] cs[j]) == key;
                    assert(cs.take(i as int)[j] == cs[j]);
                    assert(item_keys(*xkb, ls, cs.take(i as int)).contains(key));
                }
                if exists|j: int| 0 <= j < ls.len() && layer_key(*xkb, #[trigger] ls[j]) == key {
                    assert(item_keys(*xkb, ls, cs.take(i as int)).contains(key));
                }
            }
        }
        let ghost before = layer;
        match layer.add_command(key, command) {
            Ok(()) => {},
            Err((k, _)) => {
                return Err(
                    conflict_message(
                        "Could not assign command to key ",
                        &k,
                        " because of an existing binding!",
                        xkb,
                    ),
                );
            },
        }
        proof {
            assert(layer.shortcuts@.dom() =~= item_keys(*xkb, ls, cs.take(i + 1))) by {
                assert forall|k: Key| item_keys(*xkb, ls, cs.take(i + 1)).contains(k) implies layer.shortcuts@.contains_key(k) by {
                    if exists|j: int| 0 <= j < i + 1 && command_key(*xkb, #[trigger] cs.take(i + 1)[j]) == k {
                        let j = choose|j: int| 0 <= j < i + 1 && command_key(*xkb, #[trigger] cs.take(i + 1)[j]) == k;
                        if j < i {
                            assert(cs.take(i as int)[j] == cs.take(i + 1)[j]);
                            assert(item_keys(*xkb, ls, cs.take(i as int)).contains(k));
                        }
                    } else {
                        assert(item_keys(*xkb, ls, cs.take(i as int)).contains(k));
                    }
                }
                assert forall|k: Key| layer.shortcuts@.contains_key(k) implies item_keys(*xkb, ls, cs.take(i + 1)).contains(k) by {
                    if k != key {
                        assert(item_keys(*xkb, ls, cs.take(i as int)).contains(k));
                        if exists|j: int| 0 <= j < i && command_key(*xkb, #[trigger] cs.take(i as int)[j]) == k {
                            let j = choose|j: int| 0 <= j < i && command_key(*xkb, #[trigger] cs.take(i as int)[j]) == k;
                            assert(cs.take(i as int)[j] == cs.take(i + 1)[j]);
                        }
                    } else {
                        assert(cs.take(i + 1)[i as int] == cs[i as int]);
                    }
                }
            }
            assert forall|j: int| 0 <= j < ls.len() implies (layer.shortcuts@[layer_key(*xkb, #[trigger] ls[j])] matches Action::Branch(
                sub,
            ) && layer_built(*xkb, sub, ls[j].name@, ls[j].layers, ls[j].commands)) by {
                assert(layer_key(*xkb, ls[j]) != key);
            }
            assert forall|j: int| 0 <= j < i + 1 implies (layer.shortcuts@[command_key(*xkb, #[trigger] cs[j])] matches Action::Execute(
                c,
            ) && command_built(*xkb, command_key(*xkb, cs[j]), c, cs[j])) by {
                if j < i {
                    assert(command_key(*xkb, cs[j]) != key);
                }
            }
        }
        i += 1;
    }
    proof {
        assert(cs.take(i as int) =~= cs);
        assert(commands_error(*xkb, ls, cs, i as int) is None);
    }
    Ok(layer)
}


/// The first shortcut of a layer, in key order and depth first, that can never be pressed: one
/// that is an exit key (at any depth) or a back key (below the root), with the name of its layer
/// and the setting that consumes it.
pub open spec fn shadowed_in(layer: Layer, exit: Seq<Key>, back: Seq<Key>, is_root: bool) -> Option<
    (Key, Seq<char>, Seq<char>),
>
    decreases layer, 1int,
{
    shadowed_from(layer.name@, layer.shortcuts.entries@, exit, back, is_root, 0)
}

/// [`shadowed_in`] over the shortcuts of a layer named `name` from index `i` on.
pub open spec fn shadowed_from(
    name: Seq<char>,
    entries: Seq<(Key, Action)>,
    exit: Seq<Key>,
    back: Seq<Key>,
    is_root: bool,
    i: int,
) -> Option<(Key, Seq<char>, Seq<char>)>
    decreases entries, entries.len() - i,
{
    if i < 0 || i >= entries.len() {
        None
    } else if exit.contains(entries[i].0) {
        Some((entries[i].0, name, "keys_exit"@))
    } else if !is_root && back.contains(entries[i].0) {
        Some((entries[i].0, name, "keys_back"@))
    } else {
        match entries[i].1 {
            Action::Branch(sub) => match shadowed_in(sub, exit, back, false) {
                Some(found) => Some(found),
                None => shadowed_from(name, entries, exit, back, is_root, i + 1),
            },
            Action::Execute(_) => shadowed_from(name, entries, exit, back, is_root, i + 1),
        }
    }
}

/// How a shortcut that can never be pressed is reported.
pub open spec fn shadowed_text(xkb: XkbNames, found: (Key, Seq<char>, Seq<char>)) -> Seq<char> {
    "Shortcut "@ + key_text(xkb, found.0) + " in layer "@ + debug_text(found.1)
        + " can never be pressed because it is consumed by "@ + found.2
}

/// Finds the first shortcut of `layer` that can never be pressed.
fn find_shadowed(layer: &Layer, keys_exit: &[Key], keys_back: &[Key], is_root: bool) -> (r: Option<
    (Key, String, &'static str),
>)
    ensures
        match shadowed_in(*layer, keys_exit@, keys_back@, is_root) {
            Some(found) => r matches Some((k, n, s)) && k == found.0 && n@ == found.1 && s@
                == found.2,
            None => r is None,
        },
    decreases *layer,
{
    let entries = &layer.shortcuts.entries;
    let mut i: usize = 0;
    while i < entries.len()
        invariant
            i <= entries@.len(),
            *entries == layer.shortcuts.entries,
            shadowed_in(*layer, keys_exit@, keys_back@, is_root) == shadowed_from(
                layer.name@,
                entries@,
                keys_exit@,
                keys_back@,
                is_root,
                i as int,
            ),
        decreases entries@.len() - i,
    {
        let (shortcut, action) = &entries[i];
        if keys_contain(keys_exit, shortcut) {
            return Some((*shortcut, layer.name.clone(), "keys_exit"));
        }
        if !is_root && keys_contain(keys_back, shortcut) {
            return Some((*shortcut, layer.name.clone(), "keys_back"));
        }
        match action {
            Action::Branch(sub) => {
                proof {
                    assert(decreases_to!(*layer => layer.shortcuts));
                    assert(decreases_to!(layer.shortcuts => layer.shortcuts.entries));
                    assert(decreases_to!(layer.shortcuts.entries => layer.shortcuts.entries@));
                    assert(decreases_to!(layer.shortcuts.entries@ => layer.shortcuts.entries@[i as int]));
                    assert(decreases_to!(layer.shortcuts.entries@[i as int] => layer.shortcuts.entries@[i as int].1));
                }
                match find_shadowed(sub, keys_exit, keys_back, false) {
                    Some(found) => {
                        return Some(found);
                    },
                    None => {},
                }
            },
            Action::Execute(_) => {},
        }
        i += 1;
    }
    None
}

/// Rejects shortcuts that the navigation consumes before consulting the layer: exit keys at
/// every depth, and back keys everywhere below the root layer.
///
/// # Errors
///
/// Reports the first such shortcut, in key order and depth first.
pub fn reject_shadowed_shortcuts(
    root_layer: &Layer,
    keys_exit: &[Key],
    keys_back: &[Key],
    xkb: &XkbNames,
) -> (r: Result<(), String>)
    ensures
        match shadowed_in(*root_layer, keys_exit@, keys_back@, true) {
            Some(found) => r matches Err(m) && m@ == shadowed_text(*xkb, found),
            None => r is Ok,
        },
{
    match find_shadowed(root_layer, keys_exit, keys_back, true) {
        Some((shortcut, layer_name, setting)) => {
            let mut m = str_to_string("Shortcut ");
            let k = shortcut.to_string(xkb);
            string_push_str(&mut m, k.as_str());
            string_push_str(&mut m, " in layer ");
            let n = debug_str(layer_name.as_str());
            string_push_str(&mut m, n.as_str());
            string_push_str(&mut m, " can never be pressed because it is consumed by ");
            string_push_str(&mut m, setting);
            Err(m)
        },
        None => Ok(()),
    }
}


/// Two layers built from the same schemas have the same shortcut that can never be pressed.
proof fn lemma_built_shadowed_same(xkb: XkbNames, 
    l1: Layer,
    l2: Layer,
    name: Seq<char>,
    layers: Option<Vec<LayerSchema>>,
    commands: Option<Vec<CommandSchema>>,
    exit: Seq<Key>,
    back: Seq<Key>,
    is_root: bool,
)
    requires
        layer_built(xkb, l1, name, layers, commands),
        layer_built(xkb, l2, name, layers, commands),
        layer_wf(l1),
        layer_wf(l2),
    ensures
        shadowed_in(l1, exit, back, is_root) == shadowed_in(l2, exit, back, is_root),
    decreases layers, l1.shortcuts.entries@.len() + 1,
{
    l1.shortcuts.lemma_same_keys_same_order(l2.shortcuts);
    lemma_built_shadowed_from_same(xkb, l1, l2, name, layers, commands, exit, back, is_root, 0);
}

/// [`lemma_built_shadowed_same`] from the shortcut at index `i` on.
proof fn lemma_built_shadowed_from_same(xkb: XkbNames, 
    l1: Layer,
    l2: Layer,
    name: Seq<char>,
    layers: Option<Vec<LayerSchema>>,
    commands: Option<Vec<CommandSchema>>,
    exit: Seq<Key>,
    back: Seq<Key>,
    is_root: bool,
    i: int,
)
    requires
        layer_built(xkb, l1, name, layers, commands),
        layer_built(xkb, l2, name, layers, commands),
        layer_wf(l1),
        layer_wf(l2),
        0 <= i,
        l1.shortcuts.pairs().len() == l2.shortcuts.pairs().len(),
        forall|j: int|
            0 <= j < l1.shortcuts.pairs().len() ==> #[trigger] l1.shortcuts.pairs()[j].0
                == l2.shortcuts.pairs()[j].0,
    ensures
        shadowed_from(l1.name@, l1.shortcuts.entries@, exit, back, is_root, i) == shadowed_from(
            l2.name@,
            l2.shortcuts.entries@,
            exit,
            back,
            is_root,
            i,
        ),
    decreases layers, l1.shortcuts.entries@.len() - i,
{
    let e1 = l1.shortcuts.entries@;
    let e2 = l2.shortcuts.entries@;
    if i < e1.len() {
        let k = e1[i].0;
        assert(e2[i].0 == k);
        l1.shortcuts.lemma_pair_in_view(i);
        l2.shortcuts.lemma_pair_in_view(i);
        lemma_layer_action_wf(l1, i);
        lemma_layer_action_wf(l2, i);
        lemma_built_shadowed_from_same(xkb, l1, l2, name, layers, commands, exit, back, is_root, i + 1);
        assert(item_keys(xkb, listed(layers), listed(commands)).contains(k));
        match layers {
            Some(v) => {
                if exists|j: int| 0 <= j < v@.len() && layer_key(xkb, #[trigger] v@[j]) == k {
                    let j = choose|j: int| 0 <= j < v@.len() && layer_key(xkb, #[trigger] v@[j]) == k;
                    assert(l1.shortcuts@[k] matches Action::Branch(sub) && layer_built(xkb, 
                        sub,
                        v@[j].name@,
                        v@[j].layers,
                        v@[j].commands,
                    ));
                    assert(l2.shortcuts@[k] matches Action::Branch(sub) && layer_built(xkb, 
                        sub,
                        v@[j].name@,
                        v@[j].layers,
                        v@[j].commands,
                    ));
                    let sub1 = l1.shortcuts@[k]->Branch_0;
                    let sub2 = l2.shortcuts@[k]->Branch_0;
                    assert(decreases_to!(layers => v));
                    assert(decreases_to!(v => v@));
                    assert(decreases_to!(v@ => v@[j]));
                    assert(decreases_to!(v@[j] => v@[j].layers));
                    lemma_built_shadowed_same(xkb, 
                        sub1,
                        sub2,
                        v@[j].name@,
                        v@[j].layers,
                        v@[j].commands,
                        exit,
                        back,
                        false,
                    );
                } else {
                    let j = choose|j: int|
                        0 <= j < listed(commands).len() && command_key(xkb, #[trigger] listed(commands)[j])
                            == k;
                    assert(l1.shortcuts@[command_key(xkb, listed(commands)[j])] is Execute);
                    assert(l2.shortcuts@[command_key(xkb, listed(commands)[j])] is Execute);
                }
            },
            None => {
                let j = choose|j: int|
                    0 <= j < listed(commands).len() && command_key(xkb, #[trigger] listed(commands)[j])
                        == k;
                assert(l1.shortcuts@[command_key(xkb, listed(commands)[j])] is Execute);
                assert(l2.shortcuts@[command_key(xkb, listed(commands)[j])] is Execute);
            },
        }
    }
}

/// What can never be pressed in the layer built from the schemas, when they have no error.
pub open spec fn built_shadowed(xkb: XkbNames, 
    name: Seq<char>,
    layers: Option<Vec<LayerSchema>>,
    commands: Option<Vec<CommandSchema>>,
    exit: Seq<Key>,
    back: Seq<Key>,
) -> Option<(Key, Seq<char>, Seq<char>)> {
    shadowed_in(
        choose|l: Layer| layer_built(xkb, l, name, layers, commands) && layer_wf(l),
        exit,
        back,
        true,
    )
}

/// Any layer built from the schemas has what [`built_shadowed`] names.
pub proof fn lemma_built_shadowed(xkb: XkbNames, 
    l: Layer,
    name: Seq<char>,
    layers: Option<Vec<LayerSchema>>,
    commands: Option<Vec<CommandSchema>>,
    exit: Seq<Key>,
    back: Seq<Key>,
)
    requires
        layer_built(xkb, l, name, layers, commands),
        layer_wf(l),
    ensures
        shadowed_in(l, exit, back, true) == built_shadowed(xkb, name, layers, commands, exit, back),
{
    let c = choose|c: Layer| layer_built(xkb, c, name, layers, commands) && layer_wf(c);
    lemma_built_shadowed_same(xkb, l, c, name, layers, commands, exit, back, true);
}


/// Whether `regex::Regex::new` compiles the pattern.
pub uninterp spec fn regex_compiles(pattern: Seq<char>) -> bool;

/// The display text of the error `regex::Regex::new` gives for a pattern it does not compile.
pub uninterp spec fn regex_error_text(pattern: Seq<char>) -> Seq<char>;

/// Whether the regex compiled from the pattern matches somewhere in the text
/// (`regex::Regex::is_match`).
pub uninterp spec fn regex_matches(pattern: Seq<char>, text: Seq<char>) -> bool;

/// Compiles the pattern with `regex::Regex::new` and reports the error's display text. Which
/// patterns compile, and the text of the error, are the regex crate's and are only named.
#[verifier::external_body]
fn compile_pattern(pattern: &str) -> (r: Result<(), String>)
    ensures
        r is Ok <==> regex_compiles(pattern@),
        r matches Err(m) ==> m@ == regex_error_text(pattern@),
{
    match regex::Regex::new(pattern) {
        Ok(_) => Ok(()),
        Err(e) => Err(e.to_string()),
    }
}

/// Compiles the pattern with `regex::Regex::new` and tests the text with `Regex::is_match`; a
/// pattern that does not compile matches nothing. What matches is the regex crate's and is only
/// named.
#[verifier::external_body]
fn pattern_is_match(pattern: &str, text: &str) -> (r: bool)
    ensures
        r == (regex_compiles(pattern@) && regex_matches(pattern@, text@)),
{
    match regex::Regex::new(pattern) {
        Ok(re) => re.is_match(text),
        Err(_) => false,
    }
}

/// The layers of one application, chosen by matching its pattern against the name of the active
/// window.
#[derive(Debug)]
pub struct ApplicationConfigSchema {
    pub pattern: String,
    pub layers: Option<Vec<LayerSchema>>,
    pub commands: Option<Vec<CommandSchema>>,
}

/// The configuration as it is read.
#[derive(Debug)]
pub struct ConfigSchema {
    pub keys_back: Option<OneOrManySchema<KeySchema>>,
    pub keys_exit: Option<OneOrManySchema<KeySchema>>,
    pub layers: Option<Vec<LayerSchema>>,
    pub commands: Option<Vec<CommandSchema>>,
    pub app_specific_layers: Vec<ApplicationConfigSchema>,
}

/// The root layer of one application and the pattern that selects it.
#[derive(Debug)]
pub struct ApplicationConfig {
    /// A regular expression, matched anywhere in the name of the active window.
    pub pattern: String,
    pub root_layer: Layer,
}

/// The checked configuration.
#[derive(Debug)]
pub struct Config {
    pub keys_back: Vec<Key>,
    pub keys_exit: Vec<Key>,
    pub root_layer: Layer,
    pub app_specific_layers: Vec<ApplicationConfig>,
}

/// The keys listed, in order, or the error of the first that does not parse.
pub open spec fn keys_result(xkb: XkbNames, ks: Seq<KeySchema>) -> Result<Seq<Key>, Seq<char>>
    decreases ks.len(),
{
    if ks.len() == 0 {
        Ok(Seq::empty())
    } else {
        match keys_result(xkb, ks.drop_last()) {
            Err(e) => Err(e),
            Ok(keys) => match key_result(xkb, ks.last()) {
                Err(e) => Err(e),
                Ok(k) => Ok(keys.push(k)),
            },
        }
    }
}

/// The back keys: none unless configured.
pub open spec fn back_keys_result(xkb: XkbNames, o: Option<OneOrManySchema<KeySchema>>) -> Result<
    Seq<Key>,
    Seq<char>,
> {
    match o {
        Some(ks) => keys_result(xkb, items(ks)),
        None => Ok(Seq::empty()),
    }
}

/// The exit keys: Escape unless configured.
pub open spec fn exit_keys_result(xkb: XkbNames, o: Option<OneOrManySchema<KeySchema>>) -> Result<
    Seq<Key>,
    Seq<char>,
> {
    match o {
        Some(ks) => keys_result(xkb, items(ks)),
        None => Ok(seq![plain_key(Symbol(0xff1b))]),
    }
}

/// The error of a root layer: the error of its schemas, or else a shortcut that can never be
/// pressed.
pub open spec fn root_layer_error(xkb: XkbNames, 
    name: Seq<char>,
    layers: Option<Vec<LayerSchema>>,
    commands: Option<Vec<CommandSchema>>,
    exit: Seq<Key>,
    back: Seq<Key>,
) -> Option<Seq<char>> {
    match layer_error(xkb, layers, commands) {
        Some(e) => Some(e),
        None => match built_shadowed(xkb, name, layers, commands, exit, back) {
            Some(found) => Some(shadowed_text(xkb, found)),
            None => None,
        },
    }
}

/// How a pattern that does not compile is reported.
pub open spec fn pattern_error_text(pattern: Seq<char>) -> Seq<char> {
    "Invalid regex pattern "@ + debug_text(pattern) + ": "@ + regex_error_text(pattern)
}

/// The error of the application schemas from index `i` on: for each in order, its pattern, then
/// its root layer, named after the pattern.
pub open spec fn apps_error(xkb: XkbNames, 
    apps: Seq<ApplicationConfigSchema>,
    exit: Seq<Key>,
    back: Seq<Key>,
    i: int,
) -> Option<Seq<char>>
    decreases apps.len() - i,
{
    if i < 0 || i >= apps.len() {
        None
    } else if !regex_compiles(apps[i].pattern@) {
        Some(pattern_error_text(apps[i].pattern@))
    } else {
        match root_layer_error(xkb, apps[i].pattern@, apps[i].layers, apps[i].commands, exit, back) {
            Some(e) => Some(e),
            None => apps_error(xkb, apps, exit, back, i + 1),
        }
    }
}

/// The error a configuration is reported with, if any: the back keys, the exit keys, the root
/// layer (named `Root`), then the applications in order.
pub open spec fn config_error(xkb: XkbNames, s: ConfigSchema) -> Option<Seq<char>> {
    match back_keys_result(xkb, s.keys_back) {
        Err(e) => Some(e),
        Ok(back) => match exit_keys_result(xkb, s.keys_exit) {
            Err(e) => Some(e),
            Ok(exit) => match root_layer_error(xkb, "Root"@, s.layers, s.commands, exit, back) {
                Some(e) => Some(e),
                None => apps_error(xkb, s.app_specific_layers@, exit, back, 0),
            },
        },
    }
}

/// Whether `c` is the configuration a schema without error describes.
pub open spec fn config_built(xkb: XkbNames, c: Config, s: ConfigSchema) -> bool {
    &&& back_keys_result(xkb, s.keys_back) == Ok::<Seq<Key>, Seq<char>>(c.keys_back@)
    &&& exit_keys_result(xkb, s.keys_exit) == Ok::<Seq<Key>, Seq<char>>(c.keys_exit@)
    &&& layer_built(xkb, c.root_layer, "Root"@, s.layers, s.commands)
    &&& layer_wf(c.root_layer)
    &&& c.app_specific_layers@.len() == s.app_specific_layers@.len()
    &&& forall|i: int|
        0 <= i < c.app_specific_layers@.len() ==> {
            let a = #[trigger] c.app_specific_layers@[i];
            let sa = s.app_specific_layers@[i];
            &&& a.pattern@ == sa.pattern@
            &&& regex_compiles(a.pattern@)
            &&& layer_built(xkb, a.root_layer, sa.pattern@, sa.layers, sa.commands)
            &&& layer_wf(a.root_layer)
        }
}

/// Once a prefix of the keys holds an error, the whole list reports that error.
proof fn lemma_keys_error_stays(xkb: XkbNames, ks: Seq<KeySchema>, k: nat)
    requires
        k <= ks.len(),
        keys_result(xkb, ks.take(k as int)) is Err,
    ensures
        keys_result(xkb, ks) == keys_result(xkb, ks.take(k as int)),
    decreases ks.len() - k,
{
    if k < ks.len() {
        assert(ks.take(k + 1int).drop_last() =~= ks.take(k as int));
        lemma_keys_error_stays(xkb, ks, k + 1);
    } else {
        assert(ks.take(k as int) =~= ks);
    }
}

/// Parses a list of keys in order, stopping at the first that does not parse.
pub fn keys_from_schema(value: OneOrManySchema<KeySchema>, xkb: &XkbNames) -> (r: Result<
    Vec<Key>,
    String,
>)
    ensures
        match keys_result(*xkb, items(value)) {
            Ok(ks) => r matches Ok(v) && v@ == ks,
            Err(m) => r matches Err(e) && e@ == m,
        },
{
    let mut schemas: Vec<KeySchema> = match value {
        OneOrManySchema::Many(v) => v,
        OneOrManySchema::One(x) => {
            let mut v = Vec::new();
            v.push(x);
            v
        },
    };
    let ghost all = schemas@;
    proof {
        assert(all =~= items(value));
        assert(all.take(0) =~= Seq::<KeySchema>::empty());
        assert(all.skip(0) =~= all);
    }
    let total = schemas.len();
    let mut out: Vec<Key> = Vec::new();
    let mut i: usize = 0;
    while i < total
        invariant
            i <= total,
            total == all.len(),
            all == items(value),
            schemas@ == all.skip(i as int),
            keys_result(*xkb, all.take(i as int)) == Ok::<Seq<Key>, Seq<char>>(out@),
        decreases total - i,
    {
        let schema = schemas.remove(0);
        proof {
            assert(schema == all[i as int]);
            assert(all.skip(i as int).skip(1) =~= all.skip(i + 1));
            assert(all.take(i + 1).drop_last() =~= all.take(i as int));
            assert(all.take(i + 1).last() == all[i as int]);
        }
        match key_from_schema(schema, xkb) {
            Ok(k) => {
                out.push(k);
            },
            Err(e) => {
                proof {
                    assert(keys_result(*xkb, all.take(i + 1)) == Err::<Seq<Key>, Seq<char>>(e@));
                    lemma_keys_error_stays(*xkb, all, (i + 1) as nat);
                }
                return Err(e);
            },
        }
        i += 1;
    }
    proof {
        assert(all.take(i as int) =~= all);
    }
    Ok(out)
}

/// Builds a root layer and rejects the shortcuts in it that can never be pressed.
fn root_layer_from_schema(
    name: String,
    layers: Option<Vec<LayerSchema>>,
    commands: Option<Vec<CommandSchema>>,
    keys_exit: &Vec<Key>,
    keys_back: &Vec<Key>,
    xkb: &XkbNames,
) -> (r: Result<Layer, String>)
    ensures
        match root_layer_error(*xkb, name@, layers, commands, keys_exit@, keys_back@) {
            Some(m) => r matches Err(e) && e@ == m,
            None => r matches Ok(l) && layer_built(*xkb, l, name@, layers, commands) && layer_wf(l),
        },
{
    let ghost n = name@;
    let layer = match try_parse_layer(name, layers, commands, xkb) {
        Ok(l) => l,
        Err(e) => {
            return Err(e);
        },
    };
    proof {
        lemma_built_shadowed(*xkb, layer, n, layers, commands, keys_exit@, keys_back@);
    }
    match reject_shadowed_shortcuts(&layer, keys_exit.as_slice(), keys_back.as_slice(), xkb) {
        Ok(()) => Ok(layer),
        Err(e) => Err(e),
    }
}

impl Config {
    /// Checks a configuration schema and builds the configuration from it: the back keys (none by
    /// default), the exit keys (Escape by default), the root layer and the application layers.
    ///
    /// # Errors
    ///
    /// Returns the first error, in that order: a key that does not parse, an error in a layer or
    /// command, a shortcut that can never be pressed, or an application pattern that does not
    /// compile.
    pub fn try_from(value: ConfigSchema, xkb: &XkbNames) -> (r: Result<Config, String>)
        ensures
            match config_error(*xkb, value) {
                Some(m) => r matches Err(e) && e@ == m,
                None => r matches Ok(c) && config_built(*xkb, c, value),
            },
    {
        let ghost v = value;
        let keys_back: Vec<Key> = match value.keys_back {
            None => Vec::new(),
            Some(keys) => match keys_from_schema(keys, xkb) {
                Ok(ks) => ks,
                Err(e) => {
                    return Err(e);
                },
            },
        };
        let keys_exit: Vec<Key> = match value.keys_exit {
            None => {
                let mut ks = Vec::new();
                ks.push(Key::new(Symbol::escape()));
                proof {
                    assert(ks@ =~= seq![plain_key(Symbol(0xff1b))]);
                }
                ks
            },
            Some(keys) => match keys_from_schema(keys, xkb) {
                Ok(ks) => ks,
                Err(e) => {
                    return Err(e);
                },
            },
        };
        let root_layer = match root_layer_from_schema(
            str_to_string("Root"),
            value.layers,
            value.commands,
            &keys_exit,
            &keys_back,
            xkb,
        ) {
            Ok(l) => l,
            Err(e) => {
                return Err(e);
            },
        };
        proof {
            reveal_strlit("Root");
        }
        let ghost apps = value.app_specific_layers@;
        let mut rest = value.app_specific_layers;
        let total = rest.len();
        let mut app_specific_layers: Vec<ApplicationConfig> = Vec::new();
        let mut i: usize = 0;
        proof {
            assert(apps.skip(0) =~= apps);
        }
        while i < total
            invariant
                i <= total,
                total == apps.len(),
                apps == v.app_specific_layers@,
                v == value,
                rest@ == apps.skip(i as int),
                back_keys_result(*xkb, v.keys_back) == Ok::<Seq<Key>, Seq<char>>(keys_back@),
                exit_keys_result(*xkb, v.keys_exit) == Ok::<Seq<Key>, Seq<char>>(keys_exit@),
                root_layer_error(*xkb, "Root"@, v.layers, v.commands, keys_exit@, keys_back@) is None,
                layer_built(*xkb, root_layer, "Root"@, v.layers, v.commands),
                layer_wf(root_layer),
                apps_error(*xkb, apps, keys_exit@, keys_back@, 0) == apps_error(*xkb, 
                    apps,
                    keys_exit@,
                    keys_back@,
                    i as int,
                ),
                app_specific_layers@.len() == i,
                forall|j: int|
                    0 <= j < i ==> {
                        let a = #[trigger] app_specific_layers@[j];
                        let sa = apps[j];
                        &&& a.pattern@ == sa.pattern@
                        &&& regex_compiles(a.pattern@)
                        &&& layer_built(*xkb, a.root_layer, sa.pattern@, sa.layers, sa.commands)
                        &&& layer_wf(a.root_layer)
                    },
            decreases total - i,
        {
            let schema = rest.remove(0);
            proof {
                assert(schema == apps[i as int]);
                assert(apps.skip(i as int).skip(1) =~= apps.skip(i + 1));
            }
            match compile_pattern(schema.pattern.as_str()) {
                Ok(()) => {},
                Err(error) => {
                    let mut m = str_to_string("Invalid regex pattern ");
                    let q = debug_str(schema.pattern.as_str());
                    string_push_str(&mut m, q.as_str());
                    string_push_str(&mut m, ": ");
                    string_push_str(&mut m, error.as_str());
                    return Err(m);
                },
            }
            let pattern = schema.pattern.clone();
            let root = match root_layer_from_schema(
                schema.pattern,
                schema.layers,
                schema.commands,
                &keys_exit,
                &keys_back,
                xkb,
            ) {
                Ok(l) => l,
                Err(e) => {
                    return Err(e);
                },
            };
            app_specific_layers.push(ApplicationConfig { pattern, root_layer: root });
            i += 1;
        }
        Ok(Config { keys_back, keys_exit, root_layer, app_specific_layers })
    }
}

/// Finds the first application whose pattern matches somewhere in the window name.
pub fn find_application(apps: &[ApplicationConfig], window_name: &str) -> (r: Option<usize>)
    ensures
        match r {
            Some(i) => i < apps@.len() && regex_compiles(apps@[i as int].pattern@) && regex_matches(
                apps@[i as int].pattern@,
                window_name@,
            ) && forall|j: int|
                0 <= j < i ==> !(regex_compiles(apps@[j].pattern@) && regex_matches(
                    #[trigger] apps@[j].pattern@,
                    window_name@,
                )),
            None => forall|j: int|
                0 <= j < apps@.len() ==> !(regex_compiles(apps@[j].pattern@) && regex_matches(
                    #[trigger] apps@[j].pattern@,
                    window_name@,
                )),
        },
{
    let mut i: usize = 0;
    while i < apps.len()
        invariant
            i <= apps@.len(),
            forall|j: int|
                0 <= j < i ==> !(regex_compiles(apps@[j].pattern@) && regex_matches(
                    #[trigger] apps@[j].pattern@,
                    window_name@,
                )),
        decreases apps@.len() - i,
    {
        if pattern_is_match(apps[i].pattern.as_str(), window_name) {
            return Some(i);
        }
        i += 1;
    }
    None
}


/// No shortcut from index `i` on is consumed when [`shadowed_from`] finds none there.
proof fn lemma_unshadowed_from(
    name: Seq<char>,
    entries: Seq<(Key, Action)>,
    exit: Seq<Key>,
    back: Seq<Key>,
    is_root: bool,
    i: int,
)
    requires
        0 <= i,
        shadowed_from(name, entries, exit, back, is_root, i) is None,
    ensures
        forall|j: int|
            i <= j < entries.len() ==> {
                &&& !exit.contains(#[trigger] entries[j].0)
                &&& !is_root ==> !back.contains(entries[j].0)
                &&& entries[j].1 matches Action::Branch(sub) ==> shadowed_in(sub, exit, back, false)
                    is None
            },
    decreases entries.len() - i,
{
    if i < entries.len() {
        lemma_unshadowed_from(name, entries, exit, back, is_root, i + 1);
    }
}

/// A layer in which no shortcut is consumed binds no exit key, binds no back key unless it is a
/// root layer, and none of its sub-layers has a consumed shortcut.
pub proof fn lemma_unshadowed_keys(layer: Layer, exit: Seq<Key>, back: Seq<Key>, is_root: bool)
    requires
        shadowed_in(layer, exit, back, is_root) is None,
    ensures
        forall|j: int|
            0 <= j < layer.shortcuts.entries@.len() ==> {
                &&& !exit.contains(#[trigger] layer.shortcuts.entries@[j].0)
                &&& !is_root ==> !back.contains(layer.shortcuts.entries@[j].0)
                &&& layer.shortcuts.entries@[j].1 matches Action::Branch(sub) ==> shadowed_in(
                    sub,
                    exit,
                    back,
                    false,
                ) is None
            },
{
    assert(shadowed_in(layer, exit, back, is_root) == shadowed_from(
        layer.name@,
        layer.shortcuts.entries@,
        exit,
        back,
        is_root,
        0,
    ));
    lemma_unshadowed_from(layer.name@, layer.shortcuts.entries@, exit, back, is_root, 0);
    assert forall|j: int| 0 <= j < layer.shortcuts.entries@.len() implies {
        &&& !exit.contains(#[trigger] layer.shortcuts.entries@[j].0)
        &&& !is_root ==> !back.contains(layer.shortcuts.entries@[j].0)
        &&& layer.shortcuts.entries@[j].1 matches Action::Branch(sub) ==> shadowed_in(
            sub,
            exit,
            back,
            false,
        ) is None
    } by {
        assert(0 <= j < layer.shortcuts.entries@.len());
    }
}

/// Every application from index `i` on has a compiling pattern and a root layer without error
/// when [`apps_error`] finds none there.
proof fn lemma_apps_without_error(
    xkb: XkbNames,
    apps: Seq<ApplicationConfigSchema>,
    exit: Seq<Key>,
    back: Seq<Key>,
    i: int,
)
    requires
        0 <= i,
        apps_error(xkb, apps, exit, back, i) is None,
    ensures
        forall|j: int|
            i <= j < apps.len() ==> regex_compiles(#[trigger] apps[j].pattern@) && root_layer_error(
                xkb,
                apps[j].pattern@,
                apps[j].layers,
                apps[j].commands,
                exit,
                back,
            ) is None,
    decreases apps.len() - i,
{
    if i < apps.len() {
        lemma_apps_without_error(xkb, apps, exit, back, i + 1);
    }
}

/// In an accepted configuration every shortcut can be pressed: in the root layer and in the root
/// layer of every application, no shortcut is consumed by the exit keys or, below the root, by
/// the back keys.
pub proof fn lemma_accepted_config_unshadowed(xkb: XkbNames, s: ConfigSchema, c: Config)
    requires
        config_error(xkb, s) is None,
        config_built(xkb, c, s),
    ensures
        shadowed_in(c.root_layer, c.keys_exit@, c.keys_back@, true) is None,
        forall|i: int|
            0 <= i < c.app_specific_layers@.len() ==> shadowed_in(
                (#[trigger] c.app_specific_layers@[i]).root_layer,
                c.keys_exit@,
                c.keys_back@,
                true,
            ) is None,
{
    let exit = c.keys_exit@;
    let back = c.keys_back@;
    lemma_built_shadowed(xkb, c.root_layer, "Root"@, s.layers, s.commands, exit, back);
    let apps = s.app_specific_layers@;
    lemma_apps_without_error(xkb, apps, exit, back, 0);
    assert forall|i: int| 0 <= i < c.app_specific_layers@.len() implies shadowed_in(
        (#[trigger] c.app_specific_layers@[i]).root_layer,
        exit,
        back,
        true,
    ) is None by {
        let a = c.app_specific_layers@[i];
        assert(regex_compiles(apps[i].pattern@));
        lemma_built_shadowed(
            xkb,
            a.root_layer,
            apps[i].pattern@,
            apps[i].layers,
            apps[i].commands,
            exit,
            back,
        );
    }
}

/// The modifiers parsed from names are the named ones, one for each name, in order.
proof fn lemma_modifiers_named(names: Seq<ModifierSchema>)
    ensures
        modifiers_result(names) matches Ok(ms) ==> ms.len() == names.len() && forall|i: int|
            0 <= i < ms.len() ==> modifier_name(#[trigger] ms[i]) == names[i].0@,
    decreases names.len(),
{
    if names.len() > 0 {
        lemma_modifiers_named(names.drop_last());
        if let Ok(ms) = modifiers_result(names) {
            let prev = modifiers_result(names.drop_last())->Ok_0;
            assert(ms == prev.push(modifier_result(names.last().0@)->Ok_0));
            assert forall|i: int| 0 <= i < ms.len() implies modifier_name(#[trigger] ms[i]) == names[i].0@ by {
                if i < prev.len() {
                    assert(ms[i] == prev[i]);
                    assert(names.drop_last()[i] == names[i]);
                }
            }
        }
    }
}

/// Adding modifiers one after another gives a key with the modifiers it had and the added ones,
/// and the same symbol.
proof fn lemma_with_modifiers_has(k: Key, ms: Seq<Modifier>)
    ensures
        with_modifiers(k, ms).symbol == k.symbol,
        forall|m: Modifier| #[trigger] with_modifiers(k, ms).modifiers.has(m) <==> (k.modifiers.has(m) || ms.contains(m)),
    decreases ms.len(),
{
    if ms.len() > 0 {
        lemma_with_modifiers_has(k, ms.drop_last());
        let prev = with_modifiers(k, ms.drop_last());
        assert(with_modifiers(k, ms).modifiers == prev.modifiers.with(ms.last()));
        assert forall|m: Modifier| #[trigger] with_modifiers(k, ms).modifiers.has(m) <==> (k.modifiers.has(m) || ms.contains(m)) by {
            assert(prev.modifiers.has(m) <==> (k.modifiers.has(m) || ms.drop_last().contains(m)));
            assert(prev.modifiers.with(ms.last()).has(m) <==> (prev.modifiers.has(m) || m == ms.last()));
            if ms.drop_last().contains(m) {
                let i = choose|i: int| 0 <= i < ms.drop_last().len() && ms.drop_last()[i] == m;
                assert(ms[i] == m);
            }
            if ms.contains(m) && m != ms.last() {
                let i = choose|i: int| 0 <= i < ms.len() && ms[i] == m;
                assert(ms.drop_last()[i] == m);
            }
            if m == ms.last() {
                assert(ms[ms.len() - 1] == m);
            }
        }
    }
}

/// Different modifiers have different names.
proof fn lemma_modifier_names_differ(a: Modifier, b: Modifier)
    ensures
        modifier_name(a) == modifier_name(b) ==> a == b,
{
    reveal_strlit("Alt");
    reveal_strlit("Control");
    reveal_strlit("Shift");
    reveal_strlit("Super");
    if a != b && modifier_name(a) == modifier_name(b) {
        match (a, b) {
            (Modifier::Alt, Modifier::Control) | (Modifier::Control, Modifier::Alt) => assert(modifier_name(a).len() != modifier_name(b).len()),
            (Modifier::Alt, Modifier::Shift) | (Modifier::Shift, Modifier::Alt) => assert(modifier_name(a).len() != modifier_name(b).len()),
            (Modifier::Alt, Modifier::Super) | (Modifier::Super, Modifier::Alt) => assert(modifier_name(a).len() != modifier_name(b).len()),
            (Modifier::Control, Modifier::Shift) | (Modifier::Shift, Modifier::Control) => assert(modifier_name(a).len() != modifier_name(b).len()),
            (Modifier::Control, Modifier::Super) | (Modifier::Super, Modifier::Control) => assert(modifier_name(a).len() != modifier_name(b).len()),
            _ => assert(modifier_name(a)[1] != modifier_name(b)[1]),
        }
    }
}

/// A key parsed from the configuration holds exactly the modifiers its schema names: a symbol
/// alone gives a key with no modifier, and a symbol with modifiers gives a key that has a
/// modifier exactly when one of the listed names is that modifier's name (`Super` listed means
/// the key needs Super held). Its symbol is the one the symbol's name stands for.
pub proof fn lemma_key_has_exactly_named_modifiers(xkb: XkbNames, value: KeySchema)
    ensures
        key_result(xkb, value) matches Ok(k) ==> k.symbol == Symbol(parse_symbol_keysym(
            xkb,
            match value {
                KeySchema::Key(s) => s.0@,
                KeySchema::KeyAndModifiers(km) => km.key.0@,
            },
        )) && forall|m: Modifier| #[trigger] k.modifiers.has(m) <==> match value {
            KeySchema::Key(_) => false,
            KeySchema::KeyAndModifiers(km) => exists|i: int|
                0 <= i < items(km.modifiers).len() && (#[trigger] items(km.modifiers)[i]).0@
                    == modifier_name(m),
        },
{
    match value {
        KeySchema::Key(s) => {},
        KeySchema::KeyAndModifiers(km) => {
            let names = items(km.modifiers);
            lemma_modifiers_named(names);
            if let Ok(k) = key_result(xkb, value) {
                let ms = modifiers_result(names)->Ok_0;
                let sym = symbol_result(xkb, km.key.0@)->Ok_0;
                lemma_with_modifiers_has(plain_key(sym), ms);
                assert forall|m: Modifier| #[trigger] k.modifiers.has(m) <==> exists|i: int|
                    0 <= i < names.len() && (#[trigger] names[i]).0@ == modifier_name(m) by {
                    if k.modifiers.has(m) {
                        let i = choose|i: int| 0 <= i < ms.len() && ms[i] == m;
                        assert(names[i].0@ == modifier_name(m));
                    }
                    if exists|i: int| 0 <= i < names.len() && (#[trigger] names[i]).0@ == modifier_name(m) {
                        let i = choose|i: int| 0 <= i < names.len() && (#[trigger] names[i]).0@ == modifier_name(m);
                        assert(modifier_name(ms[i]) == names[i].0@);
                        lemma_modifier_names_differ(ms[i], m);
                        assert(ms.contains(m));
                    }
                }
            }
        },
    }
}

} // verus!
