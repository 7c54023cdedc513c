//! Command parameters: their definitions and the values bound to them.
use crate::text::str_to_string;
use vstd::prelude::*;

verus! {

/// The definition of one parameter of a command.
#[derive(Debug)]
pub enum ParameterDefinitionVariant {
    Character(CharacterParameter),
    Choose(ChooseParameter),
    Text(TextParameter),
}

/// A value bound to one parameter of a command.
#[derive(Debug)]
pub enum ParameterValueVariant {
    Character(ParameterValue<char>),
    Choose(ParameterValue<String>),
    Text(ParameterValue<String>),
}

/// Whether `val` is a value for the parameter `def`: of the same kind and, for a choice, one of
/// its options.
pub open spec fn value_fits(def: ParameterDefinitionVariant, val: ParameterValueVariant) -> bool {
    match (def, val) {
        (ParameterDefinitionVariant::Character(_), ParameterValueVariant::Character(_)) => true,
        (ParameterDefinitionVariant::Choose(d), ParameterValueVariant::Choose(v)) => is_option(
            d.options@,
            v.value()@,
        ),
        (ParameterDefinitionVariant::Text(_), ParameterValueVariant::Text(_)) => true,
        _ => false,
    }
}

impl ParameterDefinitionVariant {
    /// Whether `value` is a value for this parameter.
    pub fn fits(&self, value: &ParameterValueVariant) -> (r: bool)
        ensures
            r == value_fits(*self, *value),
    {
        match (self, value) {
            (ParameterDefinitionVariant::Character(_), ParameterValueVariant::Character(_)) => true,
            (ParameterDefinitionVariant::Choose(d), ParameterValueVariant::Choose(v)) => {
                let mut i: usize = 0;
                while i < d.options.len()
                    invariant
                        i <= d.options.len(),
                        *self == ParameterDefinitionVariant::Choose(*d),
                        *value == ParameterValueVariant::Choose(*v),
                        forall|j: int| 0 <= j < i ==> (#[trigger] d.options@[j])@ != v.0@,
                    decreases d.options.len() - i,
                {
                    if d.options[i] == v.0 {
                        proof {
                            assert(d.options@[i as int]@ == v.value()@);
                        }
                        return true;
                    }
                    i += 1;
                }
                false
            },
            (ParameterDefinitionVariant::Text(_), ParameterValueVariant::Text(_)) => true,
            _ => false,
        }
    }
}

/// A parameter definition, which decides which values it accepts.
pub trait Parameter: Sized {
    type Value: Sized;

    /// Whether the parameter accepts `value`.
    spec fn accepts(&self, value: Self::Value) -> bool;

    /// Binds a value to the parameter. If the parameter-internal validation does not accept the
    /// value, an error is returned.
    fn try_assign_value(&self, value: Self::Value) -> (r: Result<
        ParameterValue<Self::Value>,
        &'static str,
    >)
        ensures
            r is Ok <==> self.accepts(value),
            r matches Ok(v) ==> v.value() == value,
    ;
}

/// A value which has been assigned to a [`Parameter`]. It can only be built with
/// [`Parameter::try_assign_value`], so it is always a value that some parameter accepted.
#[derive(Debug)]
pub struct ParameterValue<V>(V);

impl<V> ParameterValue<V> {
    /// The bound value.
    pub closed spec fn value(self) -> V {
        self.0
    }

    /// Unwraps the bound value.
    pub fn take(self) -> (v: V)
        ensures
            v == self.value(),
    {
        self.0
    }
}

/// A single character.
#[derive(Debug)]
pub struct CharacterParameter;

impl Parameter for CharacterParameter {
    type Value = char;

    open spec fn accepts(&self, value: char) -> bool {
        true
    }

    fn try_assign_value(&self, value: char) -> (r: Result<ParameterValue<char>, &'static str>) {
        Ok(ParameterValue(value))
    }
}

/// A piece of text, a string.
#[derive(Debug)]
pub struct TextParameter;

impl Parameter for TextParameter {
    type Value = String;

    open spec fn accepts(&self, value: String) -> bool {
        true
    }

    fn try_assign_value(&self, value: String) -> (r: Result<ParameterValue<String>, &'static str>) {
        Ok(ParameterValue(value))
    }
}

/// A list of options to choose from: the configured ones, followed by those a shell command
/// generates when the parameter is read.
#[derive(Debug)]
pub struct ChooseParameter {
    pub options: Vec<String>,
    /// The shell command whose output holds the generated options.
    pub gen_options_command: Option<String>,
    /// What separates the generated options in the command's output.
    pub gen_options_split_by: String,
}

/// Whether `value` is one of `options`.
pub open spec fn is_option(options: Seq<String>, value: Seq<char>) -> bool {
    exists|i: int| 0 <= i < options.len() && (#[trigger] options[i])@ == value
}

impl ChooseParameter {
    /// A choose parameter with the given options and option generation. Generated options are
    /// separated by line breaks unless `gen_options_split_by` says otherwise.
    ///
    /// # Errors
    ///
    /// Returns an error if there are neither options nor a command that generates them.
    pub fn new(
        options: Option<Vec<String>>,
        gen_options_command: Option<String>,
        gen_options_split_by: Option<String>,
    ) -> (r: Result<ChooseParameter, String>)
        ensures
            r is Err <==> options is None && gen_options_command is None,
            r matches Err(m) ==> m@ == "either options or generate_options must be given"@,
            r matches Ok(p) ==> {
                &&& p.options@ == (match options {
                    Some(o) => o@,
                    None => Seq::<String>::empty(),
                })
                &&& p.gen_options_command == gen_options_command
                &&& p.gen_options_split_by@ == (match gen_options_split_by {
                    Some(s) => s@,
                    None => seq!['\n'],
                })
            },
    {
        if options.is_none() && gen_options_command.is_none() {
            return Err(str_to_string("either options or generate_options must be given"));
        }
        let options = match options {
            Some(o) => o,
            None => Vec::new(),
        };
        let split_by = match gen_options_split_by {
            Some(s) => s,
            None => str_to_string("\n"),
        };
        proof {
            reveal_strlit("\n");
        }
        Ok(ChooseParameter { options, gen_options_command, gen_options_split_by: split_by })
    }
}

impl Parameter for ChooseParameter {
    type Value = String;

    open spec fn accepts(&self, value: String) -> bool {
        is_option(self.options@, value@)
    }

    fn try_assign_value(&self, value: String) -> (r: Result<ParameterValue<String>, &'static str>) {
        let mut i: usize = 0;
        while i < self.options.len()
            invariant
                i <= self.options.len(),
                forall|j: int| 0 <= j < i ==> (#[trigger] self.options@[j])@ != value@,
            decreases self.options.len() - i,
        {
            if self.options[i] == value {
                return Ok(ParameterValue(value));
            }
            i += 1;
        }
        Err("provided value is not a valid option")
    }
}

} // verus!
