//! Starting up: reading the configuration file into its sections, and the messages for what
//! can go wrong on the way.
use crate::text::{str_to_string, string_push_str};
use vstd::prelude::*;

verus! {

/// Why the configuration file could not be read.
#[derive(Debug)]
pub enum InitError {
    /// The configuration file did not exist.
    FileNotFound,
    /// The configuration file is not a map of sections.
    ParsingError(String),
}

/// Why the section of a module could not be read.
#[derive(Debug)]
pub enum ConfigError {
    /// The requested section is not in the configuration.
    KeyNotFound,
    /// The section does not have the module's schema.
    DeserializationError(String),
}

/// How a failed start of a part of the program is reported.
pub open spec fn init_error_text(subject: Seq<char>, error: Seq<char>) -> Seq<char> {
    subject + " initialization failed.\n\nCause: "@ + error
}

/// Reports that a part of the program could not start, with the cause.
pub fn init_error(subject: &str, error: &str) -> (r: String)
    ensures
        r@ == init_error_text(subject@, error@),
{
    let mut r = str_to_string(subject);
    string_push_str(&mut r, " initialization failed.\n\nCause: ");
    string_push_str(&mut r, error);
    r
}

/// How the check of one module's section reports a failure.
pub open spec fn module_check_text(module_name: Seq<char>, error: ConfigError) -> Seq<char> {
    match error {
        ConfigError::KeyNotFound => "Missing configuration for module "@ + module_name,
        ConfigError::DeserializationError(err) => "Invalid configuration for module "@ + module_name
            + ": "@ + err@,
    }
}

/// The outcome of checking one module's section of the configuration.
pub fn check_module_config(module_name: &str, result: Result<(), ConfigError>) -> (r: Result<
    (),
    String,
>)
    ensures
        match result {
            Ok(()) => r is Ok,
            Err(e) => r matches Err(m) && m@ == module_check_text(module_name@, e),
        },
{
    match result {
        Ok(()) => Ok(()),
        Err(ConfigError::KeyNotFound) => {
            let mut m = str_to_string("Missing configuration for module ");
            string_push_str(&mut m, module_name);
            Err(m)
        },
        Err(ConfigError::DeserializationError(err)) => {
            let mut m = str_to_string("Invalid configuration for module ");
            string_push_str(&mut m, module_name);
            string_push_str(&mut m, ": ");
            string_push_str(&mut m, err.as_str());
            Err(m)
        },
    }
}

} // verus!
