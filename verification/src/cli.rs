//! Global command-line options shared by all commands of the driver.
//!
//! The option set itself carries no behaviour; the one piece of logic is the
//! parsing of the `--colors` argument.

use vstd::prelude::*;

verus! {

/// The level of logging, from the most verbose to the least verbose.
/// `Off` emits no logging at all.
#[derive(Clone, Copy, Debug, PartialEq, Eq, Structural)]
pub enum LoggingLevel {
    Off,
    Debug,
    Info,
    Warn,
    Error,
}

impl Default for LoggingLevel {
    fn default() -> (r: Self)
        ensures
            r == LoggingLevel::Off,
    {
        LoggingLevel::Off
    }
}

/// How the log should look.
#[derive(Clone, Copy, Debug, PartialEq, Eq, Structural)]
pub enum LoggingKind {
    Pretty,
    Compact,
    Json,
}

impl Default for LoggingKind {
    fn default() -> (r: Self)
        ensures
            r == LoggingKind::Pretty,
    {
        LoggingKind::Pretty
    }
}

/// The formatting mode for markup: `Off` prints everything as plain text,
/// `Force` forces the formatting of markup using ANSI even if the console
/// output is determined to be incompatible.
#[derive(Clone, Copy, Debug, PartialEq, Eq, Structural)]
pub enum ColorsArg {
    Off,
    Force,
}

impl ColorsArg {
    /// Parses the value handed to the `--colors` argument: exactly `"off"`
    /// and `"force"` are accepted; anything else is rejected with a message.
    pub fn parse(s: &str) -> (r: Result<ColorsArg, String>)
        ensures
            s@ == "off"@ ==> (r matches Ok(c) && c == ColorsArg::Off),
            s@ == "force"@ ==> (r matches Ok(c) && c == ColorsArg::Force),
            s@ != "off"@ && s@ != "force"@ ==> r is Err,
            r is Ok ==> s@ == "off"@ || s@ == "force"@,
    {
        proof {
            reveal_strlit("off");
            reveal_strlit("force");
            assert("off"@.len() == 3);
            assert("force"@.len() == 5);
            assert("off"@ != "force"@);
        }
        let owned = s.to_owned();
        if owned == "off".to_owned() {
            Ok(ColorsArg::Off)
        } else if owned == "force".to_owned() {
            Ok(ColorsArg::Force)
        } else {
            let message = "value \"".to_owned().concat(s).concat(
                "\" is not valid for the --colors argument",
            );
            Err(message)
        }
    }
}

impl core::str::FromStr for ColorsArg {
    type Err = String;

    fn from_str(s: &str) -> Result<Self, String> {
        ColorsArg::parse(s)
    }
}

/// Global options applied to all commands.
#[derive(Clone, Debug)]
pub struct CliOptions {
    /// Set the formatting mode for markup.
    pub colors: Option<ColorsArg>,
    /// Connect to a running instance of the daemon server.
    pub use_server: bool,
    /// Print additional verbose advices on diagnostics.
    pub verbose: bool,
    /// Set the filesystem path to the directory of the configuration file.
    pub config_path: Option<String>,
    /// Cap the amount of diagnostics displayed.
    pub max_diagnostics: u16,
    /// Skip over files containing syntax errors instead of emitting an error
    /// diagnostic.
    pub skip_errors: bool,
    /// Silence errors that would be emitted in case no files were processed
    /// during the execution of the command.
    pub no_errors_on_unmatched: bool,
    /// Exit with an error code if some diagnostics emit warnings.
    pub error_on_warnings: bool,
    /// Report information using the JSON format.
    pub json: bool,
    /// The level of logging.
    pub log_level: LoggingLevel,
    /// How the log should look.
    pub log_kind: LoggingKind,
}

impl Default for CliOptions {
    /// The defaults the command line falls back to when an option is absent.
    fn default() -> (r: Self)
        ensures
            r.colors is None,
            !r.use_server,
            !r.verbose,
            r.config_path is None,
            r.max_diagnostics == 20,
            !r.skip_errors,
            !r.no_errors_on_unmatched,
            !r.error_on_warnings,
            !r.json,
            r.log_level == LoggingLevel::Off,
            r.log_kind == LoggingKind::Pretty,
    {
        CliOptions {
            colors: None,
            use_server: false,
            verbose: false,
            config_path: None,
            max_diagnostics: 20,
            skip_errors: false,
            no_errors_on_unmatched: false,
            error_on_warnings: false,
            json: false,
            log_level: LoggingLevel::Off,
            log_kind: LoggingKind::Pretty,
        }
    }
}

} // verus!
