//! The errors a run can end with.
use vstd::prelude::*;

verus! {

/// Why a run or one of its steps failed.
#[derive(Debug, Clone)]
pub enum ExtractorError {
    Io(String),
    Pattern(String),
    Glob(String),
    Json(String),
    Yaml(String),
    NoFilesFound,
    ParseError { path: String, message: String },
    OutputError { path: String, message: String },
    ConfigError { message: String },
    TailwindError(String),
    ObfuscationError(String),
    InvalidInput(String),
    InputError(String),
    SecurityError(String),
    PerformanceError(String),
}

/// The message for a configuration file whose format is not known.
pub open spec fn unsupported_config_message(path: Seq<char>) -> Seq<char> {
    "Unsupported config file format: "@ + path + ". Use .yaml, .yml, or .json"@
}

pub fn unsupported_config(path: &str) -> (r: ExtractorError)
    ensures
        r matches ExtractorError::ConfigError { message } && message@ == unsupported_config_message(path@),
{
    let mut message = String::from_str("Unsupported config file format: ");
    message.append(path);
    message.append(". Use .yaml, .yml, or .json");
    ExtractorError::ConfigError { message }
}

} // verus!
