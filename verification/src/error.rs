use vstd::prelude::*;

use crate::text::{chars_of, concat, decimal, decimal_chars, string_of};

verus! {

#[derive(Debug, Clone, PartialEq, Eq)]
pub enum ConfigError {
    Parse { line: usize, message: String },
    Missing { block: usize, field: String },
}

#[derive(Debug, Clone, Copy, PartialEq, Eq)]
pub enum RequestError {
    Empty,
    TooLarge,
    BadRequestLine,
    BadHeader,
    UnsupportedVersion,
}

pub enum ConfigErrorV {
    Parse { line: nat, message: Seq<char> },
    Missing { block: nat, field: Seq<char> },
}

impl View for ConfigError {
    type V = ConfigErrorV;

    open spec fn view(&self) -> ConfigErrorV {
        match self {
            ConfigError::Parse { line, message } => ConfigErrorV::Parse {
                line: *line as nat,
                message: message@,
            },
            ConfigError::Missing { block, field } => ConfigErrorV::Missing {
                block: *block as nat,
                field: field@,
            },
        }
    }
}

pub open spec fn config_error_text(e: ConfigErrorV) -> Seq<char> {
    match e {
        ConfigErrorV::Parse { line, message } => "config parse error at line "@ + decimal(line) + ": "@
            + message,
        ConfigErrorV::Missing { block, field } => "route block #"@ + decimal(block)
            + " is missing required field '"@ + field + "'"@,
    }
}

pub open spec fn request_error_text(e: RequestError) -> Seq<char> {
    match e {
        RequestError::Empty => "empty request"@,
        RequestError::TooLarge => "request head exceeded byte limit"@,
        RequestError::BadRequestLine => "malformed request line"@,
        RequestError::BadHeader => "malformed header line"@,
        RequestError::UnsupportedVersion => "unsupported HTTP version"@,
    }
}

impl ConfigError {
    /// The human-readable message for this error.
    pub fn to_string(&self) -> (s: String)
        ensures
            s@ == config_error_text(self@),
    {
        match self {
            ConfigError::Parse { line, message } => {
                let a = concat(&chars_of("config parse error at line "), &decimal_chars(*line as u64));
                let b = concat(&a, &chars_of(": "));
                string_of(&concat(&b, &chars_of(message.as_str())))
            },
            ConfigError::Missing { block, field } => {
                let a = concat(&chars_of("route block #"), &decimal_chars(*block as u64));
                let b = concat(&a, &chars_of(" is missing required field '"));
                let c = concat(&b, &chars_of(field.as_str()));
                string_of(&concat(&c, &chars_of("'")))
            },
        }
    }
}

impl RequestError {
    /// The human-readable message for this error.
    pub fn to_string(&self) -> (s: String)
        ensures
            s@ == request_error_text(*self),
    {
        match self {
            RequestError::Empty => String::from_str("empty request"),
            RequestError::TooLarge => String::from_str("request head exceeded byte limit"),
            RequestError::BadRequestLine => String::from_str("malformed request line"),
            RequestError::BadHeader => String::from_str("malformed header line"),
            RequestError::UnsupportedVersion => String::from_str("unsupported HTTP version"),
        }
    }
}

} // verus!
