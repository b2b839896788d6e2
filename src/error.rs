//! Errors of the query engine.
use vstd::prelude::*;
use vstd::string::*;

use crate::text::{decimal, push_decimal};

verus! {

/// Errors during Unicode intervals manipulations.
#[derive(Debug, PartialEq)]
pub enum Error {
    /// Provided category name is invalid.
    InvalidCategory(String),
    /// Provided Unicode version is invalid.
    InvalidVersion(String),
    /// Provided codepoints do not agree. Maximum should be greater or equal to minimum.
    InvalidCodepoints(u32, u32),
    /// Codepoint is not in the allowed range.
    CodepointNotInRange(u32, u32),
}

impl Error {
    /// The human-readable description of the error.
    pub open spec fn message(self) -> Seq<char> {
        match self {
            Error::InvalidCategory(category) => "'"@ + category@
                + "' is not a valid Unicode category"@,
            Error::InvalidVersion(version) => "'"@ + version@ + "' is not a valid Unicode version"@,
            Error::InvalidCodepoints(minimum, maximum) =>
                "Minimum codepoint should be less or equal than maximum codepoint. Got "@
                + decimal(minimum as nat) + " < "@ + decimal(maximum as nat),
            Error::CodepointNotInRange(minimum, maximum) =>
                "Codepoints should be in [0; 1114111] range. Got: ["@ + decimal(minimum as nat)
                + "; "@ + decimal(maximum as nat) + "]"@,
        }
    }

    /// Renders the error as its human-readable description.
    pub fn to_string(&self) -> (r: String)
        ensures
            r@ == self.message(),
    {
        let mut r = String::new();
        match self {
            Error::InvalidCategory(category) => {
                r.append("'");
                r.append(category.as_str());
                r.append("' is not a valid Unicode category");
            },
            Error::InvalidVersion(version) => {
                r.append("'");
                r.append(version.as_str());
                r.append("' is not a valid Unicode version");
            },
            Error::InvalidCodepoints(minimum, maximum) => {
                r.append("Minimum codepoint should be less or equal than maximum codepoint. Got ");
                push_decimal(&mut r, *minimum);
                r.append(" < ");
                push_decimal(&mut r, *maximum);
            },
            Error::CodepointNotInRange(minimum, maximum) => {
                r.append("Codepoints should be in [0; 1114111] range. Got: [");
                push_decimal(&mut r, *minimum);
                r.append("; ");
                push_decimal(&mut r, *maximum);
                r.append("]");
            },
        }
        assert(r@ =~= self.message());
        r
    }
}

} // verus!
