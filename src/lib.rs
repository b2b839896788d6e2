//! Unicode codepoint intervals selected by general category, codepoint range and
//! explicit characters.
use vstd::prelude::*;

pub mod categories;
pub mod error;
pub mod intervals;
pub mod intervalset;
pub mod query;
pub mod table;
mod text;

pub use crate::categories::{UnicodeCategory, UnicodeCategorySet};
pub use crate::error::Error;
pub use crate::intervalset::IntervalSet;
pub use crate::query::IntervalQuery;
pub use crate::table::CategoryTable;

use crate::text::same_text;

verus! {

/// A closed range `[low, high]` of codepoints.
pub type Interval = (u32, u32);

/// The largest Unicode codepoint.
pub const MAX_CODEPOINT: u32 = 0x10FFFF;

/// Supported Unicode versions.
#[derive(Debug, Clone, Copy, PartialEq, Eq, Hash, Structural)]
pub enum UnicodeVersion {
    /// Unicode 9.0.0
    V9_0_0,
    /// Unicode 10.0.0
    V10_0_0,
    /// Unicode 11.0.0
    V11_0_0,
    /// Unicode 12.0.0
    V12_0_0,
    /// Unicode 12.1.0
    V12_1_0,
    /// Unicode 13.0.0
    V13_0_0,
    /// Unicode 14.0.0
    V14_0_0,
    /// Unicode 15.0.0
    V15_0_0,
}

impl UnicodeVersion {
    /// The version number as text.
    pub open spec fn name(self) -> Seq<char> {
        match self {
            UnicodeVersion::V9_0_0 => "9.0.0"@,
            UnicodeVersion::V10_0_0 => "10.0.0"@,
            UnicodeVersion::V11_0_0 => "11.0.0"@,
            UnicodeVersion::V12_0_0 => "12.0.0"@,
            UnicodeVersion::V12_1_0 => "12.1.0"@,
            UnicodeVersion::V13_0_0 => "13.0.0"@,
            UnicodeVersion::V14_0_0 => "14.0.0"@,
            UnicodeVersion::V15_0_0 => "15.0.0"@,
        }
    }

    /// Unicode version as a string.
    pub fn as_str(self) -> (r: &'static str)
        ensures
            r@ == self.name(),
    {
        match self {
            UnicodeVersion::V9_0_0 => "9.0.0",
            UnicodeVersion::V10_0_0 => "10.0.0",
            UnicodeVersion::V11_0_0 => "11.0.0",
            UnicodeVersion::V12_0_0 => "12.0.0",
            UnicodeVersion::V12_1_0 => "12.1.0",
            UnicodeVersion::V13_0_0 => "13.0.0",
            UnicodeVersion::V14_0_0 => "14.0.0",
            UnicodeVersion::V15_0_0 => "15.0.0",
        }
    }

    /// Get the latest Unicode version.
    pub fn latest() -> (r: UnicodeVersion)
        ensures
            r == UnicodeVersion::V15_0_0,
    {
        UnicodeVersion::V15_0_0
    }

    /// The version whose number is written `s`.
    pub fn parse(s: &str) -> (r: Result<UnicodeVersion, Error>)
        ensures
            match r {
                Ok(v) => v.name() == s@,
                Err(e) => (forall|v: UnicodeVersion| #[trigger] v.name() != s@) && (
                e matches Error::InvalidVersion(text) && text@ == s@),
            },
    {
        if same_text(s, "9.0.0") {
            return Ok(UnicodeVersion::V9_0_0);
        }
        if same_text(s, "10.0.0") {
            return Ok(UnicodeVersion::V10_0_0);
        }
        if same_text(s, "11.0.0") {
            return Ok(UnicodeVersion::V11_0_0);
        }
        if same_text(s, "12.0.0") {
            return Ok(UnicodeVersion::V12_0_0);
        }
        if same_text(s, "12.1.0") {
            return Ok(UnicodeVersion::V12_1_0);
        }
        if same_text(s, "13.0.0") {
            return Ok(UnicodeVersion::V13_0_0);
        }
        if same_text(s, "14.0.0") {
            return Ok(UnicodeVersion::V14_0_0);
        }
        if same_text(s, "15.0.0") {
            return Ok(UnicodeVersion::V15_0_0);
        }
        Err(Error::InvalidVersion(s.to_owned()))
    }
}

/// Build a query over `table` that finds Unicode intervals matching the query criteria.
pub fn query<'a>(table: &'a CategoryTable) -> (r: IntervalQuery<'a>)
    ensures
        r.spec_table() == *table,
        r.spec_include_categories() is None,
        r.spec_exclude_categories() is None,
        r.spec_include_characters() is None,
        r.spec_exclude_characters() is None,
        r.spec_min_codepoint() == 0,
        r.spec_max_codepoint() == MAX_CODEPOINT,
{
    table.query()
}

impl core::str::FromStr for UnicodeVersion {
    type Err = Error;

    fn from_str(s: &str) -> Result<UnicodeVersion, Error> {
        UnicodeVersion::parse(s)
    }
}

} // verus!
