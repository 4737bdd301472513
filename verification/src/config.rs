//! Configuration checks done before any stream processing begins.

use crate::count::Sort;
use vstd::prelude::*;

verus! {

/// A configuration the engine refuses before reading any input.
#[derive(Clone, Copy, Debug, PartialEq, Eq)]
pub enum ConfigError {
    /// Both sort directions were requested at once.
    ConflictingSort,
    /// The delimiter is not a single ASCII character.
    NonAsciiDelimiter,
}

impl ConfigError {
    pub open spec fn message_spec(self) -> Seq<char> {
        match self {
            ConfigError::ConflictingSort => "cannot sort ascending and descending at once"@,
            ConfigError::NonAsciiDelimiter => "delim is not an ascii char"@,
        }
    }

    /// What went wrong, for the caller to report.
    pub fn message(&self) -> (r: &'static str)
        ensures
            r@ == self.message_spec(),
    {
        match self {
            ConfigError::ConflictingSort => "cannot sort ascending and descending at once",
            ConfigError::NonAsciiDelimiter => "delim is not an ascii char",
        }
    }
}

/// Resolve the two sort flags into at most one direction; asking for both
/// at once is a configuration error.
pub fn resolve_sort(sort: bool, sort_descending: bool) -> (r: Result<Option<Sort>, ConfigError>)
    ensures
        r == if sort && sort_descending {
            Result::<Option<Sort>, ConfigError>::Err(ConfigError::ConflictingSort)
        } else if sort {
            Result::<Option<Sort>, ConfigError>::Ok(Some(Sort::Ascending))
        } else if sort_descending {
            Result::<Option<Sort>, ConfigError>::Ok(Some(Sort::Descending))
        } else {
            Result::<Option<Sort>, ConfigError>::Ok(None)
        },
{
    if sort && sort_descending {
        Err(ConfigError::ConflictingSort)
    } else if sort {
        Ok(Some(Sort::Ascending))
    } else if sort_descending {
        Ok(Some(Sort::Descending))
    } else {
        Ok(None)
    }
}

/// The record delimiter: the null byte when `null` is set, else the given
/// character, accepted only when it is ASCII.
pub fn delim_byte(delim: char, null: bool) -> (r: Result<u8, ConfigError>)
    ensures
        null ==> r == Result::<u8, ConfigError>::Ok(0u8),
        !null ==> r == if (delim as u32) < 128 {
            Result::<u8, ConfigError>::Ok((delim as u32) as u8)
        } else {
            Result::<u8, ConfigError>::Err(ConfigError::NonAsciiDelimiter)
        },
{
    if null {
        Ok(0)
    } else {
        let c = delim as u32;
        if c < 128 {
            Ok(c as u8)
        } else {
            Err(ConfigError::NonAsciiDelimiter)
        }
    }
}

} // verus!
