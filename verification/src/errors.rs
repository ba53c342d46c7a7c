//! The error values the corpus pipeline reports.

use vstd::prelude::*;

verus! {

/// Why building a corpus or a layout failed.
#[derive(Clone, Copy, PartialEq, Eq, Structural, Debug)]
pub enum KloError {
    /// A layout description or option value cannot be used.
    ConfigError,
    /// A source's total frequency is zero, so scores cannot be
    /// normalized.
    EmptyCorpusError,
    /// A line of a frequency or configuration file is malformed; the
    /// field holds its zero-based line index.
    ParseError(usize),
}

impl KloError {
    /// A short fixed description of the error kind.
    pub fn describe(&self) -> (r: &'static str)
        ensures
            r@ == match self {
                KloError::ConfigError => "unusable configuration"@,
                KloError::EmptyCorpusError => "corpus with zero total frequency"@,
                KloError::ParseError(_) => "malformed line"@,
            },
    {
        match self {
            KloError::ConfigError => "unusable configuration",
            KloError::EmptyCorpusError => "corpus with zero total frequency",
            KloError::ParseError(_) => "malformed line",
        }
    }
}

} // verus!
