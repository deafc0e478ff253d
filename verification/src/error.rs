//! The ways in which a configuration can be unusable.
use vstd::prelude::*;

verus! {

/// Why a run cannot be set up. A configuration error is fatal: nothing is
/// started.
#[derive(Clone, Copy, Debug, PartialEq, Eq, Structural)]
pub enum ConfigError {
    /// A filter or allow rule has an empty value.
    EmptyRuleValue,
    /// Two comma-joined value tokens have different numbers of values.
    PositionalMismatch,
    /// In ordered mode, two options with more than one value have different
    /// numbers of values.
    OrderedMismatch,
    /// The number of runners is not a decimal number.
    RunnersNotANumber,
    /// The number of runners is zero.
    RunnersZero,
}

impl ConfigError {
    /// What to tell the user.
    pub fn message(&self) -> (r: &'static str)
        ensures
            r@ == self.text(),
    {
        match self {
            ConfigError::EmptyRuleValue => "Error: A rule must not have an empty value.",
            ConfigError::PositionalMismatch => "Error: Positional arguments must have the same number of options.",
            ConfigError::OrderedMismatch => "Error: Ordered arguments must have the same number of options.",
            ConfigError::RunnersNotANumber => "Error: --runners requires an integer argument.",
            ConfigError::RunnersZero => "Error: --runners requires an integer argument greater than 0.",
        }
    }

    /// The message of each error.
    pub open spec fn text(&self) -> Seq<char> {
        match self {
            ConfigError::EmptyRuleValue => "Error: A rule must not have an empty value."@,
            ConfigError::PositionalMismatch => "Error: Positional arguments must have the same number of options."@,
            ConfigError::OrderedMismatch => "Error: Ordered arguments must have the same number of options."@,
            ConfigError::RunnersNotANumber => "Error: --runners requires an integer argument."@,
            ConfigError::RunnersZero => "Error: --runners requires an integer argument greater than 0."@,
        }
    }
}

} // verus!
