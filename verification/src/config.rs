//! Checks on the configuration of an analysis, made before any work begins.
use vstd::prelude::*;

verus! {

/// Why a configuration is refused.
#[derive(Debug, Clone, Copy, PartialEq, Eq)]
pub enum ConfigError {
    /// The number of nodes to select is negative.
    NegativeBudget,
    /// The depth limit is negative.
    NegativeDepth,
}

impl ConfigError {
    /// What is wrong, in words.
    pub fn describe(&self) -> (text: String)
        ensures
            text@ == (match *self {
                ConfigError::NegativeBudget => "the number of nodes to select is negative"@,
                ConfigError::NegativeDepth => "the depth limit is negative"@,
            }),
    {
        match self {
            ConfigError::NegativeBudget => "the number of nodes to select is negative".to_owned(),
            ConfigError::NegativeDepth => "the depth limit is negative".to_owned(),
        }
    }
}

/// The number of nodes to select, where it is not negative.
pub fn budget(k: isize) -> (r: Result<usize, ConfigError>)
    ensures
        r == (if k >= 0 {
            Ok::<usize, ConfigError>(k as usize)
        } else {
            Err(ConfigError::NegativeBudget)
        }),
{
    if k >= 0 {
        Ok(k as usize)
    } else {
        Err(ConfigError::NegativeBudget)
    }
}

/// The depth limit, where there is none or it is not negative.
pub fn depth_limit(max_depth: Option<isize>) -> (r: Result<Option<usize>, ConfigError>)
    ensures
        r == (match max_depth {
            None => Ok::<Option<usize>, ConfigError>(None),
            Some(d) => if d >= 0 {
                Ok(Some(d as usize))
            } else {
                Err(ConfigError::NegativeDepth)
            },
        }),
{
    match max_depth {
        None => Ok(None),
        Some(d) => if d >= 0 {
            Ok(Some(d as usize))
        } else {
            Err(ConfigError::NegativeDepth)
        },
    }
}

} // verus!
