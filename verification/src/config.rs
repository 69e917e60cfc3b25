//! Feature switches and limits of an interpolation.

use vstd::prelude::*;

verus! {

/// Which parts of the placeholder syntax are interpreted. A part that is
/// switched off passes through as plain text.
#[derive(Debug, Clone, Copy)]
pub struct FeatureConfig {
    /// Variable substitution (`${VAR}`, `$VAR`).
    pub variables: bool,
    /// Default values (`${VAR:-default}`).
    pub defaults: bool,
    /// Alternate values (`${VAR-default}`).
    pub alternates: bool,
    /// Conditional values (`${VAR:+value}`, `${VAR+value}`).
    pub conditionals: bool,
    /// Escape sequences.
    pub escapes: bool,
    /// Command substitution (`$(cmd)`).
    pub commands: bool,
    /// Backtick command substitution (`` `cmd` ``).
    pub backtick_commands: bool,
}

impl FeatureConfig {
    /// Every feature switched on.
    pub open spec fn all_enabled() -> FeatureConfig {
        FeatureConfig {
            variables: true,
            defaults: true,
            alternates: true,
            conditionals: true,
            escapes: true,
            commands: true,
            backtick_commands: true,
        }
    }
}

impl Default for FeatureConfig {
    fn default() -> (r: Self)
        ensures
            r == FeatureConfig::all_enabled(),
    {
        FeatureConfig {
            variables: true,
            defaults: true,
            alternates: true,
            conditionals: true,
            escapes: true,
            commands: true,
            backtick_commands: true,
        }
    }
}

/// Settings of an interpolation.
#[derive(Debug, Clone)]
pub struct Config {
    /// How many expansions may nest before the interpolation gives up.
    pub max_depth: usize,
    /// Reserved for a strict treatment of unset variables; not read.
    pub strict_unsets: bool,
    /// Feature switches.
    pub features: FeatureConfig,
}

impl Config {
    /// The settings a fresh engine starts with.
    pub open spec fn standard() -> Config {
        Config { max_depth: 10, strict_unsets: false, features: FeatureConfig::all_enabled() }
    }
}

impl Default for Config {
    fn default() -> (r: Self)
        ensures
            r == Config::standard(),
    {
        Config { max_depth: 10, strict_unsets: false, features: FeatureConfig::default() }
    }
}

} // verus!
