//! The closed set of control-impact levels.

use vstd::prelude::*;

verus! {

/// One of the three predefined control-impact levels.
#[derive(Debug, Clone, Copy, PartialEq, Eq, Structural)]
pub enum Baselines {
    High,
    Moderate,
    Low,
}

/// Name of the sheet tab that carries the baseline.
pub open spec fn tab_name(b: Baselines) -> Seq<char> {
    match b {
        Baselines::High => "High Baseline"@,
        Baselines::Moderate => "Moderate Baseline"@,
        Baselines::Low => "Low Baseline"@,
    }
}

/// Short display label of the baseline.
pub open spec fn short_name(b: Baselines) -> Seq<char> {
    match b {
        Baselines::High => "High"@,
        Baselines::Moderate => "Moderate"@,
        Baselines::Low => "Low"@,
    }
}

impl Baselines {
    /// Name of the baseline's sheet tab.
    pub fn as_str(&self) -> (r: &'static str)
        ensures
            r@ == tab_name(*self),
    {
        match self {
            Baselines::High => "High Baseline",
            Baselines::Moderate => "Moderate Baseline",
            Baselines::Low => "Low Baseline",
        }
    }

    /// Short display label.
    pub fn short(&self) -> (r: &'static str)
        ensures
            r@ == short_name(*self),
    {
        match self {
            Baselines::High => "High",
            Baselines::Moderate => "Moderate",
            Baselines::Low => "Low",
        }
    }
}

} // verus!
