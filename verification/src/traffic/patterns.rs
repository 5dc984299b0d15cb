//! The list of traffic patterns to run.

use crate::traffic::config::{TrafficConfig, TrafficPatternSpec};
use vstd::prelude::*;

verus! {

#[derive(Debug, Clone)]
pub struct PatternEngine {
    pub patterns: Vec<TrafficPatternSpec>,
}

impl Default for PatternEngine {
    fn default() -> (r: Self)
        ensures
            r.patterns@.len() == 0,
    {
        Self { patterns: Vec::new() }
    }
}

impl PatternEngine {
    /// The patterns of `config`, in order.
    pub fn new(config: &TrafficConfig) -> (r: Self)
        ensures
            r.patterns@ == config.patterns@,
    {
        let mut patterns: Vec<TrafficPatternSpec> = Vec::new();
        let mut i: usize = 0;
        while i < config.patterns.len()
            invariant
                i <= config.patterns@.len(),
                patterns@ == config.patterns@.take(i as int),
            decreases config.patterns@.len() - i,
        {
            patterns.push(config.patterns[i].duplicate());
            i = i + 1;
            proof {
                assert(patterns@ =~= config.patterns@.take(i as int));
            }
        }
        assert(patterns@ =~= config.patterns@);
        Self { patterns }
    }

    pub fn len(&self) -> (r: usize)
        ensures
            r == self.patterns@.len(),
    {
        self.patterns.len()
    }
}

} // verus!
