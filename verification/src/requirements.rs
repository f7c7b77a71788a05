//! PDDL requirements flags.
use vstd::prelude::*;

use crate::lower_error::LowerError;

verus! {

/// The set of enabled PDDL requirements.
#[derive(Debug, Clone, Copy, PartialEq, Eq, Structural)]
pub struct Requirements {
    pub typing: bool,
    pub negative_preconditions: bool,
    pub disjunctive_preconditions: bool,
    pub equality: bool,
    pub existential_preconditions: bool,
    pub universal_preconditions: bool,
    pub conditional_effects: bool,
    /// The restricted PDDL action-cost fragment (`total-cost` only).
    pub action_costs: bool,
    pub fluents: bool,
    pub durative_actions: bool,
    pub duration_inequalities: bool,
    pub continuous_effects: bool,
    pub timed_initial_literals: bool,
}

/// The first enabled requirement outside the classical subset, if any.
pub open spec fn deferred(r: Requirements) -> Option<Seq<char>> {
    if r.fluents {
        Some("fluents"@)
    } else if r.durative_actions {
        Some("durative-actions"@)
    } else if r.duration_inequalities {
        Some("duration-inequalities"@)
    } else if r.continuous_effects {
        Some("continuous-effects"@)
    } else if r.timed_initial_literals {
        Some("timed-initial-literals"@)
    } else {
        None
    }
}

impl Requirements {
    /// No requirement.
    pub open spec fn none() -> Requirements {
        Requirements {
            typing: false,
            negative_preconditions: false,
            disjunctive_preconditions: false,
            equality: false,
            existential_preconditions: false,
            universal_preconditions: false,
            conditional_effects: false,
            action_costs: false,
            fluents: false,
            durative_actions: false,
            duration_inequalities: false,
            continuous_effects: false,
            timed_initial_literals: false,
        }
    }

    /// With the ADL bundle enabled.
    pub open spec fn with_adl(self) -> Requirements {
        Requirements {
            typing: true,
            negative_preconditions: true,
            disjunctive_preconditions: true,
            equality: true,
            existential_preconditions: true,
            universal_preconditions: true,
            conditional_effects: true,
            ..self
        }
    }

    /// With both kinds of quantified preconditions enabled.
    pub open spec fn with_quantified_preconditions(self) -> Requirements {
        Requirements { existential_preconditions: true, universal_preconditions: true, ..self }
    }

    pub fn new() -> (res: Self)
        ensures
            res == Requirements::none(),
    {
        Requirements {
            typing: false,
            negative_preconditions: false,
            disjunctive_preconditions: false,
            equality: false,
            existential_preconditions: false,
            universal_preconditions: false,
            conditional_effects: false,
            action_costs: false,
            fluents: false,
            durative_actions: false,
            duration_inequalities: false,
            continuous_effects: false,
            timed_initial_literals: false,
        }
    }

    /// Enables the ADL bundle: typing, negative/disjunctive preconditions,
    /// equality, quantified preconditions, and conditional effects.
    pub fn enable_adl(&mut self)
        ensures
            *final(self) == old(self).with_adl(),
    {
        self.typing = true;
        self.negative_preconditions = true;
        self.disjunctive_preconditions = true;
        self.equality = true;
        self.existential_preconditions = true;
        self.universal_preconditions = true;
        self.conditional_effects = true;
    }

    /// Enables both existential and universal preconditions.
    pub fn enable_quantified_preconditions(&mut self)
        ensures
            *final(self) == old(self).with_quantified_preconditions(),
    {
        self.existential_preconditions = true;
        self.universal_preconditions = true;
    }

    /// Rejects requirements outside the classical subset. Durative/temporal and
    /// general numeric-fluent features are deferred; restricted action costs
    /// have their own flag and remain supported.
    pub fn reject_deferred(&self) -> (res: Result<(), LowerError>)
        ensures
            match deferred(*self) {
                Some(name) => res matches Err(LowerError::UnsupportedRequirement(s)) && s@ == name,
                None => res is Ok,
            },
    {
        let name = if self.fluents {
            "fluents"
        } else if self.durative_actions {
            "durative-actions"
        } else if self.duration_inequalities {
            "duration-inequalities"
        } else if self.continuous_effects {
            "continuous-effects"
        } else if self.timed_initial_literals {
            "timed-initial-literals"
        } else {
            return Ok(());
        };
        Err(LowerError::UnsupportedRequirement(name.to_string()))
    }
}

} // verus!
