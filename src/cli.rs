use vstd::prelude::*;

use crate::food::{Food, FoodStateManager};
use crate::taste::UNKNOWN_TASTINESS;

verus! {

/// Catalog file used when none is named.
pub const DEFAULT_FOOD_FILE: &'static str = "food_state.json";

/// What the planner program is asked to do.
#[derive(Debug, Clone, Copy, PartialEq, Eq, Structural)]
pub enum Command {
    /// Plan meals from the catalog.
    Plan,
    /// Rate the foods whose tastiness is unknown.
    RateUnknowns,
    /// Reset parts of the catalog: eaten counts, supply, tastiness.
    Reset { stomach: bool, availability: bool, tastiness: bool },
}

impl Default for Command {
    fn default() -> (r: Self)
        ensures
            r == Command::Plan,
    {
        Command::Plan
    }
}

/// A parsed command line: the command (planning when absent) and the
/// catalog file.
#[derive(Debug, Clone)]
pub struct Cli {
    pub command: Option<Command>,
    pub file: String,
}

impl Cli {
    /// The command to run: the one given, or planning.
    pub fn command_or_default(&self) -> (r: Command)
        ensures
            r == match self.command {
                Some(c) => c,
                None => Command::Plan,
            },
    {
        match self.command {
            Some(c) => c,
            None => Command::Plan,
        }
    }
}

/// Apply the chosen resets to the catalog: eaten counts to zero, supply to
/// zero, tastiness to unknown. Returns false, changing nothing, when no reset
/// was chosen.
pub fn apply_reset<A>(manager: &mut FoodStateManager<A>, stomach: bool, availability: bool, tastiness: bool) -> (r: bool)
    ensures
        r == (stomach || availability || tastiness),
        final(manager)@.len() == old(manager)@.len(),
        forall|i: int|
            0 <= i < old(manager)@.len() ==> #[trigger] final(manager)@[i] == (Food {
                stomach: if stomach {
                    0
                } else {
                    old(manager)@[i].stomach
                },
                available: if availability {
                    0
                } else {
                    old(manager)@[i].available
                },
                tastiness: if tastiness {
                    UNKNOWN_TASTINESS
                } else {
                    old(manager)@[i].tastiness
                },
                ..old(manager)@[i]
            }),
        old(manager).wf() ==> final(manager).wf(),
{
    if !stomach && !availability && !tastiness {
        return false;
    }
    if stomach {
        manager.reset_stomach();
    }
    if availability {
        manager.reset_availability(0);
    }
    if tastiness {
        manager.reset_tastiness(true);
    }
    true
}

} // verus!
