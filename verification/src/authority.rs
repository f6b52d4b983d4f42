//! Authority vocabulary shared by officers and their requests: the colony's
//! authority domains, the party acting, and the outcome of an authority check.

use vstd::prelude::*;
use crate::officers::OfficerRole;
use crate::planner_core::PlannerId;

verus! {

/// A domain of colony authority.
#[derive(Debug, Clone, Copy, PartialEq, Eq, PartialOrd, Ord, Hash, Structural)]
pub enum AuthorityDomain {
    Survival,
    Evacuation,
    Stewardship,
    Building,
    Accounting,
    Forestry,
    Farming,
    Defense,
    Research,
    Textiles,
    Diplomacy,
    Trade,
    ColonyWide,
}

/// Why an authority check refused an operation, by reason code.
#[derive(Debug, Clone, Copy, PartialEq, Eq, Hash, Structural)]
pub struct AuthorityDenial(pub u16);

/// The outcome of an authority check.
#[derive(Debug, Clone, Copy, PartialEq, Eq, Structural)]
pub enum AuthorityDecision {
    Allowed,
    Denied(AuthorityDenial),
}

/// The party performing an operation. Only officers are told apart here;
/// every other party is `Other`.
#[derive(Debug, Clone, PartialEq, Eq)]
pub enum AuthorityActor {
    Officer { cat_id: PlannerId, role: OfficerRole },
    Other,
}

} // verus!
