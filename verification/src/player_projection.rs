//! The report-safe boundary between executor truth and what any player-facing
//! surface may show.

use vstd::prelude::*;

verus! {

pub const PLAYER_PROJECTION_SCHEMA_VERSION: u32 = 1;
pub const MAX_PLAYER_FEEDBACK: usize = 32;

/// Every consumer that must use the report-safe player projection rather than
/// executor truth.
#[derive(Debug, Clone, Copy, PartialEq, Eq, PartialOrd, Ord, Hash, Structural)]
pub enum PlayerSurface {
    Snapshot,
    Tooltip,
    Inspector,
    ValidationMessage,
    PlanExplanation,
    ResearchScreen,
    TraderHint,
    DebugOutput,
    ClientCache,
}

/// Private executor facts that must never reach a player surface.
#[derive(Debug, Clone, Copy, PartialEq, Eq, PartialOrd, Ord, Hash, Structural)]
pub enum ForbiddenExecutorField {
    AuthoritativeStock,
    AuthoritativeProduction,
    AuthoritativeConsumption,
    SourceCapacity,
    Depletion,
    AuthoritativeRegeneration,
    UndiscoveredSite,
    UnseenThreat,
    OtherColonyBeliefs,
    OtherColonyInventory,
    OtherColonyPlans,
}

impl PlayerSurface {
    pub const ALL: [PlayerSurface; 9] = [
        PlayerSurface::Snapshot,
        PlayerSurface::Tooltip,
        PlayerSurface::Inspector,
        PlayerSurface::ValidationMessage,
        PlayerSurface::PlanExplanation,
        PlayerSurface::ResearchScreen,
        PlayerSurface::TraderHint,
        PlayerSurface::DebugOutput,
        PlayerSurface::ClientCache,
    ];

    /// Authoritative executor fields are forbidden on every player surface.
    pub fn rejects(self, field: ForbiddenExecutorField) -> (r: bool)
        ensures
            r,
    {
        true
    }
}

impl ForbiddenExecutorField {
    pub const ALL: [ForbiddenExecutorField; 11] = [
        ForbiddenExecutorField::AuthoritativeStock,
        ForbiddenExecutorField::AuthoritativeProduction,
        ForbiddenExecutorField::AuthoritativeConsumption,
        ForbiddenExecutorField::SourceCapacity,
        ForbiddenExecutorField::Depletion,
        ForbiddenExecutorField::AuthoritativeRegeneration,
        ForbiddenExecutorField::UndiscoveredSite,
        ForbiddenExecutorField::UnseenThreat,
        ForbiddenExecutorField::OtherColonyBeliefs,
        ForbiddenExecutorField::OtherColonyInventory,
        ForbiddenExecutorField::OtherColonyPlans,
    ];
}

} // verus!
