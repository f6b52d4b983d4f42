//! Officer roles. An officer is a cat appointed to automate one labor category.

use vstd::prelude::*;

verus! {

/// A colony office. Each role governs one labor category; an unfilled role
/// emits no automatic effect.
#[derive(Debug, Clone, Copy, PartialEq, Eq, PartialOrd, Ord, Hash, Structural)]
pub enum OfficerRole {
    Steward,
    Forester,
    Farmer,
    Captain,
    Loremaster,
}

/// The stable position of a role in the canonical role order.
pub open spec fn role_rank(role: OfficerRole) -> int {
    match role {
        OfficerRole::Steward => 0,
        OfficerRole::Forester => 1,
        OfficerRole::Farmer => 2,
        OfficerRole::Captain => 3,
        OfficerRole::Loremaster => 4,
    }
}

impl OfficerRole {
    /// All roles in a stable order (used for deterministic officer iteration).
    pub const ALL: [OfficerRole; 5] = [
        OfficerRole::Steward,
        OfficerRole::Forester,
        OfficerRole::Farmer,
        OfficerRole::Captain,
        OfficerRole::Loremaster,
    ];

    /// The role's position in `ALL`.
    pub fn rank(self) -> (r: u8)
        ensures
            r == role_rank(self),
    {
        match self {
            OfficerRole::Steward => 0,
            OfficerRole::Forester => 1,
            OfficerRole::Farmer => 2,
            OfficerRole::Captain => 3,
            OfficerRole::Loremaster => 4,
        }
    }

    /// The variant name of the role, as `{:?}` prints it.
    pub fn debug_name(self) -> (r: &'static str)
        ensures
            r@ == role_debug_name(self),
    {
        proof {
            reveal_strlit("Steward");
            reveal_strlit("Forester");
            reveal_strlit("Farmer");
            reveal_strlit("Captain");
            reveal_strlit("Loremaster");
        }
        match self {
            OfficerRole::Steward => "Steward",
            OfficerRole::Forester => "Forester",
            OfficerRole::Farmer => "Farmer",
            OfficerRole::Captain => "Captain",
            OfficerRole::Loremaster => "Loremaster",
        }
    }
}

pub open spec fn role_debug_name(role: OfficerRole) -> Seq<char> {
    match role {
        OfficerRole::Steward => seq!['S', 't', 'e', 'w', 'a', 'r', 'd'],
        OfficerRole::Forester => seq!['F', 'o', 'r', 'e', 's', 't', 'e', 'r'],
        OfficerRole::Farmer => seq!['F', 'a', 'r', 'm', 'e', 'r'],
        OfficerRole::Captain => seq!['C', 'a', 'p', 't', 'a', 'i', 'n'],
        OfficerRole::Loremaster => seq!['L', 'o', 'r', 'e', 'm', 'a', 's', 't', 'e', 'r'],
    }
}

/// Every role appears in `ALL` exactly once, at its rank.
pub proof fn law_all_roles_listed_once(role: OfficerRole)
    ensures
        OfficerRole::ALL@[role_rank(role)] == role,
        forall|i: int| 0 <= i < 5 && OfficerRole::ALL@[i] == role ==> i == role_rank(role),
{
}

} // verus!
