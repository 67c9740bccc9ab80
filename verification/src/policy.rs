//! The policy's validated shape: its identity and the per-actor
//! permissions the loader reads from the policy file.

use vstd::prelude::*;
use crate::text::str_eq;

verus! {

/// Identity of the policy: its name must be accepted before any file
/// operation runs.
pub struct PolicyMeta {
    pub name: String,
    pub version: Option<String>,
}

/// What one actor may do.
pub struct ActorPerms {
    pub can_write_raw_inputs: bool,
}

/// Permissions for the two known actors.
pub struct Actors {
    pub human: Option<ActorPerms>,
    pub agent: Option<ActorPerms>,
}

/// The only policy identity the loader accepts.
pub fn policy_name_ok(name: &str) -> (r: bool)
    ensures
        r == (name@ == "hyena"@),
{
    str_eq(name, "hyena")
}

/// Validate a loaded policy's identity: accepted exactly when its name is
/// the expected one.
pub fn validate_policy(meta: &PolicyMeta) -> (r: bool)
    ensures
        r == (meta.name@ == "hyena"@),
{
    policy_name_ok(meta.name.as_str())
}

} // verus!
