//! The messages the contract entry points accept.

use vstd::prelude::*;

verus! {

/// Sent once when the contract is set up. It carries nothing.
#[derive(Clone, Debug, PartialEq, Eq)]
pub struct InstantiateMsg {}

/// What the contract can be asked to do.
#[derive(Clone, Debug, PartialEq, Eq)]
pub enum ExecuteMsg {
    /// Fill the placeholders of `msg` from the bindings in `vars`.
    HydrateMsg { msg: String, vars: String },
}

} // verus!
