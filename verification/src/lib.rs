//! Host network-fact resolution: address-literal validation, an IPv6
//! capability probe over the kernel's interface-address table, the
//! source-race decision logic, and deterministic JSON normalization.

pub mod facts;
pub mod json;
pub mod probe;
pub mod racer;
pub mod text;
pub mod validator;

use vstd::prelude::*;

verus! {

/// The two address families a literal can belong to.
#[derive(Clone, Copy, PartialEq, Eq, Structural, Debug)]
pub enum AddressFamily {
    V4,
    V6,
}

} // verus!
