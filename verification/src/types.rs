//! Plain value types shared across the key hierarchy and the container
//! header.

use vstd::prelude::*;

verus! {

/// Cost parameters for the password-hardening key-derivation function.
///
/// `m_cost` is the memory size in KiB, `t_cost` the iteration count and
/// `p_cost` the degree of parallelism. They are recorded in every container
/// header so that decryption reproduces the exact hardening work even if the
/// defaults change over time.
#[derive(Clone, Copy, Debug, PartialEq, Eq, Structural)]
pub struct KdfParams {
    pub m_cost: u32,
    pub t_cost: u32,
    pub p_cost: u32,
}

impl KdfParams {
    /// The ranges in which this format accepts cost parameters: wide enough
    /// for any sensible hardening work, and capped so that a damaged or
    /// hostile header cannot demand absurd memory or time before it is
    /// rejected.
    pub open spec fn valid(self) -> bool {
        &&& 8 <= self.m_cost <= 0x40_0000
        &&& 8 * self.p_cost <= self.m_cost
        &&& 1 <= self.t_cost <= 4096
        &&& 1 <= self.p_cost <= 255
    }

    /// Runtime check of `valid`, used when a header is parsed.
    pub fn is_valid(&self) -> (r: bool)
        ensures
            r == self.valid(),
    {
        1 <= self.t_cost && self.t_cost <= 4096 && 1 <= self.p_cost && self.p_cost <= 255
            && 8 <= self.m_cost && self.m_cost <= 0x40_0000 && 8 * self.p_cost <= self.m_cost
    }
}

} // verus!
