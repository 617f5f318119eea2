//! Staking and slashing parameter records.
//!
//! The coin and staking business logic lives outside the core; these are
//! the plain parameter shapes it is configured with. A [`Decimal`] stands
//! for a fixed-point fraction as plain integers: the represented value is
//! `mantissa / 10^scale`.

use vstd::prelude::*;

verus! {

/// A fixed-point decimal fraction: `mantissa / 10^scale`.
#[derive(Debug, Clone, Copy, PartialEq, Eq, Structural)]
pub struct Decimal {
    /// The scaled integer value.
    pub mantissa: i128,
    /// The power of ten the mantissa is scaled by.
    pub scale: u32,
}

/// The parameters of the staking subsystem.
#[derive(Debug, Clone, Copy, PartialEq, Eq, Structural)]
pub struct StakingParams {
    /// How long undelegated funds stay locked, in seconds.
    pub unbonding_seconds: u64,
    /// The most validators the active set may hold.
    pub max_validators: u64,
}

/// The parameters of the slashing subsystem.
#[derive(Debug, Clone, Copy, PartialEq, Eq, Structural)]
pub struct SlashingParams {
    /// How many blocks a validator may miss before it is jailed.
    pub max_offline_blocks: u64,
    /// The stake fraction slashed for signing two blocks at one height.
    pub slash_fraction_double_sign: Decimal,
    /// The stake fraction slashed for downtime.
    pub slash_fraction_downtime: Decimal,
    /// How long a jailed validator stays jailed, in seconds.
    pub downtime_jail_seconds: u64,
}

impl Default for StakingParams {
    /// All-zero parameters, to be filled in by the application.
    fn default() -> (r: Self)
        ensures
            r.unbonding_seconds == 0,
            r.max_validators == 0,
    {
        StakingParams { unbonding_seconds: 0, max_validators: 0 }
    }
}

impl Default for SlashingParams {
    /// All-zero parameters, to be filled in by the application.
    fn default() -> (r: Self)
        ensures
            r.max_offline_blocks == 0,
            r.downtime_jail_seconds == 0,
            r.slash_fraction_double_sign.mantissa == 0,
            r.slash_fraction_downtime.mantissa == 0,
    {
        SlashingParams {
            max_offline_blocks: 0,
            slash_fraction_double_sign: Decimal { mantissa: 0, scale: 0 },
            slash_fraction_downtime: Decimal { mantissa: 0, scale: 0 },
            downtime_jail_seconds: 0,
        }
    }
}

} // verus!
