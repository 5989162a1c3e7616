use vstd::prelude::*;

verus! {

/// Every way an operation of this crate can fail.
///
/// Each operation is atomic: when it returns an error the state it was
/// handed is unchanged, matching the all-or-nothing commit discipline of
/// the host transaction.
#[derive(Clone, Debug, PartialEq, Eq, Structural)]
pub enum RewardsError {
    /// Rewards were distributed while no weight is staked.
    NoStake,
    /// An account was required to exist (e.g. for unstaking) but has no weight.
    WeightNotFound,
    /// An unstake asked for more weight than the account holds.
    Underflow,
    /// A counter or amount would exceed its representable range.
    Overflow,
    /// An unstake of zero weight was requested.
    ZeroUnstake,
    /// A claim found nothing to pay out.
    NoRewardsToClaim,
    /// The sender is not allowed to perform this operation.
    Unauthorized,
    /// A distributed reward denom is not on the configured whitelist.
    RewardNotWhitelisted,
    /// A distribution carried no funds.
    ZeroRewards,
    /// An incentive registration failed validation.
    InvalidIncentive,
    /// The incentive module is not configured.
    IncentivesNotEnabled,
    /// The inflation module is not configured.
    InflationNotEnabled,
    /// The distribution module is not configured.
    DistributionNotEnabled,
    /// The operation does not match the configured weight source.
    InvalidStakingConfig,
    /// Inflation funding in a denom other than the reserve's.
    DenomMismatch,
    /// An inflation withdrawal asked for more than the reserve can spare
    /// once the pending emission is accounted for.
    InsufficientInflation,
    /// No coin was attached where exactly one was required.
    NoFunds,
    /// More than one denom was attached where exactly one was required.
    MultipleDenoms,
    /// The attached coin is not in the required denom.
    MissingDenom,
}

} // verus!
