use vstd::prelude::*;
use crate::coins::Coin;
use crate::rates::Rate;

verus! {

/// Which denoms a module accepts: all of them, or a listed few.
pub enum Whitelist {
    All,
    Listed(Vec<String>),
}

impl Whitelist {
    /// Whether denom `d` passes the whitelist.
    pub open spec fn allows(self, d: Seq<char>) -> bool {
        match self {
            Whitelist::All => true,
            Whitelist::Listed(l) => exists|i: int| 0 <= i < l@.len() && (#[trigger] l@[i])@ == d,
        }
    }

    #[verifier::spinoff_prover]
    pub fn check(&self, d: &String) -> (r: bool)
        ensures
            r == self.allows(d@),
    {
        match self {
            Whitelist::All => true,
            Whitelist::Listed(l) => {
                let mut i: usize = 0;
                while i < l.len()
                    invariant
                        i <= l@.len(),
                        *self == Whitelist::Listed(*l),
                        forall|k: int| 0 <= k < i ==> (#[trigger] l@[k])@ != d@,
                    decreases l@.len() - i,
                {
                    if crate::denoms::str_eq(l[i].as_str(), d.as_str()) {
                        proof {
                            let ghost wi = i as int;
                            assert(0 <= wi && wi < l@.len() && (#[trigger] l@[wi])@ == d@);
                            assert((*self)->Listed_0 == *l);
                            assert((((*self)->Listed_0)@[wi])@ == d@);
                            assert(self.allows(d@));
                        }
                        return true;
                    }
                    i = i + 1;
                }
                proof {
                    assert((*self)->Listed_0 == *l);
                    if self.allows(d@) {
                        let k = choose|k: int|
                            0 <= k < ((*self)->Listed_0)@.len() && (#[trigger] ((*self)->Listed_0)@[
                                k
                            ])@ == d@;
                        assert(l@[k]@ == d@);
                        assert(false);
                    }
                }
                false
            },
        }
    }
}

/// Where stake weights come from: native coins held by this contract, a
/// hook from an external staking contract (of either supported kind), or
/// owner-administered weights.
pub enum StakingConfig {
    NativeToken { denom: String },
    Cw4Hook { cw4_addr: String },
    DaoDaoHook { daodao_addr: String },
    Permissioned,
}

/// The incentive module's settings.
pub struct IncentiveConfig {
    pub crank_limit: usize,
    pub min_size: u128,
    pub fee: Option<Coin>,
    pub whitelisted_denoms: Whitelist,
}

/// The direct-distribution module's settings.
pub struct DistributionConfig {
    pub fees: Vec<(Rate, String)>,
    pub whitelisted_denoms: Whitelist,
}

/// The pass-through module's settings.
pub struct UnderlyingConfig {
    pub underlying_rewards_contract: String,
}

/// The inflation module's settings.
pub struct InflationConfig {
    pub rate_per_year: Rate,
}

/// The whole configuration: the administrative principal and the
/// enabled modules.
pub struct Config {
    pub owner: String,
    pub staking_module: StakingConfig,
    pub incentive_module: Option<IncentiveConfig>,
    pub distribution_module: Option<DistributionConfig>,
    pub underlying_rewards_module: Option<UnderlyingConfig>,
    pub inflation_module: Option<InflationConfig>,
}

/// Wraps a module's replacement value in a config update.
pub struct ModuleUpdate<T> {
    pub update: T,
}

/// A partial configuration change: absent fields keep their value.
pub struct ConfigUpdate {
    pub owner: Option<String>,
    pub staking_cfg: Option<ModuleUpdate<StakingConfig>>,
    pub incentive_cfg: Option<ModuleUpdate<Option<IncentiveConfig>>>,
    pub distribution_cfg: Option<ModuleUpdate<Option<DistributionConfig>>>,
    pub underlying_cfg: Option<ModuleUpdate<Option<UnderlyingConfig>>>,
    pub inflation_cfg: Option<ModuleUpdate<Option<InflationConfig>>>,
}

/// The (empty) request to migrate stored state to this shape.
pub struct MigrateMsg {}

impl Config {
    /// Applies a partial update field by field.
    #[verifier::spinoff_prover]
    pub fn apply_update(&mut self, msg: ConfigUpdate)
        ensures
            (match msg.owner {
                Some(o) => final(self).owner == o,
                None => final(self).owner == old(self).owner,
            }),
            (match msg.staking_cfg {
                Some(u) => final(self).staking_module == u.update,
                None => final(self).staking_module == old(self).staking_module,
            }),
            (match msg.incentive_cfg {
                Some(u) => final(self).incentive_module == u.update,
                None => final(self).incentive_module == old(self).incentive_module,
            }),
            (match msg.distribution_cfg {
                Some(u) => final(self).distribution_module == u.update,
                None => final(self).distribution_module == old(self).distribution_module,
            }),
            (match msg.underlying_cfg {
                Some(u) => final(self).underlying_rewards_module == u.update,
                None => final(self).underlying_rewards_module == old(
                    self,
                ).underlying_rewards_module,
            }),
            (match msg.inflation_cfg {
                Some(u) => final(self).inflation_module == u.update,
                None => final(self).inflation_module == old(self).inflation_module,
            }),
    {
        let ConfigUpdate {
            owner,
            staking_cfg,
            incentive_cfg,
            distribution_cfg,
            underlying_cfg,
            inflation_cfg,
        } = msg;
        if let Some(o) = owner {
            self.owner = o;
        }
        if let Some(u) = staking_cfg {
            self.staking_module = u.update;
        }
        if let Some(u) = incentive_cfg {
            self.incentive_module = u.update;
        }
        if let Some(u) = distribution_cfg {
            self.distribution_module = u.update;
        }
        if let Some(u) = underlying_cfg {
            self.underlying_rewards_module = u.update;
        }
        if let Some(u) = inflation_cfg {
            self.inflation_module = u.update;
        }
    }
}

/// How a legacy flat configuration names its weight source, read from
/// what it stored and what the hook contract reports itself to be.
#[verifier::spinoff_prover]
pub fn staking_from_legacy(
    stake_denom: Option<String>,
    hook_src: Option<String>,
    hook_contract_kind: Option<String>,
) -> (r: Result<StakingConfig, crate::errors::RewardsError>)
    ensures
        r is Err <==> ((hook_src is Some && stake_denom is Some) || (hook_src is Some
            && stake_denom is None && !(hook_contract_kind matches Some(k) && (k@
            == "crates.io:cw4-stake"@ || k@ == "crates.io:dao-voting-token-staked"@)))),
        match r {
            Ok(cfg) => match cfg {
                StakingConfig::NativeToken { denom } => hook_src is None && (stake_denom matches
                Some(d) && denom@ == d@),
                StakingConfig::Cw4Hook { cw4_addr } => stake_denom is None && (hook_src matches
                Some(h) && cw4_addr@ == h@) && (hook_contract_kind matches Some(k) && k@
                    == "crates.io:cw4-stake"@),
                StakingConfig::DaoDaoHook { daodao_addr } => stake_denom is None && (
                hook_src matches Some(h) && daodao_addr@ == h@) && (hook_contract_kind matches
                Some(k) && k@ == "crates.io:dao-voting-token-staked"@),
                StakingConfig::Permissioned => stake_denom is None && hook_src is None,
            },
            Err(e) => e == crate::errors::RewardsError::InvalidStakingConfig,
        },
{
    match (hook_src, stake_denom) {
        (None, Some(denom)) => Ok(StakingConfig::NativeToken { denom }),
        (Some(h), None) => {
            match hook_contract_kind {
                None => Err(crate::errors::RewardsError::InvalidStakingConfig),
                Some(kind) => {
                    if crate::denoms::str_eq(kind.as_str(), "crates.io:cw4-stake") {
                        Ok(StakingConfig::Cw4Hook { cw4_addr: h })
                    } else if crate::denoms::str_eq(
                        kind.as_str(),
                        "crates.io:dao-voting-token-staked",
                    ) {
                        Ok(StakingConfig::DaoDaoHook { daodao_addr: h })
                    } else {
                        Err(crate::errors::RewardsError::InvalidStakingConfig)
                    }
                },
            }
        },
        (None, None) => Ok(StakingConfig::Permissioned),
        (Some(_), Some(_)) => Err(crate::errors::RewardsError::InvalidStakingConfig),
    }
}


/// Folds a stored legacy flat configuration into the modular shape: the
/// weight source per `staking_from_legacy`, the old whitelist and fee
/// table into a distribution module, the flat incentive fields into an
/// incentive module with an open whitelist, the underlying address into
/// a pass-through module; inflation did not exist then. Fails exactly
/// when the stored weight source is contradictory.
pub fn migrate_legacy_config(
    owner: String,
    whitelisted_rewards: Whitelist,
    fees: Vec<(Rate, String)>,
    stake_denom: Option<String>,
    incentive: Option<(usize, u128, Coin)>,
    hook_src: Option<String>,
    hook_contract_kind: Option<String>,
    underlying: Option<String>,
) -> (r: Result<Config, crate::errors::RewardsError>)
    ensures
        r is Err <==> ((hook_src is Some && stake_denom is Some) || (hook_src is Some
            && stake_denom is None && !(hook_contract_kind matches Some(k) && (k@
            == "crates.io:cw4-stake"@ || k@ == "crates.io:dao-voting-token-staked"@)))),
        match r {
            Ok(cfg) => {
                &&& cfg.owner == owner
                &&& (match cfg.staking_module {
                    StakingConfig::NativeToken { denom } => hook_src is None && (
                    stake_denom matches Some(d) && denom@ == d@),
                    StakingConfig::Cw4Hook { cw4_addr } => stake_denom is None && (
                    hook_src matches Some(h) && cw4_addr@ == h@) && (hook_contract_kind matches
                    Some(k) && k@ == "crates.io:cw4-stake"@),
                    StakingConfig::DaoDaoHook { daodao_addr } => stake_denom is None && (
                    hook_src matches Some(h) && daodao_addr@ == h@) && (hook_contract_kind matches
                    Some(k) && k@ == "crates.io:dao-voting-token-staked"@),
                    StakingConfig::Permissioned => stake_denom is None && hook_src is None,
                })
                &&& (match incentive {
                    None => cfg.incentive_module is None,
                    Some((crank_limit, min_size, fee)) => cfg.incentive_module matches Some(ic)
                        && ic.crank_limit == crank_limit && ic.min_size == min_size && (
                    ic.fee matches Some(f) && f@ == fee@) && ic.whitelisted_denoms is All,
                })
                &&& (cfg.distribution_module matches Some(dc) && dc.fees == fees
                    && dc.whitelisted_denoms == whitelisted_rewards)
                &&& (match underlying {
                    None => cfg.underlying_rewards_module is None,
                    Some(a) => cfg.underlying_rewards_module matches Some(u)
                        && u.underlying_rewards_contract == a,
                })
                &&& cfg.inflation_module is None
            },
            Err(e) => e == crate::errors::RewardsError::InvalidStakingConfig,
        },
{
    let staking_module = match staking_from_legacy(stake_denom, hook_src, hook_contract_kind) {
        Err(e) => {
            return Err(e);
        },
        Ok(m) => m,
    };
    let incentive_module = match incentive {
        None => None,
        Some((crank_limit, min_size, fee)) => Some(
            IncentiveConfig {
                crank_limit,
                min_size,
                fee: Some(fee),
                whitelisted_denoms: Whitelist::All,
            },
        ),
    };
    let underlying_rewards_module = match underlying {
        None => None,
        Some(a) => Some(UnderlyingConfig { underlying_rewards_contract: a }),
    };
    Ok(
        Config {
            owner,
            staking_module,
            incentive_module,
            distribution_module: Some(
                DistributionConfig { fees, whitelisted_denoms: whitelisted_rewards },
            ),
            underlying_rewards_module,
            inflation_module: None,
        },
    )
}

} // verus!
