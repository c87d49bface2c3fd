use vstd::prelude::*;

verus! {

/// Everything that can go wrong in the engine.
///
/// Every rejection is all-or-nothing: an operation that returns an error
/// leaves the engine state exactly as it found it.
#[derive(Debug, Clone)]
pub enum ContractError {
    /// The funds sent use a denomination other than the configured token.
    InvalidFunds,
    /// The funds sent do not match the declared stake amount.
    NotEnoughFunds,
    /// The targeted round no longer accepts stakes.
    RoundFinished { round_id: u128, seconds: u64 },
    /// The stake is below the configured minimum.
    BetUnderMinBetAmount,
    /// The caller already holds a position on the other side of this round.
    InvalidDirectionBet,
    /// The caller is not an admin (or not the owner).
    Unauthorized,
    /// The fee recipients' ratios do not sum to exactly one.
    WrongRatio,
    /// Removing this admin would leave the admin set empty.
    NeedOneAdmin,
    /// The asset rotation list may not be empty.
    DenomsEmpty,
    /// The asset has no registered price-feed mapping.
    DenomNotRegistered { denom: String },
    /// The price observation is older than the staleness bound allows.
    PriceTooOld,
    /// All operations are rejected while staking is halted.
    Halted,
    /// The stake names a round other than the one open for bidding.
    NotCurrentRound { round_id: u128, current_round_id: u128 },
    /// No settled position produced a payout for this caller.
    NothingToClaim,
    /// The referenced round or bet does not exist.
    BetNotFound,
    /// The bet stopped accepting stakes at its end timestamp.
    BetAlreadyFinished,
    /// A stake may not move to a different option of the same bet.
    CantIncreaseBetOnDifferentOption,
    /// The option key does not name one of the bet's declared options.
    InvalidOption,
    /// Additive accumulation or payout arithmetic left the 128-bit range.
    Overflow,
}

impl ContractError {
    /// A short stable name for the error, for logs and host attributes.
    pub fn label(&self) -> String {
        let t: &str = match self {
            ContractError::InvalidFunds => "invalid funds",
            ContractError::NotEnoughFunds => "not enough funds",
            ContractError::RoundFinished { .. } => "round finished",
            ContractError::BetUnderMinBetAmount => "bet under minimum",
            ContractError::InvalidDirectionBet => "bet in both directions",
            ContractError::Unauthorized => "unauthorized",
            ContractError::WrongRatio => "wrong ratio",
            ContractError::NeedOneAdmin => "need one admin",
            ContractError::DenomsEmpty => "denoms empty",
            ContractError::DenomNotRegistered { .. } => "denom not registered",
            ContractError::PriceTooOld => "price too old",
            ContractError::Halted => "halted",
            ContractError::NotCurrentRound { .. } => "not the current round",
            ContractError::NothingToClaim => "nothing to claim",
            ContractError::BetNotFound => "bet not found",
            ContractError::BetAlreadyFinished => "bet already finished",
            ContractError::CantIncreaseBetOnDifferentOption => "different option",
            ContractError::InvalidOption => "invalid option",
            ContractError::Overflow => "overflow",
        };
        t.to_owned()
    }
}

} // verus!
