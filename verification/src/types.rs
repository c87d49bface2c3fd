use vstd::prelude::*;

verus! {

/// Ratios (fee-recipient shares) are fixed-point fractions with eighteen
/// decimal places; a ratio of exactly one is `RATIO_PRECISION` atomic units.
pub const RATIO_PRECISION: u128 = 1_000_000_000_000_000_000;

/// The protocol fee rate is an integer numerator over this denominator times
/// one hundred: a `gaming_fee` of one unit is one part in ten thousand.
pub const FEE_PRECISION: u128 = 100;

/// Oracle prices are rescaled to this many decimal places before any two of
/// them are compared.
pub const PRICE_DECIMALS: u64 = 18;

/// The side of a two-sided round a stake is placed on.
#[derive(Clone, Copy, Debug, PartialEq, Eq, Structural)]
pub enum Direction {
    /// The price will close above its opening observation.
    Bull,
    /// The price will close below its opening observation.
    Bear,
}

impl Direction {
    /// The lower-case name of the side, as shown in host attributes.
    pub fn label(&self) -> String {
        let t: &str = match self {
            Direction::Bull => "bull",
            Direction::Bear => "bear",
        };
        t.to_owned()
    }
}

/// A fee recipient: an account and its share of the protocol fee, in
/// `RATIO_PRECISION` atomic units (all shares together must equal one).
#[derive(Clone, Debug)]
pub struct WalletInfo {
    pub address: String,
    pub ratio: u128,
}

/// Process-wide parameters, mutable only through admin operations.
#[derive(Clone, Debug)]
pub struct Config {
    /// Duration of a round, in seconds; also the lead time of the first round.
    pub next_round_seconds: u64,
    /// Smallest stake accepted.
    pub minimum_bet: u128,
    /// Protocol fee numerator over `FEE_PRECISION * 100`.
    pub gaming_fee: u128,
    /// The token stakes must be paid in.
    pub token_denom: String,
    /// The account of the companion experience service.
    pub users_contract: String,
    /// Experience credited per token unit staked.
    pub exp_per_denom_bet: u64,
    /// Experience credited per token unit won.
    pub exp_per_denom_won: u64,
    /// The protocol fee recipients; their ratios must sum to exactly one.
    pub dev_wallet_list: Vec<WalletInfo>,
}

/// The round currently open for stakes.
#[derive(Clone, Debug)]
pub struct NextRound {
    pub id: u128,
    /// When the round was created.
    pub bid_time: u64,
    /// When it stops accepting stakes and goes live.
    pub open_time: u64,
    /// When it will finish.
    pub close_time: u64,
    pub bull_amount: u128,
    pub bear_amount: u128,
    /// The asset whose price decides the round.
    pub denom: String,
}

/// A locked round awaiting its closing observation.
#[derive(Clone, Debug)]
pub struct LiveRound {
    pub id: u128,
    pub bid_time: u64,
    pub open_time: u64,
    pub close_time: u64,
    /// The price observed when the round went live.
    pub open_price: i128,
    pub bull_amount: u128,
    pub bear_amount: u128,
    pub denom: String,
}

/// A fully resolved round.
#[derive(Clone, Debug)]
pub struct FinishedRound {
    pub id: u128,
    pub bid_time: u64,
    pub open_time: u64,
    pub close_time: u64,
    pub open_price: i128,
    /// The price observed when the round finished.
    pub close_price: i128,
    /// The winning side, or `None` when the two observations were equal.
    pub winner: Option<Direction>,
    pub bull_amount: u128,
    pub bear_amount: u128,
    pub denom: String,
}

/// One user's aggregated stake in one round.
#[derive(Clone, Debug)]
pub struct BetInfo {
    pub player: String,
    pub round_id: u128,
    pub amount: u128,
    pub direction: Direction,
}

/// The record kept when a position is settled and deleted.
#[derive(Clone, Debug)]
pub struct ClaimInfo {
    pub player: String,
    pub round_id: u128,
    /// The amount paid out for that position, before the protocol fee.
    pub claimed_amount: u128,
}

/// An asset together with the oracle ticker its price feed is registered
/// under.
#[derive(Clone, Debug)]
pub struct DenomTicker {
    pub denom: String,
    pub ticker: String,
}

/// An elo adjustment forwarded to the experience service.
#[derive(Clone, Copy, Debug)]
pub struct Elo {
    pub amount: u64,
    /// Added when true, subtracted when false.
    pub add: bool,
}

/// A price observation handed in by the host: the normalized signed price and
/// the unix second it was taken at.
#[derive(Clone, Copy, Debug)]
pub struct PriceObservation {
    pub price: i128,
    pub observed_at: u64,
}

/// A declarative token transfer the host must execute atomically with the
/// operation that returned it.
#[derive(Clone, Debug)]
pub struct Transfer {
    pub to_address: String,
    pub amount: u128,
}

/// A declarative experience credit for the companion experience service.
#[derive(Clone, Debug)]
pub struct ExperienceCredit {
    pub user: String,
    pub experience: u64,
    pub elo: Option<Elo>,
}

/// Everything a successful claim instructs the host to do: pay the claimant
/// their winnings net of the protocol fee, distribute the fee, and credit
/// experience for the commissionable part.
#[derive(Clone, Debug)]
pub struct ClaimOutcome {
    /// The payouts owed for the settled positions, before the fee.
    pub total_payout: u128,
    /// The protocol fee withheld from the claimant.
    pub fee: u128,
    /// The net transfer to the claimant.
    pub payout_transfer: Transfer,
    /// One transfer per fee recipient; empty when nothing was
    /// commissionable.
    pub fee_transfers: Vec<Transfer>,
    /// The experience credit to forward; `None` when nothing was
    /// commissionable.
    pub experience: Option<ExperienceCredit>,
}

/// Carried by the host's migration entry point; the engine state needs no
/// change between versions.
#[derive(Clone, Copy, Debug)]
pub struct MigrateMsg {}

/// Names of the engine's top-level storage slots, for hosts that persist the
/// state piecewise.
#[derive(Clone, Copy, Debug, PartialEq, Eq, Structural)]
pub enum TopKey {
    IsHalted,
    Config,
    NextRoundId,
    NextRound,
    LiveRound,
    Rounds,
    Admins,
    TotalsSpent,
    Oracle,
    PriceIdentifiers,
    RoundDenoms,
}

impl TopKey {
    /// The one-byte storage prefix the slot is kept under.
    pub fn as_str(&self) -> String {
        let t: &str = match self {
            TopKey::IsHalted => "I",
            TopKey::Config => "C",
            TopKey::NextRoundId => "n",
            TopKey::NextRound => "N",
            TopKey::LiveRound => "L",
            TopKey::Rounds => "r",
            TopKey::Admins => "a",
            TopKey::TotalsSpent => "t",
            TopKey::Oracle => "o",
            TopKey::PriceIdentifiers => "p",
            TopKey::RoundDenoms => "d",
        };
        t.to_owned()
    }
}

/// The asset rotation list, as returned to the host's query surface.
#[derive(Clone, Debug)]
pub struct RoundDenomsResponse {
    pub denoms: Vec<String>,
}

/// The registered oracle tickers, as returned to the host's query surface.
#[derive(Clone, Debug)]
pub struct TickersResponse {
    pub tickers: Vec<String>,
}

/// A point-in-time snapshot of the scheduler's two pointer slots.
#[derive(Clone, Debug)]
pub struct StatusResponse {
    pub bidding_round: Option<NextRound>,
    pub live_round: Option<LiveRound>,
    pub current_time: u64,
}

/// A page of one user's positions, ordered by round id.
#[derive(Clone, Debug)]
pub struct MyGameResponse {
    pub my_game_list: Vec<BetInfo>,
}

/// A page of one round's positions, in ledger order.
#[derive(Clone, Debug)]
pub struct RoundUsersResponse {
    pub round_users: Vec<BetInfo>,
}

/// A page of claim records.
#[derive(Clone, Debug)]
pub struct ClaimInfoResponse {
    pub claim_info: Vec<ClaimInfo>,
}

/// A user's total unclaimed reward over all finished rounds.
#[derive(Clone, Copy, Debug)]
pub struct PendingRewardResponse {
    pub pending_reward: u128,
}

/// A user's unclaimed reward, broken down per finished round.
#[derive(Clone, Debug)]
pub struct PendingRewardRoundsResponse {
    pub pending_reward_rounds: Vec<(u128, u128)>,
    pub pending_reward_total: u128,
}

/// A user's total refundable stake over unmatched finished rounds.
#[derive(Clone, Copy, Debug)]
pub struct PendingRefundableAmountResponse {
    pub pending_refundable_amount: u128,
}

/// A user's refundable stake, broken down per finished round.
#[derive(Clone, Debug)]
pub struct PendingRefundableAmountRoundsResponse {
    pub pending_refundable_amount_rounds: Vec<(u128, u128)>,
    pub pending_refundable_amount_total: u128,
}

/// The current admin accounts.
#[derive(Clone, Debug)]
pub struct AdminsResponse {
    pub admins: Vec<String>,
}

/// A user's cumulative spend.
#[derive(Clone, Copy, Debug)]
pub struct TotalSpentResponse {
    pub total_spent: u128,
}

/// A user's stakes in the bidding and live rounds, split by side.
#[derive(Clone, Copy, Debug)]
pub struct MyCurrentPositionResponse {
    pub live_bear_amount: u128,
    pub live_bull_amount: u128,
    pub next_bear_amount: u128,
    pub next_bull_amount: u128,
}

} // verus!
