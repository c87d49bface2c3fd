use vstd::prelude::*;
use vstd::pervasive::VecAdditionalExecFns;
use crate::errors::ContractError;
use crate::math::checked_mul_u64;
use crate::fees::sum_ratios;
use crate::settle::spec_winner_of;
use crate::types::{
    BetInfo, ClaimInfo, Config, DenomTicker, Direction, FinishedRound, LiveRound, NextRound,
    PriceObservation, WalletInfo, RATIO_PRECISION,
};

verus! {

/// How long a price observation stays usable, in seconds: the scheduler
/// refuses to open or close a round on anything older.
pub const MAX_OLD_PRICE_TIME: u64 = 10;

/// Whether a position record belongs to the (round, user) pair.
pub open spec fn bet_matches(b: BetInfo, rid: u128, player: Seq<char>) -> bool {
    b.round_id == rid && b.player@ == player
}

/// Whether two position records share their (round, user) key.
pub open spec fn bet_key_eq(a: BetInfo, b: BetInfo) -> bool {
    a.round_id == b.round_id && a.player@ == b.player@
}

/// Whether a claim record belongs to the (round, user) pair.
pub open spec fn claim_matches(c: ClaimInfo, rid: u128, player: Seq<char>) -> bool {
    c.round_id == rid && c.player@ == player
}

/// What one position record contributes to a round's per-side total.
pub open spec fn side_contrib(b: BetInfo, rid: u128, dir: Direction) -> int {
    if b.round_id == rid && b.direction == dir {
        b.amount as int
    } else {
        0
    }
}

/// Everything the position ledger holds on one side of one round.
pub open spec fn sum_round_side(s: Seq<BetInfo>, rid: u128, dir: Direction) -> int
    decreases s.len(),
{
    if s.len() == 0 {
        0
    } else {
        side_contrib(s[0], rid, dir) + sum_round_side(s.drop_first(), rid, dir)
    }
}

pub proof fn lemma_sum_round_side_nonneg(s: Seq<BetInfo>, rid: u128, dir: Direction)
    ensures
        0 <= sum_round_side(s, rid, dir),
    decreases s.len(),
{
    if s.len() > 0 {
        lemma_sum_round_side_nonneg(s.drop_first(), rid, dir);
    }
}

/// Appending a record adds exactly its contribution to a side total.
pub proof fn lemma_sum_round_side_push(s: Seq<BetInfo>, b: BetInfo, rid: u128, dir: Direction)
    ensures
        sum_round_side(s.push(b), rid, dir) == sum_round_side(s, rid, dir) + side_contrib(
            b,
            rid,
            dir,
        ),
    decreases s.len(),
{
    if s.len() == 0 {
        assert(s.push(b).drop_first() =~= s);
    } else {
        assert(s.push(b).drop_first() =~= s.drop_first().push(b));
        lemma_sum_round_side_push(s.drop_first(), b, rid, dir);
    }
}

/// Replacing a record swaps its contribution in a side total.
pub proof fn lemma_sum_round_side_update(
    s: Seq<BetInfo>,
    i: int,
    b: BetInfo,
    rid: u128,
    dir: Direction,
)
    requires
        0 <= i < s.len(),
    ensures
        sum_round_side(s.update(i, b), rid, dir) == sum_round_side(s, rid, dir) - side_contrib(
            s[i],
            rid,
            dir,
        ) + side_contrib(b, rid, dir),
    decreases s.len(),
{
    if i == 0 {
        assert(s.update(0, b).drop_first() =~= s.drop_first());
    } else {
        assert(s.update(i, b).drop_first() =~= s.drop_first().update(i - 1, b));
        lemma_sum_round_side_update(s.drop_first(), i - 1, b, rid, dir);
    }
}

/// Deleting a record subtracts exactly its contribution from a side total.
pub proof fn lemma_sum_round_side_remove(s: Seq<BetInfo>, i: int, rid: u128, dir: Direction)
    requires
        0 <= i < s.len(),
    ensures
        sum_round_side(s.remove(i), rid, dir) == sum_round_side(s, rid, dir) - side_contrib(
            s[i],
            rid,
            dir,
        ),
    decreases s.len(),
{
    if i == 0 {
        assert(s.remove(0) =~= s.drop_first());
    } else {
        assert(s.remove(i).drop_first() =~= s.drop_first().remove(i - 1));
        lemma_sum_round_side_remove(s.drop_first(), i - 1, rid, dir);
    }
}

/// One record never contributes more than the whole side total.
pub proof fn lemma_side_contrib_le_sum(s: Seq<BetInfo>, i: int, rid: u128, dir: Direction)
    requires
        0 <= i < s.len(),
    ensures
        side_contrib(s[i], rid, dir) <= sum_round_side(s, rid, dir),
    decreases s.len(),
{
    if i == 0 {
        lemma_sum_round_side_nonneg(s.drop_first(), rid, dir);
    } else {
        lemma_side_contrib_le_sum(s.drop_first(), i - 1, rid, dir);
    }
}

/// A round no record names has a zero side total in the ledger.
pub proof fn lemma_sum_round_side_absent(s: Seq<BetInfo>, rid: u128, dir: Direction)
    requires
        forall|i: int| 0 <= i < s.len() ==> #[trigger] s[i].round_id != rid,
    ensures
        sum_round_side(s, rid, dir) == 0,
    decreases s.len(),
{
    if s.len() > 0 {
        assert(s[0].round_id != rid);
        lemma_sum_round_side_absent(s.drop_first(), rid, dir);
    }
}

/// Whether the ledger's recorded stakes for a finished round stay within the
/// round's per-side totals.
pub open spec fn covered_finished(bets: Seq<BetInfo>, r: FinishedRound) -> bool {
    &&& sum_round_side(bets, r.id, Direction::Bull) <= r.bull_amount
    &&& sum_round_side(bets, r.id, Direction::Bear) <= r.bear_amount
}

/// The same bound against the live round's running totals.
pub open spec fn covered_live(bets: Seq<BetInfo>, r: LiveRound) -> bool {
    &&& sum_round_side(bets, r.id, Direction::Bull) <= r.bull_amount
    &&& sum_round_side(bets, r.id, Direction::Bear) <= r.bear_amount
}

/// The same bound against the bidding round's running totals, with equality:
/// while a round is open for stakes its totals are exactly what the ledger
/// holds.
pub open spec fn covered_next(bets: Seq<BetInfo>, r: NextRound) -> bool {
    &&& sum_round_side(bets, r.id, Direction::Bull) == r.bull_amount
    &&& sum_round_side(bets, r.id, Direction::Bear) == r.bear_amount
}

/// The whole engine: scheduler slots, position and claim ledgers, spend
/// totals and administrative state.
pub struct Game {
    pub config: Config,
    /// The id the next created bidding round will carry.
    pub next_round_id: u128,
    /// While true every operation is rejected.
    pub halted: bool,
    pub admins: Vec<String>,
    /// The single round open for stakes, if one exists.
    pub next_round: Option<NextRound>,
    /// The single locked round awaiting its closing observation, if any.
    pub live_round: Option<LiveRound>,
    /// Finished rounds, dense by id: the round with id `i` sits at index `i`.
    pub rounds: Vec<FinishedRound>,
    /// The position ledger, at most one record per (round, user).
    pub bets: Vec<BetInfo>,
    /// The append-only claim ledger, one record per settled (round, user).
    pub claims: Vec<ClaimInfo>,
    /// Cumulative stake ever placed, one entry per user.
    pub totals_spent: Vec<(String, u128)>,
    /// The asset rotation list; round `i` bets on `denoms[i % len]`.
    pub denoms: Vec<String>,
    /// The price-feed registry: assets with a known oracle ticker.
    pub tickers: Vec<DenomTicker>,
}

impl Game {
    /// The scheduling invariant: finished rounds are dense from id zero, at
    /// most one round is live and at most one is bidding, their ids chain
    /// gaplessly, and the id counter sits just past the youngest round.
    pub open spec fn sched_wf(self) -> bool {
        &&& forall|i: int| 0 <= i < self.rounds@.len() ==> #[trigger] self.rounds@[i].id == i
        &&& (self.live_round matches Some(l) ==> l.id == self.rounds@.len())
        &&& (self.next_round matches Some(n) ==> n.id == self.rounds@.len() + (
        if self.live_round is Some {
            1int
        } else {
            0int
        }))
        &&& self.next_round_id == (match self.next_round {
            Some(n) => n.id + 1,
            None => self.rounds@.len() + (if self.live_round is Some {
                1int
            } else {
                0int
            }),
        })
        &&& self.denoms@.len() > 0
    }

    /// The ledger invariant: position keys are unique and sorted by round,
    /// every position names an existing round, recorded stakes stay within
    /// each round's totals, claims name finished rounds with unique keys,
    /// and no position coexists with a claim for the same key.
    pub open spec fn ledger_wf(self) -> bool {
        &&& forall|i: int, j: int|
            0 <= i < j < self.bets@.len() ==> !bet_key_eq(
                #[trigger] self.bets@[i],
                #[trigger] self.bets@[j],
            )
        &&& forall|i: int, j: int|
            0 <= i < j < self.bets@.len() ==> (#[trigger] self.bets@[i]).round_id <= (
            #[trigger] self.bets@[j]).round_id
        &&& forall|i: int|
            0 <= i < self.bets@.len() ==> (#[trigger] self.bets@[i]).round_id
                < self.next_round_id
        &&& forall|i: int|
            0 <= i < self.claims@.len() ==> (#[trigger] self.claims@[i]).round_id
                < self.rounds@.len()
        &&& forall|i: int, j: int|
            0 <= i < j < self.claims@.len() ==> !claim_matches(
                #[trigger] self.claims@[i],
                (#[trigger] self.claims@[j]).round_id,
                self.claims@[j].player@,
            )
        &&& forall|i: int, j: int|
            0 <= i < self.bets@.len() && 0 <= j < self.claims@.len() ==> !claim_matches(
                #[trigger] self.claims@[j],
                (#[trigger] self.bets@[i]).round_id,
                self.bets@[i].player@,
            )
        &&& forall|i: int|
            0 <= i < self.rounds@.len() ==> covered_finished(
                self.bets@,
                #[trigger] self.rounds@[i],
            )
        &&& (self.live_round matches Some(l) ==> covered_live(self.bets@, l))
        &&& (self.next_round matches Some(n) ==> covered_next(self.bets@, n))
        &&& forall|i: int, j: int|
            0 <= i < j < self.totals_spent@.len() ==> (#[trigger] self.totals_spent@[i]).0@ != (
            #[trigger] self.totals_spent@[j]).0@
        &&& sum_ratios(self.config.dev_wallet_list@) <= RATIO_PRECISION
    }

    /// Everything the engine promises to keep true between operations.
    pub open spec fn wf(self) -> bool {
        self.sched_wf() && self.ledger_wf()
    }

    /// Whether the position ledger holds a record for the pair.
    pub open spec fn has_bet(self, rid: u128, player: Seq<char>) -> bool {
        exists|i: int| 0 <= i < self.bets@.len() && bet_matches(#[trigger] self.bets@[i], rid, player)
    }

    /// Whether the claim ledger holds a record for the pair.
    pub open spec fn has_claim(self, rid: u128, player: Seq<char>) -> bool {
        exists|i: int|
            0 <= i < self.claims@.len() && claim_matches(#[trigger] self.claims@[i], rid, player)
    }
}

/// A user's cumulative spend as the totals ledger records it: the value of
/// the first entry carrying the user's address, or zero.
pub open spec fn spec_spent(s: Seq<(String, u128)>, player: Seq<char>) -> int
    decreases s.len(),
{
    if s.len() == 0 {
        0
    } else if s[0].0@ == player {
        s[0].1 as int
    } else {
        spec_spent(s.drop_first(), player)
    }
}

/// Replacing the first entry of a key rewrites that key's recorded value.
proof fn lemma_spent_update_first(s: Seq<(String, u128)>, i: int, e: (String, u128), p: Seq<char>)
    requires
        0 <= i < s.len(),
        forall|j: int| 0 <= j < i ==> (#[trigger] s[j]).0@ != p,
        s[i].0@ == p,
        e.0@ == p,
    ensures
        spec_spent(s.update(i, e), p) == e.1,
    decreases i,
{
    if i == 0 {
        assert(s.update(0, e)[0] == e);
    } else {
        assert(s.update(i, e).drop_first() =~= s.drop_first().update(i - 1, e));
        lemma_spent_update_first(s.drop_first(), i - 1, e, p);
    }
}

/// Replacing an entry in place leaves every other key's value alone.
proof fn lemma_spent_update_other(s: Seq<(String, u128)>, i: int, e: (String, u128), q: Seq<char>)
    requires
        0 <= i < s.len(),
        e.0@ == s[i].0@,
        s[i].0@ != q,
    ensures
        spec_spent(s.update(i, e), q) == spec_spent(s, q),
    decreases i,
{
    if i == 0 {
        assert(s.update(0, e).drop_first() =~= s.drop_first());
    } else {
        assert(s.update(i, e).drop_first() =~= s.drop_first().update(i - 1, e));
        lemma_spent_update_other(s.drop_first(), i - 1, e, q);
    }
}

/// Appending an entry for an absent key records that key's value.
proof fn lemma_spent_push_absent(s: Seq<(String, u128)>, e: (String, u128), p: Seq<char>)
    requires
        forall|j: int| 0 <= j < s.len() ==> (#[trigger] s[j]).0@ != p,
        e.0@ == p,
    ensures
        spec_spent(s.push(e), p) == e.1,
    decreases s.len(),
{
    if s.len() == 0 {
        assert(s.push(e)[0] == e);
    } else {
        assert(s.push(e).drop_first() =~= s.drop_first().push(e));
        lemma_spent_push_absent(s.drop_first(), e, p);
    }
}

/// Appending an entry leaves every other key's value alone.
proof fn lemma_spent_push_other(s: Seq<(String, u128)>, e: (String, u128), q: Seq<char>)
    requires
        e.0@ != q,
    ensures
        spec_spent(s.push(e), q) == spec_spent(s, q),
    decreases s.len(),
{
    if s.len() == 0 {
        assert(s.push(e)[0] == e);
        assert(s.push(e).drop_first() =~= s);
    } else {
        assert(s.push(e).drop_first() =~= s.drop_first().push(e));
        lemma_spent_push_other(s.drop_first(), e, q);
    }
}

/// Read a user's cumulative spend from the totals ledger.
pub fn lookup_spent(totals: &Vec<(String, u128)>, player: &String) -> (r: u128)
    ensures
        r == spec_spent(totals@, player@),
{
    let n = totals.len();
    proof {
        assert(totals@.skip(0) =~= totals@);
    }
    for idx in 0..n
        invariant
            n == totals@.len(),
            spec_spent(totals@, player@) == spec_spent(totals@.skip(idx as int), player@),
    {
        proof {
            assert(totals@.skip(idx as int).drop_first() =~= totals@.skip(idx as int + 1));
        }
        if totals[idx].0 == *player {
            return totals[idx].1;
        }
    }
    0
}

/// Record a new cumulative spend for a user, creating the entry on first
/// stake.
pub fn set_spent(totals: &mut Vec<(String, u128)>, player: &String, new_value: u128)
    requires
        forall|i: int, j: int|
            0 <= i < j < old(totals)@.len() ==> (#[trigger] old(totals)@[i]).0@ != (
            #[trigger] old(totals)@[j]).0@,
    ensures
        forall|i: int, j: int|
            0 <= i < j < final(totals)@.len() ==> (#[trigger] final(totals)@[i]).0@ != (
            #[trigger] final(totals)@[j]).0@,
        spec_spent(final(totals)@, player@) == new_value,
        forall|q: Seq<char>|
            q != player@ ==> spec_spent(final(totals)@, q) == spec_spent(old(totals)@, q),
{
    let ghost s0 = totals@;
    let n = totals.len();
    let mut found: Option<usize> = None;
    for idx in 0..n
        invariant
            n == totals@.len(),
            totals@ == s0,
            found is None ==> forall|j: int| 0 <= j < idx ==> (#[trigger] totals@[j]).0@ != player@,
            found matches Some(i) ==> i < idx && totals@[i as int].0@ == player@ && (forall|j: int|
                0 <= j < i ==> (#[trigger] totals@[j]).0@ != player@),
    {
        if found.is_none() && totals[idx].0 == *player {
            found = Some(idx);
        }
    }
    match found {
        Some(i) => {
            let entry = (player.clone(), new_value);
            proof {
                lemma_spent_update_first(s0, i as int, entry, player@);
                assert forall|q: Seq<char>| q != player@ implies spec_spent(
                    s0.update(i as int, entry),
                    q,
                ) == spec_spent(s0, q) by {
                    lemma_spent_update_other(s0, i as int, entry, q);
                }
            }
            totals.set(i, entry);
        },
        None => {
            let entry = (player.clone(), new_value);
            proof {
                lemma_spent_push_absent(s0, entry, player@);
                assert forall|q: Seq<char>| q != player@ implies spec_spent(s0.push(entry), q)
                    == spec_spent(s0, q) by {
                    lemma_spent_push_other(s0, entry, q);
                }
            }
            totals.push(entry);
        },
    }
}

/// Find the ledger index of the position for the (round, user) pair.
pub fn find_bet(bets: &Vec<BetInfo>, round_id: u128, player: &String) -> (r: Option<usize>)
    ensures
        r matches Some(i) ==> i < bets@.len() && bet_matches(bets@[i as int], round_id, player@),
        r is None ==> forall|i: int|
            0 <= i < bets@.len() ==> !bet_matches(#[trigger] bets@[i], round_id, player@),
{
    let n = bets.len();
    for idx in 0..n
        invariant
            n == bets@.len(),
            forall|i: int| 0 <= i < idx ==> !bet_matches(#[trigger] bets@[i], round_id, player@),
    {
        let b = &bets[idx];
        if b.round_id == round_id && b.player == *player {
            return Some(idx);
        }
    }
    None
}

/// Whether an asset has a registered price-feed ticker.
pub open spec fn spec_registered(tickers: Seq<DenomTicker>, denom: Seq<char>) -> bool {
    exists|i: int| 0 <= i < tickers.len() && (#[trigger] tickers[i]).denom@ == denom
}

/// Look an asset up in the price-feed registry.
fn ticker_registered(tickers: &Vec<DenomTicker>, denom: &String) -> (r: bool)
    ensures
        r == spec_registered(tickers@, denom@),
{
    let n = tickers.len();
    for idx in 0..n
        invariant
            n == tickers@.len(),
            forall|i: int| 0 <= i < idx ==> (#[trigger] tickers@[i]).denom@ != denom@,
    {
        if tickers[idx].denom == *denom {
            return true;
        }
    }
    false
}

/// Whether an account is one of the admins.
fn is_admin(admins: &Vec<String>, who: &String) -> (r: bool)
    ensures
        r == exists|i: int| 0 <= i < admins@.len() && (#[trigger] admins@[i])@ == who@,
{
    let n = admins.len();
    for idx in 0..n
        invariant
            n == admins@.len(),
            forall|i: int| 0 <= i < idx ==> (#[trigger] admins@[i])@ != who@,
    {
        if admins[idx] == *who {
            return true;
        }
    }
    false
}

/// Add up a recipient list's ratios, refusing a sum past the 128-bit range.
pub fn total_ratio(wallets: &Vec<WalletInfo>) -> (r: Option<u128>)
    ensures
        r matches Some(v) ==> v == sum_ratios(wallets@),
        r is None ==> sum_ratios(wallets@) > u128::MAX,
{
    let mut acc: u128 = 0;
    let n = wallets.len();
    for idx in 0..n
        invariant
            n == wallets@.len(),
            acc == sum_ratios(wallets@.take(idx as int)),
            sum_ratios(wallets@.take(idx as int)) <= u128::MAX,
    {
        proof {
            crate::fees::lemma_sum_ratios_take_succ(wallets@, idx as int);
        }
        if acc > u128::MAX - wallets[idx].ratio {
            proof {
                crate::fees::lemma_sum_ratios_prefix_le(wallets@, idx + 1);
            }
            return None;
        }
        acc = acc + wallets[idx].ratio;
    }
    proof {
        assert(wallets@.take(n as int) =~= wallets@);
    }
    Some(acc)
}

impl Game {
    /// Set up a fresh engine: no rounds, no positions, the creator as the
    /// only admin.
    ///
    /// Rejected when a non-empty recipient list's ratios do not sum to
    /// exactly one, when the asset rotation list is empty, or when an asset
    /// in it has no registered price feed.
    pub fn new(config: Config, denoms: Vec<String>, tickers: Vec<DenomTicker>, creator: String)
        -> (r: Result<Game, ContractError>)
        ensures
            r is Ok <==> (config.dev_wallet_list@.len() == 0 || sum_ratios(
                config.dev_wallet_list@,
            ) == RATIO_PRECISION) && denoms@.len() > 0 && (forall|k: int|
                0 <= k < denoms@.len() ==> spec_registered(tickers@, (#[trigger] denoms@[k])@)),
            r matches Ok(g) ==> g.wf(),
            r matches Ok(g) ==> g.config == config && g.denoms == denoms && g.tickers == tickers,
            r matches Ok(g) ==> g.next_round_id == 0 && !g.halted,
            r matches Ok(g) ==> g.admins@.len() == 1 && g.admins@[0] == creator,
            r matches Ok(g) ==> g.rounds@.len() == 0 && g.bets@.len() == 0 && g.claims@.len() == 0,
            r matches Ok(g) ==> g.next_round is None && g.live_round is None,
            r matches Ok(g) ==> g.totals_spent@.len() == 0,
    {
        if config.dev_wallet_list.len() > 0 {
            match total_ratio(&config.dev_wallet_list) {
                None => {
                    return Err(ContractError::WrongRatio);
                },
                Some(total) => {
                    if total != RATIO_PRECISION {
                        return Err(ContractError::WrongRatio);
                    }
                },
            }
        }
        if denoms.len() == 0 {
            return Err(ContractError::DenomsEmpty);
        }
        let n = denoms.len();
        for idx in 0..n
            invariant
                n == denoms@.len(),
                forall|k: int|
                    0 <= k < idx ==> spec_registered(tickers@, (#[trigger] denoms@[k])@),
        {
            if !ticker_registered(&tickers, &denoms[idx]) {
                return Err(ContractError::DenomNotRegistered { denom: denoms[idx].clone() });
            }
        }
        let mut admins: Vec<String> = Vec::new();
        admins.push(creator);
        let g = Game {
            config,
            next_round_id: 0,
            halted: false,
            admins,
            next_round: None,
            live_round: None,
            rounds: Vec::new(),
            bets: Vec::new(),
            claims: Vec::new(),
            totals_spent: Vec::new(),
            denoms,
            tickers,
        };
        Ok(g)
    }
}

/// The experience credited for a stake or win: the amount, taken modulo the
/// 64-bit range as the host does, times the configured rate.
pub open spec fn spec_experience(amount: int, per: u64) -> int {
    (amount % 0x1_0000_0000_0000_0000) * per
}

/// A bidding round with one side's total raised by a fresh stake.
pub open spec fn spec_bump_next(n: NextRound, dir: Direction, amt: u128) -> NextRound {
    match dir {
        Direction::Bull => (NextRound { bull_amount: (n.bull_amount + amt) as u128, ..n }),
        Direction::Bear => (NextRound { bear_amount: (n.bear_amount + amt) as u128, ..n }),
    }
}

/// A bidding round's total on one side.
pub open spec fn spec_next_side_total(n: NextRound, dir: Direction) -> u128 {
    match dir {
        Direction::Bull => n.bull_amount,
        Direction::Bear => n.bear_amount,
    }
}

impl Game {
    /// The id of the round currently open for stakes (or, before the first
    /// round exists, the id it will get).
    pub open spec fn spec_current_round_id(self) -> u128 {
        match self.next_round {
            Some(n) => n.id,
            None => self.next_round_id,
        }
    }

    /// The unique position record for the pair; meaningful when `has_bet`.
    pub open spec fn spec_bet_record(self, rid: u128, player: Seq<char>) -> BetInfo {
        self.bets@[choose|i: int|
            0 <= i < self.bets@.len() && bet_matches(#[trigger] self.bets@[i], rid, player)]
    }

    /// What the pair's position will hold after staking `amt` more.
    pub open spec fn spec_new_bet_amount(self, rid: u128, player: Seq<char>, amt: u128) -> int {
        (if self.has_bet(rid, player) {
            self.spec_bet_record(rid, player).amount as int
        } else {
            0
        }) + amt
    }

    /// Exactly when and why a stake is rejected, checked in order: a halt,
    /// a stale round id, wrong funds, an amount below the minimum, a round
    /// already closed to stakes, a position on the other side, and finally
    /// arithmetic that would leave the machine range.
    pub open spec fn spec_place_bet_err(
        self,
        now: u64,
        player: Seq<char>,
        round_id: u128,
        dir: Direction,
        funds_denom: Seq<char>,
        funds_amount: u128,
        declared_amount: u128,
    ) -> Option<ContractError> {
        if self.halted {
            Some(ContractError::Halted)
        } else if !(self.next_round matches Some(n) && n.id == round_id) {
            Some(
                ContractError::NotCurrentRound {
                    round_id,
                    current_round_id: self.spec_current_round_id(),
                },
            )
        } else if funds_denom != self.config.token_denom@ {
            Some(ContractError::InvalidFunds)
        } else if funds_amount != declared_amount {
            Some(ContractError::NotEnoughFunds)
        } else if funds_amount < self.config.minimum_bet {
            Some(ContractError::BetUnderMinBetAmount)
        } else if now > self.next_round->0.open_time {
            Some(
                ContractError::RoundFinished {
                    round_id,
                    seconds: (now - self.next_round->0.open_time) as u64,
                },
            )
        } else if self.has_bet(round_id, player) && self.spec_bet_record(round_id, player).direction
            != dir {
            Some(ContractError::InvalidDirectionBet)
        } else if self.spec_new_bet_amount(round_id, player, funds_amount) > u128::MAX {
            Some(ContractError::Overflow)
        } else if spec_next_side_total(self.next_round->0, dir) + funds_amount > u128::MAX {
            Some(ContractError::Overflow)
        } else if spec_spent(self.totals_spent@, player) + funds_amount > u128::MAX {
            Some(ContractError::Overflow)
        } else if spec_experience(funds_amount as int, self.config.exp_per_denom_bet) > u64::MAX {
            Some(ContractError::Overflow)
        } else {
            None
        }
    }
}

/// With unique keys, any matching index holds the pair's one record.
pub proof fn lemma_bet_record_unique(g: Game, i: int, rid: u128, player: Seq<char>)
    requires
        forall|a: int, b: int|
            0 <= a < b < g.bets@.len() ==> !bet_key_eq(
                #[trigger] g.bets@[a],
                #[trigger] g.bets@[b],
            ),
        0 <= i < g.bets@.len(),
        bet_matches(g.bets@[i], rid, player),
    ensures
        g.has_bet(rid, player),
        g.spec_bet_record(rid, player) == g.bets@[i],
{
    assert(g.has_bet(rid, player));
    let j = choose|k: int|
        0 <= k < g.bets@.len() && bet_matches(#[trigger] g.bets@[k], rid, player);
    if i < j {
        assert(!bet_key_eq(g.bets@[i], g.bets@[j]));
        assert(false);
    } else if j < i {
        assert(!bet_key_eq(g.bets@[j], g.bets@[i]));
        assert(false);
    }
}

impl Game {
    /// Record a stake on the bidding round: create or grow the caller's
    /// position, raise the chosen side's running total and the caller's
    /// cumulative spend, and hand back the experience credit the host must
    /// forward.  Any rejection leaves the engine untouched.
    pub fn place_bet(
        &mut self,
        now: u64,
        player: &String,
        round_id: u128,
        dir: Direction,
        funds_denom: &String,
        funds_amount: u128,
        declared_amount: u128,
    ) -> (r: Result<crate::types::ExperienceCredit, ContractError>)
        requires
            old(self).wf(),
        ensures
            final(self).wf(),
            r is Err <==> old(self).spec_place_bet_err(
                now,
                player@,
                round_id,
                dir,
                funds_denom@,
                funds_amount,
                declared_amount,
            ) is Some,
            r matches Err(e) ==> Some(e) == old(self).spec_place_bet_err(
                now,
                player@,
                round_id,
                dir,
                funds_denom@,
                funds_amount,
                declared_amount,
            ),
            r is Err ==> *final(self) == *old(self),
            r is Ok ==> (final(self).next_round matches Some(n2) && n2 == spec_bump_next(
                old(self).next_round->0,
                dir,
                funds_amount,
            )),
            r is Ok && old(self).has_bet(round_id, player@) ==> exists|i: int|
                0 <= i < old(self).bets@.len() && bet_matches(
                    #[trigger] old(self).bets@[i],
                    round_id,
                    player@,
                ) && final(self).bets@ == old(self).bets@.update(
                    i,
                    (BetInfo {
                        amount: (old(self).bets@[i].amount + funds_amount) as u128,
                        ..old(self).bets@[i]
                    }),
                ),
            r is Ok && !old(self).has_bet(round_id, player@) ==> final(self).bets@ == old(
                self,
            ).bets@.push(
                (BetInfo {
                    player: *player,
                    round_id: round_id,
                    amount: funds_amount,
                    direction: dir,
                }),
            ),
            r is Ok ==> final(self).has_bet(round_id, player@),
            r is Ok ==> spec_spent(final(self).totals_spent@, player@) == spec_spent(
                old(self).totals_spent@,
                player@,
            ) + funds_amount,
            r is Ok ==> forall|q: Seq<char>|
                q != player@ ==> spec_spent(final(self).totals_spent@, q) == spec_spent(
                    old(self).totals_spent@,
                    q,
                ),
            r matches Ok(xp) ==> xp.user@ == player@ && xp.experience == spec_experience(
                funds_amount as int,
                old(self).config.exp_per_denom_bet,
            ) && xp.elo is None,
            final(self).config == old(self).config,
            final(self).admins == old(self).admins,
            final(self).halted == old(self).halted,
            final(self).rounds == old(self).rounds,
            final(self).claims == old(self).claims,
            final(self).live_round == old(self).live_round,
            final(self).denoms == old(self).denoms,
            final(self).tickers == old(self).tickers,
            final(self).next_round_id == old(self).next_round_id,
    {
        if self.halted {
            return Err(ContractError::Halted);
        }
        let (nid, n_bid_time, n_open_time, n_close_time, n_bull, n_bear, n_denom) = match &self
            .next_round {
            Some(n) => (
                n.id,
                n.bid_time,
                n.open_time,
                n.close_time,
                n.bull_amount,
                n.bear_amount,
                n.denom.clone(),
            ),
            None => {
                return Err(
                    ContractError::NotCurrentRound {
                        round_id,
                        current_round_id: self.next_round_id,
                    },
                );
            },
        };
        if nid != round_id {
            return Err(ContractError::NotCurrentRound { round_id, current_round_id: nid });
        }
        if !(*funds_denom == self.config.token_denom) {
            return Err(ContractError::InvalidFunds);
        }
        if funds_amount != declared_amount {
            return Err(ContractError::NotEnoughFunds);
        }
        if funds_amount < self.config.minimum_bet {
            return Err(ContractError::BetUnderMinBetAmount);
        }
        if now > n_open_time {
            return Err(ContractError::RoundFinished { round_id, seconds: now - n_open_time });
        }
        let found = find_bet(&self.bets, round_id, player);
        proof {
            if let Some(i) = found {
                lemma_bet_record_unique(*self, i as int, round_id, player@);
            }
        }
        let (new_amount, existing_idx): (u128, Option<usize>) = match found {
            Some(i) => {
                let b = &self.bets[i];
                if !(b.direction == dir) {
                    return Err(ContractError::InvalidDirectionBet);
                }
                if b.amount > u128::MAX - funds_amount {
                    return Err(ContractError::Overflow);
                }
                (b.amount + funds_amount, Some(i))
            },
            None => {
                assert(!self.has_bet(round_id, player@));
                (funds_amount, None)
            },
        };
        let side_total: u128 = match dir {
            Direction::Bull => n_bull,
            Direction::Bear => n_bear,
        };
        if side_total > u128::MAX - funds_amount {
            return Err(ContractError::Overflow);
        }
        let old_spent = lookup_spent(&self.totals_spent, player);
        if old_spent > u128::MAX - funds_amount {
            return Err(ContractError::Overflow);
        }
        let t64: u64 = (funds_amount % 0x1_0000_0000_0000_0000u128) as u64;
        let xp_points = match checked_mul_u64(t64, self.config.exp_per_denom_bet) {
            Some(v) => v,
            None => {
                return Err(ContractError::Overflow);
            },
        };
        let ghost g0 = *self;
        // Commit: position ledger first.
        match existing_idx {
            Some(i) => {
                let b = &self.bets[i];
                let nb = BetInfo {
                    player: b.player.clone(),
                    round_id: b.round_id,
                    amount: new_amount,
                    direction: b.direction,
                };
                proof {
                    assert(nb == (BetInfo { amount: new_amount, ..g0.bets@[i as int] }));
                }
                self.bets.set(i, nb);
            },
            None => {
                self.bets.push(
                    BetInfo {
                        player: player.clone(),
                        round_id: round_id,
                        amount: funds_amount,
                        direction: dir,
                    },
                );
            },
        }
        // Then the bidding round's running totals.
        let (nb2, nr2): (u128, u128) = match dir {
            Direction::Bull => (n_bull + funds_amount, n_bear),
            Direction::Bear => (n_bull, n_bear + funds_amount),
        };
        self.next_round = Some(
            NextRound {
                id: nid,
                bid_time: n_bid_time,
                open_time: n_open_time,
                close_time: n_close_time,
                bull_amount: nb2,
                bear_amount: nr2,
                denom: n_denom,
            },
        );
        // Then the caller's cumulative spend.
        set_spent(&mut self.totals_spent, player, old_spent + funds_amount);
        proof {
            lemma_place_commit_wf(
                g0,
                *self,
                match existing_idx {
                    Some(i) => Some(i as int),
                    None => None,
                },
                round_id,
                player@,
                dir,
                funds_amount,
            );
            if g0.has_bet(round_id, player@) {
                let i = choose|i: int|
                    0 <= i < g0.bets@.len() && bet_matches(
                        #[trigger] g0.bets@[i],
                        round_id,
                        player@,
                    );
                assert(bet_matches(self.bets@[i], round_id, player@));
            } else {
                assert(bet_matches(self.bets@[g0.bets@.len() as int], round_id, player@));
            }
        }
        Ok(
            crate::types::ExperienceCredit {
                user: player.clone(),
                experience: xp_points,
                elo: None,
            },
        )
    }
}

/// Whether an observation exists and is fresh enough to act on.
pub open spec fn spec_fresh(now: u64, obs: Option<PriceObservation>) -> bool {
    obs matches Some(o) && o.observed_at + MAX_OLD_PRICE_TIME >= now
}

/// The finished round a live round resolves to under a closing observation.
pub open spec fn spec_finished_of(l: LiveRound, obs: PriceObservation) -> FinishedRound {
    FinishedRound {
        id: l.id,
        bid_time: l.bid_time,
        open_time: l.open_time,
        close_time: l.close_time,
        open_price: l.open_price,
        close_price: obs.price,
        winner: spec_winner_of(l.open_price, obs.price),
        bull_amount: l.bull_amount,
        bear_amount: l.bear_amount,
        denom: l.denom,
    }
}

/// The live round a bidding round is promoted to under an opening
/// observation taken at `now`.
pub open spec fn spec_promoted_of(n: NextRound, now: u64, dur: u64, obs: PriceObservation)
    -> LiveRound {
    LiveRound {
        id: n.id,
        bid_time: n.bid_time,
        open_time: now,
        close_time: (now + dur) as u64,
        open_price: obs.price,
        bull_amount: n.bull_amount,
        bear_amount: n.bear_amount,
        denom: n.denom,
    }
}

/// Enforce the staleness bound on a price observation: the observation must
/// be no older than `MAX_OLD_PRICE_TIME` seconds before the current time.
pub fn assert_price_not_too_old(current_timestamp: u64, price_timestamp: u64) -> (r: Result<
    (),
    ContractError,
>)
    ensures
        r is Ok <==> price_timestamp + MAX_OLD_PRICE_TIME >= current_timestamp,
        r matches Err(e) ==> e is PriceTooOld,
{
    if current_timestamp > MAX_OLD_PRICE_TIME && price_timestamp < current_timestamp
        - MAX_OLD_PRICE_TIME {
        Err(ContractError::PriceTooOld)
    } else {
        Ok(())
    }
}

impl Game {
    /// Whether a live round exists and has reached its close time.
    pub open spec fn spec_live_due(self, now: u64) -> bool {
        self.live_round matches Some(l) && now >= l.close_time
    }

    /// Whether a live round exists and has not yet reached its close time.
    pub open spec fn spec_live_survives(self, now: u64) -> bool {
        self.live_round matches Some(l) && now < l.close_time
    }

    /// Whether the bidding round exists, has reached its open time, and no
    /// live round will remain in the way once step one has run.
    pub open spec fn spec_bid_due(self, now: u64) -> bool {
        self.next_round matches Some(n) && now >= n.open_time && !self.spec_live_survives(now)
    }

    /// Whether this call will create a fresh bidding round.
    pub open spec fn spec_creates_new(self, now: u64) -> bool {
        self.spec_bid_due(now) || self.next_round is None
    }

    /// The open time the fresh bidding round would get: chained to the close
    /// of whatever round will be live after this call, or a full round
    /// duration from now when none will be.
    pub open spec fn spec_new_open_time(self, now: u64) -> int {
        if self.spec_bid_due(now) {
            now + self.config.next_round_seconds
        } else if self.spec_live_survives(now) {
            self.live_round->0.close_time as int
        } else {
            now + self.config.next_round_seconds
        }
    }

    /// Exactly when and why an advance is rejected: a halt, a stale or
    /// missing observation for a due transition, or time and id arithmetic
    /// leaving the machine range.  A rejected advance changes nothing.
    pub open spec fn spec_close_round_err(
        self,
        now: u64,
        close_obs: Option<PriceObservation>,
        open_obs: Option<PriceObservation>,
    ) -> Option<ContractError> {
        let dur = self.config.next_round_seconds;
        if self.halted {
            Some(ContractError::Halted)
        } else if self.spec_live_due(now) && !spec_fresh(now, close_obs) {
            Some(ContractError::PriceTooOld)
        } else if self.spec_bid_due(now) && !spec_fresh(now, open_obs) {
            Some(ContractError::PriceTooOld)
        } else if (self.spec_bid_due(now) || (self.spec_creates_new(now)
            && !self.spec_live_survives(now))) && now + dur > u64::MAX {
            Some(ContractError::Overflow)
        } else if self.spec_creates_new(now) && self.spec_new_open_time(now) + dur > u64::MAX {
            Some(ContractError::Overflow)
        } else if self.spec_creates_new(now) && self.next_round_id == u128::MAX {
            Some(ContractError::Overflow)
        } else {
            None
        }
    }

    /// Drive the round lifecycle at time `now`, permissionless and safe to
    /// call redundantly.  First a due live round is resolved against the
    /// closing observation; then, if no live round remains, a due bidding
    /// round is promoted against the opening observation and a fresh bidding
    /// round is chained behind it; on the very first call the initial
    /// bidding round is created.  Either observation is only required, and
    /// only checked for staleness, when its transition is due.
    pub fn close_round(
        &mut self,
        now: u64,
        close_obs: Option<PriceObservation>,
        open_obs: Option<PriceObservation>,
    ) -> (r: Result<(), ContractError>)
        requires
            old(self).wf(),
        ensures
            final(self).wf(),
            r is Err <==> old(self).spec_close_round_err(now, close_obs, open_obs) is Some,
            r matches Err(e) ==> Some(e) == old(self).spec_close_round_err(
                now,
                close_obs,
                open_obs,
            ),
            r is Err ==> *final(self) == *old(self),
            r is Ok && old(self).spec_live_due(now) ==> final(self).rounds@ == old(
                self,
            ).rounds@.push(spec_finished_of(old(self).live_round->0, close_obs->0)),
            r is Ok && !old(self).spec_live_due(now) ==> final(self).rounds == old(self).rounds,
            r is Ok && old(self).spec_bid_due(now) ==> (final(self).live_round matches Some(l2)
                && l2 == spec_promoted_of(
                old(self).next_round->0,
                now,
                old(self).config.next_round_seconds,
                open_obs->0,
            )),
            r is Ok && !old(self).spec_bid_due(now) && old(self).spec_live_due(now)
                ==> final(self).live_round is None,
            r is Ok && !old(self).spec_bid_due(now) && !old(self).spec_live_due(now)
                ==> final(self).live_round == old(self).live_round,
            r is Ok && old(self).spec_creates_new(now) ==> (final(self).next_round matches Some(n2)
                && n2.id == old(self).next_round_id && n2.bid_time == now && n2.open_time == old(
                self,
            ).spec_new_open_time(now) && n2.close_time == old(self).spec_new_open_time(now) + old(
                self,
            ).config.next_round_seconds && n2.bull_amount == 0 && n2.bear_amount == 0
                && n2.denom@ == old(self).denoms@[(old(self).next_round_id as int) % (old(
                self,
            ).denoms@.len() as int)]@),
            r is Ok && old(self).spec_creates_new(now)
                ==> final(self).next_round_id == old(self).next_round_id + 1,
            r is Ok && !old(self).spec_creates_new(now)
                ==> final(self).next_round == old(self).next_round
                && final(self).next_round_id == old(self).next_round_id,
            final(self).config == old(self).config,
            final(self).admins == old(self).admins,
            final(self).halted == old(self).halted,
            final(self).bets == old(self).bets,
            final(self).claims == old(self).claims,
            final(self).totals_spent == old(self).totals_spent,
            final(self).denoms == old(self).denoms,
            final(self).tickers == old(self).tickers,
    {
        if self.halted {
            return Err(ContractError::Halted);
        }
        let dur = self.config.next_round_seconds;
        let fire1 = match &self.live_round {
            Some(l) => now >= l.close_time,
            None => false,
        };
        let live_survives = match &self.live_round {
            Some(l) => now < l.close_time,
            None => false,
        };
        let fire2 = match &self.next_round {
            Some(n) => !live_survives && now >= n.open_time,
            None => false,
        };
        let create_new = fire2 || self.next_round.is_none();
        if fire1 {
            match close_obs {
                None => {
                    return Err(ContractError::PriceTooOld);
                },
                Some(o) => {
                    match assert_price_not_too_old(now, o.observed_at) {
                        Err(e) => {
                            return Err(e);
                        },
                        Ok(()) => {},
                    }
                },
            }
        }
        if fire2 {
            match open_obs {
                None => {
                    return Err(ContractError::PriceTooOld);
                },
                Some(o) => {
                    match assert_price_not_too_old(now, o.observed_at) {
                        Err(e) => {
                            return Err(e);
                        },
                        Ok(()) => {},
                    }
                },
            }
        }
        if (fire2 || (create_new && !live_survives)) && now > u64::MAX - dur {
            return Err(ContractError::Overflow);
        }
        let open2: u64 = if !create_new {
            0
        } else if fire2 {
            now + dur
        } else if live_survives {
            match &self.live_round {
                Some(l) => l.close_time,
                None => 0,
            }
        } else {
            now + dur
        };
        if create_new && open2 > u64::MAX - dur {
            return Err(ContractError::Overflow);
        }
        if create_new && self.next_round_id == u128::MAX {
            return Err(ContractError::Overflow);
        }
        let ghost g0 = *self;
        // Step one: resolve a due live round against the closing observation.
        if fire1 {
            let o = close_obs.unwrap();
            let (l_id, l_bid, l_open, l_close, l_price, l_bull, l_bear, l_denom) = match &self
                .live_round {
                Some(l) => (
                    l.id,
                    l.bid_time,
                    l.open_time,
                    l.close_time,
                    l.open_price,
                    l.bull_amount,
                    l.bear_amount,
                    l.denom.clone(),
                ),
                None => (0, 0, 0, 0, 0, 0, 0, String::new()),
            };
            let winner: Option<Direction> = if o.price > l_price {
                Some(Direction::Bull)
            } else if o.price < l_price {
                Some(Direction::Bear)
            } else {
                None
            };
            self.rounds.push(
                FinishedRound {
                    id: l_id,
                    bid_time: l_bid,
                    open_time: l_open,
                    close_time: l_close,
                    open_price: l_price,
                    close_price: o.price,
                    winner,
                    bull_amount: l_bull,
                    bear_amount: l_bear,
                    denom: l_denom,
                },
            );
            self.live_round = None;
        }
        // Step two: promote a due bidding round against the opening
        // observation.
        if fire2 {
            let o = open_obs.unwrap();
            let (n_id, n_bid, n_bull, n_bear, n_denom) = match &self.next_round {
                Some(n) => (n.id, n.bid_time, n.bull_amount, n.bear_amount, n.denom.clone()),
                None => (0, 0, 0, 0, String::new()),
            };
            self.live_round = Some(
                LiveRound {
                    id: n_id,
                    bid_time: n_bid,
                    open_time: now,
                    close_time: now + dur,
                    open_price: o.price,
                    bull_amount: n_bull,
                    bear_amount: n_bear,
                    denom: n_denom,
                },
            );
            self.next_round = None;
        }
        // Chain a fresh bidding round behind whatever is live now.
        if create_new {
            let id = self.next_round_id;
            let nd = self.denoms.len();
            let di: usize = (id % (nd as u128)) as usize;
            proof {
                vstd::arithmetic::div_mod::lemma_mod_bound(id as int, nd as int);
            }
            let denom = self.denoms[di].clone();
            self.next_round = Some(
                NextRound {
                    id,
                    bid_time: now,
                    open_time: open2,
                    close_time: open2 + dur,
                    bull_amount: 0,
                    bear_amount: 0,
                    denom,
                },
            );
            self.next_round_id = id + 1;
            proof {
                lemma_sum_round_side_absent(self.bets@, id, Direction::Bull);
                lemma_sum_round_side_absent(self.bets@, id, Direction::Bear);
            }
        }
        proof {
            assert forall|k: int| 0 <= k < self.rounds@.len() implies covered_finished(
                self.bets@,
                #[trigger] self.rounds@[k],
            ) by {
                if k < g0.rounds@.len() {
                    assert(covered_finished(g0.bets@, g0.rounds@[k]));
                } else {
                    assert(covered_live(g0.bets@, g0.live_round->0));
                }
            }
        }
        Ok(())
    }
}

/// One round's positions as the settlement law speaks of them: each
/// reduced to its staked amount and chosen side, in ledger order.
pub open spec fn round_positions(bets: Seq<BetInfo>, rid: u128) -> Seq<(u128, Direction)>
    decreases bets.len(),
{
    if bets.len() == 0 {
        Seq::empty()
    } else {
        let rest = round_positions(bets.drop_first(), rid);
        if bets[0].round_id == rid {
            seq![(bets[0].amount, bets[0].direction)] + rest
        } else {
            rest
        }
    }
}

/// Reducing positions to (amount, side) pairs keeps each side's sum.
proof fn lemma_round_positions_sum(bets: Seq<BetInfo>, rid: u128, dir: Direction)
    ensures
        crate::settle::sum_side(round_positions(bets, rid), dir) == sum_round_side(
            bets,
            rid,
            dir,
        ),
    decreases bets.len(),
{
    if bets.len() > 0 {
        lemma_round_positions_sum(bets.drop_first(), rid, dir);
        if bets[0].round_id == rid {
            let rest = round_positions(bets.drop_first(), rid);
            assert((seq![(bets[0].amount, bets[0].direction)] + rest).drop_first() =~= rest);
        }
    }
}

/// Pool conservation on the engine's own ledger: in any well-formed state,
/// for any finished round with stakes on both sides, the payouts owed to
/// the positions the ledger still holds for that round never exceed the
/// round's whole pool.
pub proof fn lemma_ledger_pool_conservation(g: Game, rid: u128)
    requires
        g.wf(),
        rid < g.rounds@.len(),
        g.rounds@[rid as int].bull_amount > 0,
        g.rounds@[rid as int].bear_amount > 0,
    ensures
        crate::settle::sum_payouts(g.rounds@[rid as int], round_positions(g.bets@, rid))
            <= crate::settle::spec_pool(g.rounds@[rid as int]),
{
    let r = g.rounds@[rid as int];
    assert(covered_finished(g.bets@, g.rounds@[rid as int]));
    lemma_round_positions_sum(g.bets@, rid, Direction::Bull);
    lemma_round_positions_sum(g.bets@, rid, Direction::Bear);
    assert(r.id == rid);
    crate::settle::lemma_pool_conservation(r, round_positions(g.bets@, rid));
}

/// Scheduling invariant: in any well-formed engine state at most one round
/// is live and at most one is bidding, finished rounds carry exactly the ids
/// zero up to their count, and the live and bidding ids continue that
/// sequence gaplessly, so round ids strictly increase by one with no gaps or
/// repeats across the whole history.
pub proof fn lemma_scheduling_invariant(g: Game)
    requires
        g.wf(),
    ensures
        forall|i: int| 0 <= i < g.rounds@.len() ==> (#[trigger] g.rounds@[i]).id == i,
        g.live_round matches Some(l) ==> l.id == g.rounds@.len(),
        g.live_round matches Some(l) ==> (g.next_round matches Some(n) ==> n.id == l.id + 1),
        g.next_round matches Some(n) ==> g.next_round_id == n.id + 1,
        g.next_round matches Some(n) ==> n.id >= g.rounds@.len(),
{
}

/// Recording a stake preserves the engine invariant: only the staked
/// (round, side) ledger sum moves, and it moves in step with the bidding
/// round's running total.
proof fn lemma_place_commit_wf(
    g0: Game,
    g1: Game,
    idx: Option<int>,
    rid: u128,
    player: Seq<char>,
    dir: Direction,
    amt: u128,
)
    requires
        g0.wf(),
        g0.next_round matches Some(n) && n.id == rid,
        spec_next_side_total(g0.next_round->0, dir) + amt <= u128::MAX,
        idx matches Some(i) ==> 0 <= i < g0.bets@.len() && bet_matches(g0.bets@[i], rid, player)
            && g0.bets@[i].direction == dir && g0.bets@[i].amount + amt <= u128::MAX
            && g1.bets@ == g0.bets@.update(
            i,
            (BetInfo { amount: (g0.bets@[i].amount + amt) as u128, ..g0.bets@[i] }),
        ),
        idx is None ==> !g0.has_bet(rid, player) && g1.bets@.len() == g0.bets@.len() + 1
            && g1.bets@ == g0.bets@.push(g1.bets@.last()) && bet_matches(
            g1.bets@.last(),
            rid,
            player,
        ) && g1.bets@.last().direction == dir && g1.bets@.last().amount == amt,
        g1.next_round == Some(spec_bump_next(g0.next_round->0, dir, amt)),
        g1.rounds == g0.rounds,
        g1.live_round == g0.live_round,
        g1.claims == g0.claims,
        g1.next_round_id == g0.next_round_id,
        g1.config == g0.config,
        g1.denoms == g0.denoms,
        forall|i: int, j: int|
            0 <= i < j < g1.totals_spent@.len() ==> (#[trigger] g1.totals_spent@[i]).0@ != (
            #[trigger] g1.totals_spent@[j]).0@,
    ensures
        g1.wf(),
{
    let n = g0.next_round->0;
    let len0 = g0.bets@.len() as int;
    assert(n.id >= g0.rounds@.len());
    match idx {
        Some(i) => {
            let nbrec = (BetInfo { amount: (g0.bets@[i].amount + amt) as u128, ..g0.bets@[i] });
            assert(g1.bets@.len() == len0);
            assert(forall|k: int| 0 <= k < len0 && k != i ==> g1.bets@[k] == g0.bets@[k]);
            assert(g1.bets@[i] == nbrec);
            assert forall|a: int, b: int| 0 <= a < b < g1.bets@.len() implies !bet_key_eq(
                #[trigger] g1.bets@[a],
                #[trigger] g1.bets@[b],
            ) by {
                assert(!bet_key_eq(g0.bets@[a], g0.bets@[b]));
            }
            assert forall|a: int, b: int| 0 <= a < b < g1.bets@.len() implies (
            #[trigger] g1.bets@[a]).round_id <= (#[trigger] g1.bets@[b]).round_id by {
                assert(g0.bets@[a].round_id <= g0.bets@[b].round_id);
            }
            assert forall|a: int| 0 <= a < g1.bets@.len() implies (#[trigger] g1.bets@[a]).round_id
                < g1.next_round_id by {
                assert(g0.bets@[a].round_id < g0.next_round_id);
            }
            assert forall|a: int, b: int|
                0 <= a < g1.bets@.len() && 0 <= b < g1.claims@.len() implies !claim_matches(
                #[trigger] g1.claims@[b],
                (#[trigger] g1.bets@[a]).round_id,
                g1.bets@[a].player@,
            ) by {
                assert(!claim_matches(g0.claims@[b], g0.bets@[a].round_id, g0.bets@[a].player@));
            }
            assert forall|k: int| 0 <= k < g1.rounds@.len() implies covered_finished(
                g1.bets@,
                #[trigger] g1.rounds@[k],
            ) by {
                lemma_sum_round_side_update(g0.bets@, i, nbrec, g1.rounds@[k].id, Direction::Bull);
                lemma_sum_round_side_update(g0.bets@, i, nbrec, g1.rounds@[k].id, Direction::Bear);
                assert(covered_finished(g0.bets@, g0.rounds@[k]));
            }
            if g1.live_round is Some {
                let l = g1.live_round->0;
                lemma_sum_round_side_update(g0.bets@, i, nbrec, l.id, Direction::Bull);
                lemma_sum_round_side_update(g0.bets@, i, nbrec, l.id, Direction::Bear);
            }
            lemma_sum_round_side_update(g0.bets@, i, nbrec, rid, Direction::Bull);
            lemma_sum_round_side_update(g0.bets@, i, nbrec, rid, Direction::Bear);
            assert(covered_next(g1.bets@, g1.next_round->0));
        },
        None => {
            let b = g1.bets@.last();
            assert(forall|k: int| 0 <= k < len0 ==> g1.bets@[k] == g0.bets@[k]);
            assert forall|a: int, c: int| 0 <= a < c < g1.bets@.len() implies !bet_key_eq(
                #[trigger] g1.bets@[a],
                #[trigger] g1.bets@[c],
            ) by {
                if c < len0 {
                    assert(!bet_key_eq(g0.bets@[a], g0.bets@[c]));
                } else {
                    assert(!bet_matches(g0.bets@[a], rid, player));
                }
            }
            assert forall|a: int, c: int| 0 <= a < c < g1.bets@.len() implies (
            #[trigger] g1.bets@[a]).round_id <= (#[trigger] g1.bets@[c]).round_id by {
                if c < len0 {
                    assert(g0.bets@[a].round_id <= g0.bets@[c].round_id);
                } else {
                    assert(g0.bets@[a].round_id < g0.next_round_id);
                }
            }
            assert forall|a: int| 0 <= a < g1.bets@.len() implies (#[trigger] g1.bets@[a]).round_id
                < g1.next_round_id by {
                if a < len0 {
                    assert(g0.bets@[a].round_id < g0.next_round_id);
                }
            }
            assert forall|a: int, c: int|
                0 <= a < g1.bets@.len() && 0 <= c < g1.claims@.len() implies !claim_matches(
                #[trigger] g1.claims@[c],
                (#[trigger] g1.bets@[a]).round_id,
                g1.bets@[a].player@,
            ) by {
                assert(g1.claims@[c].round_id < g1.rounds@.len());
                if a < len0 {
                    assert(!claim_matches(g0.claims@[c], g0.bets@[a].round_id, g0.bets@[a].player@));
                } else {
                    assert(g1.bets@[a].round_id == rid);
                    assert(rid >= g1.rounds@.len());
                }
            }
            assert forall|k: int| 0 <= k < g1.rounds@.len() implies covered_finished(
                g1.bets@,
                #[trigger] g1.rounds@[k],
            ) by {
                lemma_sum_round_side_push(g0.bets@, b, g1.rounds@[k].id, Direction::Bull);
                lemma_sum_round_side_push(g0.bets@, b, g1.rounds@[k].id, Direction::Bear);
                assert(covered_finished(g0.bets@, g0.rounds@[k]));
            }
            if g1.live_round is Some {
                let l = g1.live_round->0;
                lemma_sum_round_side_push(g0.bets@, b, l.id, Direction::Bull);
                lemma_sum_round_side_push(g0.bets@, b, l.id, Direction::Bear);
            }
            lemma_sum_round_side_push(g0.bets@, b, rid, Direction::Bull);
            lemma_sum_round_side_push(g0.bets@, b, rid, Direction::Bear);
            assert(covered_next(g1.bets@, g1.next_round->0));
        },
    }
}

impl Game {
    /// The ledger index of the pair's unique position; meaningful when
    /// `has_bet`.
    pub open spec fn spec_bet_index(self, rid: u128, player: Seq<char>) -> int {
        choose|i: int| 0 <= i < self.bets@.len() && bet_matches(#[trigger] self.bets@[i], rid, player)
    }

    /// The commissionable part of a single settled payout.
    pub open spec fn spec_claim_commissionable(self, rid: u128, player: Seq<char>) -> int {
        if crate::settle::spec_commissionable(self.rounds@[rid as int]) {
            crate::settle::spec_payout(
                self.rounds@[rid as int],
                self.spec_bet_record(rid, player).amount,
                self.spec_bet_record(rid, player).direction,
            )
        } else {
            0
        }
    }

    /// Exactly when and why a single-round claim is rejected, checked in
    /// order: no position for the pair, the round not finished yet, a pool
    /// past the 128-bit range, a payout of zero, and fee or experience
    /// arithmetic leaving the machine range.  A rejected claim changes
    /// nothing; in particular a repeated claim finds no position and is
    /// rejected.
    pub open spec fn spec_claim_round_err(self, player: Seq<char>, round_id: u128) -> Option<
        ContractError,
    > {
        if !self.has_bet(round_id, player) {
            Some(ContractError::NothingToClaim)
        } else if round_id >= self.rounds@.len() {
            Some(ContractError::BetNotFound)
        } else if crate::settle::spec_pool(self.rounds@[round_id as int]) > u128::MAX {
            Some(ContractError::Overflow)
        } else if crate::settle::spec_payout(
            self.rounds@[round_id as int],
            self.spec_bet_record(round_id, player).amount,
            self.spec_bet_record(round_id, player).direction,
        ) == 0 {
            Some(ContractError::NothingToClaim)
        } else if crate::fees::spec_gaming_fee(
            self.config.gaming_fee,
            self.spec_claim_commissionable(round_id, player),
        ) > u128::MAX {
            Some(ContractError::Overflow)
        } else if crate::fees::spec_gaming_fee(
            self.config.gaming_fee,
            self.spec_claim_commissionable(round_id, player),
        ) > crate::settle::spec_payout(
            self.rounds@[round_id as int],
            self.spec_bet_record(round_id, player).amount,
            self.spec_bet_record(round_id, player).direction,
        ) {
            Some(ContractError::Overflow)
        } else if self.spec_claim_commissionable(round_id, player) > 0 && spec_experience(
            self.spec_claim_commissionable(round_id, player),
            self.config.exp_per_denom_won,
        ) > u64::MAX {
            Some(ContractError::Overflow)
        } else {
            None
        }
    }

    /// Settle and pay out the caller's position in one finished round: the
    /// position is deleted, a claim record is appended, and the host
    /// receives the transfers and experience credit to execute.  Deleting
    /// the position is the sole double-claim guard, and it happens only on
    /// success.
    pub fn collect_winning_round(&mut self, player: &String, round_id: u128) -> (r: Result<
        crate::types::ClaimOutcome,
        ContractError,
    >)
        requires
            old(self).wf(),
        ensures
            final(self).wf(),
            r is Err <==> old(self).spec_claim_round_err(player@, round_id) is Some,
            r matches Err(e) ==> Some(e) == old(self).spec_claim_round_err(player@, round_id),
            r is Err ==> *final(self) == *old(self),
            r is Ok ==> final(self).bets@ == old(self).bets@.remove(
                old(self).spec_bet_index(round_id, player@),
            ),
            r is Ok ==> !final(self).has_bet(round_id, player@),
            r matches Ok(out) ==> out.total_payout == crate::settle::spec_payout(
                old(self).rounds@[round_id as int],
                old(self).spec_bet_record(round_id, player@).amount,
                old(self).spec_bet_record(round_id, player@).direction,
            ),
            r matches Ok(out) ==> final(self).claims@ == old(self).claims@.push(
                (ClaimInfo {
                    player: *player,
                    round_id: round_id,
                    claimed_amount: out.total_payout,
                }),
            ),
            r matches Ok(out) ==> out.fee == crate::fees::spec_gaming_fee(
                old(self).config.gaming_fee,
                old(self).spec_claim_commissionable(round_id, player@),
            ),
            r matches Ok(out) ==> out.payout_transfer.to_address@ == player@
                && out.payout_transfer.amount == out.total_payout - out.fee,
            r matches Ok(out) ==> (if old(self).spec_claim_commissionable(round_id, player@) > 0 {
                out.fee_transfers@.len() == old(self).config.dev_wallet_list@.len() && (forall|
                    k: int,
                |
                    0 <= k < out.fee_transfers@.len()
                        ==> (#[trigger] out.fee_transfers@[k]).amount
                        == crate::fees::spec_fee_share(
                        out.fee,
                        old(self).config.dev_wallet_list@[k].ratio,
                    ) && out.fee_transfers@[k].to_address@ == old(
                        self,
                    ).config.dev_wallet_list@[k].address@)
            } else {
                out.fee_transfers@.len() == 0
            }),
            r matches Ok(out) ==> (if old(self).spec_claim_commissionable(round_id, player@) > 0 {
                out.experience matches Some(xp) && xp.user@ == player@ && xp.experience
                    == spec_experience(
                    old(self).spec_claim_commissionable(round_id, player@),
                    old(self).config.exp_per_denom_won,
                ) && xp.elo is None
            } else {
                out.experience is None
            }),
            final(self).config == old(self).config,
            final(self).admins == old(self).admins,
            final(self).halted == old(self).halted,
            final(self).rounds == old(self).rounds,
            final(self).next_round == old(self).next_round,
            final(self).live_round == old(self).live_round,
            final(self).next_round_id == old(self).next_round_id,
            final(self).totals_spent == old(self).totals_spent,
            final(self).denoms == old(self).denoms,
            final(self).tickers == old(self).tickers,
    {
        let found = match find_bet(&self.bets, round_id, player) {
            None => {
                return Err(ContractError::NothingToClaim);
            },
            Some(i) => i,
        };
        proof {
            lemma_bet_record_unique(*self, found as int, round_id, player@);
            assert(self.spec_bet_index(round_id, player@) == found as int) by {
                let j = self.spec_bet_index(round_id, player@);
                if j < found as int {
                    assert(!bet_key_eq(self.bets@[j], self.bets@[found as int]));
                } else if j > found as int {
                    assert(!bet_key_eq(self.bets@[found as int], self.bets@[j]));
                }
            }
        }
        if round_id >= self.rounds.len() as u128 {
            return Err(ContractError::BetNotFound);
        }
        let ridx: usize = round_id as usize;
        let bet_amount = self.bets[found].amount;
        let bet_direction = self.bets[found].direction;
        proof {
            let rnd = self.rounds@[ridx as int];
            assert(covered_finished(self.bets@, self.rounds@[ridx as int]));
            lemma_side_contrib_le_sum(self.bets@, found as int, rnd.id, bet_direction);
        }
        let (payout, commissionable_flag) = match crate::settle::settle(
            &self.rounds[ridx],
            bet_amount,
            bet_direction,
        ) {
            Err(e) => {
                return Err(e);
            },
            Ok(p) => p,
        };
        if payout == 0 {
            return Err(ContractError::NothingToClaim);
        }
        let commissionable: u128 = if commissionable_flag {
            payout
        } else {
            0
        };
        let fee = match crate::fees::compute_gaming_fee(self.config.gaming_fee, commissionable) {
            Err(e) => {
                return Err(e);
            },
            Ok(f) => f,
        };
        if fee > payout {
            return Err(ContractError::Overflow);
        }
        let experience: Option<crate::types::ExperienceCredit> = if commissionable > 0 {
            let t64: u64 = (commissionable % 0x1_0000_0000_0000_0000u128) as u64;
            match checked_mul_u64(t64, self.config.exp_per_denom_won) {
                None => {
                    return Err(ContractError::Overflow);
                },
                Some(points) => Some(
                    crate::types::ExperienceCredit {
                        user: player.clone(),
                        experience: points,
                        elo: None,
                    },
                ),
            }
        } else {
            None
        };
        let fee_transfers: Vec<crate::types::Transfer> = if commissionable > 0 {
            crate::fees::split_fee(fee, &self.config.dev_wallet_list)
        } else {
            Vec::new()
        };
        let ghost g0 = *self;
        self.bets.remove(found);
        self.claims.push(
            ClaimInfo { player: player.clone(), round_id: round_id, claimed_amount: payout },
        );
        proof {
            lemma_claim_commit_wf(g0, *self, found as int, round_id, player@);
            assert forall|i: int|
                0 <= i < self.bets@.len() implies !bet_matches(
                #[trigger] self.bets@[i],
                round_id,
                player@,
            ) by {
                if i < found as int {
                    assert(!bet_key_eq(g0.bets@[i], g0.bets@[found as int]));
                } else {
                    assert(!bet_key_eq(g0.bets@[found as int], g0.bets@[i + 1]));
                }
            }
        }
        Ok(
            crate::types::ClaimOutcome {
                total_payout: payout,
                fee,
                payout_transfer: crate::types::Transfer {
                    to_address: player.clone(),
                    amount: payout - fee,
                },
                fee_transfers,
                experience,
            },
        )
    }
}

/// Settling one position preserves the engine invariant: removing the
/// position only lowers ledger sums, and the claim record it leaves behind
/// can collide with nothing.
proof fn lemma_claim_commit_wf(g0: Game, g1: Game, i: int, rid: u128, player: Seq<char>)
    requires
        g0.wf(),
        0 <= i < g0.bets@.len(),
        bet_matches(g0.bets@[i], rid, player),
        rid < g0.rounds@.len(),
        g1.bets@ == g0.bets@.remove(i),
        g1.claims@.len() == g0.claims@.len() + 1,
        g1.claims@ == g0.claims@.push(g1.claims@.last()),
        claim_matches(g1.claims@.last(), rid, player),
        g1.rounds == g0.rounds,
        g1.next_round == g0.next_round,
        g1.live_round == g0.live_round,
        g1.next_round_id == g0.next_round_id,
        g1.config == g0.config,
        g1.denoms == g0.denoms,
        g1.totals_spent == g0.totals_spent,
    ensures
        g1.wf(),
{
    let len1 = g1.bets@.len() as int;
    assert(forall|k: int| 0 <= k < i ==> g1.bets@[k] == g0.bets@[k]);
    assert(forall|k: int| i <= k < len1 ==> g1.bets@[k] == g0.bets@[k + 1]);
    assert forall|a: int, b: int| 0 <= a < b < len1 implies !bet_key_eq(
        #[trigger] g1.bets@[a],
        #[trigger] g1.bets@[b],
    ) by {
        let a0 = if a < i {
            a
        } else {
            a + 1
        };
        let b0 = if b < i {
            b
        } else {
            b + 1
        };
        assert(!bet_key_eq(g0.bets@[a0], g0.bets@[b0]));
    }
    assert forall|a: int, b: int| 0 <= a < b < len1 implies (#[trigger] g1.bets@[a]).round_id <= (
    #[trigger] g1.bets@[b]).round_id by {
        let a0 = if a < i {
            a
        } else {
            a + 1
        };
        let b0 = if b < i {
            b
        } else {
            b + 1
        };
        assert(g0.bets@[a0].round_id <= g0.bets@[b0].round_id);
    }
    assert forall|a: int| 0 <= a < len1 implies (#[trigger] g1.bets@[a]).round_id
        < g1.next_round_id by {
        let a0 = if a < i {
            a
        } else {
            a + 1
        };
        assert(g0.bets@[a0].round_id < g0.next_round_id);
    }
    // Claim records: the new one names a finished round, repeats no key, and
    // collides with no remaining position.
    let nc = g1.claims@.last();
    let lenc = g0.claims@.len() as int;
    assert(forall|k: int| 0 <= k < lenc ==> g1.claims@[k] == g0.claims@[k]);
    assert forall|a: int, b: int| 0 <= a < b < g1.claims@.len() implies !claim_matches(
        #[trigger] g1.claims@[a],
        (#[trigger] g1.claims@[b]).round_id,
        g1.claims@[b].player@,
    ) by {
        if b < lenc {
            assert(!claim_matches(g0.claims@[a], g0.claims@[b].round_id, g0.claims@[b].player@));
        } else {
            assert(!claim_matches(g0.claims@[a], g0.bets@[i].round_id, g0.bets@[i].player@));
        }
    }
    assert forall|a: int, b: int|
        0 <= a < g1.bets@.len() && 0 <= b < g1.claims@.len() implies !claim_matches(
        #[trigger] g1.claims@[b],
        (#[trigger] g1.bets@[a]).round_id,
        g1.bets@[a].player@,
    ) by {
        let a0 = if a < i {
            a
        } else {
            a + 1
        };
        if b < lenc {
            assert(!claim_matches(g0.claims@[b], g0.bets@[a0].round_id, g0.bets@[a0].player@));
        } else {
            assert(!bet_key_eq(g0.bets@[if a0 < i {
                a0
            } else {
                i
            }], g0.bets@[if a0 < i {
                i
            } else {
                a0
            }]));
        }
    }
    // Ledger sums only shrink when a position leaves.
    assert forall|k: int| 0 <= k < g1.rounds@.len() implies covered_finished(
        g1.bets@,
        #[trigger] g1.rounds@[k],
    ) by {
        lemma_sum_round_side_remove(g0.bets@, i, g1.rounds@[k].id, Direction::Bull);
        lemma_sum_round_side_remove(g0.bets@, i, g1.rounds@[k].id, Direction::Bear);
        assert(covered_finished(g0.bets@, g0.rounds@[k]));
    }
    if g1.live_round is Some {
        let l = g1.live_round->0;
        lemma_sum_round_side_remove(g0.bets@, i, l.id, Direction::Bull);
        lemma_sum_round_side_remove(g0.bets@, i, l.id, Direction::Bear);
        assert(l.id >= g0.rounds@.len());
        assert(covered_live(g1.bets@, l));
    }
    if g1.next_round is Some {
        let n = g1.next_round->0;
        lemma_sum_round_side_remove(g0.bets@, i, n.id, Direction::Bull);
        lemma_sum_round_side_remove(g0.bets@, i, n.id, Direction::Bear);
        assert(n.id >= g0.rounds@.len());
        assert(covered_next(g1.bets@, n));
    }
}

/// Whether a position is settled by a claim-everything call: it belongs to
/// the caller and its round has finished.
pub open spec fn claimable(b: BetInfo, nrounds: int, player: Seq<char>) -> bool {
    b.player@ == player && b.round_id < nrounds
}

/// Everything a claim-everything call pays the caller, before the fee.
pub open spec fn spec_pending_total(
    bets: Seq<BetInfo>,
    rounds: Seq<FinishedRound>,
    player: Seq<char>,
) -> int
    decreases bets.len(),
{
    if bets.len() == 0 {
        0
    } else {
        (if claimable(bets[0], rounds.len() as int, player) {
            crate::settle::spec_payout(
                rounds[bets[0].round_id as int],
                bets[0].amount,
                bets[0].direction,
            )
        } else {
            0
        }) + spec_pending_total(bets.drop_first(), rounds, player)
    }
}

/// The commissionable part of that total.
pub open spec fn spec_pending_commissionable(
    bets: Seq<BetInfo>,
    rounds: Seq<FinishedRound>,
    player: Seq<char>,
) -> int
    decreases bets.len(),
{
    if bets.len() == 0 {
        0
    } else {
        (if claimable(bets[0], rounds.len() as int, player) && crate::settle::spec_commissionable(
            rounds[bets[0].round_id as int],
        ) {
            crate::settle::spec_payout(
                rounds[bets[0].round_id as int],
                bets[0].amount,
                bets[0].direction,
            )
        } else {
            0
        }) + spec_pending_commissionable(bets.drop_first(), rounds, player)
    }
}

/// The positions that survive a claim-everything call: everything not
/// settled by it, in ledger order.
pub open spec fn spec_remaining_bets(bets: Seq<BetInfo>, nrounds: int, player: Seq<char>) -> Seq<
    BetInfo,
>
    decreases bets.len(),
{
    if bets.len() == 0 {
        Seq::empty()
    } else {
        let rest = spec_remaining_bets(bets.drop_first(), nrounds, player);
        if claimable(bets[0], nrounds, player) {
            rest
        } else {
            seq![bets[0]] + rest
        }
    }
}

/// The claim records a claim-everything call appends: one per settled
/// position that paid anything, in ledger order.
pub open spec fn spec_new_claims(
    bets: Seq<BetInfo>,
    rounds: Seq<FinishedRound>,
    player: Seq<char>,
) -> Seq<ClaimInfo>
    decreases bets.len(),
{
    if bets.len() == 0 {
        Seq::empty()
    } else {
        let rest = spec_new_claims(bets.drop_first(), rounds, player);
        let payout = crate::settle::spec_payout(
            rounds[bets[0].round_id as int],
            bets[0].amount,
            bets[0].direction,
        );
        if claimable(bets[0], rounds.len() as int, player) && payout > 0 {
            seq![
                (ClaimInfo {
                    player: bets[0].player,
                    round_id: bets[0].round_id,
                    claimed_amount: payout as u128,
                }),
            ] + rest
        } else {
            rest
        }
    }
}

/// Whether some settled position's round has a pool past the 128-bit range.
pub open spec fn spec_pool_overflow(
    bets: Seq<BetInfo>,
    rounds: Seq<FinishedRound>,
    player: Seq<char>,
) -> bool {
    exists|k: int|
        0 <= k < bets.len() && claimable(#[trigger] bets[k], rounds.len() as int, player)
            && crate::settle::spec_pool(rounds[bets[k].round_id as int]) > u128::MAX
}

/// The surviving positions keep the ledger invariant's shape: unique sorted
/// keys within the id bound, none of them settled, and each one drawn from
/// the original ledger.
proof fn lemma_remaining_wf(s: Seq<BetInfo>, nr: int, p: Seq<char>, nri: u128)
    requires
        forall|a: int, b: int| 0 <= a < b < s.len() ==> !bet_key_eq(
            #[trigger] s[a],
            #[trigger] s[b],
        ),
        forall|a: int, b: int| 0 <= a < b < s.len() ==> (#[trigger] s[a]).round_id <= (
        #[trigger] s[b]).round_id,
        forall|a: int| 0 <= a < s.len() ==> (#[trigger] s[a]).round_id < nri,
    ensures
        forall|a: int, b: int|
            0 <= a < b < spec_remaining_bets(s, nr, p).len() ==> !bet_key_eq(
                #[trigger] spec_remaining_bets(s, nr, p)[a],
                #[trigger] spec_remaining_bets(s, nr, p)[b],
            ),
        forall|a: int, b: int|
            0 <= a < b < spec_remaining_bets(s, nr, p).len() ==> (#[trigger] spec_remaining_bets(
                s,
                nr,
                p,
            )[a]).round_id <= (#[trigger] spec_remaining_bets(s, nr, p)[b]).round_id,
        forall|a: int|
            0 <= a < spec_remaining_bets(s, nr, p).len() ==> (#[trigger] spec_remaining_bets(
                s,
                nr,
                p,
            )[a]).round_id < nri,
        forall|a: int|
            0 <= a < spec_remaining_bets(s, nr, p).len() ==> !claimable(
                #[trigger] spec_remaining_bets(s, nr, p)[a],
                nr,
                p,
            ),
        forall|a: int|
            0 <= a < spec_remaining_bets(s, nr, p).len() ==> exists|j: int|
                0 <= j < s.len() && #[trigger] spec_remaining_bets(s, nr, p)[a] == s[j],
    decreases s.len(),
{
    if s.len() > 0 {
        let rest = s.drop_first();
        let rem = spec_remaining_bets(s, nr, p);
        let remr = spec_remaining_bets(rest, nr, p);
        lemma_remaining_wf(rest, nr, p, nri);
        assert forall|a: int| 0 <= a < remr.len() implies exists|j: int|
            0 <= j < s.len() && #[trigger] remr[a] == s[j] by {
            let j0 = choose|j: int| 0 <= j < rest.len() && remr[a] == rest[j];
            assert(remr[a] == s[j0 + 1]);
        }
        if !claimable(s[0], nr, p) {
            assert(rem == seq![s[0]] + remr);
            assert(rem[0] == s[0]);
            assert(forall|a: int| 1 <= a < rem.len() ==> #[trigger] rem[a] == remr[a - 1]);
            assert forall|a: int, b: int| 0 <= a < b < rem.len() implies !bet_key_eq(
                #[trigger] rem[a],
                #[trigger] rem[b],
            ) by {
                if a == 0 {
                    let j = choose|j: int| 0 <= j < rest.len() && remr[b - 1] == rest[j];
                    assert(rem[b] == s[j + 1]);
                    assert(!bet_key_eq(s[0], s[j + 1]));
                }
            }
            assert forall|a: int, b: int| 0 <= a < b < rem.len() implies (
            #[trigger] rem[a]).round_id <= (#[trigger] rem[b]).round_id by {
                if a == 0 {
                    let j = choose|j: int| 0 <= j < rest.len() && remr[b - 1] == rest[j];
                    assert(rem[b] == s[j + 1]);
                    assert(s[0].round_id <= s[j + 1].round_id);
                }
            }
        }
    }
}

/// Settling positions can only lower a ledger sum, and leaves sums of
/// rounds past the finished range untouched.
proof fn lemma_remaining_sums(s: Seq<BetInfo>, nr: int, p: Seq<char>, rid: u128, dir: Direction)
    ensures
        sum_round_side(spec_remaining_bets(s, nr, p), rid, dir) <= sum_round_side(s, rid, dir),
        rid >= nr ==> sum_round_side(spec_remaining_bets(s, nr, p), rid, dir) == sum_round_side(
            s,
            rid,
            dir,
        ),
    decreases s.len(),
{
    if s.len() > 0 {
        let rest = s.drop_first();
        let remr = spec_remaining_bets(rest, nr, p);
        lemma_remaining_sums(rest, nr, p, rid, dir);
        if claimable(s[0], nr, p) {
            lemma_sum_round_side_nonneg(rest, rid, dir);
        } else {
            assert((seq![s[0]] + remr).drop_first() =~= remr);
        }
    }
}

/// The appended claim records name the caller, finished rounds only, and
/// strictly increasing rounds, so their keys repeat nothing.
proof fn lemma_new_claims_props(s: Seq<BetInfo>, rounds: Seq<FinishedRound>, p: Seq<char>)
    requires
        forall|a: int, b: int| 0 <= a < b < s.len() ==> !bet_key_eq(
            #[trigger] s[a],
            #[trigger] s[b],
        ),
        forall|a: int, b: int| 0 <= a < b < s.len() ==> (#[trigger] s[a]).round_id <= (
        #[trigger] s[b]).round_id,
    ensures
        forall|k: int|
            0 <= k < spec_new_claims(s, rounds, p).len() ==> (#[trigger] spec_new_claims(
                s,
                rounds,
                p,
            )[k]).player@ == p && spec_new_claims(s, rounds, p)[k].round_id < rounds.len(),
        forall|a: int, b: int|
            0 <= a < b < spec_new_claims(s, rounds, p).len() ==> (#[trigger] spec_new_claims(
                s,
                rounds,
                p,
            )[a]).round_id < (#[trigger] spec_new_claims(s, rounds, p)[b]).round_id,
        forall|k: int|
            0 <= k < spec_new_claims(s, rounds, p).len() ==> exists|j: int|
                0 <= j < s.len() && (#[trigger] spec_new_claims(s, rounds, p)[k]).round_id == s[j].round_id
                    && spec_new_claims(s, rounds, p)[k].player@ == s[j].player@,
    decreases s.len(),
{
    if s.len() > 0 {
        let rest = s.drop_first();
        let nc = spec_new_claims(s, rounds, p);
        let ncr = spec_new_claims(rest, rounds, p);
        lemma_new_claims_props(rest, rounds, p);
        assert forall|k: int| 0 <= k < ncr.len() implies exists|j: int|
            0 <= j < s.len() && (#[trigger] ncr[k]).round_id == s[j].round_id && ncr[k].player@
                == s[j].player@ by {
            let j0 = choose|j: int|
                0 <= j < rest.len() && (ncr[k]).round_id == rest[j].round_id && ncr[k].player@
                    == rest[j].player@;
            assert(ncr[k].round_id == s[j0 + 1].round_id && ncr[k].player@ == s[j0 + 1].player@);
        }
        let payout = crate::settle::spec_payout(
            rounds[s[0].round_id as int],
            s[0].amount,
            s[0].direction,
        );
        if claimable(s[0], rounds.len() as int, p) && payout > 0 {
            assert(nc[0].round_id == s[0].round_id && nc[0].player@ == p);
            assert(forall|k: int| 1 <= k < nc.len() ==> #[trigger] nc[k] == ncr[k - 1]);
            assert forall|a: int, b: int| 0 <= a < b < nc.len() implies (
            #[trigger] nc[a]).round_id < (#[trigger] nc[b]).round_id by {
                if a == 0 {
                    let j = choose|j: int|
                        0 <= j < rest.len() && (ncr[b - 1]).round_id == rest[j].round_id && ncr[b
                            - 1].player@ == rest[j].player@;
                    assert(!bet_key_eq(s[0], s[j + 1]));
                    assert(s[0].round_id <= s[j + 1].round_id);
                }
            }
        }
    }
}

/// Pending payouts are never negative.
pub proof fn lemma_pending_total_nonneg(
    bets: Seq<BetInfo>,
    rounds: Seq<FinishedRound>,
    player: Seq<char>,
)
    ensures
        0 <= spec_pending_total(bets, rounds, player),
    decreases bets.len(),
{
    if bets.len() > 0 {
        if claimable(bets[0], rounds.len() as int, player) {
            crate::settle::lemma_payout_nonneg(
                rounds[bets[0].round_id as int],
                bets[0].amount,
                bets[0].direction,
            );
        }
        lemma_pending_total_nonneg(bets.drop_first(), rounds, player);
    }
}

/// Settling every finished position of one caller preserves the engine
/// invariant.
proof fn lemma_claim_all_commit_wf(g0: Game, g1: Game, player: Seq<char>)
    requires
        g0.wf(),
        g1.bets@ == spec_remaining_bets(g0.bets@, g0.rounds@.len() as int, player),
        g1.claims@ == g0.claims@ + spec_new_claims(g0.bets@, g0.rounds@, player),
        g1.rounds == g0.rounds,
        g1.next_round == g0.next_round,
        g1.live_round == g0.live_round,
        g1.next_round_id == g0.next_round_id,
        g1.config == g0.config,
        g1.denoms == g0.denoms,
        g1.totals_spent == g0.totals_spent,
    ensures
        g1.wf(),
{
    let nr = g0.rounds@.len() as int;
    let rem = spec_remaining_bets(g0.bets@, nr, player);
    let nc = spec_new_claims(g0.bets@, g0.rounds@, player);
    let lc = g0.claims@.len() as int;
    lemma_remaining_wf(g0.bets@, nr, player, g0.next_round_id);
    lemma_new_claims_props(g0.bets@, g0.rounds@, player);
    assert(forall|k: int| 0 <= k < lc ==> g1.claims@[k] == g0.claims@[k]);
    assert(forall|k: int| 0 <= k < nc.len() ==> g1.claims@[lc + k] == nc[k]);
    assert forall|a: int, b: int| 0 <= a < b < g1.claims@.len() implies !claim_matches(
        #[trigger] g1.claims@[a],
        (#[trigger] g1.claims@[b]).round_id,
        g1.claims@[b].player@,
    ) by {
        if b < lc {
            assert(!claim_matches(g0.claims@[a], g0.claims@[b].round_id, g0.claims@[b].player@));
        } else if a >= lc {
            assert(nc[a - lc].round_id < nc[b - lc].round_id);
        } else {
            let j = choose|j: int|
                0 <= j < g0.bets@.len() && (nc[b - lc]).round_id == g0.bets@[j].round_id && nc[b
                    - lc].player@ == g0.bets@[j].player@;
            assert(!claim_matches(g0.claims@[a], g0.bets@[j].round_id, g0.bets@[j].player@));
        }
    }
    assert forall|k: int| 0 <= k < g1.claims@.len() implies (#[trigger] g1.claims@[k]).round_id
        < g1.rounds@.len() by {
        if k < lc {
            assert(g0.claims@[k].round_id < g0.rounds@.len());
        } else {
            assert(nc[k - lc].round_id < g0.rounds@.len());
        }
    }
    assert forall|a: int, b: int|
        0 <= a < g1.bets@.len() && 0 <= b < g1.claims@.len() implies !claim_matches(
        #[trigger] g1.claims@[b],
        (#[trigger] g1.bets@[a]).round_id,
        g1.bets@[a].player@,
    ) by {
        let j = choose|j: int| 0 <= j < g0.bets@.len() && rem[a] == g0.bets@[j];
        if b < lc {
            assert(!claim_matches(g0.claims@[b], g0.bets@[j].round_id, g0.bets@[j].player@));
        } else {
            assert(nc[b - lc].player@ == player);
            assert(nc[b - lc].round_id < nr);
            assert(!claimable(rem[a], nr, player));
        }
    }
    assert forall|k: int| 0 <= k < g1.rounds@.len() implies covered_finished(
        g1.bets@,
        #[trigger] g1.rounds@[k],
    ) by {
        lemma_remaining_sums(g0.bets@, nr, player, g1.rounds@[k].id, Direction::Bull);
        lemma_remaining_sums(g0.bets@, nr, player, g1.rounds@[k].id, Direction::Bear);
        assert(covered_finished(g0.bets@, g0.rounds@[k]));
    }
    if g1.live_round is Some {
        let l = g1.live_round->0;
        lemma_remaining_sums(g0.bets@, nr, player, l.id, Direction::Bull);
        lemma_remaining_sums(g0.bets@, nr, player, l.id, Direction::Bear);
        assert(l.id >= nr);
        assert(covered_live(g1.bets@, l));
    }
    if g1.next_round is Some {
        let n = g1.next_round->0;
        lemma_remaining_sums(g0.bets@, nr, player, n.id, Direction::Bull);
        lemma_remaining_sums(g0.bets@, nr, player, n.id, Direction::Bear);
        assert(n.id >= nr);
        assert(covered_next(g1.bets@, n));
    }
}

impl Game {
    /// Exactly when and why a claim-everything call is rejected: a settled
    /// round's pool or the accumulated winnings past the 128-bit range,
    /// nothing at all to pay, or fee and experience arithmetic leaving the
    /// machine range.  A rejected claim changes nothing.
    pub open spec fn spec_claim_all_err(self, player: Seq<char>) -> Option<ContractError> {
        let total = spec_pending_total(self.bets@, self.rounds@, player);
        let comm = spec_pending_commissionable(self.bets@, self.rounds@, player);
        if spec_pool_overflow(self.bets@, self.rounds@, player) {
            Some(ContractError::Overflow)
        } else if total > u128::MAX {
            Some(ContractError::Overflow)
        } else if total == 0 {
            Some(ContractError::NothingToClaim)
        } else if crate::fees::spec_gaming_fee(self.config.gaming_fee, comm) > u128::MAX {
            Some(ContractError::Overflow)
        } else if crate::fees::spec_gaming_fee(self.config.gaming_fee, comm) > total {
            Some(ContractError::Overflow)
        } else if comm > 0 && spec_experience(comm, self.config.exp_per_denom_won) > u64::MAX {
            Some(ContractError::Overflow)
        } else {
            None
        }
    }

    /// Settle and pay out every position of the caller whose round has
    /// finished: each such position is deleted, a claim record is appended
    /// for each one that paid anything, and a single aggregate transfer and
    /// fee distribution is handed back.  Positions in rounds still bidding
    /// or live are left alone.
    pub fn collect_winnings(&mut self, player: &String) -> (r: Result<
        crate::types::ClaimOutcome,
        ContractError,
    >)
        requires
            old(self).wf(),
        ensures
            final(self).wf(),
            r is Err <==> old(self).spec_claim_all_err(player@) is Some,
            r matches Err(e) ==> Some(e) == old(self).spec_claim_all_err(player@),
            r is Err ==> *final(self) == *old(self),
            r matches Ok(out) ==> out.total_payout == spec_pending_total(
                old(self).bets@,
                old(self).rounds@,
                player@,
            ),
            r is Ok ==> final(self).bets@ == spec_remaining_bets(
                old(self).bets@,
                old(self).rounds@.len() as int,
                player@,
            ),
            r is Ok ==> final(self).claims@ == old(self).claims@ + spec_new_claims(
                old(self).bets@,
                old(self).rounds@,
                player@,
            ),
            r matches Ok(out) ==> out.fee == crate::fees::spec_gaming_fee(
                old(self).config.gaming_fee,
                spec_pending_commissionable(old(self).bets@, old(self).rounds@, player@),
            ),
            r matches Ok(out) ==> out.payout_transfer.to_address@ == player@
                && out.payout_transfer.amount == out.total_payout - out.fee,
            r matches Ok(out) ==> (if spec_pending_commissionable(
                old(self).bets@,
                old(self).rounds@,
                player@,
            ) > 0 {
                out.fee_transfers@.len() == old(self).config.dev_wallet_list@.len() && (forall|
                    k: int,
                |
                    0 <= k < out.fee_transfers@.len()
                        ==> (#[trigger] out.fee_transfers@[k]).amount
                        == crate::fees::spec_fee_share(
                        out.fee,
                        old(self).config.dev_wallet_list@[k].ratio,
                    ) && out.fee_transfers@[k].to_address@ == old(
                        self,
                    ).config.dev_wallet_list@[k].address@)
            } else {
                out.fee_transfers@.len() == 0
            }),
            r matches Ok(out) ==> (if spec_pending_commissionable(
                old(self).bets@,
                old(self).rounds@,
                player@,
            ) > 0 {
                out.experience matches Some(xp) && xp.user@ == player@ && xp.experience
                    == spec_experience(
                    spec_pending_commissionable(old(self).bets@, old(self).rounds@, player@),
                    old(self).config.exp_per_denom_won,
                ) && xp.elo is None
            } else {
                out.experience is None
            }),
            final(self).config == old(self).config,
            final(self).admins == old(self).admins,
            final(self).halted == old(self).halted,
            final(self).rounds == old(self).rounds,
            final(self).next_round == old(self).next_round,
            final(self).live_round == old(self).live_round,
            final(self).next_round_id == old(self).next_round_id,
            final(self).totals_spent == old(self).totals_spent,
            final(self).denoms == old(self).denoms,
            final(self).tickers == old(self).tickers,
    {
        let nrounds = self.rounds.len();
        let n = self.bets.len();
        let mut kept: Vec<BetInfo> = Vec::new();
        let mut new_claims: Vec<ClaimInfo> = Vec::new();
        let mut total: u128 = 0;
        let mut comm: u128 = 0;
        proof {
            assert(self.bets@.skip(0) =~= self.bets@);
        }
        for idx in 0..n
            invariant
                *self == *old(self),
                self.wf(),
                n == self.bets@.len(),
                nrounds == self.rounds@.len(),
                spec_pending_total(self.bets@, self.rounds@, player@) == total
                    + spec_pending_total(self.bets@.skip(idx as int), self.rounds@, player@),
                spec_pending_commissionable(self.bets@, self.rounds@, player@) == comm
                    + spec_pending_commissionable(
                    self.bets@.skip(idx as int),
                    self.rounds@,
                    player@,
                ),
                spec_remaining_bets(self.bets@, nrounds as int, player@) == kept@
                    + spec_remaining_bets(self.bets@.skip(idx as int), nrounds as int, player@),
                spec_new_claims(self.bets@, self.rounds@, player@) == new_claims@
                    + spec_new_claims(self.bets@.skip(idx as int), self.rounds@, player@),
                comm <= total,
                forall|k: int|
                    0 <= k < idx && claimable(
                        #[trigger] self.bets@[k],
                        nrounds as int,
                        player@,
                    ) ==> crate::settle::spec_pool(
                        self.rounds@[self.bets@[k].round_id as int],
                    ) <= u128::MAX,
        {
            proof {
                assert(self.bets@.skip(idx as int).drop_first() =~= self.bets@.skip(
                    idx as int + 1,
                ));
                assert(self.bets@.skip(idx as int)[0] == self.bets@[idx as int]);
            }
            let ghost kept0 = kept@;
            let ghost nc0 = new_claims@;
            let b_round = self.bets[idx].round_id;
            let b_amount = self.bets[idx].amount;
            let b_dir = self.bets[idx].direction;
            let mine = self.bets[idx].player == *player;
            if mine && b_round < nrounds as u128 {
                let ridx: usize = b_round as usize;
                proof {
                    assert(covered_finished(self.bets@, self.rounds@[ridx as int]));
                    lemma_side_contrib_le_sum(self.bets@, idx as int, b_round, b_dir);
                }
                let (payout, cflag) = match crate::settle::settle(
                    &self.rounds[ridx],
                    b_amount,
                    b_dir,
                ) {
                    Err(_) => {
                        return Err(ContractError::Overflow);
                    },
                    Ok(p) => p,
                };
                if total > u128::MAX - payout {
                    proof {
                        lemma_pending_total_nonneg(
                            self.bets@.skip(idx as int + 1),
                            self.rounds@,
                            player@,
                        );
                    }
                    return Err(ContractError::Overflow);
                }
                total = total + payout;
                if cflag {
                    comm = comm + payout;
                }
                if payout > 0 {
                    new_claims.push(
                        ClaimInfo {
                            player: self.bets[idx].player.clone(),
                            round_id: b_round,
                            claimed_amount: payout,
                        },
                    );
                    proof {
                        assert(new_claims@ =~= nc0.push(
                            (ClaimInfo {
                                player: self.bets@[idx as int].player,
                                round_id: b_round,
                                claimed_amount: payout,
                            }),
                        ));
                        assert(nc0.push(new_claims@.last()) + spec_new_claims(
                            self.bets@.skip(idx as int + 1),
                            self.rounds@,
                            player@,
                        ) =~= nc0 + (seq![new_claims@.last()] + spec_new_claims(
                            self.bets@.skip(idx as int + 1),
                            self.rounds@,
                            player@,
                        )));
                    }
                }
            } else {
                let bcopy = BetInfo {
                    player: self.bets[idx].player.clone(),
                    round_id: b_round,
                    amount: b_amount,
                    direction: b_dir,
                };
                proof {
                    assert(bcopy == self.bets@[idx as int]);
                }
                kept.push(bcopy);
                proof {
                    assert(kept0.push(self.bets@[idx as int]) + spec_remaining_bets(
                        self.bets@.skip(idx as int + 1),
                        nrounds as int,
                        player@,
                    ) =~= kept0 + (seq![self.bets@[idx as int]] + spec_remaining_bets(
                        self.bets@.skip(idx as int + 1),
                        nrounds as int,
                        player@,
                    )));
                }
            }
        }
        proof {
            assert(self.bets@.skip(n as int) =~= Seq::<BetInfo>::empty());
            assert(kept@ + Seq::<BetInfo>::empty() =~= kept@);
            assert(new_claims@ + Seq::<ClaimInfo>::empty() =~= new_claims@);
        }
        if total == 0 {
            return Err(ContractError::NothingToClaim);
        }
        let fee = match crate::fees::compute_gaming_fee(self.config.gaming_fee, comm) {
            Err(e) => {
                return Err(e);
            },
            Ok(f) => f,
        };
        if fee > total {
            return Err(ContractError::Overflow);
        }
        let experience: Option<crate::types::ExperienceCredit> = if comm > 0 {
            let t64: u64 = (comm % 0x1_0000_0000_0000_0000u128) as u64;
            match checked_mul_u64(t64, self.config.exp_per_denom_won) {
                None => {
                    return Err(ContractError::Overflow);
                },
                Some(points) => Some(
                    crate::types::ExperienceCredit {
                        user: player.clone(),
                        experience: points,
                        elo: None,
                    },
                ),
            }
        } else {
            None
        };
        let fee_transfers: Vec<crate::types::Transfer> = if comm > 0 {
            crate::fees::split_fee(fee, &self.config.dev_wallet_list)
        } else {
            Vec::new()
        };
        let ghost g0 = *self;
        self.bets = kept;
        self.claims.append(&mut new_claims);
        proof {
            lemma_claim_all_commit_wf(g0, *self, player@);
        }
        Ok(
            crate::types::ClaimOutcome {
                total_payout: total,
                fee,
                payout_transfer: crate::types::Transfer {
                    to_address: player.clone(),
                    amount: total - fee,
                },
                fee_transfers,
                experience,
            },
        )
    }
}

/// The admin list without every occurrence of one account.
pub open spec fn spec_admins_without(s: Seq<String>, who: Seq<char>) -> Seq<String>
    decreases s.len(),
{
    if s.len() == 0 {
        Seq::empty()
    } else {
        let rest = spec_admins_without(s.drop_first(), who);
        if s[0]@ == who {
            rest
        } else {
            seq![s[0]] + rest
        }
    }
}

impl Game {
    /// Whether an account is one of the admins.
    pub open spec fn spec_is_admin(self, who: Seq<char>) -> bool {
        exists|i: int| 0 <= i < self.admins@.len() && (#[trigger] self.admins@[i])@ == who
    }

    /// Replace the whole configuration.  Admin only; a non-empty recipient
    /// list must have ratios summing to exactly one.
    pub fn execute_update_config(&mut self, sender: &String, new_config: Config) -> (r: Result<
        (),
        ContractError,
    >)
        requires
            old(self).wf(),
        ensures
            final(self).wf(),
            r is Ok <==> old(self).spec_is_admin(sender@) && (new_config.dev_wallet_list@.len()
                == 0 || sum_ratios(new_config.dev_wallet_list@) == RATIO_PRECISION),
            r is Ok ==> *final(self) == (Game { config: new_config, ..*old(self) }),
            r is Err ==> *final(self) == *old(self),
            r matches Err(e) ==> (if old(self).spec_is_admin(sender@) {
                e is WrongRatio
            } else {
                e is Unauthorized
            }),
    {
        if !is_admin(&self.admins, sender) {
            return Err(ContractError::Unauthorized);
        }
        if new_config.dev_wallet_list.len() > 0 {
            match total_ratio(&new_config.dev_wallet_list) {
                None => {
                    return Err(ContractError::WrongRatio);
                },
                Some(total) => {
                    if total != RATIO_PRECISION {
                        return Err(ContractError::WrongRatio);
                    }
                },
            }
        }
        self.config = new_config;
        Ok(())
    }

    /// Halt or resume staking and scheduling.  Admin only.
    pub fn execute_update_halt(&mut self, sender: &String, halted: bool) -> (r: Result<
        (),
        ContractError,
    >)
        requires
            old(self).wf(),
        ensures
            final(self).wf(),
            r is Ok <==> old(self).spec_is_admin(sender@),
            r is Ok ==> *final(self) == (Game { halted, ..*old(self) }),
            r is Err ==> *final(self) == *old(self) && (r matches Err(e) && e is Unauthorized),
    {
        if !is_admin(&self.admins, sender) {
            return Err(ContractError::Unauthorized);
        }
        self.halted = halted;
        Ok(())
    }

    /// Add an admin.  Admin only.
    pub fn execute_add_admin(&mut self, sender: &String, new_admin: String) -> (r: Result<
        (),
        ContractError,
    >)
        requires
            old(self).wf(),
        ensures
            final(self).wf(),
            r is Ok <==> old(self).spec_is_admin(sender@),
            r is Ok ==> final(self).admins@ == old(self).admins@.push(new_admin),
            r is Ok ==> *final(self) == (Game { admins: final(self).admins, ..*old(self) }),
            r is Err ==> *final(self) == *old(self) && (r matches Err(e) && e is Unauthorized),
    {
        if !is_admin(&self.admins, sender) {
            return Err(ContractError::Unauthorized);
        }
        self.admins.push(new_admin);
        Ok(())
    }

    /// Remove an admin, keeping at least one.  Admin only.
    pub fn execute_remove_admin(&mut self, sender: &String, old_admin: &String) -> (r: Result<
        (),
        ContractError,
    >)
        requires
            old(self).wf(),
        ensures
            final(self).wf(),
            r is Ok <==> old(self).spec_is_admin(sender@) && spec_admins_without(
                old(self).admins@,
                old_admin@,
            ).len() > 0,
            r is Ok ==> final(self).admins@ == spec_admins_without(old(self).admins@, old_admin@),
            r is Ok ==> *final(self) == (Game { admins: final(self).admins, ..*old(self) }),
            r is Err ==> *final(self) == *old(self),
            r matches Err(e) ==> (if old(self).spec_is_admin(sender@) {
                e is NeedOneAdmin
            } else {
                e is Unauthorized
            }),
    {
        if !is_admin(&self.admins, sender) {
            return Err(ContractError::Unauthorized);
        }
        let n = self.admins.len();
        let mut kept: Vec<String> = Vec::new();
        proof {
            assert(self.admins@.skip(0) =~= self.admins@);
        }
        for idx in 0..n
            invariant
                n == self.admins@.len(),
                spec_admins_without(self.admins@, old_admin@) == kept@ + spec_admins_without(
                    self.admins@.skip(idx as int),
                    old_admin@,
                ),
        {
            proof {
                assert(self.admins@.skip(idx as int).drop_first() =~= self.admins@.skip(
                    idx as int + 1,
                ));
                assert(self.admins@.skip(idx as int)[0] == self.admins@[idx as int]);
            }
            let ghost kept0 = kept@;
            if !(self.admins[idx] == *old_admin) {
                kept.push(self.admins[idx].clone());
                proof {
                    assert(kept0.push(self.admins@[idx as int]) + spec_admins_without(
                        self.admins@.skip(idx as int + 1),
                        old_admin@,
                    ) =~= kept0 + (seq![self.admins@[idx as int]] + spec_admins_without(
                        self.admins@.skip(idx as int + 1),
                        old_admin@,
                    )));
                }
            }
        }
        proof {
            assert(self.admins@.skip(n as int) =~= Seq::<String>::empty());
            assert(kept@ + Seq::<String>::empty() =~= kept@);
        }
        if kept.len() == 0 {
            return Err(ContractError::NeedOneAdmin);
        }
        self.admins = kept;
        Ok(())
    }

    /// Replace the fee recipient list.  Admin only; the new ratios must sum
    /// to exactly one.
    pub fn execute_modify_dev_wallets(&mut self, sender: &String, new_wallets: Vec<WalletInfo>)
        -> (r: Result<(), ContractError>)
        requires
            old(self).wf(),
        ensures
            final(self).wf(),
            r is Ok <==> old(self).spec_is_admin(sender@) && sum_ratios(new_wallets@)
                == RATIO_PRECISION,
            r is Ok ==> final(self).config.dev_wallet_list == new_wallets,
            r is Ok ==> *final(self) == (Game { config: final(self).config, ..*old(self) }),
            r is Ok ==> final(self).config == (Config {
                dev_wallet_list: new_wallets,
                ..old(self).config
            }),
            r is Err ==> *final(self) == *old(self),
            r matches Err(e) ==> (if old(self).spec_is_admin(sender@) {
                e is WrongRatio
            } else {
                e is Unauthorized
            }),
    {
        if !is_admin(&self.admins, sender) {
            return Err(ContractError::Unauthorized);
        }
        match total_ratio(&new_wallets) {
            None => {
                return Err(ContractError::WrongRatio);
            },
            Some(total) => {
                if total != RATIO_PRECISION {
                    return Err(ContractError::WrongRatio);
                }
            },
        }
        self.config.dev_wallet_list = new_wallets;
        Ok(())
    }

    /// Register or replace the oracle ticker for an asset.  Admin only.
    pub fn execute_add_ticker(&mut self, sender: &String, denom: String, ticker: String) -> (r:
        Result<(), ContractError>)
        requires
            old(self).wf(),
        ensures
            final(self).wf(),
            r is Ok <==> old(self).spec_is_admin(sender@),
            r is Err ==> *final(self) == *old(self) && (r matches Err(e) && e is Unauthorized),
            r is Ok ==> ((exists|i: int|
                0 <= i < old(self).tickers@.len() && (#[trigger] old(self).tickers@[i]).denom@
                    == denom@ && final(self).tickers@ == old(self).tickers@.update(
                    i,
                    (DenomTicker { denom: denom, ticker: ticker }),
                )) || ((forall|i: int|
                0 <= i < old(self).tickers@.len() ==> (#[trigger] old(self).tickers@[i]).denom@
                    != denom@) && final(self).tickers@ == old(self).tickers@.push(
                (DenomTicker { denom: denom, ticker: ticker }),
            ))),
            r is Ok ==> *final(self) == (Game { tickers: final(self).tickers, ..*old(self) }),
    {
        if !is_admin(&self.admins, sender) {
            return Err(ContractError::Unauthorized);
        }
        let n = self.tickers.len();
        let mut found: Option<usize> = None;
        for idx in 0..n
            invariant
                n == self.tickers@.len(),
                found is None ==> forall|j: int|
                    0 <= j < idx ==> (#[trigger] self.tickers@[j]).denom@ != denom@,
                found matches Some(i) ==> i < n && self.tickers@[i as int].denom@ == denom@,
        {
            if found.is_none() && self.tickers[idx].denom == denom {
                found = Some(idx);
            }
        }
        match found {
            Some(i) => {
                self.tickers.set(i, DenomTicker { denom, ticker });
            },
            None => {
                self.tickers.push(DenomTicker { denom, ticker });
            },
        }
        Ok(())
    }

    /// Replace the asset rotation list.  Admin only; the list may not be
    /// empty and every asset must already have a registered price feed.
    pub fn execute_modify_bet_array(&mut self, sender: &String, denoms: Vec<String>) -> (r: Result<
        (),
        ContractError,
    >)
        requires
            old(self).wf(),
        ensures
            final(self).wf(),
            r is Ok <==> old(self).spec_is_admin(sender@) && denoms@.len() > 0 && (forall|k: int|
                0 <= k < denoms@.len() ==> spec_registered(
                    old(self).tickers@,
                    (#[trigger] denoms@[k])@,
                )),
            r is Ok ==> final(self).denoms == denoms,
            r is Ok ==> *final(self) == (Game { denoms: final(self).denoms, ..*old(self) }),
            r is Err ==> *final(self) == *old(self),
    {
        if !is_admin(&self.admins, sender) {
            return Err(ContractError::Unauthorized);
        }
        if denoms.len() == 0 {
            return Err(ContractError::DenomsEmpty);
        }
        let n = denoms.len();
        for idx in 0..n
            invariant
                n == denoms@.len(),
                forall|k: int|
                    0 <= k < idx ==> spec_registered(self.tickers@, (#[trigger] denoms@[k])@),
                *self == *old(self),
                old(self).wf(),
        {
            if !ticker_registered(&self.tickers, &denoms[idx]) {
                return Err(ContractError::DenomNotRegistered { denom: denoms[idx].clone() });
            }
        }
        self.denoms = denoms;
        Ok(())
    }
}

/// No double payout: a successful single-round claim deletes the pair's
/// position, and against a state without that position the same claim is
/// rejected as having nothing to claim, so a second identical claim can
/// never pay again.
pub proof fn lemma_no_double_payout(g: Game, player: Seq<char>, round_id: u128)
    requires
        !g.has_bet(round_id, player),
    ensures
        g.spec_claim_round_err(player, round_id) == Some(ContractError::NothingToClaim),
{
}

} // verus!
