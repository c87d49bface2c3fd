use vstd::prelude::*;
use vstd::pervasive::VecAdditionalExecFns;
use crate::errors::ContractError;
use crate::fees::sum_ratios;
use vstd::arithmetic::div_mod::lemma_div_pos_is_pos;
use vstd::arithmetic::mul::lemma_mul_nonnegative;
use crate::types::{WalletInfo, RATIO_PRECISION};

verus! {

/// Parameters of the option-betting engine, mutable only by the owner.
#[derive(Clone, Debug)]
pub struct Config {
    /// Smallest stake accepted.
    pub minimum_bet: u128,
    /// Protocol fee numerator over `FEE_PRECISION * 100`.
    pub gaming_fee: u128,
    /// The token stakes must be paid in.
    pub token_denom: String,
    /// The account of the companion experience service.
    pub users_contract: String,
    /// Experience credited per token unit staked.
    pub exp_per_denom_bet: u64,
    /// Experience credited per token unit won.
    pub exp_per_denom_won: u64,
    /// The protocol fee recipients; their ratios must sum to exactly one.
    pub fee_receiver_wallet_list: Vec<WalletInfo>,
}

/// One selectable outcome of a bet, declared at creation time.
#[derive(Clone, Debug)]
pub struct BetOption {
    pub title: String,
    pub img_url: Option<String>,
}

/// The stake accumulated on one option.
#[derive(Clone, Debug)]
pub struct OptionAmount {
    pub title: String,
    pub amount: u128,
}

/// A named multi-option bet: metadata, its declared options, the stake each
/// option has attracted, and its resolution.
#[derive(Clone, Debug)]
pub struct Bet {
    pub bet_id: u128,
    pub topic: String,
    pub description: String,
    pub rules: Option<String>,
    pub img_url: Option<String>,
    /// When the bet stops accepting stakes, in unix seconds.
    pub end_bet_timestamp: u64,
    pub expected_result_timestamp: Option<u64>,
    pub options: Vec<BetOption>,
    pub current_bet_amounts: Vec<OptionAmount>,
    /// The winning option the owner declared, if any.
    pub result_option: Option<String>,
    /// Cancelled bets refund every position in full.
    pub cancelled: bool,
    pub num_players: u64,
}

/// One user's aggregated stake on one option of one bet.
#[derive(Clone, Debug)]
pub struct BetInfo {
    pub player: String,
    pub bet_id: u128,
    pub amount: u128,
    pub option: String,
}

/// The record kept when a position is settled and deleted.
#[derive(Clone, Debug)]
pub struct ClaimInfo {
    pub player: String,
    pub bet_id: u128,
    pub claimed_amount: u128,
}

/// One user's positions, as returned to the host's query surface.
#[derive(Clone, Debug)]
pub struct MyBetsResponse {
    pub my_bets_list: Vec<BetInfo>,
}

/// A page of claim records for the option-betting engine.
#[derive(Clone, Debug)]
pub struct ClaimInfoResponse {
    pub claim_info: Vec<ClaimInfo>,
}

/// The stake recorded for an option key: the first entry carrying the
/// title, or zero.
pub open spec fn spec_opt_amount(s: Seq<OptionAmount>, opt: Seq<char>) -> int
    decreases s.len(),
{
    if s.len() == 0 {
        0
    } else if s[0].title@ == opt {
        s[0].amount as int
    } else {
        spec_opt_amount(s.drop_first(), opt)
    }
}

/// Everything staked on a bet, over all its options.
pub open spec fn spec_amounts_total(s: Seq<OptionAmount>) -> int
    decreases s.len(),
{
    if s.len() == 0 {
        0
    } else {
        s[0].amount + spec_amounts_total(s.drop_first())
    }
}

proof fn lemma_amounts_total_nonneg(s: Seq<OptionAmount>)
    ensures
        0 <= spec_amounts_total(s),
    decreases s.len(),
{
    if s.len() > 0 {
        lemma_amounts_total_nonneg(s.drop_first());
    }
}

/// What one position contributes to a (bet, option) stake total.
pub open spec fn opt_contrib(b: BetInfo, bet_id: u128, opt: Seq<char>) -> int {
    if b.bet_id == bet_id && b.option@ == opt {
        b.amount as int
    } else {
        0
    }
}

/// Everything the position ledger holds on one option of one bet.
pub open spec fn sum_bet_option(s: Seq<BetInfo>, bet_id: u128, opt: Seq<char>) -> int
    decreases s.len(),
{
    if s.len() == 0 {
        0
    } else {
        opt_contrib(s[0], bet_id, opt) + sum_bet_option(s.drop_first(), bet_id, opt)
    }
}

pub proof fn lemma_sum_bet_option_nonneg(s: Seq<BetInfo>, bet_id: u128, opt: Seq<char>)
    ensures
        0 <= sum_bet_option(s, bet_id, opt),
    decreases s.len(),
{
    if s.len() > 0 {
        lemma_sum_bet_option_nonneg(s.drop_first(), bet_id, opt);
    }
}

/// Appending a position adds exactly its contribution.
pub proof fn lemma_sum_bet_option_push(s: Seq<BetInfo>, b: BetInfo, bet_id: u128, opt: Seq<char>)
    ensures
        sum_bet_option(s.push(b), bet_id, opt) == sum_bet_option(s, bet_id, opt) + opt_contrib(
            b,
            bet_id,
            opt,
        ),
    decreases s.len(),
{
    if s.len() == 0 {
        assert(s.push(b).drop_first() =~= s);
    } else {
        assert(s.push(b).drop_first() =~= s.drop_first().push(b));
        lemma_sum_bet_option_push(s.drop_first(), b, bet_id, opt);
    }
}

/// Replacing a position swaps its contribution.
pub proof fn lemma_sum_bet_option_update(
    s: Seq<BetInfo>,
    i: int,
    b: BetInfo,
    bet_id: u128,
    opt: Seq<char>,
)
    requires
        0 <= i < s.len(),
    ensures
        sum_bet_option(s.update(i, b), bet_id, opt) == sum_bet_option(s, bet_id, opt)
            - opt_contrib(s[i], bet_id, opt) + opt_contrib(b, bet_id, opt),
    decreases s.len(),
{
    if i == 0 {
        assert(s.update(0, b).drop_first() =~= s.drop_first());
    } else {
        assert(s.update(i, b).drop_first() =~= s.drop_first().update(i - 1, b));
        lemma_sum_bet_option_update(s.drop_first(), i - 1, b, bet_id, opt);
    }
}

/// Deleting a position subtracts exactly its contribution.
pub proof fn lemma_sum_bet_option_remove(s: Seq<BetInfo>, i: int, bet_id: u128, opt: Seq<char>)
    requires
        0 <= i < s.len(),
    ensures
        sum_bet_option(s.remove(i), bet_id, opt) == sum_bet_option(s, bet_id, opt) - opt_contrib(
            s[i],
            bet_id,
            opt,
        ),
    decreases s.len(),
{
    if i == 0 {
        assert(s.remove(0) =~= s.drop_first());
    } else {
        assert(s.remove(i).drop_first() =~= s.drop_first().remove(i - 1));
        lemma_sum_bet_option_remove(s.drop_first(), i - 1, bet_id, opt);
    }
}

/// One position never contributes more than the whole total.
pub proof fn lemma_opt_contrib_le_sum(s: Seq<BetInfo>, i: int, bet_id: u128, opt: Seq<char>)
    requires
        0 <= i < s.len(),
    ensures
        opt_contrib(s[i], bet_id, opt) <= sum_bet_option(s, bet_id, opt),
    decreases s.len(),
{
    if i == 0 {
        lemma_sum_bet_option_nonneg(s.drop_first(), bet_id, opt);
    } else {
        lemma_opt_contrib_le_sum(s.drop_first(), i - 1, bet_id, opt);
    }
}

/// A bet no position names has zero stake totals in the ledger.
pub proof fn lemma_sum_bet_option_absent(s: Seq<BetInfo>, bet_id: u128, opt: Seq<char>)
    requires
        forall|i: int| 0 <= i < s.len() ==> #[trigger] s[i].bet_id != bet_id,
    ensures
        sum_bet_option(s, bet_id, opt) == 0,
    decreases s.len(),
{
    if s.len() > 0 {
        assert(s[0].bet_id != bet_id);
        lemma_sum_bet_option_absent(s.drop_first(), bet_id, opt);
    }
}

/// The first bet with an id in a listing, if any.
pub open spec fn spec_bet_by_id(s: Seq<Bet>, id: u128) -> Option<Bet>
    decreases s.len(),
{
    if s.len() == 0 {
        None
    } else if s[0].bet_id == id {
        Some(s[0])
    } else {
        spec_bet_by_id(s.drop_first(), id)
    }
}

/// Whether a position record belongs to the (bet, user) pair.
pub open spec fn dao_bet_matches(b: BetInfo, bet_id: u128, player: Seq<char>) -> bool {
    b.bet_id == bet_id && b.player@ == player
}

/// Whether two position records share their (bet, user) key.
pub open spec fn dao_bet_key_eq(a: BetInfo, b: BetInfo) -> bool {
    a.bet_id == b.bet_id && a.player@ == b.player@
}

/// Whether a claim record belongs to the (bet, user) pair.
pub open spec fn dao_claim_matches(c: ClaimInfo, bet_id: u128, player: Seq<char>) -> bool {
    c.bet_id == bet_id && c.player@ == player
}

/// Whether every recorded option total of one bet covers what the position
/// ledger holds for it.
pub open spec fn dao_covered(positions: Seq<BetInfo>, b: Bet) -> bool {
    forall|opt: Seq<char>|
        #[trigger] sum_bet_option(positions, b.bet_id, opt) <= spec_opt_amount(
            b.current_bet_amounts@,
            opt,
        )
}

/// The same, with equality: while a bet accepts stakes its recorded totals
/// are exactly what the ledger holds.
pub open spec fn dao_covered_exact(positions: Seq<BetInfo>, b: Bet) -> bool {
    forall|opt: Seq<char>|
        #[trigger] sum_bet_option(positions, b.bet_id, opt) == spec_opt_amount(
            b.current_bet_amounts@,
            opt,
        )
}

/// The option-betting engine: owner-declared bets, a position and claim
/// ledger, and spend totals.
pub struct DaoBets {
    pub config: Config,
    /// The one account allowed to create, resolve and cancel bets.
    pub owner: String,
    /// The id the next created bet will carry; ids start at one.
    pub next_bet_id: u128,
    /// Bets still accepting stakes or awaiting resolution.
    pub unfinished: Vec<Bet>,
    /// Bets resolved or cancelled; they never come back.
    pub finished: Vec<Bet>,
    /// The position ledger, at most one record per (bet, user).
    pub bets: Vec<BetInfo>,
    /// The append-only claim ledger.
    pub claims: Vec<ClaimInfo>,
    /// Cumulative stake ever placed, one entry per user.
    pub totals_spent: Vec<(String, u128)>,
}

impl DaoBets {
    /// Everything the engine promises to keep true between operations.
    pub open spec fn wf(self) -> bool {
        &&& self.next_bet_id >= 1
        &&& forall|i: int, j: int|
            0 <= i < j < self.unfinished@.len() ==> (#[trigger] self.unfinished@[i]).bet_id != (
            #[trigger] self.unfinished@[j]).bet_id
        &&& forall|i: int, j: int|
            0 <= i < j < self.finished@.len() ==> (#[trigger] self.finished@[i]).bet_id != (
            #[trigger] self.finished@[j]).bet_id
        &&& forall|i: int, j: int|
            0 <= i < self.unfinished@.len() && 0 <= j < self.finished@.len() ==> (
            #[trigger] self.unfinished@[i]).bet_id != (#[trigger] self.finished@[j]).bet_id
        &&& forall|i: int|
            0 <= i < self.unfinished@.len() ==> (#[trigger] self.unfinished@[i]).bet_id
                < self.next_bet_id
        &&& forall|i: int|
            0 <= i < self.finished@.len() ==> (#[trigger] self.finished@[i]).bet_id
                < self.next_bet_id
        &&& forall|i: int, j: int|
            0 <= i < j < self.bets@.len() ==> !dao_bet_key_eq(
                #[trigger] self.bets@[i],
                #[trigger] self.bets@[j],
            )
        &&& forall|i: int|
            0 <= i < self.bets@.len() ==> (#[trigger] self.bets@[i]).bet_id < self.next_bet_id
        &&& forall|i: int| 0 <= i < self.bets@.len() ==> (#[trigger] self.bets@[i]).amount >= 1
        &&& forall|i: int|
            0 <= i < self.unfinished@.len() ==> dao_covered_exact(
                self.bets@,
                #[trigger] self.unfinished@[i],
            )
        &&& forall|i: int|
            0 <= i < self.finished@.len() ==> dao_covered(
                self.bets@,
                #[trigger] self.finished@[i],
            )
        &&& forall|i: int, j: int|
            0 <= i < j < self.claims@.len() ==> !dao_claim_matches(
                #[trigger] self.claims@[i],
                (#[trigger] self.claims@[j]).bet_id,
                self.claims@[j].player@,
            )
        &&& forall|i: int|
            0 <= i < self.claims@.len() ==> (#[trigger] self.claims@[i]).bet_id < self.next_bet_id
        &&& forall|i: int, j: int|
            0 <= i < self.claims@.len() && 0 <= j < self.unfinished@.len() ==> (
            #[trigger] self.claims@[i]).bet_id != (#[trigger] self.unfinished@[j]).bet_id
        &&& forall|i: int, j: int|
            0 <= i < self.bets@.len() && 0 <= j < self.claims@.len() ==> !dao_claim_matches(
                #[trigger] self.claims@[j],
                (#[trigger] self.bets@[i]).bet_id,
                self.bets@[i].player@,
            )
        &&& forall|i: int, j: int|
            0 <= i < j < self.totals_spent@.len() ==> (#[trigger] self.totals_spent@[i]).0@ != (
            #[trigger] self.totals_spent@[j]).0@
        &&& sum_ratios(self.config.fee_receiver_wallet_list@) <= RATIO_PRECISION
    }

    /// Whether the position ledger holds a record for the pair.
    pub open spec fn has_bet(self, bet_id: u128, player: Seq<char>) -> bool {
        exists|i: int|
            0 <= i < self.bets@.len() && dao_bet_matches(#[trigger] self.bets@[i], bet_id, player)
    }

    /// The pair's unique position; meaningful when `has_bet`.
    pub open spec fn spec_bet_record(self, bet_id: u128, player: Seq<char>) -> BetInfo {
        self.bets@[choose|i: int|
            0 <= i < self.bets@.len() && dao_bet_matches(#[trigger] self.bets@[i], bet_id, player)]
    }

    /// Set up a fresh engine with no bets.  Rejected when a non-empty
    /// recipient list's ratios do not sum to exactly one.
    pub fn new(config: Config, owner: String) -> (r: Result<DaoBets, ContractError>)
        ensures
            r is Ok <==> (config.fee_receiver_wallet_list@.len() == 0 || sum_ratios(
                config.fee_receiver_wallet_list@,
            ) == RATIO_PRECISION),
            r matches Err(e) ==> e is WrongRatio,
            r matches Ok(g) ==> g.wf(),
            r matches Ok(g) ==> g.config == config && g.owner == owner && g.next_bet_id == 1,
            r matches Ok(g) ==> g.unfinished@.len() == 0 && g.finished@.len() == 0
                && g.bets@.len() == 0 && g.claims@.len() == 0 && g.totals_spent@.len() == 0,
    {
        if config.fee_receiver_wallet_list.len() > 0 {
            match crate::game::total_ratio(&config.fee_receiver_wallet_list) {
                None => {
                    return Err(ContractError::WrongRatio);
                },
                Some(total) => {
                    if total != RATIO_PRECISION {
                        return Err(ContractError::WrongRatio);
                    }
                },
            }
        }
        Ok(
            DaoBets {
                config,
                owner,
                next_bet_id: 1,
                unfinished: Vec::new(),
                finished: Vec::new(),
                bets: Vec::new(),
                claims: Vec::new(),
                totals_spent: Vec::new(),
            },
        )
    }
}

/// Copy an option string, keeping its view.
fn copy_opt_string(s: &Option<String>) -> (r: Option<String>)
    ensures
        r == *s,
{
    match s {
        None => None,
        Some(v) => Some(v.clone()),
    }
}

/// Copy a whole bet record; the copy matches the original field for field,
/// with the two list fields matching by their contents.
fn copy_dao_bet(b: &Bet) -> (r: Bet)
    ensures
        r == (Bet { options: r.options, current_bet_amounts: r.current_bet_amounts, ..*b }),
        r.options@ == b.options@,
        r.current_bet_amounts@ == b.current_bet_amounts@,
{
    let mut options: Vec<BetOption> = Vec::new();
    let n = b.options.len();
    for idx in 0..n
        invariant
            n == b.options@.len(),
            options@.len() == idx,
            forall|k: int| 0 <= k < idx ==> #[trigger] options@[k] == b.options@[k],
    {
        options.push(
            BetOption {
                title: b.options[idx].title.clone(),
                img_url: copy_opt_string(&b.options[idx].img_url),
            },
        );
    }
    let mut amounts: Vec<OptionAmount> = Vec::new();
    let m = b.current_bet_amounts.len();
    for idx in 0..m
        invariant
            m == b.current_bet_amounts@.len(),
            amounts@.len() == idx,
            forall|k: int| 0 <= k < idx ==> #[trigger] amounts@[k] == b.current_bet_amounts@[k],
    {
        amounts.push(
            OptionAmount {
                title: b.current_bet_amounts[idx].title.clone(),
                amount: b.current_bet_amounts[idx].amount,
            },
        );
    }
    proof {
        assert(options@ =~= b.options@);
        assert(amounts@ =~= b.current_bet_amounts@);
    }
    Bet {
        bet_id: b.bet_id,
        topic: b.topic.clone(),
        description: b.description.clone(),
        rules: copy_opt_string(&b.rules),
        img_url: copy_opt_string(&b.img_url),
        end_bet_timestamp: b.end_bet_timestamp,
        expected_result_timestamp: b.expected_result_timestamp,
        options,
        current_bet_amounts: amounts,
        result_option: copy_opt_string(&b.result_option),
        cancelled: b.cancelled,
        num_players: b.num_players,
    }
}

/// Find the index of a bet by id in a listing.
fn find_bet_by_id(bets: &Vec<Bet>, id: u128) -> (r: Option<usize>)
    ensures
        r matches Some(i) ==> i < bets@.len() && bets@[i as int].bet_id == id && spec_bet_by_id(
            bets@,
            id,
        ) == Some(bets@[i as int]),
        r is None ==> forall|i: int| 0 <= i < bets@.len() ==> (#[trigger] bets@[i]).bet_id != id,
        r is None ==> spec_bet_by_id(bets@, id) is None,
{
    let n = bets.len();
    proof {
        assert(bets@.skip(0) =~= bets@);
    }
    for idx in 0..n
        invariant
            n == bets@.len(),
            spec_bet_by_id(bets@, id) == spec_bet_by_id(bets@.skip(idx as int), id),
            forall|i: int| 0 <= i < idx ==> (#[trigger] bets@[i]).bet_id != id,
    {
        proof {
            assert(bets@.skip(idx as int).drop_first() =~= bets@.skip(idx as int + 1));
            assert(bets@.skip(idx as int)[0] == bets@[idx as int]);
        }
        if bets[idx].bet_id == id {
            return Some(idx);
        }
    }
    proof {
        assert(bets@.skip(n as int) =~= Seq::<Bet>::empty());
    }
    None
}

/// Find the index of the position for the (bet, user) pair.
fn find_position(bets: &Vec<BetInfo>, bet_id: u128, player: &String) -> (r: Option<usize>)
    ensures
        r matches Some(i) ==> i < bets@.len() && dao_bet_matches(
            bets@[i as int],
            bet_id,
            player@,
        ),
        r is None ==> forall|i: int|
            0 <= i < bets@.len() ==> !dao_bet_matches(#[trigger] bets@[i], bet_id, player@),
{
    let n = bets.len();
    for idx in 0..n
        invariant
            n == bets@.len(),
            forall|i: int| 0 <= i < idx ==> !dao_bet_matches(#[trigger] bets@[i], bet_id, player@),
    {
        let b = &bets[idx];
        if b.bet_id == bet_id && b.player == *player {
            return Some(idx);
        }
    }
    None
}

/// A list of all-zero option amounts records zero for every key.
proof fn lemma_zero_amounts(s: Seq<OptionAmount>)
    requires
        forall|i: int| 0 <= i < s.len() ==> (#[trigger] s[i]).amount == 0,
    ensures
        forall|opt: Seq<char>| #[trigger] spec_opt_amount(s, opt) == 0,
    decreases s.len(),
{
    if s.len() > 0 {
        assert(s[0].amount == 0);
        lemma_zero_amounts(s.drop_first());
        assert forall|opt: Seq<char>| #[trigger] spec_opt_amount(s, opt) == 0 by {
            assert(spec_opt_amount(s.drop_first(), opt) == 0);
        }
    }
}

/// Replacing the first entry of an option key rewrites that key's amount.
proof fn lemma_opt_update_first(s: Seq<OptionAmount>, i: int, e: OptionAmount, opt: Seq<char>)
    requires
        0 <= i < s.len(),
        forall|j: int| 0 <= j < i ==> (#[trigger] s[j]).title@ != opt,
        s[i].title@ == opt,
        e.title@ == opt,
    ensures
        spec_opt_amount(s.update(i, e), opt) == e.amount,
    decreases i,
{
    if i == 0 {
        assert(s.update(0, e)[0] == e);
    } else {
        assert(s.update(i, e).drop_first() =~= s.drop_first().update(i - 1, e));
        lemma_opt_update_first(s.drop_first(), i - 1, e, opt);
    }
}

/// Replacing an entry in place leaves every other key's amount alone.
proof fn lemma_opt_update_other(s: Seq<OptionAmount>, i: int, e: OptionAmount, q: Seq<char>)
    requires
        0 <= i < s.len(),
        e.title@ == s[i].title@,
        s[i].title@ != q,
    ensures
        spec_opt_amount(s.update(i, e), q) == spec_opt_amount(s, q),
    decreases i,
{
    if i == 0 {
        assert(s.update(0, e).drop_first() =~= s.drop_first());
    } else {
        assert(s.update(i, e).drop_first() =~= s.drop_first().update(i - 1, e));
        lemma_opt_update_other(s.drop_first(), i - 1, e, q);
    }
}

/// Find the first entry of an option key in an amounts list.
fn opt_amount_index(v: &Vec<OptionAmount>, opt: &String) -> (r: Option<usize>)
    ensures
        r matches Some(i) ==> i < v@.len() && v@[i as int].title@ == opt@ && (forall|j: int|
            0 <= j < i ==> (#[trigger] v@[j]).title@ != opt@) && spec_opt_amount(v@, opt@)
            == v@[i as int].amount,
        r is None ==> (forall|j: int| 0 <= j < v@.len() ==> (#[trigger] v@[j]).title@ != opt@)
            && spec_opt_amount(v@, opt@) == 0,
{
    let n = v.len();
    proof {
        assert(v@.skip(0) =~= v@);
    }
    for idx in 0..n
        invariant
            n == v@.len(),
            spec_opt_amount(v@, opt@) == spec_opt_amount(v@.skip(idx as int), opt@),
            forall|j: int| 0 <= j < idx ==> (#[trigger] v@[j]).title@ != opt@,
    {
        proof {
            assert(v@.skip(idx as int).drop_first() =~= v@.skip(idx as int + 1));
            assert(v@.skip(idx as int)[0] == v@[idx as int]);
        }
        if v[idx].title == *opt {
            return Some(idx);
        }
    }
    proof {
        assert(v@.skip(n as int) =~= Seq::<OptionAmount>::empty());
    }
    None
}

/// Add an amounts list up, refusing a pool past the 128-bit range.
fn sum_amounts(v: &Vec<OptionAmount>) -> (r: Option<u128>)
    ensures
        r matches Some(t) ==> t == spec_amounts_total(v@),
        r is None ==> spec_amounts_total(v@) > u128::MAX,
{
    let n = v.len();
    let mut acc: u128 = 0;
    proof {
        assert(v@.skip(0) =~= v@);
    }
    for idx in 0..n
        invariant
            n == v@.len(),
            spec_amounts_total(v@) == acc + spec_amounts_total(v@.skip(idx as int)),
    {
        proof {
            assert(v@.skip(idx as int).drop_first() =~= v@.skip(idx as int + 1));
            assert(v@.skip(idx as int)[0] == v@[idx as int]);
        }
        if acc > u128::MAX - v[idx].amount {
            proof {
                lemma_amounts_total_nonneg(v@.skip(idx as int + 1));
            }
            return None;
        }
        acc = acc + v[idx].amount;
    }
    proof {
        assert(v@.skip(n as int) =~= Seq::<OptionAmount>::empty());
    }
    Some(acc)
}

/// With unique keys, any matching index holds the pair's one record.
pub proof fn dao_lemma_bet_record_unique(g: DaoBets, i: int, bet_id: u128, player: Seq<char>)
    requires
        forall|a: int, b: int|
            0 <= a < b < g.bets@.len() ==> !dao_bet_key_eq(
                #[trigger] g.bets@[a],
                #[trigger] g.bets@[b],
            ),
        0 <= i < g.bets@.len(),
        dao_bet_matches(g.bets@[i], bet_id, player),
    ensures
        g.has_bet(bet_id, player),
        g.spec_bet_record(bet_id, player) == g.bets@[i],
{
    assert(g.has_bet(bet_id, player));
    let j = choose|k: int|
        0 <= k < g.bets@.len() && dao_bet_matches(#[trigger] g.bets@[k], bet_id, player);
    if i < j {
        assert(!dao_bet_key_eq(g.bets@[i], g.bets@[j]));
        assert(false);
    } else if j < i {
        assert(!dao_bet_key_eq(g.bets@[j], g.bets@[i]));
        assert(false);
    }
}

/// What one position is owed once its bet has finished: its own stake back
/// when the bet was cancelled, a proportional (rounded-down) share of the
/// whole pool when it sits on the declared winning option, and nothing
/// otherwise.
pub open spec fn dao_spec_payout(b: Bet, amount: u128, opt: Seq<char>) -> int {
    if b.cancelled {
        amount as int
    } else if b.result_option matches Some(ro) && ro@ == opt {
        if spec_opt_amount(b.current_bet_amounts@, opt) > 0 {
            spec_amounts_total(b.current_bet_amounts@) * amount / spec_opt_amount(
                b.current_bet_amounts@,
                opt,
            )
        } else {
            0
        }
    } else {
        0
    }
}

/// A payout is never negative.
pub proof fn dao_lemma_payout_nonneg(b: Bet, amount: u128, opt: Seq<char>)
    ensures
        0 <= dao_spec_payout(b, amount, opt),
{
    if !b.cancelled && (b.result_option matches Some(ro) && ro@ == opt) && spec_opt_amount(
        b.current_bet_amounts@,
        opt,
    ) > 0 {
        lemma_amounts_total_nonneg(b.current_bet_amounts@);
        lemma_mul_nonnegative(spec_amounts_total(b.current_bet_amounts@), amount as int);
        lemma_div_pos_is_pos(
            spec_amounts_total(b.current_bet_amounts@) * amount,
            spec_opt_amount(b.current_bet_amounts@, opt),
        );
    }
}

/// Settle one position against its finished bet: the payout it is owed and
/// whether that payout counts toward the protocol fee.  The only failure
/// is arithmetic: a pool too large for 128 bits.
fn dao_settle(bet: &Bet, amount: u128, option: &String) -> (r: Result<(u128, bool), ContractError>)
    requires
        (!bet.cancelled && (bet.result_option matches Some(ro) && ro@ == option@)) ==> amount
            <= spec_opt_amount(bet.current_bet_amounts@, option@),
        amount >= 1,
    ensures
        r is Ok <==> spec_amounts_total(bet.current_bet_amounts@) <= u128::MAX,
        r matches Ok(p) ==> p.0 == dao_spec_payout(*bet, amount, option@),
        r matches Ok(p) ==> p.1 == !bet.cancelled,
        r is Err ==> (r matches Err(e) && e is Overflow),
{
    let pool = match sum_amounts(&bet.current_bet_amounts) {
        None => {
            return Err(ContractError::Overflow);
        },
        Some(p) => p,
    };
    if bet.cancelled {
        return Ok((amount, false));
    }
    let is_winner = match &bet.result_option {
        Some(ro) => *ro == *option,
        None => false,
    };
    if !is_winner {
        return Ok((0, true));
    }
    let w: u128 = match opt_amount_index(&bet.current_bet_amounts, option) {
        Some(i) => bet.current_bet_amounts[i].amount,
        None => 0,
    };
    proof {
        assert(w as int == spec_opt_amount(bet.current_bet_amounts@, option@));
        assert(w >= 1);
        crate::math::lemma_payout_le_pool(pool as int, amount as int, w as int);
    }
    match crate::math::checked_mul_ratio(pool, amount, w) {
        Some(v) => Ok((v, true)),
        None => Err(ContractError::Overflow),
    }
}

/// Recording a stake preserves the engine invariant: only the staked
/// (bet, option) ledger sum moves, and it moves in step with the bet's
/// recorded option total.
proof fn dao_place_commit_wf(
    g0: DaoBets,
    g1: DaoBets,
    iu: int,
    idx: Option<int>,
    bet_id: u128,
    player: Seq<char>,
    option: Seq<char>,
    amt: u128,
)
    requires
        g0.wf(),
        amt >= 1,
        0 <= iu < g0.unfinished@.len(),
        g0.unfinished@[iu].bet_id == bet_id,
        g1.unfinished@ == g0.unfinished@.update(iu, g1.unfinished@[iu]),
        g1.unfinished@[iu].bet_id == bet_id,
        spec_opt_amount(g1.unfinished@[iu].current_bet_amounts@, option) == spec_opt_amount(
            g0.unfinished@[iu].current_bet_amounts@,
            option,
        ) + amt,
        forall|q: Seq<char>|
            q != option ==> spec_opt_amount(g1.unfinished@[iu].current_bet_amounts@, q)
                == spec_opt_amount(g0.unfinished@[iu].current_bet_amounts@, q),
        idx matches Some(i) ==> 0 <= i < g0.bets@.len() && dao_bet_matches(
            g0.bets@[i],
            bet_id,
            player,
        ) && g0.bets@[i].option@ == option && g0.bets@[i].amount + amt <= u128::MAX
            && g1.bets@ == g0.bets@.update(
            i,
            (BetInfo { amount: (g0.bets@[i].amount + amt) as u128, ..g0.bets@[i] }),
        ),
        idx is None ==> !g0.has_bet(bet_id, player) && g1.bets@.len() == g0.bets@.len() + 1
            && g1.bets@ == g0.bets@.push(g1.bets@.last()) && dao_bet_matches(
            g1.bets@.last(),
            bet_id,
            player,
        ) && g1.bets@.last().option@ == option && g1.bets@.last().amount == amt,
        g1.finished == g0.finished,
        g1.claims == g0.claims,
        g1.config == g0.config,
        g1.owner == g0.owner,
        g1.next_bet_id == g0.next_bet_id,
        forall|i: int, j: int|
            0 <= i < j < g1.totals_spent@.len() ==> (#[trigger] g1.totals_spent@[i]).0@ != (
            #[trigger] g1.totals_spent@[j]).0@,
    ensures
        g1.wf(),
{
    let len0 = g0.bets@.len() as int;
    match idx {
        Some(i) => {
            let nbrec = (BetInfo { amount: (g0.bets@[i].amount + amt) as u128, ..g0.bets@[i] });
            assert(g1.bets@[i] == nbrec);
            assert(forall|k: int| 0 <= k < len0 && k != i ==> g1.bets@[k] == g0.bets@[k]);
            assert forall|a: int, b: int| 0 <= a < b < g1.bets@.len() implies !dao_bet_key_eq(
                #[trigger] g1.bets@[a],
                #[trigger] g1.bets@[b],
            ) by {
                assert(!dao_bet_key_eq(g0.bets@[a], g0.bets@[b]));
            }
            assert forall|a: int| 0 <= a < g1.bets@.len() implies (#[trigger] g1.bets@[a]).bet_id
                < g1.next_bet_id && g1.bets@[a].amount >= 1 by {
                assert(g0.bets@[a].bet_id < g0.next_bet_id && g0.bets@[a].amount >= 1);
            }
            assert forall|a: int, b: int|
                0 <= a < g1.bets@.len() && 0 <= b < g1.claims@.len() implies !dao_claim_matches(
                #[trigger] g1.claims@[b],
                (#[trigger] g1.bets@[a]).bet_id,
                g1.bets@[a].player@,
            ) by {
                assert(!dao_claim_matches(g0.claims@[b], g0.bets@[a].bet_id, g0.bets@[a].player@));
            }
            assert forall|a: int| 0 <= a < g1.unfinished@.len() implies dao_covered_exact(
                g1.bets@,
                #[trigger] g1.unfinished@[a],
            ) by {
                if a == iu {
                    assert forall|opt: Seq<char>| #[trigger] sum_bet_option(
                        g1.bets@,
                        bet_id,
                        opt,
                    ) == spec_opt_amount(g1.unfinished@[iu].current_bet_amounts@, opt) by {
                        lemma_sum_bet_option_update(g0.bets@, i, nbrec, bet_id, opt);
                        assert(dao_covered_exact(g0.bets@, g0.unfinished@[iu]));
                        assert(sum_bet_option(g0.bets@, bet_id, opt) == spec_opt_amount(
                            g0.unfinished@[iu].current_bet_amounts@,
                            opt,
                        ));
                    }
                } else {
                    let bid = g1.unfinished@[a].bet_id;
                    assert(g1.unfinished@[a] == g0.unfinished@[a]);
                    assert(bid != bet_id);
                    assert forall|opt: Seq<char>| #[trigger] sum_bet_option(g1.bets@, bid, opt)
                        == spec_opt_amount(g1.unfinished@[a].current_bet_amounts@, opt) by {
                        lemma_sum_bet_option_update(g0.bets@, i, nbrec, bid, opt);
                        assert(dao_covered_exact(g0.bets@, g0.unfinished@[a]));
                        assert(sum_bet_option(g0.bets@, bid, opt) == spec_opt_amount(
                            g0.unfinished@[a].current_bet_amounts@,
                            opt,
                        ));
                    }
                }
            }
            assert forall|a: int| 0 <= a < g1.finished@.len() implies dao_covered(
                g1.bets@,
                #[trigger] g1.finished@[a],
            ) by {
                let bid = g1.finished@[a].bet_id;
                assert(g0.unfinished@[iu].bet_id != g0.finished@[a].bet_id);
                assert forall|opt: Seq<char>| #[trigger] sum_bet_option(g1.bets@, bid, opt)
                    <= spec_opt_amount(g1.finished@[a].current_bet_amounts@, opt) by {
                    lemma_sum_bet_option_update(g0.bets@, i, nbrec, bid, opt);
                    assert(dao_covered(g0.bets@, g0.finished@[a]));
                    assert(sum_bet_option(g0.bets@, bid, opt) <= spec_opt_amount(
                        g0.finished@[a].current_bet_amounts@,
                        opt,
                    ));
                }
            }
        },
        None => {
            let nb = g1.bets@.last();
            assert(forall|k: int| 0 <= k < len0 ==> g1.bets@[k] == g0.bets@[k]);
            assert forall|a: int, b: int| 0 <= a < b < g1.bets@.len() implies !dao_bet_key_eq(
                #[trigger] g1.bets@[a],
                #[trigger] g1.bets@[b],
            ) by {
                if b < len0 {
                    assert(!dao_bet_key_eq(g0.bets@[a], g0.bets@[b]));
                } else {
                    assert(!dao_bet_matches(g0.bets@[a], bet_id, player));
                }
            }
            assert forall|a: int| 0 <= a < g1.bets@.len() implies (#[trigger] g1.bets@[a]).bet_id
                < g1.next_bet_id && g1.bets@[a].amount >= 1 by {
                if a < len0 {
                    assert(g0.bets@[a].bet_id < g0.next_bet_id && g0.bets@[a].amount >= 1);
                } else {
                    assert(g0.unfinished@[iu].bet_id < g0.next_bet_id);
                }
            }
            assert forall|a: int, b: int|
                0 <= a < g1.bets@.len() && 0 <= b < g1.claims@.len() implies !dao_claim_matches(
                #[trigger] g1.claims@[b],
                (#[trigger] g1.bets@[a]).bet_id,
                g1.bets@[a].player@,
            ) by {
                if a < len0 {
                    assert(!dao_claim_matches(
                        g0.claims@[b],
                        g0.bets@[a].bet_id,
                        g0.bets@[a].player@,
                    ));
                } else {
                    assert(g0.claims@[b].bet_id != g0.unfinished@[iu].bet_id);
                }
            }
            assert forall|a: int| 0 <= a < g1.unfinished@.len() implies dao_covered_exact(
                g1.bets@,
                #[trigger] g1.unfinished@[a],
            ) by {
                if a == iu {
                    assert forall|opt: Seq<char>| #[trigger] sum_bet_option(
                        g1.bets@,
                        bet_id,
                        opt,
                    ) == spec_opt_amount(g1.unfinished@[iu].current_bet_amounts@, opt) by {
                        lemma_sum_bet_option_push(g0.bets@, nb, bet_id, opt);
                        assert(dao_covered_exact(g0.bets@, g0.unfinished@[iu]));
                        assert(sum_bet_option(g0.bets@, bet_id, opt) == spec_opt_amount(
                            g0.unfinished@[iu].current_bet_amounts@,
                            opt,
                        ));
                    }
                } else {
                    let bid = g1.unfinished@[a].bet_id;
                    assert(g1.unfinished@[a] == g0.unfinished@[a]);
                    assert(bid != bet_id);
                    assert forall|opt: Seq<char>| #[trigger] sum_bet_option(g1.bets@, bid, opt)
                        == spec_opt_amount(g1.unfinished@[a].current_bet_amounts@, opt) by {
                        lemma_sum_bet_option_push(g0.bets@, nb, bid, opt);
                        assert(dao_covered_exact(g0.bets@, g0.unfinished@[a]));
                        assert(sum_bet_option(g0.bets@, bid, opt) == spec_opt_amount(
                            g0.unfinished@[a].current_bet_amounts@,
                            opt,
                        ));
                    }
                }
            }
            assert forall|a: int| 0 <= a < g1.finished@.len() implies dao_covered(
                g1.bets@,
                #[trigger] g1.finished@[a],
            ) by {
                let bid = g1.finished@[a].bet_id;
                assert(g0.unfinished@[iu].bet_id != g0.finished@[a].bet_id);
                assert forall|opt: Seq<char>| #[trigger] sum_bet_option(g1.bets@, bid, opt)
                    <= spec_opt_amount(g1.finished@[a].current_bet_amounts@, opt) by {
                    lemma_sum_bet_option_push(g0.bets@, nb, bid, opt);
                    assert(dao_covered(g0.bets@, g0.finished@[a]));
                    assert(sum_bet_option(g0.bets@, bid, opt) <= spec_opt_amount(
                        g0.finished@[a].current_bet_amounts@,
                        opt,
                    ));
                }
            }
        },
    }
}

/// Whether a position is settled by a claim-everything call: it belongs to
/// the caller and its bet has finished.
pub open spec fn dao_claimable(b: BetInfo, finished: Seq<Bet>, player: Seq<char>) -> bool {
    b.player@ == player && spec_bet_by_id(finished, b.bet_id) is Some
}

/// Everything a claim-everything call pays the caller, before the fee.
pub open spec fn dao_pending_total(
    positions: Seq<BetInfo>,
    finished: Seq<Bet>,
    player: Seq<char>,
) -> int
    decreases positions.len(),
{
    if positions.len() == 0 {
        0
    } else {
        (if dao_claimable(positions[0], finished, player) {
            dao_spec_payout(
                spec_bet_by_id(finished, positions[0].bet_id)->0,
                positions[0].amount,
                positions[0].option@,
            )
        } else {
            0
        }) + dao_pending_total(positions.drop_first(), finished, player)
    }
}

/// The commissionable part of that total.
pub open spec fn dao_pending_commissionable(
    positions: Seq<BetInfo>,
    finished: Seq<Bet>,
    player: Seq<char>,
) -> int
    decreases positions.len(),
{
    if positions.len() == 0 {
        0
    } else {
        (if dao_claimable(positions[0], finished, player) && !spec_bet_by_id(
            finished,
            positions[0].bet_id,
        )->0.cancelled {
            dao_spec_payout(
                spec_bet_by_id(finished, positions[0].bet_id)->0,
                positions[0].amount,
                positions[0].option@,
            )
        } else {
            0
        }) + dao_pending_commissionable(positions.drop_first(), finished, player)
    }
}

/// The positions that survive a claim-everything call.
pub open spec fn dao_remaining(
    positions: Seq<BetInfo>,
    finished: Seq<Bet>,
    player: Seq<char>,
) -> Seq<BetInfo>
    decreases positions.len(),
{
    if positions.len() == 0 {
        Seq::empty()
    } else {
        let rest = dao_remaining(positions.drop_first(), finished, player);
        if dao_claimable(positions[0], finished, player) {
            rest
        } else {
            seq![positions[0]] + rest
        }
    }
}

/// The claim records a claim-everything call appends.
pub open spec fn dao_new_claims(
    positions: Seq<BetInfo>,
    finished: Seq<Bet>,
    player: Seq<char>,
) -> Seq<ClaimInfo>
    decreases positions.len(),
{
    if positions.len() == 0 {
        Seq::empty()
    } else {
        let rest = dao_new_claims(positions.drop_first(), finished, player);
        let payout = dao_spec_payout(
            spec_bet_by_id(finished, positions[0].bet_id)->0,
            positions[0].amount,
            positions[0].option@,
        );
        if dao_claimable(positions[0], finished, player) && payout > 0 {
            seq![
                (ClaimInfo {
                    player: positions[0].player,
                    bet_id: positions[0].bet_id,
                    claimed_amount: payout as u128,
                }),
            ] + rest
        } else {
            rest
        }
    }
}

/// Whether some settled position's bet has a pool past the 128-bit range.
pub open spec fn dao_pool_overflow(
    positions: Seq<BetInfo>,
    finished: Seq<Bet>,
    player: Seq<char>,
) -> bool {
    exists|k: int|
        0 <= k < positions.len() && dao_claimable(#[trigger] positions[k], finished, player)
            && spec_amounts_total(
            spec_bet_by_id(finished, positions[k].bet_id)->0.current_bet_amounts@,
        ) > u128::MAX
}

/// Per-bet pending rewards: the finished bets that owe the user anything,
/// each with its payout, optionally narrowed to one topic, in ledger order.
pub open spec fn dao_pending_pairs(
    positions: Seq<BetInfo>,
    finished: Seq<Bet>,
    player: Seq<char>,
    topic: Option<Seq<char>>,
) -> Seq<(u128, u128)>
    decreases positions.len(),
{
    if positions.len() == 0 {
        Seq::empty()
    } else {
        let rest = dao_pending_pairs(positions.drop_first(), finished, player, topic);
        let payout = dao_spec_payout(
            spec_bet_by_id(finished, positions[0].bet_id)->0,
            positions[0].amount,
            positions[0].option@,
        );
        if dao_claimable(positions[0], finished, player) && payout > 0 && (topic matches Some(t)
            ==> spec_bet_by_id(finished, positions[0].bet_id)->0.topic@ == t) {
            seq![(positions[0].bet_id, payout as u128)] + rest
        } else {
            rest
        }
    }
}

/// One user's positions after an exclusive bet cursor, in ledger order.
pub open spec fn dao_my_bets_list(
    positions: Seq<BetInfo>,
    player: Seq<char>,
    start_after: Option<u128>,
) -> Seq<BetInfo>
    decreases positions.len(),
{
    if positions.len() == 0 {
        Seq::empty()
    } else {
        let rest = dao_my_bets_list(positions.drop_first(), player, start_after);
        if positions[0].player@ == player && (start_after matches Some(s) ==> positions[0].bet_id
            > s) {
            seq![positions[0]] + rest
        } else {
            rest
        }
    }
}

/// The page size a listing serves: the caller's limit, capped, or the
/// default.
pub open spec fn dao_page_limit_spec(limit: Option<u32>) -> int {
    match limit {
        Some(l) => (if l < 250 {
            l as int
        } else {
            250
        }),
        None => 10,
    }
}

/// Resolve the effective page size.
fn dao_page_limit(limit: Option<u32>) -> (r: usize)
    ensures
        r == dao_page_limit_spec(limit),
{
    match limit {
        Some(l) => (if l < 250 {
            l as usize
        } else {
            250
        }),
        None => 10,
    }
}

/// Pending payouts are never negative.
proof fn dao_pending_total_nonneg(positions: Seq<BetInfo>, finished: Seq<Bet>, player: Seq<char>)
    ensures
        0 <= dao_pending_total(positions, finished, player),
    decreases positions.len(),
{
    if positions.len() > 0 {
        if dao_claimable(positions[0], finished, player) {
            dao_lemma_payout_nonneg(
                spec_bet_by_id(finished, positions[0].bet_id)->0,
                positions[0].amount,
                positions[0].option@,
            );
        }
        dao_pending_total_nonneg(positions.drop_first(), finished, player);
    }
}

/// The surviving positions keep the invariant's shape and settle nothing.
proof fn dao_remaining_wf(s: Seq<BetInfo>, finished: Seq<Bet>, p: Seq<char>, nbi: u128)
    requires
        forall|a: int, b: int| 0 <= a < b < s.len() ==> !dao_bet_key_eq(
            #[trigger] s[a],
            #[trigger] s[b],
        ),
        forall|a: int| 0 <= a < s.len() ==> (#[trigger] s[a]).bet_id < nbi,
        forall|a: int| 0 <= a < s.len() ==> (#[trigger] s[a]).amount >= 1,
    ensures
        forall|a: int, b: int|
            0 <= a < b < dao_remaining(s, finished, p).len() ==> !dao_bet_key_eq(
                #[trigger] dao_remaining(s, finished, p)[a],
                #[trigger] dao_remaining(s, finished, p)[b],
            ),
        forall|a: int|
            0 <= a < dao_remaining(s, finished, p).len() ==> (#[trigger] dao_remaining(
                s,
                finished,
                p,
            )[a]).bet_id < nbi && dao_remaining(s, finished, p)[a].amount >= 1,
        forall|a: int|
            0 <= a < dao_remaining(s, finished, p).len() ==> !dao_claimable(
                #[trigger] dao_remaining(s, finished, p)[a],
                finished,
                p,
            ),
        forall|a: int|
            0 <= a < dao_remaining(s, finished, p).len() ==> exists|j: int|
                0 <= j < s.len() && #[trigger] dao_remaining(s, finished, p)[a] == s[j],
    decreases s.len(),
{
    if s.len() > 0 {
        let rest = s.drop_first();
        let rem = dao_remaining(s, finished, p);
        let remr = dao_remaining(rest, finished, p);
        dao_remaining_wf(rest, finished, p, nbi);
        assert forall|a: int| 0 <= a < remr.len() implies exists|j: int|
            0 <= j < s.len() && #[trigger] remr[a] == s[j] by {
            let j0 = choose|j: int| 0 <= j < rest.len() && remr[a] == rest[j];
            assert(remr[a] == s[j0 + 1]);
        }
        if !dao_claimable(s[0], finished, p) {
            assert(rem == seq![s[0]] + remr);
            assert(rem[0] == s[0]);
            assert(forall|a: int| 1 <= a < rem.len() ==> #[trigger] rem[a] == remr[a - 1]);
            assert forall|a: int, b: int| 0 <= a < b < rem.len() implies !dao_bet_key_eq(
                #[trigger] rem[a],
                #[trigger] rem[b],
            ) by {
                if a == 0 {
                    let j = choose|j: int| 0 <= j < rest.len() && remr[b - 1] == rest[j];
                    assert(rem[b] == s[j + 1]);
                    assert(!dao_bet_key_eq(s[0], s[j + 1]));
                }
            }
        }
    }
}

/// Settling positions can only lower a ledger sum, and leaves sums of bets
/// that never finished untouched.
proof fn dao_remaining_sums(
    s: Seq<BetInfo>,
    finished: Seq<Bet>,
    p: Seq<char>,
    bet_id: u128,
    opt: Seq<char>,
)
    ensures
        sum_bet_option(dao_remaining(s, finished, p), bet_id, opt) <= sum_bet_option(
            s,
            bet_id,
            opt,
        ),
        spec_bet_by_id(finished, bet_id) is None ==> sum_bet_option(
            dao_remaining(s, finished, p),
            bet_id,
            opt,
        ) == sum_bet_option(s, bet_id, opt),
    decreases s.len(),
{
    if s.len() > 0 {
        let rest = s.drop_first();
        let remr = dao_remaining(rest, finished, p);
        dao_remaining_sums(rest, finished, p, bet_id, opt);
        if dao_claimable(s[0], finished, p) {
            lemma_sum_bet_option_nonneg(rest, bet_id, opt);
        } else {
            assert((seq![s[0]] + remr).drop_first() =~= remr);
        }
    }
}

/// The appended claim records name the caller, finished bets only, and
/// pairwise distinct bets, so their keys repeat nothing.
proof fn dao_new_claims_props(s: Seq<BetInfo>, finished: Seq<Bet>, p: Seq<char>)
    requires
        forall|a: int, b: int| 0 <= a < b < s.len() ==> !dao_bet_key_eq(
            #[trigger] s[a],
            #[trigger] s[b],
        ),
    ensures
        forall|k: int|
            0 <= k < dao_new_claims(s, finished, p).len() ==> (#[trigger] dao_new_claims(
                s,
                finished,
                p,
            )[k]).player@ == p && spec_bet_by_id(
                finished,
                dao_new_claims(s, finished, p)[k].bet_id,
            ) is Some,
        forall|a: int, b: int|
            0 <= a < b < dao_new_claims(s, finished, p).len() ==> (#[trigger] dao_new_claims(
                s,
                finished,
                p,
            )[a]).bet_id != (#[trigger] dao_new_claims(s, finished, p)[b]).bet_id,
        forall|k: int|
            0 <= k < dao_new_claims(s, finished, p).len() ==> exists|j: int|
                0 <= j < s.len() && (#[trigger] dao_new_claims(s, finished, p)[k]).bet_id
                    == s[j].bet_id && dao_new_claims(s, finished, p)[k].player@ == s[j].player@,
    decreases s.len(),
{
    if s.len() > 0 {
        let rest = s.drop_first();
        let nc = dao_new_claims(s, finished, p);
        let ncr = dao_new_claims(rest, finished, p);
        dao_new_claims_props(rest, finished, p);
        assert forall|k: int| 0 <= k < ncr.len() implies exists|j: int|
            0 <= j < s.len() && (#[trigger] ncr[k]).bet_id == s[j].bet_id && ncr[k].player@
                == s[j].player@ by {
            let j0 = choose|j: int|
                0 <= j < rest.len() && (ncr[k]).bet_id == rest[j].bet_id && ncr[k].player@
                    == rest[j].player@;
            assert(ncr[k].bet_id == s[j0 + 1].bet_id && ncr[k].player@ == s[j0 + 1].player@);
        }
        let payout = dao_spec_payout(
            spec_bet_by_id(finished, s[0].bet_id)->0,
            s[0].amount,
            s[0].option@,
        );
        if dao_claimable(s[0], finished, p) && payout > 0 {
            assert(nc[0].bet_id == s[0].bet_id && nc[0].player@ == p);
            assert(forall|k: int| 1 <= k < nc.len() ==> #[trigger] nc[k] == ncr[k - 1]);
            assert forall|a: int, b: int| 0 <= a < b < nc.len() implies (
            #[trigger] nc[a]).bet_id != (#[trigger] nc[b]).bet_id by {
                if a == 0 {
                    let j = choose|j: int|
                        0 <= j < rest.len() && (ncr[b - 1]).bet_id == rest[j].bet_id && ncr[b
                            - 1].player@ == rest[j].player@;
                    assert(!dao_bet_key_eq(s[0], s[j + 1]));
                }
            }
        }
    }
}

/// Settling every finished position of one caller preserves the engine
/// invariant.
proof fn dao_claim_all_commit_wf(g0: DaoBets, g1: DaoBets, player: Seq<char>)
    requires
        g0.wf(),
        g1.bets@ == dao_remaining(g0.bets@, g0.finished@, player),
        g1.claims@ == g0.claims@ + dao_new_claims(g0.bets@, g0.finished@, player),
        g1.unfinished == g0.unfinished,
        g1.finished == g0.finished,
        g1.totals_spent == g0.totals_spent,
        g1.config == g0.config,
        g1.owner == g0.owner,
        g1.next_bet_id == g0.next_bet_id,
    ensures
        g1.wf(),
{
    let rem = dao_remaining(g0.bets@, g0.finished@, player);
    let nc = dao_new_claims(g0.bets@, g0.finished@, player);
    let lc = g0.claims@.len() as int;
    dao_remaining_wf(g0.bets@, g0.finished@, player, g0.next_bet_id);
    dao_new_claims_props(g0.bets@, g0.finished@, player);
    assert(forall|k: int| 0 <= k < lc ==> g1.claims@[k] == g0.claims@[k]);
    assert(forall|k: int| 0 <= k < nc.len() ==> g1.claims@[lc + k] == nc[k]);
    assert forall|a: int, b: int| 0 <= a < b < g1.claims@.len() implies !dao_claim_matches(
        #[trigger] g1.claims@[a],
        (#[trigger] g1.claims@[b]).bet_id,
        g1.claims@[b].player@,
    ) by {
        if b < lc {
            assert(!dao_claim_matches(g0.claims@[a], g0.claims@[b].bet_id, g0.claims@[b].player@));
        } else if a >= lc {
            assert(nc[a - lc].bet_id != nc[b - lc].bet_id);
        } else {
            let j = choose|j: int|
                0 <= j < g0.bets@.len() && (nc[b - lc]).bet_id == g0.bets@[j].bet_id && nc[b
                    - lc].player@ == g0.bets@[j].player@;
            assert(!dao_claim_matches(g0.claims@[a], g0.bets@[j].bet_id, g0.bets@[j].player@));
        }
    }
    assert forall|a: int| 0 <= a < g1.claims@.len() implies (#[trigger] g1.claims@[a]).bet_id
        < g1.next_bet_id by {
        if a < lc {
            assert(g0.claims@[a].bet_id < g0.next_bet_id);
        } else {
            let j = choose|j: int|
                0 <= j < g0.bets@.len() && (nc[a - lc]).bet_id == g0.bets@[j].bet_id && nc[a
                    - lc].player@ == g0.bets@[j].player@;
            assert(g0.bets@[j].bet_id < g0.next_bet_id);
        }
    }
    assert forall|a: int, b: int|
        0 <= a < g1.claims@.len() && 0 <= b < g1.unfinished@.len() implies (
    #[trigger] g1.claims@[a]).bet_id != (#[trigger] g1.unfinished@[b]).bet_id by {
        if a < lc {
            assert(g0.claims@[a].bet_id != g0.unfinished@[b].bet_id);
        } else {
            assert(spec_bet_by_id(g0.finished@, nc[a - lc].bet_id) is Some);
            lemma_bet_by_id_unfinished_disjoint(g0, nc[a - lc].bet_id, b);
        }
    }
    assert forall|a: int, b: int|
        0 <= a < g1.bets@.len() && 0 <= b < g1.claims@.len() implies !dao_claim_matches(
        #[trigger] g1.claims@[b],
        (#[trigger] g1.bets@[a]).bet_id,
        g1.bets@[a].player@,
    ) by {
        let j = choose|j: int| 0 <= j < g0.bets@.len() && rem[a] == g0.bets@[j];
        if b < lc {
            assert(!dao_claim_matches(g0.claims@[b], g0.bets@[j].bet_id, g0.bets@[j].player@));
        } else {
            assert(nc[b - lc].player@ == player);
            assert(spec_bet_by_id(g0.finished@, nc[b - lc].bet_id) is Some);
            assert(!dao_claimable(rem[a], g0.finished@, player));
        }
    }
    assert forall|a: int| 0 <= a < g1.unfinished@.len() implies dao_covered_exact(
        g1.bets@,
        #[trigger] g1.unfinished@[a],
    ) by {
        let bid = g1.unfinished@[a].bet_id;
        lemma_bet_by_id_unfinished_none(g0, a);
        assert forall|opt: Seq<char>| #[trigger] sum_bet_option(g1.bets@, bid, opt)
            == spec_opt_amount(g1.unfinished@[a].current_bet_amounts@, opt) by {
            dao_remaining_sums(g0.bets@, g0.finished@, player, bid, opt);
            assert(dao_covered_exact(g0.bets@, g0.unfinished@[a]));
            assert(sum_bet_option(g0.bets@, bid, opt) == spec_opt_amount(
                g0.unfinished@[a].current_bet_amounts@,
                opt,
            ));
        }
    }
    assert forall|a: int| 0 <= a < g1.finished@.len() implies dao_covered(
        g1.bets@,
        #[trigger] g1.finished@[a],
    ) by {
        let bid = g1.finished@[a].bet_id;
        assert forall|opt: Seq<char>| #[trigger] sum_bet_option(g1.bets@, bid, opt)
            <= spec_opt_amount(g1.finished@[a].current_bet_amounts@, opt) by {
            dao_remaining_sums(g0.bets@, g0.finished@, player, bid, opt);
            assert(dao_covered(g0.bets@, g0.finished@[a]));
            assert(sum_bet_option(g0.bets@, bid, opt) <= spec_opt_amount(
                g0.finished@[a].current_bet_amounts@,
                opt,
            ));
        }
    }
}

/// One bet's positions, in ledger order.
pub open spec fn dao_round_users_list(positions: Seq<BetInfo>, bet_id: u128) -> Seq<BetInfo>
    decreases positions.len(),
{
    if positions.len() == 0 {
        Seq::empty()
    } else {
        let rest = dao_round_users_list(positions.drop_first(), bet_id);
        if positions[0].bet_id == bet_id {
            seq![positions[0]] + rest
        } else {
            rest
        }
    }
}

/// What follows the first entry of a user in a position listing; empty when
/// the user does not appear.
pub open spec fn dao_after_user(s: Seq<BetInfo>, start: Seq<char>) -> Seq<BetInfo>
    decreases s.len(),
{
    if s.len() == 0 {
        Seq::empty()
    } else if s[0].player@ == start {
        s.drop_first()
    } else {
        dao_after_user(s.drop_first(), start)
    }
}

/// One bet's claim records, in ledger order.
pub open spec fn dao_claims_by_round(claims: Seq<ClaimInfo>, bet_id: u128) -> Seq<ClaimInfo>
    decreases claims.len(),
{
    if claims.len() == 0 {
        Seq::empty()
    } else {
        let rest = dao_claims_by_round(claims.drop_first(), bet_id);
        if claims[0].bet_id == bet_id {
            seq![claims[0]] + rest
        } else {
            rest
        }
    }
}

/// What follows the first claim of a user in a claim listing; empty when
/// the user does not appear.
pub open spec fn dao_after_claim_user(s: Seq<ClaimInfo>, start: Seq<char>) -> Seq<ClaimInfo>
    decreases s.len(),
{
    if s.len() == 0 {
        Seq::empty()
    } else if s[0].player@ == start {
        s.drop_first()
    } else {
        dao_after_claim_user(s.drop_first(), start)
    }
}

/// One user's claim records after an exclusive bet cursor, in ledger order.
pub open spec fn dao_claims_by_user(
    claims: Seq<ClaimInfo>,
    player: Seq<char>,
    start_after: Option<u128>,
) -> Seq<ClaimInfo>
    decreases claims.len(),
{
    if claims.len() == 0 {
        Seq::empty()
    } else {
        let rest = dao_claims_by_user(claims.drop_first(), player, start_after);
        if claims[0].player@ == player && (start_after matches Some(s) ==> claims[0].bet_id > s) {
            seq![claims[0]] + rest
        } else {
            rest
        }
    }
}

/// The bets of a listing past an exclusive id cursor, optionally narrowed
/// to one topic, in ledger order.
pub open spec fn dao_bets_page(
    bets: Seq<Bet>,
    start_after: Option<u128>,
    topic: Option<Seq<char>>,
) -> Seq<Bet>
    decreases bets.len(),
{
    if bets.len() == 0 {
        Seq::empty()
    } else {
        let rest = dao_bets_page(bets.drop_first(), start_after, topic);
        if (start_after matches Some(s) ==> bets[0].bet_id > s) && (topic matches Some(t)
            ==> bets[0].topic@ == t) {
            seq![bets[0]] + rest
        } else {
            rest
        }
    }
}

/// Whether a copied bet matches an original field for field, with the two
/// list fields matching by their contents.
pub open spec fn bet_like(a: Bet, b: Bet) -> bool {
    &&& a == (Bet { options: a.options, current_bet_amounts: a.current_bet_amounts, ..b })
    &&& a.options@ == b.options@
    &&& a.current_bet_amounts@ == b.current_bet_amounts@
}

/// Whether a served page matches a spec listing up to the page size: same
/// cropped length, and each entry a faithful copy of the listed bet.
pub open spec fn dao_bets_page_matches(r: Seq<Bet>, full: Seq<Bet>, lim: int) -> bool {
    &&& r.len() == (if full.len() <= lim {
        full.len() as int
    } else {
        lim
    })
    &&& forall|k: int| 0 <= k < r.len() ==> bet_like(#[trigger] r[k], full[k])
}

/// Serve one page of a bet listing.
fn page_bets(
    src: &Vec<Bet>,
    start_after: Option<u128>,
    topic: Option<&String>,
    limit: Option<u32>,
) -> (r: Vec<Bet>)
    ensures
        dao_bets_page_matches(
            r@,
            dao_bets_page(
                src@,
                start_after,
                (match topic {
                    Some(t) => Some(t@),
                    None => None,
                }),
            ),
            dao_page_limit_spec(limit),
        ),
{
    let ghost tview: Option<Seq<char>> = match topic {
        Some(t) => Some(t@),
        None => None,
    };
    let n = src.len();
    let mut out: Vec<Bet> = Vec::new();
    let ghost mut sel: Seq<Bet> = Seq::empty();
    proof {
        assert(src@.skip(0) =~= src@);
    }
    for idx in 0..n
        invariant
            n == src@.len(),
            tview == (match topic {
                Some(t) => Some(t@),
                None => None::<Seq<char>>,
            }),
            dao_bets_page(src@, start_after, tview) == sel + dao_bets_page(
                src@.skip(idx as int),
                start_after,
                tview,
            ),
            out@.len() == sel.len(),
            forall|k: int| 0 <= k < out@.len() ==> bet_like(#[trigger] out@[k], sel[k]),
    {
        proof {
            assert(src@.skip(idx as int).drop_first() =~= src@.skip(idx as int + 1));
            assert(src@.skip(idx as int)[0] == src@[idx as int]);
        }
        let cursor_ok = match start_after {
            None => true,
            Some(s) => src[idx].bet_id > s,
        };
        let topic_ok = match topic {
            None => true,
            Some(t) => src[idx].topic == *t,
        };
        if cursor_ok && topic_ok {
            let ghost sel0 = sel;
            out.push(copy_dao_bet(&src[idx]));
            proof {
                sel = sel.push(src@[idx as int]);
                assert(sel0.push(src@[idx as int]) + dao_bets_page(
                    src@.skip(idx as int + 1),
                    start_after,
                    tview,
                ) =~= sel0 + (seq![src@[idx as int]] + dao_bets_page(
                    src@.skip(idx as int + 1),
                    start_after,
                    tview,
                )));
            }
        }
    }
    proof {
        assert(src@.skip(n as int) =~= Seq::<Bet>::empty());
        assert(sel + Seq::<Bet>::empty() =~= sel);
    }
    let lim = dao_page_limit(limit);
    out.truncate(lim);
    out
}

/// When a user's first entry sits at index `i`, what follows it is the rest
/// of the listing.
proof fn dao_lemma_after_user_found(s: Seq<BetInfo>, i: int, p: Seq<char>)
    requires
        0 <= i < s.len(),
        s[i].player@ == p,
        forall|j: int| 0 <= j < i ==> (#[trigger] s[j]).player@ != p,
    ensures
        dao_after_user(s, p) == s.skip(i + 1),
    decreases i,
{
    if i == 0 {
        assert(s.drop_first() =~= s.skip(1));
    } else {
        dao_lemma_after_user_found(s.drop_first(), i - 1, p);
        assert(s.drop_first().skip(i) =~= s.skip(i + 1));
    }
}

/// A user who never appears has nothing after their first entry.
proof fn dao_lemma_after_user_absent(s: Seq<BetInfo>, p: Seq<char>)
    requires
        forall|j: int| 0 <= j < s.len() ==> (#[trigger] s[j]).player@ != p,
    ensures
        dao_after_user(s, p) == Seq::<BetInfo>::empty(),
    decreases s.len(),
{
    if s.len() > 0 {
        dao_lemma_after_user_absent(s.drop_first(), p);
    }
}

/// When a user's first claim sits at index `i`, what follows it is the rest
/// of the listing.
proof fn dao_lemma_after_claim_found(s: Seq<ClaimInfo>, i: int, p: Seq<char>)
    requires
        0 <= i < s.len(),
        s[i].player@ == p,
        forall|j: int| 0 <= j < i ==> (#[trigger] s[j]).player@ != p,
    ensures
        dao_after_claim_user(s, p) == s.skip(i + 1),
    decreases i,
{
    if i == 0 {
        assert(s.drop_first() =~= s.skip(1));
    } else {
        dao_lemma_after_claim_found(s.drop_first(), i - 1, p);
        assert(s.drop_first().skip(i) =~= s.skip(i + 1));
    }
}

/// A user with no claims has nothing after their first one.
proof fn dao_lemma_after_claim_absent(s: Seq<ClaimInfo>, p: Seq<char>)
    requires
        forall|j: int| 0 <= j < s.len() ==> (#[trigger] s[j]).player@ != p,
    ensures
        dao_after_claim_user(s, p) == Seq::<ClaimInfo>::empty(),
    decreases s.len(),
{
    if s.len() > 0 {
        dao_lemma_after_claim_absent(s.drop_first(), p);
    }
}

/// An id with a finished bet names no unfinished bet.
proof fn lemma_bet_by_id_unfinished_disjoint(g: DaoBets, id: u128, b: int)
    requires
        g.wf(),
        0 <= b < g.unfinished@.len(),
        spec_bet_by_id(g.finished@, id) is Some,
    ensures
        g.unfinished@[b].bet_id != id,
{
    lemma_bet_by_id_member(g.finished@, id);
    let j = choose|j: int|
        0 <= j < g.finished@.len() && (#[trigger] g.finished@[j]).bet_id == id;
    assert(g.unfinished@[b].bet_id != g.finished@[j].bet_id);
}

/// An unfinished bet's id finds no finished bet.
proof fn lemma_bet_by_id_unfinished_none(g: DaoBets, a: int)
    requires
        g.wf(),
        0 <= a < g.unfinished@.len(),
    ensures
        spec_bet_by_id(g.finished@, g.unfinished@[a].bet_id) is None,
{
    let id = g.unfinished@[a].bet_id;
    if spec_bet_by_id(g.finished@, id) is Some {
        lemma_bet_by_id_member(g.finished@, id);
        let j = choose|j: int|
            0 <= j < g.finished@.len() && (#[trigger] g.finished@[j]).bet_id == id;
        assert(g.unfinished@[a].bet_id != g.finished@[j].bet_id);
        assert(false);
    }
}

/// A found bet is a member of the listing.
proof fn lemma_bet_by_id_member(s: Seq<Bet>, id: u128)
    requires
        spec_bet_by_id(s, id) is Some,
    ensures
        exists|j: int| 0 <= j < s.len() && (#[trigger] s[j]).bet_id == id,
    decreases s.len(),
{
    if s.len() > 0 {
        if s[0].bet_id == id {
            assert(s[0].bet_id == id);
        } else {
            lemma_bet_by_id_member(s.drop_first(), id);
            let j0 = choose|j: int|
                0 <= j < s.drop_first().len() && (#[trigger] s.drop_first()[j]).bet_id == id;
            assert(s[j0 + 1].bet_id == id);
        }
    }
}

/// Settling one position preserves the engine invariant: removing the
/// position only lowers ledger sums, and the claim record it leaves behind
/// can collide with nothing.
proof fn dao_claim_commit_wf(
    g0: DaoBets,
    g1: DaoBets,
    ip: int,
    ifi: int,
    bet_id: u128,
    player: Seq<char>,
)
    requires
        g0.wf(),
        0 <= ip < g0.bets@.len(),
        dao_bet_matches(g0.bets@[ip], bet_id, player),
        0 <= ifi < g0.finished@.len(),
        g0.finished@[ifi].bet_id == bet_id,
        g1.bets@ == g0.bets@.remove(ip),
        g1.claims@.len() == g0.claims@.len() + 1,
        g1.claims@ == g0.claims@.push(g1.claims@.last()),
        dao_claim_matches(g1.claims@.last(), bet_id, player),
        g1.unfinished == g0.unfinished,
        g1.finished == g0.finished,
        g1.totals_spent == g0.totals_spent,
        g1.config == g0.config,
        g1.owner == g0.owner,
        g1.next_bet_id == g0.next_bet_id,
    ensures
        g1.wf(),
{
    let len1 = g1.bets@.len() as int;
    assert(forall|k: int| 0 <= k < ip ==> g1.bets@[k] == g0.bets@[k]);
    assert(forall|k: int| ip <= k < len1 ==> g1.bets@[k] == g0.bets@[k + 1]);
    assert forall|a: int, b: int| 0 <= a < b < len1 implies !dao_bet_key_eq(
        #[trigger] g1.bets@[a],
        #[trigger] g1.bets@[b],
    ) by {
        let a0 = if a < ip {
            a
        } else {
            a + 1
        };
        let b0 = if b < ip {
            b
        } else {
            b + 1
        };
        assert(!dao_bet_key_eq(g0.bets@[a0], g0.bets@[b0]));
    }
    assert forall|a: int| 0 <= a < len1 implies (#[trigger] g1.bets@[a]).bet_id < g1.next_bet_id
        && g1.bets@[a].amount >= 1 by {
        let a0 = if a < ip {
            a
        } else {
            a + 1
        };
        assert(g0.bets@[a0].bet_id < g0.next_bet_id && g0.bets@[a0].amount >= 1);
    }
    let nc = g1.claims@.last();
    let lenc = g0.claims@.len() as int;
    assert(forall|k: int| 0 <= k < lenc ==> g1.claims@[k] == g0.claims@[k]);
    assert forall|a: int, b: int| 0 <= a < b < g1.claims@.len() implies !dao_claim_matches(
        #[trigger] g1.claims@[a],
        (#[trigger] g1.claims@[b]).bet_id,
        g1.claims@[b].player@,
    ) by {
        if b < lenc {
            assert(!dao_claim_matches(g0.claims@[a], g0.claims@[b].bet_id, g0.claims@[b].player@));
        } else {
            assert(!dao_claim_matches(g0.claims@[a], g0.bets@[ip].bet_id, g0.bets@[ip].player@));
        }
    }
    assert forall|a: int| 0 <= a < g1.claims@.len() implies (#[trigger] g1.claims@[a]).bet_id
        < g1.next_bet_id by {
        if a < lenc {
            assert(g0.claims@[a].bet_id < g0.next_bet_id);
        } else {
            assert(g0.bets@[ip].bet_id < g0.next_bet_id);
        }
    }
    assert forall|a: int, b: int|
        0 <= a < g1.claims@.len() && 0 <= b < g1.unfinished@.len() implies (
    #[trigger] g1.claims@[a]).bet_id != (#[trigger] g1.unfinished@[b]).bet_id by {
        if a < lenc {
            assert(g0.claims@[a].bet_id != g0.unfinished@[b].bet_id);
        } else {
            assert(g0.unfinished@[b].bet_id != g0.finished@[ifi].bet_id);
        }
    }
    assert forall|a: int, b: int|
        0 <= a < g1.bets@.len() && 0 <= b < g1.claims@.len() implies !dao_claim_matches(
        #[trigger] g1.claims@[b],
        (#[trigger] g1.bets@[a]).bet_id,
        g1.bets@[a].player@,
    ) by {
        let a0 = if a < ip {
            a
        } else {
            a + 1
        };
        if b < lenc {
            assert(!dao_claim_matches(g0.claims@[b], g0.bets@[a0].bet_id, g0.bets@[a0].player@));
        } else {
            assert(!dao_bet_key_eq(g0.bets@[if a0 < ip {
                a0
            } else {
                ip
            }], g0.bets@[if a0 < ip {
                ip
            } else {
                a0
            }]));
        }
    }
    assert forall|a: int| 0 <= a < g1.unfinished@.len() implies dao_covered_exact(
        g1.bets@,
        #[trigger] g1.unfinished@[a],
    ) by {
        let bid = g1.unfinished@[a].bet_id;
        assert(bid != g0.finished@[ifi].bet_id);
        assert forall|opt: Seq<char>| #[trigger] sum_bet_option(g1.bets@, bid, opt)
            == spec_opt_amount(g1.unfinished@[a].current_bet_amounts@, opt) by {
            lemma_sum_bet_option_remove(g0.bets@, ip, bid, opt);
            assert(dao_covered_exact(g0.bets@, g0.unfinished@[a]));
            assert(sum_bet_option(g0.bets@, bid, opt) == spec_opt_amount(
                g0.unfinished@[a].current_bet_amounts@,
                opt,
            ));
        }
    }
    assert forall|a: int| 0 <= a < g1.finished@.len() implies dao_covered(
        g1.bets@,
        #[trigger] g1.finished@[a],
    ) by {
        let bid = g1.finished@[a].bet_id;
        assert forall|opt: Seq<char>| #[trigger] sum_bet_option(g1.bets@, bid, opt)
            <= spec_opt_amount(g1.finished@[a].current_bet_amounts@, opt) by {
            lemma_sum_bet_option_remove(g0.bets@, ip, bid, opt);
            assert(dao_covered(g0.bets@, g0.finished@[a]));
            assert(sum_bet_option(g0.bets@, bid, opt) <= spec_opt_amount(
                g0.finished@[a].current_bet_amounts@,
                opt,
            ));
        }
    }
}

/// Resolving or cancelling a bet moves it from the open to the finished
/// listing without touching its stakes, which preserves the invariant.
proof fn dao_move_commit_wf(g0: DaoBets, g1: DaoBets, i: int, b1: Bet)
    requires
        g0.wf(),
        0 <= i < g0.unfinished@.len(),
        g1.unfinished@ == g0.unfinished@.remove(i),
        g1.finished@ == g0.finished@.push(b1),
        b1.bet_id == g0.unfinished@[i].bet_id,
        b1.current_bet_amounts == g0.unfinished@[i].current_bet_amounts,
        g1.bets == g0.bets,
        g1.claims == g0.claims,
        g1.totals_spent == g0.totals_spent,
        g1.config == g0.config,
        g1.owner == g0.owner,
        g1.next_bet_id == g0.next_bet_id,
    ensures
        g1.wf(),
{
    let lenu = g1.unfinished@.len() as int;
    assert(forall|k: int| 0 <= k < i ==> g1.unfinished@[k] == g0.unfinished@[k]);
    assert(forall|k: int| i <= k < lenu ==> g1.unfinished@[k] == g0.unfinished@[k + 1]);
    assert forall|a: int, b: int| 0 <= a < b < lenu implies (
    #[trigger] g1.unfinished@[a]).bet_id != (#[trigger] g1.unfinished@[b]).bet_id by {
        let a0 = if a < i {
            a
        } else {
            a + 1
        };
        let b0 = if b < i {
            b
        } else {
            b + 1
        };
        assert(g0.unfinished@[a0].bet_id != g0.unfinished@[b0].bet_id);
    }
    assert forall|a: int, b: int|
        0 <= a < lenu && 0 <= b < g1.finished@.len() implies (
    #[trigger] g1.unfinished@[a]).bet_id != (#[trigger] g1.finished@[b]).bet_id by {
        let a0 = if a < i {
            a
        } else {
            a + 1
        };
        if b < g0.finished@.len() {
            assert(g0.unfinished@[a0].bet_id != g0.finished@[b].bet_id);
        } else {
            assert(g0.unfinished@[if a0 < i {
                a0
            } else {
                i
            }].bet_id != g0.unfinished@[if a0 < i {
                i
            } else {
                a0
            }].bet_id);
        }
    }
    assert forall|a: int, b: int| 0 <= a < b < g1.finished@.len() implies (
    #[trigger] g1.finished@[a]).bet_id != (#[trigger] g1.finished@[b]).bet_id by {
        if b < g0.finished@.len() {
            assert(g0.finished@[a].bet_id != g0.finished@[b].bet_id);
        } else {
            assert(g0.unfinished@[i].bet_id != g0.finished@[a].bet_id);
        }
    }
    assert forall|a: int| 0 <= a < lenu implies dao_covered_exact(
        g1.bets@,
        #[trigger] g1.unfinished@[a],
    ) by {
        let a0 = if a < i {
            a
        } else {
            a + 1
        };
        assert(dao_covered_exact(g0.bets@, g0.unfinished@[a0]));
    }
    assert forall|a: int| 0 <= a < g1.finished@.len() implies dao_covered(
        g1.bets@,
        #[trigger] g1.finished@[a],
    ) by {
        if a < g0.finished@.len() {
            assert(dao_covered(g0.bets@, g0.finished@[a]));
        } else {
            assert(dao_covered_exact(g0.bets@, g0.unfinished@[i]));
            assert forall|opt: Seq<char>| #[trigger] sum_bet_option(g1.bets@, b1.bet_id, opt)
                <= spec_opt_amount(b1.current_bet_amounts@, opt) by {
                assert(sum_bet_option(g0.bets@, g0.unfinished@[i].bet_id, opt) == spec_opt_amount(
                    g0.unfinished@[i].current_bet_amounts@,
                    opt,
                ));
            }
        }
    }
    assert forall|a: int, b: int|
        0 <= a < g1.claims@.len() && 0 <= b < lenu implies (#[trigger] g1.claims@[a]).bet_id != (
    #[trigger] g1.unfinished@[b]).bet_id by {
        let b0 = if b < i {
            b
        } else {
            b + 1
        };
        assert(g0.claims@[a].bet_id != g0.unfinished@[b0].bet_id);
    }
}

impl DaoBets {
    /// Declare a new bet with its option set.  Owner only; each option
    /// starts with zero stake.
    pub fn create_bet(
        &mut self,
        sender: &String,
        topic: String,
        description: String,
        rules: Option<String>,
        img_url: Option<String>,
        end_bet_timestamp: u64,
        expected_result_timestamp: Option<u64>,
        options: Vec<BetOption>,
    ) -> (r: Result<u128, ContractError>)
        requires
            old(self).wf(),
        ensures
            final(self).wf(),
            r is Ok <==> sender@ == old(self).owner@ && old(self).next_bet_id < u128::MAX,
            r is Err ==> *final(self) == *old(self),
            r matches Err(e) ==> (if sender@ == old(self).owner@ {
                e is Overflow
            } else {
                e is Unauthorized
            }),
            r matches Ok(id) ==> id == old(self).next_bet_id && final(self).next_bet_id == id + 1,
            r is Ok ==> final(self).unfinished@.len() == old(self).unfinished@.len() + 1,
            r is Ok ==> (forall|k: int|
                0 <= k < old(self).unfinished@.len() ==> #[trigger] final(self).unfinished@[k]
                    == old(self).unfinished@[k]),
            r is Ok ==> ({
                let b = final(self).unfinished@.last();
                &&& b.bet_id == old(self).next_bet_id
                &&& b.topic == topic
                &&& b.description == description
                &&& b.rules == rules
                &&& b.img_url == img_url
                &&& b.end_bet_timestamp == end_bet_timestamp
                &&& b.expected_result_timestamp == expected_result_timestamp
                &&& b.options == options
                &&& b.result_option is None
                &&& !b.cancelled
                &&& b.num_players == 0
                &&& (forall|opt: Seq<char>|
                    #[trigger] spec_opt_amount(b.current_bet_amounts@, opt) == 0)
            }),
            r is Ok ==> final(self).finished == old(self).finished && final(self).bets == old(
                self,
            ).bets && final(self).claims == old(self).claims && final(self).totals_spent == old(
                self,
            ).totals_spent && final(self).config == old(self).config && final(self).owner == old(
                self,
            ).owner,
    {
        if !(*sender == self.owner) {
            return Err(ContractError::Unauthorized);
        }
        if self.next_bet_id == u128::MAX {
            return Err(ContractError::Overflow);
        }
        let id = self.next_bet_id;
        let mut amounts: Vec<OptionAmount> = Vec::new();
        let m = options.len();
        for k in 0..m
            invariant
                m == options@.len(),
                forall|j: int| 0 <= j < amounts@.len() ==> (#[trigger] amounts@[j]).amount == 0,
        {
            match opt_amount_index(&amounts, &options[k].title) {
                Some(_) => {},
                None => {
                    amounts.push(OptionAmount { title: options[k].title.clone(), amount: 0 });
                },
            }
        }
        let ghost g0 = *self;
        let b = Bet {
            bet_id: id,
            topic,
            description,
            rules,
            img_url,
            end_bet_timestamp,
            expected_result_timestamp,
            options,
            current_bet_amounts: amounts,
            result_option: None,
            cancelled: false,
            num_players: 0,
        };
        proof {
            lemma_zero_amounts(b.current_bet_amounts@);
        }
        self.unfinished.push(b);
        self.next_bet_id = id + 1;
        proof {
            assert forall|opt: Seq<char>| #[trigger] sum_bet_option(self.bets@, id, opt)
                == 0 by {
                lemma_sum_bet_option_absent(self.bets@, id, opt);
            }
            assert(dao_covered_exact(self.bets@, self.unfinished@.last()));
            assert forall|a: int| 0 <= a < self.unfinished@.len() implies dao_covered_exact(
                self.bets@,
                #[trigger] self.unfinished@[a],
            ) by {
                if a < g0.unfinished@.len() {
                    assert(dao_covered_exact(g0.bets@, g0.unfinished@[a]));
                }
            }
        }
        Ok(id)
    }

    /// Edit a still-open bet's metadata.  Owner only; stakes and options
    /// are untouched.
    pub fn modify_bet(
        &mut self,
        sender: &String,
        bet_id: u128,
        topic: Option<String>,
        description: Option<String>,
        end_bet_timestamp: Option<u64>,
        expected_result_timestamp: Option<u64>,
        img_url: Option<String>,
    ) -> (r: Result<(), ContractError>)
        requires
            old(self).wf(),
        ensures
            final(self).wf(),
            r is Ok <==> sender@ == old(self).owner@ && (exists|i: int|
                0 <= i < old(self).unfinished@.len() && (#[trigger] old(
                    self,
                ).unfinished@[i]).bet_id == bet_id),
            r is Err ==> *final(self) == *old(self),
            r matches Err(e) ==> (if sender@ == old(self).owner@ {
                e is BetNotFound
            } else {
                e is Unauthorized
            }),
            r is Ok ==> exists|i: int|
                0 <= i < old(self).unfinished@.len() && (#[trigger] old(
                    self,
                ).unfinished@[i]).bet_id == bet_id && final(self).unfinished@ == old(
                    self,
                ).unfinished@.update(
                    i,
                    (Bet {
                        topic: (match topic {
                            Some(t) => t,
                            None => old(self).unfinished@[i].topic,
                        }),
                        description: (match description {
                            Some(d) => d,
                            None => old(self).unfinished@[i].description,
                        }),
                        end_bet_timestamp: (match end_bet_timestamp {
                            Some(t) => t,
                            None => old(self).unfinished@[i].end_bet_timestamp,
                        }),
                        expected_result_timestamp: (match expected_result_timestamp {
                            Some(t) => Some(t),
                            None => old(self).unfinished@[i].expected_result_timestamp,
                        }),
                        img_url: (match img_url {
                            Some(u) => Some(u),
                            None => old(self).unfinished@[i].img_url,
                        }),
                        ..old(self).unfinished@[i]
                    }),
                ),
            r is Ok ==> final(self).finished == old(self).finished && final(self).bets == old(
                self,
            ).bets && final(self).claims == old(self).claims && final(self).totals_spent == old(
                self,
            ).totals_spent && final(self).config == old(self).config && final(self).owner == old(
                self,
            ).owner && final(self).next_bet_id == old(self).next_bet_id,
    {
        if !(*sender == self.owner) {
            return Err(ContractError::Unauthorized);
        }
        let i = match find_bet_by_id(&self.unfinished, bet_id) {
            None => {
                return Err(ContractError::BetNotFound);
            },
            Some(i) => i,
        };
        let ghost g0 = *self;
        let mut b = self.unfinished.remove(i);
        match topic {
            Some(t) => {
                b.topic = t;
            },
            None => {},
        }
        match description {
            Some(d) => {
                b.description = d;
            },
            None => {},
        }
        match end_bet_timestamp {
            Some(t) => {
                b.end_bet_timestamp = t;
            },
            None => {},
        }
        match expected_result_timestamp {
            Some(t) => {
                b.expected_result_timestamp = Some(t);
            },
            None => {},
        }
        match img_url {
            Some(u) => {
                b.img_url = Some(u);
            },
            None => {},
        }
        self.unfinished.insert(i, b);
        proof {
            assert(self.unfinished@ =~= g0.unfinished@.update(
                i as int,
                self.unfinished@[i as int],
            ));
            assert forall|a: int| 0 <= a < self.unfinished@.len() implies dao_covered_exact(
                self.bets@,
                #[trigger] self.unfinished@[a],
            ) by {
                assert(dao_covered_exact(g0.bets@, g0.unfinished@[a]));
                assert(self.unfinished@[a].bet_id == g0.unfinished@[a].bet_id);
                assert(self.unfinished@[a].current_bet_amounts
                    == g0.unfinished@[a].current_bet_amounts);
            }
        }
        Ok(())
    }

    /// Declare a bet's winning option and move it to the finished listing.
    /// Owner only; settlement becomes possible from here on.
    pub fn complete_bet(&mut self, sender: &String, bet_id: u128, result_option: String) -> (r:
        Result<(), ContractError>)
        requires
            old(self).wf(),
        ensures
            final(self).wf(),
            r is Ok <==> sender@ == old(self).owner@ && (exists|i: int|
                0 <= i < old(self).unfinished@.len() && (#[trigger] old(
                    self,
                ).unfinished@[i]).bet_id == bet_id),
            r is Err ==> *final(self) == *old(self),
            r matches Err(e) ==> (if sender@ == old(self).owner@ {
                e is BetNotFound
            } else {
                e is Unauthorized
            }),
            r is Ok ==> exists|i: int|
                0 <= i < old(self).unfinished@.len() && (#[trigger] old(
                    self,
                ).unfinished@[i]).bet_id == bet_id && final(self).unfinished@ == old(
                    self,
                ).unfinished@.remove(i) && final(self).finished@ == old(self).finished@.push(
                    (Bet { result_option: Some(result_option), ..old(self).unfinished@[i] }),
                ),
            r is Ok ==> final(self).bets == old(self).bets && final(self).claims == old(
                self,
            ).claims && final(self).totals_spent == old(self).totals_spent && final(self).config
                == old(self).config && final(self).owner == old(self).owner && final(self).next_bet_id == old(self).next_bet_id,
    {
        if !(*sender == self.owner) {
            return Err(ContractError::Unauthorized);
        }
        let i = match find_bet_by_id(&self.unfinished, bet_id) {
            None => {
                return Err(ContractError::BetNotFound);
            },
            Some(i) => i,
        };
        let ghost g0 = *self;
        let mut b = self.unfinished.remove(i);
        b.result_option = Some(result_option);
        self.finished.push(b);
        proof {
            dao_move_commit_wf(g0, *self, i as int, self.finished@.last());
        }
        Ok(())
    }

    /// Cancel a bet: move it to the finished listing with the cancelled
    /// flag, which refunds every position in full at claim time.  Owner
    /// only.
    pub fn cancel_bet(&mut self, sender: &String, bet_id: u128) -> (r: Result<(), ContractError>)
        requires
            old(self).wf(),
        ensures
            final(self).wf(),
            r is Ok <==> sender@ == old(self).owner@ && (exists|i: int|
                0 <= i < old(self).unfinished@.len() && (#[trigger] old(
                    self,
                ).unfinished@[i]).bet_id == bet_id),
            r is Err ==> *final(self) == *old(self),
            r matches Err(e) ==> (if sender@ == old(self).owner@ {
                e is BetNotFound
            } else {
                e is Unauthorized
            }),
            r is Ok ==> exists|i: int|
                0 <= i < old(self).unfinished@.len() && (#[trigger] old(
                    self,
                ).unfinished@[i]).bet_id == bet_id && final(self).unfinished@ == old(
                    self,
                ).unfinished@.remove(i) && final(self).finished@ == old(self).finished@.push(
                    (Bet { cancelled: true, ..old(self).unfinished@[i] }),
                ),
            r is Ok ==> final(self).bets == old(self).bets && final(self).claims == old(
                self,
            ).claims && final(self).totals_spent == old(self).totals_spent && final(self).config
                == old(self).config && final(self).owner == old(self).owner && final(self).next_bet_id == old(self).next_bet_id,
    {
        if !(*sender == self.owner) {
            return Err(ContractError::Unauthorized);
        }
        let i = match find_bet_by_id(&self.unfinished, bet_id) {
            None => {
                return Err(ContractError::BetNotFound);
            },
            Some(i) => i,
        };
        let ghost g0 = *self;
        let mut b = self.unfinished.remove(i);
        b.cancelled = true;
        self.finished.push(b);
        proof {
            dao_move_commit_wf(g0, *self, i as int, self.finished@.last());
        }
        Ok(())
    }

    /// Whether the pair's option key is registered on a bet.
    pub open spec fn spec_opt_registered(s: Seq<OptionAmount>, opt: Seq<char>) -> bool {
        exists|i: int| 0 <= i < s.len() && (#[trigger] s[i]).title@ == opt
    }

    /// Exactly when and why a stake is rejected, checked in order: wrong or
    /// missing funds, an amount below the minimum, an unknown or closed
    /// bet, a position on another option, an unknown option key, and
    /// finally arithmetic that would leave the machine range.
    pub open spec fn spec_bet_on_err(
        self,
        now: u64,
        player: Seq<char>,
        bet_id: u128,
        option: Seq<char>,
        funds_denom: Seq<char>,
        funds_amount: u128,
    ) -> Option<ContractError> {
        if funds_denom != self.config.token_denom@ || funds_amount == 0 {
            Some(ContractError::InvalidFunds)
        } else if funds_amount < self.config.minimum_bet {
            Some(ContractError::BetUnderMinBetAmount)
        } else if spec_bet_by_id(self.unfinished@, bet_id) is None {
            Some(ContractError::BetNotFound)
        } else if now > spec_bet_by_id(self.unfinished@, bet_id)->0.end_bet_timestamp {
            Some(ContractError::BetAlreadyFinished)
        } else if self.has_bet(bet_id, player) && self.spec_bet_record(bet_id, player).option@
            != option {
            Some(ContractError::CantIncreaseBetOnDifferentOption)
        } else if self.has_bet(bet_id, player) && self.spec_bet_record(bet_id, player).amount
            + funds_amount > u128::MAX {
            Some(ContractError::Overflow)
        } else if !Self::spec_opt_registered(
            spec_bet_by_id(self.unfinished@, bet_id)->0.current_bet_amounts@,
            option,
        ) {
            Some(ContractError::InvalidOption)
        } else if spec_opt_amount(
            spec_bet_by_id(self.unfinished@, bet_id)->0.current_bet_amounts@,
            option,
        ) + funds_amount > u128::MAX {
            Some(ContractError::Overflow)
        } else if !self.has_bet(bet_id, player) && spec_bet_by_id(
            self.unfinished@,
            bet_id,
        )->0.num_players == u64::MAX {
            Some(ContractError::Overflow)
        } else if crate::game::spec_spent(self.totals_spent@, player) + funds_amount
            > u128::MAX {
            Some(ContractError::Overflow)
        } else if crate::game::spec_experience(
            funds_amount as int,
            self.config.exp_per_denom_bet,
        ) > u64::MAX {
            Some(ContractError::Overflow)
        } else {
            None
        }
    }

    /// Record a stake on an open bet's option: create or grow the caller's
    /// position, raise the option's running total and the caller's
    /// cumulative spend, and hand back the experience credit the host must
    /// forward.  Any rejection leaves the engine untouched.
    pub fn bet_on(
        &mut self,
        now: u64,
        player: &String,
        bet_id: u128,
        option: String,
        funds_denom: &String,
        funds_amount: u128,
    ) -> (r: Result<crate::types::ExperienceCredit, ContractError>)
        requires
            old(self).wf(),
        ensures
            final(self).wf(),
            r is Err <==> old(self).spec_bet_on_err(
                now,
                player@,
                bet_id,
                option@,
                funds_denom@,
                funds_amount,
            ) is Some,
            r matches Err(e) ==> Some(e) == old(self).spec_bet_on_err(
                now,
                player@,
                bet_id,
                option@,
                funds_denom@,
                funds_amount,
            ),
            r is Err ==> *final(self) == *old(self),
            r is Ok ==> exists|iu: int|
                0 <= iu < old(self).unfinished@.len() && (#[trigger] old(
                    self,
                ).unfinished@[iu]).bet_id == bet_id && final(self).unfinished@ == old(
                    self,
                ).unfinished@.update(iu, final(self).unfinished@[iu]) && final(self).unfinished@[iu] == (Bet {
                    current_bet_amounts: final(self).unfinished@[iu].current_bet_amounts,
                    num_players: final(self).unfinished@[iu].num_players,
                    ..old(self).unfinished@[iu]
                }) && spec_opt_amount(
                    final(self).unfinished@[iu].current_bet_amounts@,
                    option@,
                ) == spec_opt_amount(old(self).unfinished@[iu].current_bet_amounts@, option@)
                    + funds_amount && (forall|q: Seq<char>|
                    q != option@ ==> spec_opt_amount(
                        final(self).unfinished@[iu].current_bet_amounts@,
                        q,
                    ) == spec_opt_amount(old(self).unfinished@[iu].current_bet_amounts@, q))
                    && final(self).unfinished@[iu].num_players as int == old(
                    self,
                ).unfinished@[iu].num_players + (if old(self).has_bet(bet_id, player@) {
                    0int
                } else {
                    1int
                }),
            r is Ok && old(self).has_bet(bet_id, player@) ==> exists|i: int|
                0 <= i < old(self).bets@.len() && dao_bet_matches(
                    #[trigger] old(self).bets@[i],
                    bet_id,
                    player@,
                ) && final(self).bets@ == old(self).bets@.update(
                    i,
                    (BetInfo {
                        amount: (old(self).bets@[i].amount + funds_amount) as u128,
                        ..old(self).bets@[i]
                    }),
                ),
            r is Ok && !old(self).has_bet(bet_id, player@) ==> final(self).bets@ == old(
                self,
            ).bets@.push(
                (BetInfo {
                    player: *player,
                    bet_id: bet_id,
                    amount: funds_amount,
                    option: option,
                }),
            ),
            r is Ok ==> final(self).has_bet(bet_id, player@),
            r is Ok ==> crate::game::spec_spent(final(self).totals_spent@, player@)
                == crate::game::spec_spent(old(self).totals_spent@, player@) + funds_amount,
            r is Ok ==> forall|q: Seq<char>|
                q != player@ ==> crate::game::spec_spent(final(self).totals_spent@, q)
                    == crate::game::spec_spent(old(self).totals_spent@, q),
            r matches Ok(xp) ==> xp.user@ == player@ && xp.experience
                == crate::game::spec_experience(
                funds_amount as int,
                old(self).config.exp_per_denom_bet,
            ) && xp.elo is None,
            final(self).finished == old(self).finished,
            final(self).claims == old(self).claims,
            final(self).config == old(self).config,
            final(self).owner == old(self).owner,
            final(self).next_bet_id == old(self).next_bet_id,
    {
        if !(*funds_denom == self.config.token_denom) || funds_amount == 0 {
            return Err(ContractError::InvalidFunds);
        }
        if funds_amount < self.config.minimum_bet {
            return Err(ContractError::BetUnderMinBetAmount);
        }
        let iu = match find_bet_by_id(&self.unfinished, bet_id) {
            None => {
                return Err(ContractError::BetNotFound);
            },
            Some(i) => i,
        };
        if now > self.unfinished[iu].end_bet_timestamp {
            return Err(ContractError::BetAlreadyFinished);
        }
        let pos = find_position(&self.bets, bet_id, player);
        proof {
            if let Some(ip) = pos {
                dao_lemma_bet_record_unique(*self, ip as int, bet_id, player@);
            }
        }
        let (new_amount, is_new): (u128, bool) = match pos {
            Some(ip) => {
                let b = &self.bets[ip];
                if !(b.option == option) {
                    return Err(ContractError::CantIncreaseBetOnDifferentOption);
                }
                if b.amount > u128::MAX - funds_amount {
                    return Err(ContractError::Overflow);
                }
                (b.amount + funds_amount, false)
            },
            None => {
                assert(!self.has_bet(bet_id, player@));
                (funds_amount, true)
            },
        };
        let ia = match opt_amount_index(&self.unfinished[iu].current_bet_amounts, &option) {
            None => {
                return Err(ContractError::InvalidOption);
            },
            Some(i) => i,
        };
        let old_opt_amount = self.unfinished[iu].current_bet_amounts[ia].amount;
        if old_opt_amount > u128::MAX - funds_amount {
            return Err(ContractError::Overflow);
        }
        if is_new && self.unfinished[iu].num_players == u64::MAX {
            return Err(ContractError::Overflow);
        }
        let old_spent = crate::game::lookup_spent(&self.totals_spent, player);
        if old_spent > u128::MAX - funds_amount {
            return Err(ContractError::Overflow);
        }
        let t64: u64 = (funds_amount % 0x1_0000_0000_0000_0000u128) as u64;
        let xp_points = match crate::math::checked_mul_u64(t64, self.config.exp_per_denom_bet) {
            Some(v) => v,
            None => {
                return Err(ContractError::Overflow);
            },
        };
        let ghost g0 = *self;
        // Commit: the bet's option total and player count first.
        let mut b = self.unfinished.remove(iu);
        let new_entry = OptionAmount {
            title: b.current_bet_amounts[ia].title.clone(),
            amount: old_opt_amount + funds_amount,
        };
        proof {
            assert(new_entry == (OptionAmount {
                amount: (old_opt_amount + funds_amount) as u128,
                ..g0.unfinished@[iu as int].current_bet_amounts@[ia as int]
            }));
        }
        b.current_bet_amounts.set(ia, new_entry);
        if is_new {
            b.num_players = b.num_players + 1;
        }
        self.unfinished.insert(iu, b);
        // Then the position ledger.
        match pos {
            Some(ip) => {
                let p = &self.bets[ip];
                let np = BetInfo {
                    player: p.player.clone(),
                    bet_id: p.bet_id,
                    amount: new_amount,
                    option: p.option.clone(),
                };
                proof {
                    assert(np == (BetInfo { amount: new_amount, ..g0.bets@[ip as int] }));
                }
                self.bets.set(ip, np);
            },
            None => {
                self.bets.push(
                    BetInfo {
                        player: player.clone(),
                        bet_id: bet_id,
                        amount: funds_amount,
                        option: option.clone(),
                    },
                );
            },
        }
        // Then the caller's cumulative spend.
        crate::game::set_spent(&mut self.totals_spent, player, old_spent + funds_amount);
        proof {
            assert(self.unfinished@ =~= g0.unfinished@.update(
                iu as int,
                self.unfinished@[iu as int],
            ));
            lemma_opt_update_first(
                g0.unfinished@[iu as int].current_bet_amounts@,
                ia as int,
                (OptionAmount {
                    amount: (old_opt_amount + funds_amount) as u128,
                    ..g0.unfinished@[iu as int].current_bet_amounts@[ia as int]
                }),
                option@,
            );
            assert forall|q: Seq<char>| q != option@ implies spec_opt_amount(
                self.unfinished@[iu as int].current_bet_amounts@,
                q,
            ) == spec_opt_amount(g0.unfinished@[iu as int].current_bet_amounts@, q) by {
                lemma_opt_update_other(
                    g0.unfinished@[iu as int].current_bet_amounts@,
                    ia as int,
                    (OptionAmount {
                        amount: (old_opt_amount + funds_amount) as u128,
                        ..g0.unfinished@[iu as int].current_bet_amounts@[ia as int]
                    }),
                    q,
                );
            }
            dao_place_commit_wf(
                g0,
                *self,
                iu as int,
                match pos {
                    Some(ip) => Some(ip as int),
                    None => None,
                },
                bet_id,
                player@,
                option@,
                funds_amount,
            );
            if g0.has_bet(bet_id, player@) {
                let i = choose|i: int|
                    0 <= i < g0.bets@.len() && dao_bet_matches(
                        #[trigger] g0.bets@[i],
                        bet_id,
                        player@,
                    );
                assert(dao_bet_matches(self.bets@[i], bet_id, player@));
            } else {
                assert(dao_bet_matches(self.bets@[g0.bets@.len() as int], bet_id, player@));
            }
        }
        Ok(
            crate::types::ExperienceCredit {
                user: player.clone(),
                experience: xp_points,
                elo: None,
            },
        )
    }

    /// The finished bet a claim settles against; meaningful when one
    /// exists.
    pub open spec fn spec_finished_bet(self, bet_id: u128) -> Bet {
        spec_bet_by_id(self.finished@, bet_id)->0
    }

    /// The commissionable part of one settled payout.
    pub open spec fn spec_claim_bet_commissionable(self, bet_id: u128, player: Seq<char>) -> int {
        if !self.spec_finished_bet(bet_id).cancelled {
            dao_spec_payout(
                self.spec_finished_bet(bet_id),
                self.spec_bet_record(bet_id, player).amount,
                self.spec_bet_record(bet_id, player).option@,
            )
        } else {
            0
        }
    }

    /// Exactly when and why a single-bet claim is rejected, checked in
    /// order: the bet not finished, no position for the pair, a pool past
    /// the 128-bit range, a payout of zero, and fee or experience
    /// arithmetic leaving the machine range.  A rejected claim changes
    /// nothing; in particular a repeated claim finds no position and is
    /// rejected.
    pub open spec fn spec_claim_bet_err(self, player: Seq<char>, bet_id: u128) -> Option<
        ContractError,
    > {
        if spec_bet_by_id(self.finished@, bet_id) is None {
            Some(ContractError::BetNotFound)
        } else if !self.has_bet(bet_id, player) {
            Some(ContractError::NothingToClaim)
        } else if spec_amounts_total(self.spec_finished_bet(bet_id).current_bet_amounts@)
            > u128::MAX {
            Some(ContractError::Overflow)
        } else if dao_spec_payout(
            self.spec_finished_bet(bet_id),
            self.spec_bet_record(bet_id, player).amount,
            self.spec_bet_record(bet_id, player).option@,
        ) == 0 {
            Some(ContractError::NothingToClaim)
        } else if crate::fees::spec_gaming_fee(
            self.config.gaming_fee,
            self.spec_claim_bet_commissionable(bet_id, player),
        ) > u128::MAX {
            Some(ContractError::Overflow)
        } else if crate::fees::spec_gaming_fee(
            self.config.gaming_fee,
            self.spec_claim_bet_commissionable(bet_id, player),
        ) > dao_spec_payout(
            self.spec_finished_bet(bet_id),
            self.spec_bet_record(bet_id, player).amount,
            self.spec_bet_record(bet_id, player).option@,
        ) {
            Some(ContractError::Overflow)
        } else if self.spec_claim_bet_commissionable(bet_id, player) > 0
            && crate::game::spec_experience(
            self.spec_claim_bet_commissionable(bet_id, player),
            self.config.exp_per_denom_won,
        ) > u64::MAX {
            Some(ContractError::Overflow)
        } else {
            None
        }
    }

    /// Settle and pay out the caller's position in one finished bet: the
    /// position is deleted, a claim record is appended, and the host
    /// receives the transfers and experience credit to execute.  Deleting
    /// the position is the sole double-claim guard, and it happens only on
    /// success.
    pub fn collect_winnings_bet(&mut self, player: &String, bet_id: u128) -> (r: Result<
        crate::types::ClaimOutcome,
        ContractError,
    >)
        requires
            old(self).wf(),
        ensures
            final(self).wf(),
            r is Err <==> old(self).spec_claim_bet_err(player@, bet_id) is Some,
            r matches Err(e) ==> Some(e) == old(self).spec_claim_bet_err(player@, bet_id),
            r is Err ==> *final(self) == *old(self),
            r is Ok ==> !final(self).has_bet(bet_id, player@),
            r matches Ok(out) ==> out.total_payout == dao_spec_payout(
                old(self).spec_finished_bet(bet_id),
                old(self).spec_bet_record(bet_id, player@).amount,
                old(self).spec_bet_record(bet_id, player@).option@,
            ),
            r is Ok ==> exists|i: int|
                0 <= i < old(self).bets@.len() && dao_bet_matches(
                    #[trigger] old(self).bets@[i],
                    bet_id,
                    player@,
                ) && final(self).bets@ == old(self).bets@.remove(i),
            r matches Ok(out) ==> final(self).claims@ == old(self).claims@.push(
                (ClaimInfo { player: *player, bet_id: bet_id, claimed_amount: out.total_payout }),
            ),
            r matches Ok(out) ==> out.fee == crate::fees::spec_gaming_fee(
                old(self).config.gaming_fee,
                old(self).spec_claim_bet_commissionable(bet_id, player@),
            ),
            r matches Ok(out) ==> out.payout_transfer.to_address@ == player@
                && out.payout_transfer.amount == out.total_payout - out.fee,
            r matches Ok(out) ==> (if old(self).spec_claim_bet_commissionable(bet_id, player@)
                > 0 {
                out.fee_transfers@.len() == old(self).config.fee_receiver_wallet_list@.len() && (
                forall|k: int|
                    0 <= k < out.fee_transfers@.len()
                        ==> (#[trigger] out.fee_transfers@[k]).amount
                        == crate::fees::spec_fee_share(
                        out.fee,
                        old(self).config.fee_receiver_wallet_list@[k].ratio,
                    ) && out.fee_transfers@[k].to_address@ == old(
                        self,
                    ).config.fee_receiver_wallet_list@[k].address@)
            } else {
                out.fee_transfers@.len() == 0
            }),
            r matches Ok(out) ==> (if old(self).spec_claim_bet_commissionable(bet_id, player@)
                > 0 {
                out.experience matches Some(xp) && xp.user@ == player@ && xp.experience
                    == crate::game::spec_experience(
                    old(self).spec_claim_bet_commissionable(bet_id, player@),
                    old(self).config.exp_per_denom_won,
                ) && xp.elo is None
            } else {
                out.experience is None
            }),
            final(self).unfinished == old(self).unfinished,
            final(self).finished == old(self).finished,
            final(self).totals_spent == old(self).totals_spent,
            final(self).config == old(self).config,
            final(self).owner == old(self).owner,
            final(self).next_bet_id == old(self).next_bet_id,
    {
        let ifi = match find_bet_by_id(&self.finished, bet_id) {
            None => {
                return Err(ContractError::BetNotFound);
            },
            Some(i) => i,
        };
        let ip = match find_position(&self.bets, bet_id, player) {
            None => {
                return Err(ContractError::NothingToClaim);
            },
            Some(i) => i,
        };
        proof {
            dao_lemma_bet_record_unique(*self, ip as int, bet_id, player@);
        }
        let b_amount = self.bets[ip].amount;
        proof {
            assert(dao_covered(self.bets@, self.finished@[ifi as int]));
            lemma_opt_contrib_le_sum(self.bets@, ip as int, bet_id, self.bets@[ip as int].option@);
            assert(sum_bet_option(self.bets@, bet_id, self.bets@[ip as int].option@)
                <= spec_opt_amount(
                self.finished@[ifi as int].current_bet_amounts@,
                self.bets@[ip as int].option@,
            ));
        }
        let (payout, commissionable_flag) = match dao_settle(
            &self.finished[ifi],
            b_amount,
            &self.bets[ip].option,
        ) {
            Err(e) => {
                return Err(e);
            },
            Ok(p) => p,
        };
        if payout == 0 {
            return Err(ContractError::NothingToClaim);
        }
        let commissionable: u128 = if commissionable_flag {
            payout
        } else {
            0
        };
        let fee = match crate::fees::compute_gaming_fee(self.config.gaming_fee, commissionable) {
            Err(e) => {
                return Err(e);
            },
            Ok(f) => f,
        };
        if fee > payout {
            return Err(ContractError::Overflow);
        }
        let experience: Option<crate::types::ExperienceCredit> = if commissionable > 0 {
            let t64: u64 = (commissionable % 0x1_0000_0000_0000_0000u128) as u64;
            match crate::math::checked_mul_u64(t64, self.config.exp_per_denom_won) {
                None => {
                    return Err(ContractError::Overflow);
                },
                Some(points) => Some(
                    crate::types::ExperienceCredit {
                        user: player.clone(),
                        experience: points,
                        elo: None,
                    },
                ),
            }
        } else {
            None
        };
        let fee_transfers: Vec<crate::types::Transfer> = if commissionable > 0 {
            crate::fees::split_fee(fee, &self.config.fee_receiver_wallet_list)
        } else {
            Vec::new()
        };
        let ghost g0 = *self;
        self.bets.remove(ip);
        self.claims.push(
            ClaimInfo { player: player.clone(), bet_id: bet_id, claimed_amount: payout },
        );
        proof {
            dao_claim_commit_wf(g0, *self, ip as int, ifi as int, bet_id, player@);
            assert forall|i: int|
                0 <= i < self.bets@.len() implies !dao_bet_matches(
                #[trigger] self.bets@[i],
                bet_id,
                player@,
            ) by {
                if i < ip as int {
                    assert(!dao_bet_key_eq(g0.bets@[i], g0.bets@[ip as int]));
                } else {
                    assert(!dao_bet_key_eq(g0.bets@[ip as int], g0.bets@[i + 1]));
                }
            }
        }
        Ok(
            crate::types::ClaimOutcome {
                total_payout: payout,
                fee,
                payout_transfer: crate::types::Transfer {
                    to_address: player.clone(),
                    amount: payout - fee,
                },
                fee_transfers,
                experience,
            },
        )
    }

    /// Replace the whole configuration.  Owner only; the recipient ratios
    /// must sum to exactly one.
    pub fn update_config(&mut self, sender: &String, new_config: Config) -> (r: Result<
        (),
        ContractError,
    >)
        requires
            old(self).wf(),
        ensures
            final(self).wf(),
            r is Ok <==> sender@ == old(self).owner@ && sum_ratios(
                new_config.fee_receiver_wallet_list@,
            ) == RATIO_PRECISION,
            r is Ok ==> *final(self) == (DaoBets { config: new_config, ..*old(self) }),
            r is Err ==> *final(self) == *old(self),
            r matches Err(e) ==> (if sender@ == old(self).owner@ {
                e is WrongRatio
            } else {
                e is Unauthorized
            }),
    {
        if !(*sender == self.owner) {
            return Err(ContractError::Unauthorized);
        }
        match crate::game::total_ratio(&new_config.fee_receiver_wallet_list) {
            None => {
                return Err(ContractError::WrongRatio);
            },
            Some(total) => {
                if total != RATIO_PRECISION {
                    return Err(ContractError::WrongRatio);
                }
            },
        }
        self.config = new_config;
        Ok(())
    }

    /// Exactly when and why a claim-everything call is rejected: a settled
    /// bet's pool or the accumulated winnings past the 128-bit range,
    /// nothing at all to pay, or fee and experience arithmetic leaving the
    /// machine range.  A rejected claim changes nothing.
    pub open spec fn spec_claim_all_err(self, player: Seq<char>) -> Option<ContractError> {
        let total = dao_pending_total(self.bets@, self.finished@, player);
        let comm = dao_pending_commissionable(self.bets@, self.finished@, player);
        if dao_pool_overflow(self.bets@, self.finished@, player) {
            Some(ContractError::Overflow)
        } else if total > u128::MAX {
            Some(ContractError::Overflow)
        } else if total == 0 {
            Some(ContractError::NothingToClaim)
        } else if crate::fees::spec_gaming_fee(self.config.gaming_fee, comm) > u128::MAX {
            Some(ContractError::Overflow)
        } else if crate::fees::spec_gaming_fee(self.config.gaming_fee, comm) > total {
            Some(ContractError::Overflow)
        } else if comm > 0 && crate::game::spec_experience(comm, self.config.exp_per_denom_won)
            > u64::MAX {
            Some(ContractError::Overflow)
        } else {
            None
        }
    }

    /// Settle and pay out every position of the caller whose bet has
    /// finished: each such position is deleted, a claim record is appended
    /// for each one that paid anything, and a single aggregate transfer and
    /// fee distribution is handed back.  Positions on bets still open are
    /// left alone.
    pub fn collect_winnings(&mut self, player: &String) -> (r: Result<
        crate::types::ClaimOutcome,
        ContractError,
    >)
        requires
            old(self).wf(),
        ensures
            final(self).wf(),
            r is Err <==> old(self).spec_claim_all_err(player@) is Some,
            r matches Err(e) ==> Some(e) == old(self).spec_claim_all_err(player@),
            r is Err ==> *final(self) == *old(self),
            r matches Ok(out) ==> out.total_payout == dao_pending_total(
                old(self).bets@,
                old(self).finished@,
                player@,
            ),
            r is Ok ==> final(self).bets@ == dao_remaining(
                old(self).bets@,
                old(self).finished@,
                player@,
            ),
            r is Ok ==> final(self).claims@ == old(self).claims@ + dao_new_claims(
                old(self).bets@,
                old(self).finished@,
                player@,
            ),
            r matches Ok(out) ==> out.fee == crate::fees::spec_gaming_fee(
                old(self).config.gaming_fee,
                dao_pending_commissionable(old(self).bets@, old(self).finished@, player@),
            ),
            r matches Ok(out) ==> out.payout_transfer.to_address@ == player@
                && out.payout_transfer.amount == out.total_payout - out.fee,
            r matches Ok(out) ==> (if dao_pending_commissionable(
                old(self).bets@,
                old(self).finished@,
                player@,
            ) > 0 {
                out.fee_transfers@.len() == old(self).config.fee_receiver_wallet_list@.len() && (
                forall|k: int|
                    0 <= k < out.fee_transfers@.len()
                        ==> (#[trigger] out.fee_transfers@[k]).amount
                        == crate::fees::spec_fee_share(
                        out.fee,
                        old(self).config.fee_receiver_wallet_list@[k].ratio,
                    ) && out.fee_transfers@[k].to_address@ == old(
                        self,
                    ).config.fee_receiver_wallet_list@[k].address@)
            } else {
                out.fee_transfers@.len() == 0
            }),
            r matches Ok(out) ==> (if dao_pending_commissionable(
                old(self).bets@,
                old(self).finished@,
                player@,
            ) > 0 {
                out.experience matches Some(xp) && xp.user@ == player@ && xp.experience
                    == crate::game::spec_experience(
                    dao_pending_commissionable(old(self).bets@, old(self).finished@, player@),
                    old(self).config.exp_per_denom_won,
                ) && xp.elo is None
            } else {
                out.experience is None
            }),
            final(self).unfinished == old(self).unfinished,
            final(self).finished == old(self).finished,
            final(self).totals_spent == old(self).totals_spent,
            final(self).config == old(self).config,
            final(self).owner == old(self).owner,
            final(self).next_bet_id == old(self).next_bet_id,
    {
        let n = self.bets.len();
        let mut kept: Vec<BetInfo> = Vec::new();
        let mut new_claims: Vec<ClaimInfo> = Vec::new();
        let mut total: u128 = 0;
        let mut comm: u128 = 0;
        proof {
            assert(self.bets@.skip(0) =~= self.bets@);
        }
        for idx in 0..n
            invariant
                *self == *old(self),
                self.wf(),
                n == self.bets@.len(),
                dao_pending_total(self.bets@, self.finished@, player@) == total
                    + dao_pending_total(self.bets@.skip(idx as int), self.finished@, player@),
                dao_pending_commissionable(self.bets@, self.finished@, player@) == comm
                    + dao_pending_commissionable(
                    self.bets@.skip(idx as int),
                    self.finished@,
                    player@,
                ),
                dao_remaining(self.bets@, self.finished@, player@) == kept@ + dao_remaining(
                    self.bets@.skip(idx as int),
                    self.finished@,
                    player@,
                ),
                dao_new_claims(self.bets@, self.finished@, player@) == new_claims@
                    + dao_new_claims(self.bets@.skip(idx as int), self.finished@, player@),
                comm <= total,
                forall|k: int|
                    0 <= k < idx && dao_claimable(
                        #[trigger] self.bets@[k],
                        self.finished@,
                        player@,
                    ) ==> spec_amounts_total(
                        spec_bet_by_id(self.finished@, self.bets@[k].bet_id)->0.current_bet_amounts@,
                    ) <= u128::MAX,
        {
            proof {
                assert(self.bets@.skip(idx as int).drop_first() =~= self.bets@.skip(
                    idx as int + 1,
                ));
                assert(self.bets@.skip(idx as int)[0] == self.bets@[idx as int]);
            }
            let ghost kept0 = kept@;
            let ghost nc0 = new_claims@;
            let b_bet = self.bets[idx].bet_id;
            let b_amount = self.bets[idx].amount;
            let mine = self.bets[idx].player == *player;
            let fin_idx = if mine {
                find_bet_by_id(&self.finished, b_bet)
            } else {
                None
            };
            match fin_idx {
                Some(ifi) => {
                    proof {
                        assert(dao_covered(self.bets@, self.finished@[ifi as int]));
                        lemma_opt_contrib_le_sum(
                            self.bets@,
                            idx as int,
                            b_bet,
                            self.bets@[idx as int].option@,
                        );
                        assert(sum_bet_option(self.bets@, b_bet, self.bets@[idx as int].option@)
                            <= spec_opt_amount(
                            self.finished@[ifi as int].current_bet_amounts@,
                            self.bets@[idx as int].option@,
                        ));
                    }
                    let (payout, cflag) = match dao_settle(
                        &self.finished[ifi],
                        b_amount,
                        &self.bets[idx].option,
                    ) {
                        Err(_) => {
                            return Err(ContractError::Overflow);
                        },
                        Ok(p) => p,
                    };
                    if total > u128::MAX - payout {
                        proof {
                            dao_pending_total_nonneg(
                                self.bets@.skip(idx as int + 1),
                                self.finished@,
                                player@,
                            );
                        }
                        return Err(ContractError::Overflow);
                    }
                    total = total + payout;
                    if cflag {
                        comm = comm + payout;
                    }
                    if payout > 0 {
                        new_claims.push(
                            ClaimInfo {
                                player: self.bets[idx].player.clone(),
                                bet_id: b_bet,
                                claimed_amount: payout,
                            },
                        );
                        proof {
                            assert(new_claims@ =~= nc0.push(
                                (ClaimInfo {
                                    player: self.bets@[idx as int].player,
                                    bet_id: b_bet,
                                    claimed_amount: payout,
                                }),
                            ));
                            assert(nc0.push(new_claims@.last()) + dao_new_claims(
                                self.bets@.skip(idx as int + 1),
                                self.finished@,
                                player@,
                            ) =~= nc0 + (seq![new_claims@.last()] + dao_new_claims(
                                self.bets@.skip(idx as int + 1),
                                self.finished@,
                                player@,
                            )));
                        }
                    }
                },
                None => {
                    let bcopy = BetInfo {
                        player: self.bets[idx].player.clone(),
                        bet_id: b_bet,
                        amount: b_amount,
                        option: self.bets[idx].option.clone(),
                    };
                    proof {
                        assert(bcopy == self.bets@[idx as int]);
                    }
                    kept.push(bcopy);
                    proof {
                        assert(kept0.push(self.bets@[idx as int]) + dao_remaining(
                            self.bets@.skip(idx as int + 1),
                            self.finished@,
                            player@,
                        ) =~= kept0 + (seq![self.bets@[idx as int]] + dao_remaining(
                            self.bets@.skip(idx as int + 1),
                            self.finished@,
                            player@,
                        )));
                    }
                },
            }
        }
        proof {
            assert(self.bets@.skip(n as int) =~= Seq::<BetInfo>::empty());
            assert(kept@ + Seq::<BetInfo>::empty() =~= kept@);
            assert(new_claims@ + Seq::<ClaimInfo>::empty() =~= new_claims@);
        }
        if total == 0 {
            return Err(ContractError::NothingToClaim);
        }
        let fee = match crate::fees::compute_gaming_fee(self.config.gaming_fee, comm) {
            Err(e) => {
                return Err(e);
            },
            Ok(f) => f,
        };
        if fee > total {
            return Err(ContractError::Overflow);
        }
        let experience: Option<crate::types::ExperienceCredit> = if comm > 0 {
            let t64: u64 = (comm % 0x1_0000_0000_0000_0000u128) as u64;
            match crate::math::checked_mul_u64(t64, self.config.exp_per_denom_won) {
                None => {
                    return Err(ContractError::Overflow);
                },
                Some(points) => Some(
                    crate::types::ExperienceCredit {
                        user: player.clone(),
                        experience: points,
                        elo: None,
                    },
                ),
            }
        } else {
            None
        };
        let fee_transfers: Vec<crate::types::Transfer> = if comm > 0 {
            crate::fees::split_fee(fee, &self.config.fee_receiver_wallet_list)
        } else {
            Vec::new()
        };
        let ghost g0 = *self;
        self.bets = kept;
        self.claims.append(&mut new_claims);
        proof {
            dao_claim_all_commit_wf(g0, *self, player@);
        }
        Ok(
            crate::types::ClaimOutcome {
                total_payout: total,
                fee,
                payout_transfer: crate::types::Transfer {
                    to_address: player.clone(),
                    amount: total - fee,
                },
                fee_transfers,
                experience,
            },
        )
    }

    /// A user's total unclaimed reward over all finished bets, without
    /// touching anything.
    pub fn query_my_pending_reward(&self, player: &String) -> (r: Result<u128, ContractError>)
        requires
            self.wf(),
        ensures
            r matches Ok(v) ==> v == dao_pending_total(self.bets@, self.finished@, player@),
            r is Err <==> dao_pool_overflow(self.bets@, self.finished@, player@)
                || dao_pending_total(self.bets@, self.finished@, player@) > u128::MAX,
            r matches Err(e) ==> e is Overflow,
    {
        match self.dao_pending_pairs_exec(player, None) {
            Ok((_, total)) => Ok(total),
            Err(e) => Err(e),
        }
    }

    /// A user's unclaimed reward per finished bet, without touching
    /// anything.
    pub fn query_my_pending_reward_rounds(&self, player: &String) -> (r: Result<
        crate::types::PendingRewardRoundsResponse,
        ContractError,
    >)
        requires
            self.wf(),
        ensures
            r matches Ok(v) ==> v.pending_reward_total == dao_pending_total(
                self.bets@,
                self.finished@,
                player@,
            ) && v.pending_reward_rounds@ == dao_pending_pairs(
                self.bets@,
                self.finished@,
                player@,
                None::<Seq<char>>,
            ),
            r is Err <==> dao_pool_overflow(self.bets@, self.finished@, player@)
                || dao_pending_total(self.bets@, self.finished@, player@) > u128::MAX,
            r matches Err(e) ==> e is Overflow,
    {
        match self.dao_pending_pairs_exec(player, None) {
            Ok((pairs, total)) => Ok(
                crate::types::PendingRewardRoundsResponse {
                    pending_reward_rounds: pairs,
                    pending_reward_total: total,
                },
            ),
            Err(e) => Err(e),
        }
    }

    /// A user's unclaimed reward per finished bet on one topic, without
    /// touching anything.  The total still covers every topic.
    pub fn query_my_pending_reward_rounds_by_topic(&self, player: &String, topic: &String) -> (r:
        Result<crate::types::PendingRewardRoundsResponse, ContractError>)
        requires
            self.wf(),
        ensures
            r matches Ok(v) ==> v.pending_reward_total == dao_pending_total(
                self.bets@,
                self.finished@,
                player@,
            ) && v.pending_reward_rounds@ == dao_pending_pairs(
                self.bets@,
                self.finished@,
                player@,
                Some(topic@),
            ),
            r is Err <==> dao_pool_overflow(self.bets@, self.finished@, player@)
                || dao_pending_total(self.bets@, self.finished@, player@) > u128::MAX,
            r matches Err(e) ==> e is Overflow,
    {
        match self.dao_pending_pairs_exec(player, Some(topic)) {
            Ok((pairs, total)) => Ok(
                crate::types::PendingRewardRoundsResponse {
                    pending_reward_rounds: pairs,
                    pending_reward_total: total,
                },
            ),
            Err(e) => Err(e),
        }
    }

    /// The pending pairs and total together.
    fn dao_pending_pairs_exec(&self, player: &String, topic: Option<&String>) -> (r: Result<
        (Vec<(u128, u128)>, u128),
        ContractError,
    >)
        requires
            self.wf(),
        ensures
            r matches Ok(v) ==> v.1 == dao_pending_total(self.bets@, self.finished@, player@)
                && v.0@ == dao_pending_pairs(
                self.bets@,
                self.finished@,
                player@,
                (match topic {
                    Some(t) => Some(t@),
                    None => None,
                }),
            ),
            r is Err <==> dao_pool_overflow(self.bets@, self.finished@, player@)
                || dao_pending_total(self.bets@, self.finished@, player@) > u128::MAX,
            r matches Err(e) ==> e is Overflow,
    {
        let ghost tview: Option<Seq<char>> = match topic {
            Some(t) => Some(t@),
            None => None,
        };
        let n = self.bets.len();
        let mut total: u128 = 0;
        let mut pairs: Vec<(u128, u128)> = Vec::new();
        proof {
            assert(self.bets@.skip(0) =~= self.bets@);
        }
        for idx in 0..n
            invariant
                self.wf(),
                n == self.bets@.len(),
                dao_pending_total(self.bets@, self.finished@, player@) == total
                    + dao_pending_total(self.bets@.skip(idx as int), self.finished@, player@),
                dao_pending_pairs(self.bets@, self.finished@, player@, tview) == pairs@
                    + dao_pending_pairs(
                    self.bets@.skip(idx as int),
                    self.finished@,
                    player@,
                    tview,
                ),
                tview == (match topic {
                    Some(t) => Some(t@),
                    None => None::<Seq<char>>,
                }),
                forall|k: int|
                    0 <= k < idx && dao_claimable(
                        #[trigger] self.bets@[k],
                        self.finished@,
                        player@,
                    ) ==> spec_amounts_total(
                        spec_bet_by_id(self.finished@, self.bets@[k].bet_id)->0.current_bet_amounts@,
                    ) <= u128::MAX,
        {
            proof {
                assert(self.bets@.skip(idx as int).drop_first() =~= self.bets@.skip(
                    idx as int + 1,
                ));
                assert(self.bets@.skip(idx as int)[0] == self.bets@[idx as int]);
            }
            let ghost pairs0 = pairs@;
            let b_bet = self.bets[idx].bet_id;
            let b_amount = self.bets[idx].amount;
            let mine = self.bets[idx].player == *player;
            let fin_idx = if mine {
                find_bet_by_id(&self.finished, b_bet)
            } else {
                None
            };
            match fin_idx {
                Some(ifi) => {
                    proof {
                        assert(dao_covered(self.bets@, self.finished@[ifi as int]));
                        lemma_opt_contrib_le_sum(
                            self.bets@,
                            idx as int,
                            b_bet,
                            self.bets@[idx as int].option@,
                        );
                        assert(sum_bet_option(self.bets@, b_bet, self.bets@[idx as int].option@)
                            <= spec_opt_amount(
                            self.finished@[ifi as int].current_bet_amounts@,
                            self.bets@[idx as int].option@,
                        ));
                    }
                    let (payout, _) = match dao_settle(
                        &self.finished[ifi],
                        b_amount,
                        &self.bets[idx].option,
                    ) {
                        Err(_) => {
                            return Err(ContractError::Overflow);
                        },
                        Ok(p) => p,
                    };
                    if total > u128::MAX - payout {
                        proof {
                            dao_pending_total_nonneg(
                                self.bets@.skip(idx as int + 1),
                                self.finished@,
                                player@,
                            );
                        }
                        return Err(ContractError::Overflow);
                    }
                    total = total + payout;
                    let topic_hit = match topic {
                        None => true,
                        Some(t) => self.finished[ifi].topic == *t,
                    };
                    if payout > 0 && topic_hit {
                        pairs.push((b_bet, payout));
                        proof {
                            assert(pairs0.push((b_bet, payout)) + dao_pending_pairs(
                                self.bets@.skip(idx as int + 1),
                                self.finished@,
                                player@,
                                tview,
                            ) =~= pairs0 + (seq![(b_bet, payout)] + dao_pending_pairs(
                                self.bets@.skip(idx as int + 1),
                                self.finished@,
                                player@,
                                tview,
                            )));
                        }
                    }
                },
                None => {},
            }
        }
        proof {
            assert(self.bets@.skip(n as int) =~= Seq::<BetInfo>::empty());
            assert(pairs@ + Seq::<(u128, u128)>::empty() =~= pairs@);
        }
        Ok((pairs, total))
    }

    /// What one finished bet currently owes the user, without touching
    /// anything.
    pub fn query_my_pending_reward_round(&self, bet_id: u128, player: &String) -> (r: Result<
        u128,
        ContractError,
    >)
        requires
            self.wf(),
        ensures
            r matches Ok(v) ==> spec_bet_by_id(self.finished@, bet_id) is Some && self.has_bet(
                bet_id,
                player@,
            ) && v == dao_spec_payout(
                self.spec_finished_bet(bet_id),
                self.spec_bet_record(bet_id, player@).amount,
                self.spec_bet_record(bet_id, player@).option@,
            ) && v > 0,
            r matches Err(e) ==> ((e is BetNotFound <==> spec_bet_by_id(
                self.finished@,
                bet_id,
            ) is None)),
    {
        let ifi = match find_bet_by_id(&self.finished, bet_id) {
            None => {
                return Err(ContractError::BetNotFound);
            },
            Some(i) => i,
        };
        let ip = match find_position(&self.bets, bet_id, player) {
            None => {
                return Err(ContractError::NothingToClaim);
            },
            Some(i) => i,
        };
        proof {
            dao_lemma_bet_record_unique(*self, ip as int, bet_id, player@);
            assert(dao_covered(self.bets@, self.finished@[ifi as int]));
            lemma_opt_contrib_le_sum(self.bets@, ip as int, bet_id, self.bets@[ip as int].option@);
            assert(sum_bet_option(self.bets@, bet_id, self.bets@[ip as int].option@)
                <= spec_opt_amount(
                self.finished@[ifi as int].current_bet_amounts@,
                self.bets@[ip as int].option@,
            ));
        }
        let b_amount = self.bets[ip].amount;
        match dao_settle(&self.finished[ifi], b_amount, &self.bets[ip].option) {
            Err(e) => Err(e),
            Ok((payout, _)) => {
                if payout == 0 {
                    Err(ContractError::NothingToClaim)
                } else {
                    Ok(payout)
                }
            },
        }
    }

    /// Every position of one user, in ledger order.
    pub fn query_my_games_without_limit(&self, player: &String) -> (r: MyBetsResponse)
        ensures
            r.my_bets_list@ == dao_my_bets_list(self.bets@, player@, None::<u128>),
    {
        let mut out: Vec<BetInfo> = Vec::new();
        let n = self.bets.len();
        proof {
            assert(self.bets@.skip(0) =~= self.bets@);
        }
        for idx in 0..n
            invariant
                n == self.bets@.len(),
                dao_my_bets_list(self.bets@, player@, None::<u128>) == out@ + dao_my_bets_list(
                    self.bets@.skip(idx as int),
                    player@,
                    None::<u128>,
                ),
        {
            proof {
                assert(self.bets@.skip(idx as int).drop_first() =~= self.bets@.skip(
                    idx as int + 1,
                ));
                assert(self.bets@.skip(idx as int)[0] == self.bets@[idx as int]);
            }
            let ghost out0 = out@;
            if self.bets[idx].player == *player {
                let bcopy = BetInfo {
                    player: self.bets[idx].player.clone(),
                    bet_id: self.bets[idx].bet_id,
                    amount: self.bets[idx].amount,
                    option: self.bets[idx].option.clone(),
                };
                proof {
                    assert(bcopy == self.bets@[idx as int]);
                }
                out.push(bcopy);
                proof {
                    assert(out0.push(self.bets@[idx as int]) + dao_my_bets_list(
                        self.bets@.skip(idx as int + 1),
                        player@,
                        None::<u128>,
                    ) =~= out0 + (seq![self.bets@[idx as int]] + dao_my_bets_list(
                        self.bets@.skip(idx as int + 1),
                        player@,
                        None::<u128>,
                    )));
                }
            }
        }
        proof {
            assert(self.bets@.skip(n as int) =~= Seq::<BetInfo>::empty());
            assert(out@ + Seq::<BetInfo>::empty() =~= out@);
        }
        MyBetsResponse { my_bets_list: out }
    }

    /// A page of one user's positions past an exclusive bet cursor, in
    /// ledger order.
    pub fn query_my_games_with_limit(
        &self,
        player: &String,
        start_after: Option<u128>,
        limit: Option<u32>,
    ) -> (r: MyBetsResponse)
        ensures
            ({
                let full = dao_my_bets_list(self.bets@, player@, start_after);
                let lim = dao_page_limit_spec(limit);
                &&& r.my_bets_list@.len() == (if full.len() <= lim {
                    full.len() as int
                } else {
                    lim
                })
                &&& forall|k: int|
                    0 <= k < r.my_bets_list@.len() ==> #[trigger] r.my_bets_list@[k] == full[k]
            }),
    {
        let mut out: Vec<BetInfo> = Vec::new();
        let n = self.bets.len();
        proof {
            assert(self.bets@.skip(0) =~= self.bets@);
        }
        for idx in 0..n
            invariant
                n == self.bets@.len(),
                dao_my_bets_list(self.bets@, player@, start_after) == out@ + dao_my_bets_list(
                    self.bets@.skip(idx as int),
                    player@,
                    start_after,
                ),
        {
            proof {
                assert(self.bets@.skip(idx as int).drop_first() =~= self.bets@.skip(
                    idx as int + 1,
                ));
                assert(self.bets@.skip(idx as int)[0] == self.bets@[idx as int]);
            }
            let ghost out0 = out@;
            let sel = self.bets[idx].player == *player && (match start_after {
                Some(s) => self.bets[idx].bet_id > s,
                None => true,
            });
            if sel {
                let bcopy = BetInfo {
                    player: self.bets[idx].player.clone(),
                    bet_id: self.bets[idx].bet_id,
                    amount: self.bets[idx].amount,
                    option: self.bets[idx].option.clone(),
                };
                proof {
                    assert(bcopy == self.bets@[idx as int]);
                }
                out.push(bcopy);
                proof {
                    assert(out0.push(self.bets@[idx as int]) + dao_my_bets_list(
                        self.bets@.skip(idx as int + 1),
                        player@,
                        start_after,
                    ) =~= out0 + (seq![self.bets@[idx as int]] + dao_my_bets_list(
                        self.bets@.skip(idx as int + 1),
                        player@,
                        start_after,
                    )));
                }
            }
        }
        proof {
            assert(self.bets@.skip(n as int) =~= Seq::<BetInfo>::empty());
            assert(out@ + Seq::<BetInfo>::empty() =~= out@);
        }
        let lim = dao_page_limit(limit);
        out.truncate(lim);
        MyBetsResponse { my_bets_list: out }
    }

    /// A page of one user's positions: the same listing the host calls the
    /// user's current bets.
    pub fn query_my_current_bets(
        &self,
        player: &String,
        start_after: Option<u128>,
        limit: Option<u32>,
    ) -> (r: MyBetsResponse)
        ensures
            ({
                let full = dao_my_bets_list(self.bets@, player@, start_after);
                let lim = dao_page_limit_spec(limit);
                &&& r.my_bets_list@.len() == (if full.len() <= lim {
                    full.len() as int
                } else {
                    lim
                })
                &&& forall|k: int|
                    0 <= k < r.my_bets_list@.len() ==> #[trigger] r.my_bets_list@[k] == full[k]
            }),
    {
        self.query_my_games_with_limit(player, start_after, limit)
    }

    /// How many bets have ever been created.
    pub fn query_total_bets(&self) -> (r: u128)
        requires
            self.wf(),
        ensures
            r == self.next_bet_id - 1,
    {
        self.next_bet_id - 1
    }

    /// A user's cumulative spend.
    pub fn query_total_spent(&self, player: &String) -> (r: u128)
        ensures
            r == crate::game::spec_spent(self.totals_spent@, player@),
    {
        crate::game::lookup_spent(&self.totals_spent, player)
    }

    /// A page of one bet's positions, in ledger order, optionally after
    /// the first entry of a given user.
    pub fn query_users_per_round(
        &self,
        bet_id: u128,
        start_after: Option<&String>,
        limit: Option<u32>,
    ) -> (r: MyBetsResponse)
        ensures
            ({
                let base = dao_round_users_list(self.bets@, bet_id);
                let win = (match start_after {
                    None => base,
                    Some(p) => dao_after_user(base, p@),
                });
                let lim = dao_page_limit_spec(limit);
                &&& r.my_bets_list@.len() == (if win.len() <= lim {
                    win.len() as int
                } else {
                    lim
                })
                &&& forall|k: int|
                    0 <= k < r.my_bets_list@.len() ==> #[trigger] r.my_bets_list@[k] == win[k]
            }),
    {
        let mut base: Vec<BetInfo> = Vec::new();
        let n = self.bets.len();
        proof {
            assert(self.bets@.skip(0) =~= self.bets@);
        }
        for idx in 0..n
            invariant
                n == self.bets@.len(),
                dao_round_users_list(self.bets@, bet_id) == base@ + dao_round_users_list(
                    self.bets@.skip(idx as int),
                    bet_id,
                ),
        {
            proof {
                assert(self.bets@.skip(idx as int).drop_first() =~= self.bets@.skip(
                    idx as int + 1,
                ));
                assert(self.bets@.skip(idx as int)[0] == self.bets@[idx as int]);
            }
            let ghost base0 = base@;
            if self.bets[idx].bet_id == bet_id {
                let bcopy = BetInfo {
                    player: self.bets[idx].player.clone(),
                    bet_id: self.bets[idx].bet_id,
                    amount: self.bets[idx].amount,
                    option: self.bets[idx].option.clone(),
                };
                proof {
                    assert(bcopy == self.bets@[idx as int]);
                }
                base.push(bcopy);
                proof {
                    assert(base0.push(self.bets@[idx as int]) + dao_round_users_list(
                        self.bets@.skip(idx as int + 1),
                        bet_id,
                    ) =~= base0 + (seq![self.bets@[idx as int]] + dao_round_users_list(
                        self.bets@.skip(idx as int + 1),
                        bet_id,
                    )));
                }
            }
        }
        proof {
            assert(self.bets@.skip(n as int) =~= Seq::<BetInfo>::empty());
            assert(base@ + Seq::<BetInfo>::empty() =~= base@);
        }
        let mut out: Vec<BetInfo> = Vec::new();
        match start_after {
            None => {
                out = base;
            },
            Some(p) => {
                let m = base.len();
                let mut cursor: Option<usize> = None;
                for idx in 0..m
                    invariant
                        m == base@.len(),
                        cursor is None ==> forall|j: int|
                            0 <= j < idx ==> (#[trigger] base@[j]).player@ != p@,
                        cursor matches Some(i) ==> i < idx && base@[i as int].player@ == p@ && (
                        forall|j: int| 0 <= j < i ==> (#[trigger] base@[j]).player@ != p@),
                {
                    if cursor.is_none() && base[idx].player == *p {
                        cursor = Some(idx);
                    }
                }
                match cursor {
                    None => {
                        proof {
                            dao_lemma_after_user_absent(base@, p@);
                        }
                    },
                    Some(i) => {
                        proof {
                            dao_lemma_after_user_found(base@, i as int, p@);
                        }
                        let mut j = i + 1;
                        while j < base.len()
                            invariant
                                i < base@.len(),
                                i + 1 <= j <= base@.len(),
                                out@.len() == j - i - 1,
                                forall|k: int|
                                    0 <= k < out@.len() ==> #[trigger] out@[k] == base@[i + 1 + k],
                            decreases base@.len() - j,
                        {
                            let bcopy = BetInfo {
                                player: base[j].player.clone(),
                                bet_id: base[j].bet_id,
                                amount: base[j].amount,
                                option: base[j].option.clone(),
                            };
                            proof {
                                assert(bcopy == base@[j as int]);
                            }
                            out.push(bcopy);
                            j = j + 1;
                        }
                        proof {
                            assert(out@ =~= base@.skip(i as int + 1));
                        }
                    },
                }
            },
        }
        let lim = dao_page_limit(limit);
        out.truncate(lim);
        MyBetsResponse { my_bets_list: out }
    }

    /// A page of one bet's claim records, in ledger order, optionally
    /// after the first record of a given user.
    pub fn query_claim_info_per_round(
        &self,
        bet_id: u128,
        start_after: Option<&String>,
        limit: Option<u32>,
    ) -> (r: ClaimInfoResponse)
        ensures
            ({
                let base = dao_claims_by_round(self.claims@, bet_id);
                let win = (match start_after {
                    None => base,
                    Some(p) => dao_after_claim_user(base, p@),
                });
                let lim = dao_page_limit_spec(limit);
                &&& r.claim_info@.len() == (if win.len() <= lim {
                    win.len() as int
                } else {
                    lim
                })
                &&& forall|k: int|
                    0 <= k < r.claim_info@.len() ==> #[trigger] r.claim_info@[k] == win[k]
            }),
    {
        let mut base: Vec<ClaimInfo> = Vec::new();
        let n = self.claims.len();
        proof {
            assert(self.claims@.skip(0) =~= self.claims@);
        }
        for idx in 0..n
            invariant
                n == self.claims@.len(),
                dao_claims_by_round(self.claims@, bet_id) == base@ + dao_claims_by_round(
                    self.claims@.skip(idx as int),
                    bet_id,
                ),
        {
            proof {
                assert(self.claims@.skip(idx as int).drop_first() =~= self.claims@.skip(
                    idx as int + 1,
                ));
                assert(self.claims@.skip(idx as int)[0] == self.claims@[idx as int]);
            }
            let ghost base0 = base@;
            if self.claims[idx].bet_id == bet_id {
                let ccopy = ClaimInfo {
                    player: self.claims[idx].player.clone(),
                    bet_id: self.claims[idx].bet_id,
                    claimed_amount: self.claims[idx].claimed_amount,
                };
                proof {
                    assert(ccopy == self.claims@[idx as int]);
                }
                base.push(ccopy);
                proof {
                    assert(base0.push(self.claims@[idx as int]) + dao_claims_by_round(
                        self.claims@.skip(idx as int + 1),
                        bet_id,
                    ) =~= base0 + (seq![self.claims@[idx as int]] + dao_claims_by_round(
                        self.claims@.skip(idx as int + 1),
                        bet_id,
                    )));
                }
            }
        }
        proof {
            assert(self.claims@.skip(n as int) =~= Seq::<ClaimInfo>::empty());
            assert(base@ + Seq::<ClaimInfo>::empty() =~= base@);
        }
        let mut out: Vec<ClaimInfo> = Vec::new();
        match start_after {
            None => {
                out = base;
            },
            Some(p) => {
                let m = base.len();
                let mut cursor: Option<usize> = None;
                for idx in 0..m
                    invariant
                        m == base@.len(),
                        cursor is None ==> forall|j: int|
                            0 <= j < idx ==> (#[trigger] base@[j]).player@ != p@,
                        cursor matches Some(i) ==> i < idx && base@[i as int].player@ == p@ && (
                        forall|j: int| 0 <= j < i ==> (#[trigger] base@[j]).player@ != p@),
                {
                    if cursor.is_none() && base[idx].player == *p {
                        cursor = Some(idx);
                    }
                }
                match cursor {
                    None => {
                        proof {
                            dao_lemma_after_claim_absent(base@, p@);
                        }
                    },
                    Some(i) => {
                        proof {
                            dao_lemma_after_claim_found(base@, i as int, p@);
                        }
                        let mut j = i + 1;
                        while j < base.len()
                            invariant
                                i < base@.len(),
                                i + 1 <= j <= base@.len(),
                                out@.len() == j - i - 1,
                                forall|k: int|
                                    0 <= k < out@.len() ==> #[trigger] out@[k] == base@[i + 1 + k],
                            decreases base@.len() - j,
                        {
                            let ccopy = ClaimInfo {
                                player: base[j].player.clone(),
                                bet_id: base[j].bet_id,
                                claimed_amount: base[j].claimed_amount,
                            };
                            proof {
                                assert(ccopy == base@[j as int]);
                            }
                            out.push(ccopy);
                            j = j + 1;
                        }
                        proof {
                            assert(out@ =~= base@.skip(i as int + 1));
                        }
                    },
                }
            },
        }
        let lim = dao_page_limit(limit);
        out.truncate(lim);
        ClaimInfoResponse { claim_info: out }
    }

    /// A page of one user's claim records past an exclusive bet cursor, in
    /// ledger order.
    pub fn query_claim_info_by_user(
        &self,
        player: &String,
        start_after: Option<u128>,
        limit: Option<u32>,
    ) -> (r: ClaimInfoResponse)
        ensures
            ({
                let full = dao_claims_by_user(self.claims@, player@, start_after);
                let lim = dao_page_limit_spec(limit);
                &&& r.claim_info@.len() == (if full.len() <= lim {
                    full.len() as int
                } else {
                    lim
                })
                &&& forall|k: int|
                    0 <= k < r.claim_info@.len() ==> #[trigger] r.claim_info@[k] == full[k]
            }),
    {
        let mut out: Vec<ClaimInfo> = Vec::new();
        let n = self.claims.len();
        proof {
            assert(self.claims@.skip(0) =~= self.claims@);
        }
        for idx in 0..n
            invariant
                n == self.claims@.len(),
                dao_claims_by_user(self.claims@, player@, start_after) == out@
                    + dao_claims_by_user(self.claims@.skip(idx as int), player@, start_after),
        {
            proof {
                assert(self.claims@.skip(idx as int).drop_first() =~= self.claims@.skip(
                    idx as int + 1,
                ));
                assert(self.claims@.skip(idx as int)[0] == self.claims@[idx as int]);
            }
            let ghost out0 = out@;
            let sel = self.claims[idx].player == *player && (match start_after {
                Some(s) => self.claims[idx].bet_id > s,
                None => true,
            });
            if sel {
                let ccopy = ClaimInfo {
                    player: self.claims[idx].player.clone(),
                    bet_id: self.claims[idx].bet_id,
                    claimed_amount: self.claims[idx].claimed_amount,
                };
                proof {
                    assert(ccopy == self.claims@[idx as int]);
                }
                out.push(ccopy);
                proof {
                    assert(out0.push(self.claims@[idx as int]) + dao_claims_by_user(
                        self.claims@.skip(idx as int + 1),
                        player@,
                        start_after,
                    ) =~= out0 + (seq![self.claims@[idx as int]] + dao_claims_by_user(
                        self.claims@.skip(idx as int + 1),
                        player@,
                        start_after,
                    )));
                }
            }
        }
        proof {
            assert(self.claims@.skip(n as int) =~= Seq::<ClaimInfo>::empty());
            assert(out@ + Seq::<ClaimInfo>::empty() =~= out@);
        }
        let lim = dao_page_limit(limit);
        out.truncate(lim);
        ClaimInfoResponse { claim_info: out }
    }

    /// A page of finished bets past an exclusive id cursor, in ledger
    /// order.
    pub fn query_finished_bets(&self, start_after: Option<u128>, limit: Option<u32>) -> (r: Vec<
        Bet,
    >)
        ensures
            dao_bets_page_matches(
                r@,
                dao_bets_page(self.finished@, start_after, None::<Seq<char>>),
                dao_page_limit_spec(limit),
            ),
    {
        page_bets(&self.finished, start_after, None, limit)
    }

    /// A page of still-open bets past an exclusive id cursor, in ledger
    /// order.
    pub fn query_unfinished_bets(&self, start_after: Option<u128>, limit: Option<u32>) -> (r: Vec<
        Bet,
    >)
        ensures
            dao_bets_page_matches(
                r@,
                dao_bets_page(self.unfinished@, start_after, None::<Seq<char>>),
                dao_page_limit_spec(limit),
            ),
    {
        page_bets(&self.unfinished, start_after, None, limit)
    }

    /// A page of finished bets on one topic.
    pub fn query_finished_bets_by_topic(
        &self,
        topic: &String,
        start_after: Option<u128>,
        limit: Option<u32>,
    ) -> (r: Vec<Bet>)
        ensures
            dao_bets_page_matches(
                r@,
                dao_bets_page(self.finished@, start_after, Some(topic@)),
                dao_page_limit_spec(limit),
            ),
    {
        page_bets(&self.finished, start_after, Some(topic), limit)
    }

    /// A page of still-open bets on one topic.
    pub fn query_unfinished_bets_by_topic(
        &self,
        topic: &String,
        start_after: Option<u128>,
        limit: Option<u32>,
    ) -> (r: Vec<Bet>)
        ensures
            dao_bets_page_matches(
                r@,
                dao_bets_page(self.unfinished@, start_after, Some(topic@)),
                dao_page_limit_spec(limit),
            ),
    {
        page_bets(&self.unfinished, start_after, Some(topic), limit)
    }

    /// Look a finished bet up by id.
    pub fn query_finished_bet(&self, bet_id: u128) -> (r: Option<Bet>)
        ensures
            r is Some <==> spec_bet_by_id(self.finished@, bet_id) is Some,
            r matches Some(b) ==> b == (Bet {
                options: b.options,
                current_bet_amounts: b.current_bet_amounts,
                ..spec_bet_by_id(self.finished@, bet_id)->0
            }) && b.options@ == spec_bet_by_id(self.finished@, bet_id)->0.options@
                && b.current_bet_amounts@ == spec_bet_by_id(
                self.finished@,
                bet_id,
            )->0.current_bet_amounts@,
    {
        match find_bet_by_id(&self.finished, bet_id) {
            None => None,
            Some(i) => Some(copy_dao_bet(&self.finished[i])),
        }
    }

    /// Look a still-open bet up by id.
    pub fn query_unfinished_bet(&self, bet_id: u128) -> (r: Option<Bet>)
        ensures
            r is Some <==> spec_bet_by_id(self.unfinished@, bet_id) is Some,
            r matches Some(b) ==> b == (Bet {
                options: b.options,
                current_bet_amounts: b.current_bet_amounts,
                ..spec_bet_by_id(self.unfinished@, bet_id)->0
            }) && b.options@ == spec_bet_by_id(self.unfinished@, bet_id)->0.options@
                && b.current_bet_amounts@ == spec_bet_by_id(
                self.unfinished@,
                bet_id,
            )->0.current_bet_amounts@,
    {
        match find_bet_by_id(&self.unfinished, bet_id) {
            None => None,
            Some(i) => Some(copy_dao_bet(&self.unfinished[i])),
        }
    }

    /// Hand ownership to another account.  Owner only.
    pub fn update_owner(&mut self, sender: &String, new_owner: String) -> (r: Result<
        (),
        ContractError,
    >)
        requires
            old(self).wf(),
        ensures
            final(self).wf(),
            r is Ok <==> sender@ == old(self).owner@,
            r is Ok ==> *final(self) == (DaoBets { owner: new_owner, ..*old(self) }),
            r is Err ==> *final(self) == *old(self) && (r matches Err(e) && e is Unauthorized),
    {
        if !(*sender == self.owner) {
            return Err(ContractError::Unauthorized);
        }
        self.owner = new_owner;
        Ok(())
    }
}

} // verus!
