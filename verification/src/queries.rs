use vstd::prelude::*;
use crate::errors::ContractError;
use crate::game::{
    claimable, spec_pending_commissionable, spec_pending_total, spec_pool_overflow, spec_spent,
    Game,
};
use crate::types::{
    AdminsResponse, BetInfo, ClaimInfo, ClaimInfoResponse, Direction, FinishedRound, LiveRound,
    MyCurrentPositionResponse, MyGameResponse, NextRound, PendingRefundableAmountResponse,
    PendingRefundableAmountRoundsResponse, PendingRewardResponse, PendingRewardRoundsResponse,
    RoundDenomsResponse, RoundUsersResponse, StatusResponse, TickersResponse, TotalSpentResponse,
};

verus! {

/// The page size a query serves: the caller's limit, capped, or the
/// default.
pub open spec fn spec_page_limit(limit: Option<u32>) -> int {
    match limit {
        Some(l) => (if l < 30 {
            l as int
        } else {
            30
        }),
        None => 10,
    }
}

/// Resolve the effective page size.
fn page_limit(limit: Option<u32>) -> (r: usize)
    ensures
        r == spec_page_limit(limit),
{
    match limit {
        Some(l) => (if l < 30 {
            l as usize
        } else {
            30
        }),
        None => 10,
    }
}

/// Whether a position shows up in a user's game listing after a cursor.
pub open spec fn game_selected(b: BetInfo, player: Seq<char>, start_after: Option<u128>) -> bool {
    b.player@ == player && (start_after matches Some(s) ==> b.round_id > s)
}

/// One user's positions after an exclusive round cursor, in ledger order,
/// which the sorted ledger keeps ordered by round id.
pub open spec fn spec_my_games_list(
    bets: Seq<BetInfo>,
    player: Seq<char>,
    start_after: Option<u128>,
) -> Seq<BetInfo>
    decreases bets.len(),
{
    if bets.len() == 0 {
        Seq::empty()
    } else {
        let rest = spec_my_games_list(bets.drop_first(), player, start_after);
        if game_selected(bets[0], player, start_after) {
            seq![bets[0]] + rest
        } else {
            rest
        }
    }
}

/// One round's positions, in ledger order.
pub open spec fn spec_round_users_list(bets: Seq<BetInfo>, rid: u128) -> Seq<BetInfo>
    decreases bets.len(),
{
    if bets.len() == 0 {
        Seq::empty()
    } else {
        let rest = spec_round_users_list(bets.drop_first(), rid);
        if bets[0].round_id == rid {
            seq![bets[0]] + rest
        } else {
            rest
        }
    }
}

/// What follows the first entry of a user in a position listing; empty when
/// the user does not appear.
pub open spec fn spec_after_user(s: Seq<BetInfo>, start: Seq<char>) -> Seq<BetInfo>
    decreases s.len(),
{
    if s.len() == 0 {
        Seq::empty()
    } else if s[0].player@ == start {
        s.drop_first()
    } else {
        spec_after_user(s.drop_first(), start)
    }
}

/// One round's claim records, in ledger order.
pub open spec fn spec_claims_by_round(claims: Seq<ClaimInfo>, rid: u128) -> Seq<ClaimInfo>
    decreases claims.len(),
{
    if claims.len() == 0 {
        Seq::empty()
    } else {
        let rest = spec_claims_by_round(claims.drop_first(), rid);
        if claims[0].round_id == rid {
            seq![claims[0]] + rest
        } else {
            rest
        }
    }
}

/// What follows the first claim of a user in a claim listing; empty when
/// the user does not appear.
pub open spec fn spec_after_claim_user(s: Seq<ClaimInfo>, start: Seq<char>) -> Seq<ClaimInfo>
    decreases s.len(),
{
    if s.len() == 0 {
        Seq::empty()
    } else if s[0].player@ == start {
        s.drop_first()
    } else {
        spec_after_claim_user(s.drop_first(), start)
    }
}

/// One user's claim records after an exclusive round cursor, in ledger
/// order.
pub open spec fn spec_claims_by_user(
    claims: Seq<ClaimInfo>,
    player: Seq<char>,
    start_after: Option<u128>,
) -> Seq<ClaimInfo>
    decreases claims.len(),
{
    if claims.len() == 0 {
        Seq::empty()
    } else {
        let rest = spec_claims_by_user(claims.drop_first(), player, start_after);
        if claims[0].player@ == player && (start_after matches Some(s) ==> claims[0].round_id
            > s) {
            seq![claims[0]] + rest
        } else {
            rest
        }
    }
}

/// Per-round pending rewards: the rounds that owe the user anything, each
/// with its payout, in ledger order.
pub open spec fn spec_pending_rounds(
    bets: Seq<BetInfo>,
    rounds: Seq<FinishedRound>,
    player: Seq<char>,
) -> Seq<(u128, u128)>
    decreases bets.len(),
{
    if bets.len() == 0 {
        Seq::empty()
    } else {
        let rest = spec_pending_rounds(bets.drop_first(), rounds, player);
        let payout = crate::settle::spec_payout(
            rounds[bets[0].round_id as int],
            bets[0].amount,
            bets[0].direction,
        );
        if claimable(bets[0], rounds.len() as int, player) && payout > 0 {
            seq![(bets[0].round_id, payout as u128)] + rest
        } else {
            rest
        }
    }
}

/// Whether a finished round refunds because one side holds no stake.
pub open spec fn unmatched_round(r: FinishedRound) -> bool {
    r.bull_amount == 0 || r.bear_amount == 0
}

/// Everything a user can get back from unmatched finished rounds.
pub open spec fn spec_refundable_total(
    bets: Seq<BetInfo>,
    rounds: Seq<FinishedRound>,
    player: Seq<char>,
) -> int
    decreases bets.len(),
{
    if bets.len() == 0 {
        0
    } else {
        (if claimable(bets[0], rounds.len() as int, player) && unmatched_round(
            rounds[bets[0].round_id as int],
        ) {
            bets[0].amount as int
        } else {
            0
        }) + spec_refundable_total(bets.drop_first(), rounds, player)
    }
}

/// The refundable amounts per unmatched finished round, in ledger order.
pub open spec fn spec_refundable_rounds(
    bets: Seq<BetInfo>,
    rounds: Seq<FinishedRound>,
    player: Seq<char>,
) -> Seq<(u128, u128)>
    decreases bets.len(),
{
    if bets.len() == 0 {
        Seq::empty()
    } else {
        let rest = spec_refundable_rounds(bets.drop_first(), rounds, player);
        if claimable(bets[0], rounds.len() as int, player) && unmatched_round(
            rounds[bets[0].round_id as int],
        ) {
            seq![(bets[0].round_id, bets[0].amount)] + rest
        } else {
            rest
        }
    }
}

/// Copy a position record.
fn copy_bet(b: &BetInfo) -> (r: BetInfo)
    ensures
        r == *b,
{
    BetInfo {
        player: b.player.clone(),
        round_id: b.round_id,
        amount: b.amount,
        direction: b.direction,
    }
}

/// Copy a claim record.
fn copy_claim(c: &ClaimInfo) -> (r: ClaimInfo)
    ensures
        r == *c,
{
    ClaimInfo { player: c.player.clone(), round_id: c.round_id, claimed_amount: c.claimed_amount }
}

/// Copy a bidding round.
fn copy_next(n: &NextRound) -> (r: NextRound)
    ensures
        r == *n,
{
    NextRound {
        id: n.id,
        bid_time: n.bid_time,
        open_time: n.open_time,
        close_time: n.close_time,
        bull_amount: n.bull_amount,
        bear_amount: n.bear_amount,
        denom: n.denom.clone(),
    }
}

/// Copy a live round.
fn copy_live(l: &LiveRound) -> (r: LiveRound)
    ensures
        r == *l,
{
    LiveRound {
        id: l.id,
        bid_time: l.bid_time,
        open_time: l.open_time,
        close_time: l.close_time,
        open_price: l.open_price,
        bull_amount: l.bull_amount,
        bear_amount: l.bear_amount,
        denom: l.denom.clone(),
    }
}

/// Copy a finished round.
fn copy_finished(f: &FinishedRound) -> (r: FinishedRound)
    ensures
        r == *f,
{
    FinishedRound {
        id: f.id,
        bid_time: f.bid_time,
        open_time: f.open_time,
        close_time: f.close_time,
        open_price: f.open_price,
        close_price: f.close_price,
        winner: f.winner,
        bull_amount: f.bull_amount,
        bear_amount: f.bear_amount,
        denom: f.denom.clone(),
    }
}

/// Copy a list of strings.
fn clone_strings(v: &Vec<String>) -> (r: Vec<String>)
    ensures
        r@ == v@,
{
    let mut out: Vec<String> = Vec::new();
    let n = v.len();
    for idx in 0..n
        invariant
            n == v@.len(),
            out@.len() == idx,
            forall|k: int| 0 <= k < idx ==> #[trigger] out@[k] == v@[k],
    {
        out.push(v[idx].clone());
    }
    proof {
        assert(out@ =~= v@);
    }
    out
}

impl Game {
    /// Every position of one user, ordered by round id.
    pub fn query_my_games_without_limit(&self, player: &String) -> (r: MyGameResponse)
        ensures
            r.my_game_list@ == spec_my_games_list(self.bets@, player@, None::<u128>),
    {
        let mut out: Vec<BetInfo> = Vec::new();
        let n = self.bets.len();
        proof {
            assert(self.bets@.skip(0) =~= self.bets@);
        }
        for idx in 0..n
            invariant
                n == self.bets@.len(),
                spec_my_games_list(self.bets@, player@, None::<u128>) == out@
                    + spec_my_games_list(self.bets@.skip(idx as int), player@, None::<u128>),
        {
            proof {
                assert(self.bets@.skip(idx as int).drop_first() =~= self.bets@.skip(
                    idx as int + 1,
                ));
                assert(self.bets@.skip(idx as int)[0] == self.bets@[idx as int]);
            }
            let ghost out0 = out@;
            if self.bets[idx].player == *player {
                out.push(copy_bet(&self.bets[idx]));
                proof {
                    assert(out0.push(self.bets@[idx as int]) + spec_my_games_list(
                        self.bets@.skip(idx as int + 1),
                        player@,
                        None::<u128>,
                    ) =~= out0 + (seq![self.bets@[idx as int]] + spec_my_games_list(
                        self.bets@.skip(idx as int + 1),
                        player@,
                        None::<u128>,
                    )));
                }
            }
        }
        proof {
            assert(self.bets@.skip(n as int) =~= Seq::<BetInfo>::empty());
            assert(out@ + Seq::<BetInfo>::empty() =~= out@);
        }
        MyGameResponse { my_game_list: out }
    }

    /// A page of one user's positions: those past the exclusive round
    /// cursor, ordered by round id, capped at the page size.
    pub fn query_my_games(&self, player: &String, start_after: Option<u128>, limit: Option<u32>)
        -> (r: MyGameResponse)
        ensures
            ({
                let full = spec_my_games_list(self.bets@, player@, start_after);
                let lim = spec_page_limit(limit);
                &&& r.my_game_list@.len() == (if full.len() <= lim {
                    full.len() as int
                } else {
                    lim
                })
                &&& forall|k: int|
                    0 <= k < r.my_game_list@.len() ==> #[trigger] r.my_game_list@[k] == full[k]
            }),
    {
        let mut out: Vec<BetInfo> = Vec::new();
        let n = self.bets.len();
        proof {
            assert(self.bets@.skip(0) =~= self.bets@);
        }
        for idx in 0..n
            invariant
                n == self.bets@.len(),
                spec_my_games_list(self.bets@, player@, start_after) == out@ + spec_my_games_list(
                    self.bets@.skip(idx as int),
                    player@,
                    start_after,
                ),
        {
            proof {
                assert(self.bets@.skip(idx as int).drop_first() =~= self.bets@.skip(
                    idx as int + 1,
                ));
                assert(self.bets@.skip(idx as int)[0] == self.bets@[idx as int]);
            }
            let ghost out0 = out@;
            let sel = self.bets[idx].player == *player && (match start_after {
                Some(s) => self.bets[idx].round_id > s,
                None => true,
            });
            if sel {
                out.push(copy_bet(&self.bets[idx]));
                proof {
                    assert(out0.push(self.bets@[idx as int]) + spec_my_games_list(
                        self.bets@.skip(idx as int + 1),
                        player@,
                        start_after,
                    ) =~= out0 + (seq![self.bets@[idx as int]] + spec_my_games_list(
                        self.bets@.skip(idx as int + 1),
                        player@,
                        start_after,
                    )));
                }
            }
        }
        proof {
            assert(self.bets@.skip(n as int) =~= Seq::<BetInfo>::empty());
            assert(out@ + Seq::<BetInfo>::empty() =~= out@);
        }
        let lim = page_limit(limit);
        let ghost full = out@;
        out.truncate(lim);
        MyGameResponse { my_game_list: out }
    }

    /// A page of one round's positions, in ledger order, optionally after
    /// the first entry of a given user.
    pub fn query_users_per_round(
        &self,
        round_id: u128,
        start_after: Option<&String>,
        limit: Option<u32>,
    ) -> (r: RoundUsersResponse)
        ensures
            ({
                let base = spec_round_users_list(self.bets@, round_id);
                let win = (match start_after {
                    None => base,
                    Some(p) => spec_after_user(base, p@),
                });
                let lim = spec_page_limit(limit);
                &&& r.round_users@.len() == (if win.len() <= lim {
                    win.len() as int
                } else {
                    lim
                })
                &&& forall|k: int|
                    0 <= k < r.round_users@.len() ==> #[trigger] r.round_users@[k] == win[k]
            }),
    {
        let mut base: Vec<BetInfo> = Vec::new();
        let n = self.bets.len();
        proof {
            assert(self.bets@.skip(0) =~= self.bets@);
        }
        for idx in 0..n
            invariant
                n == self.bets@.len(),
                spec_round_users_list(self.bets@, round_id) == base@ + spec_round_users_list(
                    self.bets@.skip(idx as int),
                    round_id,
                ),
        {
            proof {
                assert(self.bets@.skip(idx as int).drop_first() =~= self.bets@.skip(
                    idx as int + 1,
                ));
                assert(self.bets@.skip(idx as int)[0] == self.bets@[idx as int]);
            }
            let ghost base0 = base@;
            if self.bets[idx].round_id == round_id {
                base.push(copy_bet(&self.bets[idx]));
                proof {
                    assert(base0.push(self.bets@[idx as int]) + spec_round_users_list(
                        self.bets@.skip(idx as int + 1),
                        round_id,
                    ) =~= base0 + (seq![self.bets@[idx as int]] + spec_round_users_list(
                        self.bets@.skip(idx as int + 1),
                        round_id,
                    )));
                }
            }
        }
        proof {
            assert(self.bets@.skip(n as int) =~= Seq::<BetInfo>::empty());
            assert(base@ + Seq::<BetInfo>::empty() =~= base@);
        }
        let mut out: Vec<BetInfo> = Vec::new();
        match start_after {
            None => {
                out = base;
            },
            Some(p) => {
                let m = base.len();
                let mut cursor: Option<usize> = None;
                for idx in 0..m
                    invariant
                        m == base@.len(),
                        cursor is None ==> forall|j: int|
                            0 <= j < idx ==> (#[trigger] base@[j]).player@ != p@,
                        cursor matches Some(i) ==> i < idx && base@[i as int].player@ == p@ && (
                        forall|j: int| 0 <= j < i ==> (#[trigger] base@[j]).player@ != p@),
                {
                    if cursor.is_none() && base[idx].player == *p {
                        cursor = Some(idx);
                    }
                }
                match cursor {
                    None => {
                        proof {
                            lemma_after_user_absent(base@, p@);
                        }
                    },
                    Some(i) => {
                        proof {
                            lemma_after_user_found(base@, i as int, p@);
                        }
                        let mut j = i + 1;
                        while j < base.len()
                            invariant
                                i < base@.len(),
                                i + 1 <= j <= base@.len(),
                                out@.len() == j - i - 1,
                                forall|k: int|
                                    0 <= k < out@.len() ==> #[trigger] out@[k] == base@[i + 1 + k],
                            decreases base@.len() - j,
                        {
                            out.push(copy_bet(&base[j]));
                            j = j + 1;
                        }
                        proof {
                            assert(out@ =~= base@.skip(i as int + 1));
                        }
                    },
                }
            },
        }
        let lim = page_limit(limit);
        out.truncate(lim);
        RoundUsersResponse { round_users: out }
    }
}

/// When a user's first entry sits at index `i`, what follows it is the rest
/// of the listing.
proof fn lemma_after_user_found(s: Seq<BetInfo>, i: int, p: Seq<char>)
    requires
        0 <= i < s.len(),
        s[i].player@ == p,
        forall|j: int| 0 <= j < i ==> (#[trigger] s[j]).player@ != p,
    ensures
        spec_after_user(s, p) == s.skip(i + 1),
    decreases i,
{
    if i == 0 {
        assert(s.drop_first() =~= s.skip(1));
    } else {
        lemma_after_user_found(s.drop_first(), i - 1, p);
        assert(s.drop_first().skip(i) =~= s.skip(i + 1));
    }
}

/// A user who never appears has nothing after their first entry.
proof fn lemma_after_user_absent(s: Seq<BetInfo>, p: Seq<char>)
    requires
        forall|j: int| 0 <= j < s.len() ==> (#[trigger] s[j]).player@ != p,
    ensures
        spec_after_user(s, p) == Seq::<BetInfo>::empty(),
    decreases s.len(),
{
    if s.len() > 0 {
        lemma_after_user_absent(s.drop_first(), p);
    }
}

/// When a user's first claim sits at index `i`, what follows it is the rest
/// of the listing.
proof fn lemma_after_claim_user_found(s: Seq<ClaimInfo>, i: int, p: Seq<char>)
    requires
        0 <= i < s.len(),
        s[i].player@ == p,
        forall|j: int| 0 <= j < i ==> (#[trigger] s[j]).player@ != p,
    ensures
        spec_after_claim_user(s, p) == s.skip(i + 1),
    decreases i,
{
    if i == 0 {
        assert(s.drop_first() =~= s.skip(1));
    } else {
        lemma_after_claim_user_found(s.drop_first(), i - 1, p);
        assert(s.drop_first().skip(i) =~= s.skip(i + 1));
    }
}

/// A user with no claims has nothing after their first one.
proof fn lemma_after_claim_user_absent(s: Seq<ClaimInfo>, p: Seq<char>)
    requires
        forall|j: int| 0 <= j < s.len() ==> (#[trigger] s[j]).player@ != p,
    ensures
        spec_after_claim_user(s, p) == Seq::<ClaimInfo>::empty(),
    decreases s.len(),
{
    if s.len() > 0 {
        lemma_after_claim_user_absent(s.drop_first(), p);
    }
}

impl Game {
    /// A page of one round's claim records, in ledger order, optionally
    /// after the first record of a given user.
    pub fn query_claim_info_per_round(
        &self,
        round_id: u128,
        start_after: Option<&String>,
        limit: Option<u32>,
    ) -> (r: ClaimInfoResponse)
        ensures
            ({
                let base = spec_claims_by_round(self.claims@, round_id);
                let win = (match start_after {
                    None => base,
                    Some(p) => spec_after_claim_user(base, p@),
                });
                let lim = spec_page_limit(limit);
                &&& r.claim_info@.len() == (if win.len() <= lim {
                    win.len() as int
                } else {
                    lim
                })
                &&& forall|k: int|
                    0 <= k < r.claim_info@.len() ==> #[trigger] r.claim_info@[k] == win[k]
            }),
    {
        let mut base: Vec<ClaimInfo> = Vec::new();
        let n = self.claims.len();
        proof {
            assert(self.claims@.skip(0) =~= self.claims@);
        }
        for idx in 0..n
            invariant
                n == self.claims@.len(),
                spec_claims_by_round(self.claims@, round_id) == base@ + spec_claims_by_round(
                    self.claims@.skip(idx as int),
                    round_id,
                ),
        {
            proof {
                assert(self.claims@.skip(idx as int).drop_first() =~= self.claims@.skip(
                    idx as int + 1,
                ));
                assert(self.claims@.skip(idx as int)[0] == self.claims@[idx as int]);
            }
            let ghost base0 = base@;
            if self.claims[idx].round_id == round_id {
                base.push(copy_claim(&self.claims[idx]));
                proof {
                    assert(base0.push(self.claims@[idx as int]) + spec_claims_by_round(
                        self.claims@.skip(idx as int + 1),
                        round_id,
                    ) =~= base0 + (seq![self.claims@[idx as int]] + spec_claims_by_round(
                        self.claims@.skip(idx as int + 1),
                        round_id,
                    )));
                }
            }
        }
        proof {
            assert(self.claims@.skip(n as int) =~= Seq::<ClaimInfo>::empty());
            assert(base@ + Seq::<ClaimInfo>::empty() =~= base@);
        }
        let mut out: Vec<ClaimInfo> = Vec::new();
        match start_after {
            None => {
                out = base;
            },
            Some(p) => {
                let m = base.len();
                let mut cursor: Option<usize> = None;
                for idx in 0..m
                    invariant
                        m == base@.len(),
                        cursor is None ==> forall|j: int|
                            0 <= j < idx ==> (#[trigger] base@[j]).player@ != p@,
                        cursor matches Some(i) ==> i < idx && base@[i as int].player@ == p@ && (
                        forall|j: int| 0 <= j < i ==> (#[trigger] base@[j]).player@ != p@),
                {
                    if cursor.is_none() && base[idx].player == *p {
                        cursor = Some(idx);
                    }
                }
                match cursor {
                    None => {
                        proof {
                            lemma_after_claim_user_absent(base@, p@);
                        }
                    },
                    Some(i) => {
                        proof {
                            lemma_after_claim_user_found(base@, i as int, p@);
                        }
                        let mut j = i + 1;
                        while j < base.len()
                            invariant
                                i < base@.len(),
                                i + 1 <= j <= base@.len(),
                                out@.len() == j - i - 1,
                                forall|k: int|
                                    0 <= k < out@.len() ==> #[trigger] out@[k] == base@[i + 1 + k],
                            decreases base@.len() - j,
                        {
                            out.push(copy_claim(&base[j]));
                            j = j + 1;
                        }
                        proof {
                            assert(out@ =~= base@.skip(i as int + 1));
                        }
                    },
                }
            },
        }
        let lim = page_limit(limit);
        out.truncate(lim);
        ClaimInfoResponse { claim_info: out }
    }

    /// A page of one user's claim records past an exclusive round cursor,
    /// in ledger order.
    pub fn query_claim_info_by_user(
        &self,
        player: &String,
        start_after: Option<u128>,
        limit: Option<u32>,
    ) -> (r: ClaimInfoResponse)
        ensures
            ({
                let full = spec_claims_by_user(self.claims@, player@, start_after);
                let lim = spec_page_limit(limit);
                &&& r.claim_info@.len() == (if full.len() <= lim {
                    full.len() as int
                } else {
                    lim
                })
                &&& forall|k: int|
                    0 <= k < r.claim_info@.len() ==> #[trigger] r.claim_info@[k] == full[k]
            }),
    {
        let mut out: Vec<ClaimInfo> = Vec::new();
        let n = self.claims.len();
        proof {
            assert(self.claims@.skip(0) =~= self.claims@);
        }
        for idx in 0..n
            invariant
                n == self.claims@.len(),
                spec_claims_by_user(self.claims@, player@, start_after) == out@
                    + spec_claims_by_user(self.claims@.skip(idx as int), player@, start_after),
        {
            proof {
                assert(self.claims@.skip(idx as int).drop_first() =~= self.claims@.skip(
                    idx as int + 1,
                ));
                assert(self.claims@.skip(idx as int)[0] == self.claims@[idx as int]);
            }
            let ghost out0 = out@;
            let sel = self.claims[idx].player == *player && (match start_after {
                Some(s) => self.claims[idx].round_id > s,
                None => true,
            });
            if sel {
                out.push(copy_claim(&self.claims[idx]));
                proof {
                    assert(out0.push(self.claims@[idx as int]) + spec_claims_by_user(
                        self.claims@.skip(idx as int + 1),
                        player@,
                        start_after,
                    ) =~= out0 + (seq![self.claims@[idx as int]] + spec_claims_by_user(
                        self.claims@.skip(idx as int + 1),
                        player@,
                        start_after,
                    )));
                }
            }
        }
        proof {
            assert(self.claims@.skip(n as int) =~= Seq::<ClaimInfo>::empty());
            assert(out@ + Seq::<ClaimInfo>::empty() =~= out@);
        }
        let lim = page_limit(limit);
        out.truncate(lim);
        ClaimInfoResponse { claim_info: out }
    }

    /// A user's total unclaimed reward over all finished rounds, without
    /// touching anything.
    pub fn query_my_pending_reward(&self, player: &String) -> (r: Result<
        PendingRewardResponse,
        ContractError,
    >)
        requires
            self.wf(),
        ensures
            r matches Ok(v) ==> v.pending_reward == spec_pending_total(
                self.bets@,
                self.rounds@,
                player@,
            ),
            r is Err <==> spec_pool_overflow(self.bets@, self.rounds@, player@)
                || spec_pending_total(self.bets@, self.rounds@, player@) > u128::MAX,
            r matches Err(e) ==> e is Overflow,
    {
        match self.pending_totals(player) {
            Ok((total, _)) => Ok(PendingRewardResponse { pending_reward: total }),
            Err(e) => Err(e),
        }
    }

    /// A user's unclaimed reward and its commissionable part, computed
    /// without touching anything.
    fn pending_totals(&self, player: &String) -> (r: Result<(u128, u128), ContractError>)
        requires
            self.wf(),
        ensures
            r matches Ok(v) ==> v.0 == spec_pending_total(self.bets@, self.rounds@, player@)
                && v.1 == spec_pending_commissionable(self.bets@, self.rounds@, player@),
            r is Err <==> spec_pool_overflow(self.bets@, self.rounds@, player@)
                || spec_pending_total(self.bets@, self.rounds@, player@) > u128::MAX,
            r matches Err(e) ==> e is Overflow,
    {
        let nrounds = self.rounds.len();
        let n = self.bets.len();
        let mut total: u128 = 0;
        let mut comm: u128 = 0;
        proof {
            assert(self.bets@.skip(0) =~= self.bets@);
        }
        for idx in 0..n
            invariant
                self.wf(),
                n == self.bets@.len(),
                nrounds == self.rounds@.len(),
                spec_pending_total(self.bets@, self.rounds@, player@) == total
                    + spec_pending_total(self.bets@.skip(idx as int), self.rounds@, player@),
                spec_pending_commissionable(self.bets@, self.rounds@, player@) == comm
                    + spec_pending_commissionable(
                    self.bets@.skip(idx as int),
                    self.rounds@,
                    player@,
                ),
                comm <= total,
                forall|k: int|
                    0 <= k < idx && claimable(
                        #[trigger] self.bets@[k],
                        nrounds as int,
                        player@,
                    ) ==> crate::settle::spec_pool(
                        self.rounds@[self.bets@[k].round_id as int],
                    ) <= u128::MAX,
        {
            proof {
                assert(self.bets@.skip(idx as int).drop_first() =~= self.bets@.skip(
                    idx as int + 1,
                ));
                assert(self.bets@.skip(idx as int)[0] == self.bets@[idx as int]);
            }
            let b_round = self.bets[idx].round_id;
            let b_amount = self.bets[idx].amount;
            let b_dir = self.bets[idx].direction;
            let mine = self.bets[idx].player == *player;
            if mine && b_round < nrounds as u128 {
                let ridx: usize = b_round as usize;
                proof {
                    assert(crate::game::covered_finished(self.bets@, self.rounds@[ridx as int]));
                    crate::game::lemma_side_contrib_le_sum(self.bets@, idx as int, b_round, b_dir);
                }
                let (payout, cflag) = match crate::settle::settle(
                    &self.rounds[ridx],
                    b_amount,
                    b_dir,
                ) {
                    Err(_) => {
                        return Err(ContractError::Overflow);
                    },
                    Ok(p) => p,
                };
                if total > u128::MAX - payout {
                    proof {
                        crate::game::lemma_pending_total_nonneg(
                            self.bets@.skip(idx as int + 1),
                            self.rounds@,
                            player@,
                        );
                    }
                    return Err(ContractError::Overflow);
                }
                total = total + payout;
                if cflag {
                    comm = comm + payout;
                }
            }
        }
        proof {
            assert(self.bets@.skip(n as int) =~= Seq::<BetInfo>::empty());
        }
        Ok((total, comm))
    }

    /// A user's unclaimed reward per finished round, without touching
    /// anything.
    pub fn query_my_pending_reward_rounds(&self, player: &String) -> (r: Result<
        PendingRewardRoundsResponse,
        ContractError,
    >)
        requires
            self.wf(),
        ensures
            r matches Ok(v) ==> v.pending_reward_total == spec_pending_total(
                self.bets@,
                self.rounds@,
                player@,
            ) && v.pending_reward_rounds@ == spec_pending_rounds(
                self.bets@,
                self.rounds@,
                player@,
            ),
            r is Err <==> spec_pool_overflow(self.bets@, self.rounds@, player@)
                || spec_pending_total(self.bets@, self.rounds@, player@) > u128::MAX,
            r matches Err(e) ==> e is Overflow,
    {
        let nrounds = self.rounds.len();
        let n = self.bets.len();
        let mut total: u128 = 0;
        let mut per_round: Vec<(u128, u128)> = Vec::new();
        proof {
            assert(self.bets@.skip(0) =~= self.bets@);
        }
        for idx in 0..n
            invariant
                self.wf(),
                n == self.bets@.len(),
                nrounds == self.rounds@.len(),
                spec_pending_total(self.bets@, self.rounds@, player@) == total
                    + spec_pending_total(self.bets@.skip(idx as int), self.rounds@, player@),
                spec_pending_rounds(self.bets@, self.rounds@, player@) == per_round@
                    + spec_pending_rounds(self.bets@.skip(idx as int), self.rounds@, player@),
                forall|k: int|
                    0 <= k < idx && claimable(
                        #[trigger] self.bets@[k],
                        nrounds as int,
                        player@,
                    ) ==> crate::settle::spec_pool(
                        self.rounds@[self.bets@[k].round_id as int],
                    ) <= u128::MAX,
        {
            proof {
                assert(self.bets@.skip(idx as int).drop_first() =~= self.bets@.skip(
                    idx as int + 1,
                ));
                assert(self.bets@.skip(idx as int)[0] == self.bets@[idx as int]);
            }
            let ghost pr0 = per_round@;
            let b_round = self.bets[idx].round_id;
            let b_amount = self.bets[idx].amount;
            let b_dir = self.bets[idx].direction;
            let mine = self.bets[idx].player == *player;
            if mine && b_round < nrounds as u128 {
                let ridx: usize = b_round as usize;
                proof {
                    assert(crate::game::covered_finished(self.bets@, self.rounds@[ridx as int]));
                    crate::game::lemma_side_contrib_le_sum(self.bets@, idx as int, b_round, b_dir);
                }
                let (payout, _) = match crate::settle::settle(&self.rounds[ridx], b_amount, b_dir) {
                    Err(_) => {
                        return Err(ContractError::Overflow);
                    },
                    Ok(p) => p,
                };
                if total > u128::MAX - payout {
                    proof {
                        crate::game::lemma_pending_total_nonneg(
                            self.bets@.skip(idx as int + 1),
                            self.rounds@,
                            player@,
                        );
                    }
                    return Err(ContractError::Overflow);
                }
                total = total + payout;
                if payout > 0 {
                    per_round.push((b_round, payout));
                    proof {
                        assert(pr0.push((b_round, payout)) + spec_pending_rounds(
                            self.bets@.skip(idx as int + 1),
                            self.rounds@,
                            player@,
                        ) =~= pr0 + (seq![(b_round, payout)] + spec_pending_rounds(
                            self.bets@.skip(idx as int + 1),
                            self.rounds@,
                            player@,
                        )));
                    }
                }
            }
        }
        proof {
            assert(self.bets@.skip(n as int) =~= Seq::<BetInfo>::empty());
            assert(per_round@ + Seq::<(u128, u128)>::empty() =~= per_round@);
        }
        Ok(
            PendingRewardRoundsResponse {
                pending_reward_rounds: per_round,
                pending_reward_total: total,
            },
        )
    }

    /// What one round currently owes the user, without touching anything:
    /// zero when the user holds no position there or the round has not
    /// finished.
    pub fn query_my_pending_reward_round(&self, round_id: u128, player: &String) -> (r: Result<
        PendingRewardResponse,
        ContractError,
    >)
        requires
            self.wf(),
        ensures
            ({
                let due = self.has_bet(round_id, player@) && round_id < self.rounds@.len();
                &&& (r matches Ok(v) ==> v.pending_reward == (if due {
                    crate::settle::spec_payout(
                        self.rounds@[round_id as int],
                        self.spec_bet_record(round_id, player@).amount,
                        self.spec_bet_record(round_id, player@).direction,
                    )
                } else {
                    0
                }))
                &&& (r is Err <==> due && crate::settle::spec_pool(self.rounds@[round_id as int])
                    > u128::MAX)
                &&& (r matches Err(e) ==> e is Overflow)
            }),
    {
        let found = crate::game::find_bet(&self.bets, round_id, player);
        match found {
            None => Ok(PendingRewardResponse { pending_reward: 0 }),
            Some(i) => {
                proof {
                    crate::game::lemma_bet_record_unique(*self, i as int, round_id, player@);
                }
                if round_id >= self.rounds.len() as u128 {
                    return Ok(PendingRewardResponse { pending_reward: 0 });
                }
                let ridx: usize = round_id as usize;
                let b_amount = self.bets[i].amount;
                let b_dir = self.bets[i].direction;
                proof {
                    assert(crate::game::covered_finished(self.bets@, self.rounds@[ridx as int]));
                    crate::game::lemma_side_contrib_le_sum(self.bets@, i as int, round_id, b_dir);
                }
                match crate::settle::settle(&self.rounds[ridx], b_amount, b_dir) {
                    Err(_) => Err(ContractError::Overflow),
                    Ok((payout, _)) => Ok(PendingRewardResponse { pending_reward: payout }),
                }
            },
        }
    }

    /// A user's refundable stake over unmatched finished rounds.
    pub fn query_my_refundable_amount(&self, player: &String) -> (r: Result<
        PendingRefundableAmountResponse,
        ContractError,
    >)
        requires
            self.wf(),
        ensures
            r matches Ok(v) ==> v.pending_refundable_amount == spec_refundable_total(
                self.bets@,
                self.rounds@,
                player@,
            ),
            r is Err <==> spec_refundable_total(self.bets@, self.rounds@, player@) > u128::MAX,
            r matches Err(e) ==> e is Overflow,
    {
        match self.refundable(player) {
            Ok((total, _)) => Ok(PendingRefundableAmountResponse {
                pending_refundable_amount: total,
            }),
            Err(e) => Err(e),
        }
    }

    /// A user's refundable stake, broken down per unmatched round.
    pub fn query_my_refundable_amount_rounds(&self, player: &String) -> (r: Result<
        PendingRefundableAmountRoundsResponse,
        ContractError,
    >)
        requires
            self.wf(),
        ensures
            r matches Ok(v) ==> v.pending_refundable_amount_total == spec_refundable_total(
                self.bets@,
                self.rounds@,
                player@,
            ) && v.pending_refundable_amount_rounds@ == spec_refundable_rounds(
                self.bets@,
                self.rounds@,
                player@,
            ),
            r is Err <==> spec_refundable_total(self.bets@, self.rounds@, player@) > u128::MAX,
            r matches Err(e) ==> e is Overflow,
    {
        match self.refundable(player) {
            Ok((total, rounds)) => Ok(PendingRefundableAmountRoundsResponse {
                pending_refundable_amount_rounds: rounds,
                pending_refundable_amount_total: total,
            }),
            Err(e) => Err(e),
        }
    }

    /// The refundable total and per-round breakdown together.
    fn refundable(&self, player: &String) -> (r: Result<
        (u128, Vec<(u128, u128)>),
        ContractError,
    >)
        requires
            self.wf(),
        ensures
            r matches Ok(v) ==> v.0 == spec_refundable_total(self.bets@, self.rounds@, player@)
                && v.1@ == spec_refundable_rounds(self.bets@, self.rounds@, player@),
            r is Err <==> spec_refundable_total(self.bets@, self.rounds@, player@) > u128::MAX,
            r matches Err(e) ==> e is Overflow,
    {
        let nrounds = self.rounds.len();
        let n = self.bets.len();
        let mut total: u128 = 0;
        let mut per_round: Vec<(u128, u128)> = Vec::new();
        proof {
            assert(self.bets@.skip(0) =~= self.bets@);
        }
        for idx in 0..n
            invariant
                self.wf(),
                n == self.bets@.len(),
                nrounds == self.rounds@.len(),
                spec_refundable_total(self.bets@, self.rounds@, player@) == total
                    + spec_refundable_total(self.bets@.skip(idx as int), self.rounds@, player@),
                spec_refundable_rounds(self.bets@, self.rounds@, player@) == per_round@
                    + spec_refundable_rounds(self.bets@.skip(idx as int), self.rounds@, player@),
        {
            proof {
                assert(self.bets@.skip(idx as int).drop_first() =~= self.bets@.skip(
                    idx as int + 1,
                ));
                assert(self.bets@.skip(idx as int)[0] == self.bets@[idx as int]);
            }
            let ghost pr0 = per_round@;
            let b_round = self.bets[idx].round_id;
            let b_amount = self.bets[idx].amount;
            let mine = self.bets[idx].player == *player;
            if mine && b_round < nrounds as u128 {
                let ridx: usize = b_round as usize;
                let refundable_here = self.rounds[ridx].bull_amount == 0
                    || self.rounds[ridx].bear_amount == 0;
                if refundable_here {
                    if total > u128::MAX - b_amount {
                        proof {
                            lemma_refundable_total_nonneg(
                                self.bets@.skip(idx as int + 1),
                                self.rounds@,
                                player@,
                            );
                        }
                        return Err(ContractError::Overflow);
                    }
                    total = total + b_amount;
                    per_round.push((b_round, b_amount));
                    proof {
                        assert(pr0.push((b_round, b_amount)) + spec_refundable_rounds(
                            self.bets@.skip(idx as int + 1),
                            self.rounds@,
                            player@,
                        ) =~= pr0 + (seq![(b_round, b_amount)] + spec_refundable_rounds(
                            self.bets@.skip(idx as int + 1),
                            self.rounds@,
                            player@,
                        )));
                    }
                }
            }
        }
        proof {
            assert(self.bets@.skip(n as int) =~= Seq::<BetInfo>::empty());
            assert(per_round@ + Seq::<(u128, u128)>::empty() =~= per_round@);
        }
        Ok((total, per_round))
    }

    /// A user's cumulative spend.
    pub fn query_total_spent(&self, player: &String) -> (r: TotalSpentResponse)
        ensures
            r.total_spent == spec_spent(self.totals_spent@, player@),
    {
        TotalSpentResponse { total_spent: crate::game::lookup_spent(&self.totals_spent, player) }
    }

    /// The current admin accounts.
    pub fn query_get_admins(&self) -> (r: AdminsResponse)
        ensures
            r.admins@ == self.admins@,
    {
        AdminsResponse { admins: clone_strings(&self.admins) }
    }

    /// The asset rotation list.
    pub fn query_get_round_denoms(&self) -> (r: RoundDenomsResponse)
        ensures
            r.denoms@ == self.denoms@,
    {
        RoundDenomsResponse { denoms: clone_strings(&self.denoms) }
    }

    /// The registered oracle tickers.
    pub fn query_get_tickers(&self) -> (r: TickersResponse)
        ensures
            r.tickers@.len() == self.tickers@.len(),
            forall|k: int|
                0 <= k < r.tickers@.len() ==> #[trigger] r.tickers@[k] == self.tickers@[k].ticker,
    {
        let mut out: Vec<String> = Vec::new();
        let n = self.tickers.len();
        for idx in 0..n
            invariant
                n == self.tickers@.len(),
                out@.len() == idx,
                forall|k: int| 0 <= k < idx ==> #[trigger] out@[k] == self.tickers@[k].ticker,
        {
            out.push(self.tickers[idx].ticker.clone());
        }
        TickersResponse { tickers: out }
    }

    /// A snapshot of the scheduler's two pointer slots.
    pub fn query_status(&self, now: u64) -> (r: StatusResponse)
        ensures
            r.bidding_round == self.next_round,
            r.live_round == self.live_round,
            r.current_time == now,
    {
        let bidding = match &self.next_round {
            Some(n) => Some(copy_next(n)),
            None => None,
        };
        let live = match &self.live_round {
            Some(l) => Some(copy_live(l)),
            None => None,
        };
        StatusResponse { bidding_round: bidding, live_round: live, current_time: now }
    }

    /// Look a finished round up by id.
    pub fn query_finished_round(&self, round_id: u128) -> (r: Option<FinishedRound>)
        ensures
            r is Some <==> round_id < self.rounds@.len(),
            r matches Some(f) ==> f == self.rounds@[round_id as int],
    {
        if round_id < self.rounds.len() as u128 {
            Some(copy_finished(&self.rounds[round_id as usize]))
        } else {
            None
        }
    }

    /// The user's stake in the bidding and live rounds, split by side.
    pub fn query_my_current_position(&self, player: &String) -> (r: MyCurrentPositionResponse)
        requires
            self.wf(),
        ensures
            ({
                let nb = (self.next_round matches Some(n) && self.has_bet(n.id, player@));
                let lb = (self.live_round matches Some(l) && self.has_bet(l.id, player@));
                &&& (nb ==> {
                    let rec = self.spec_bet_record(self.next_round->0.id, player@);
                    (if rec.direction is Bull {
                        r.next_bull_amount == rec.amount && r.next_bear_amount == 0
                    } else {
                        r.next_bear_amount == rec.amount && r.next_bull_amount == 0
                    })
                })
                &&& (!nb ==> r.next_bull_amount == 0 && r.next_bear_amount == 0)
                &&& (lb ==> {
                    let rec = self.spec_bet_record(self.live_round->0.id, player@);
                    (if rec.direction is Bull {
                        r.live_bull_amount == rec.amount && r.live_bear_amount == 0
                    } else {
                        r.live_bear_amount == rec.amount && r.live_bull_amount == 0
                    })
                })
                &&& (!lb ==> r.live_bull_amount == 0 && r.live_bear_amount == 0)
            }),
    {
        let mut next_bull: u128 = 0;
        let mut next_bear: u128 = 0;
        let mut live_bull: u128 = 0;
        let mut live_bear: u128 = 0;
        let next_id = match &self.next_round {
            Some(n) => Some(n.id),
            None => None,
        };
        if let Some(nid) = next_id {
            match crate::game::find_bet(&self.bets, nid, player) {
                Some(i) => {
                    proof {
                        crate::game::lemma_bet_record_unique(*self, i as int, nid, player@);
                    }
                    match self.bets[i].direction {
                        Direction::Bull => {
                            next_bull = self.bets[i].amount;
                        },
                        Direction::Bear => {
                            next_bear = self.bets[i].amount;
                        },
                    }
                },
                None => {},
            }
        }
        let live_id = match &self.live_round {
            Some(l) => Some(l.id),
            None => None,
        };
        if let Some(lid) = live_id {
            match crate::game::find_bet(&self.bets, lid, player) {
                Some(i) => {
                    proof {
                        crate::game::lemma_bet_record_unique(*self, i as int, lid, player@);
                    }
                    match self.bets[i].direction {
                        Direction::Bull => {
                            live_bull = self.bets[i].amount;
                        },
                        Direction::Bear => {
                            live_bear = self.bets[i].amount;
                        },
                    }
                },
                None => {},
            }
        }
        MyCurrentPositionResponse {
            live_bear_amount: live_bear,
            live_bull_amount: live_bull,
            next_bear_amount: next_bear,
            next_bull_amount: next_bull,
        }
    }
}

/// Refundable stakes are never negative.
proof fn lemma_refundable_total_nonneg(
    bets: Seq<BetInfo>,
    rounds: Seq<FinishedRound>,
    player: Seq<char>,
)
    ensures
        0 <= spec_refundable_total(bets, rounds, player),
    decreases bets.len(),
{
    if bets.len() > 0 {
        lemma_refundable_total_nonneg(bets.drop_first(), rounds, player);
    }
}

} // verus!
