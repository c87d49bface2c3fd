use prediction_game::errors::ContractError;
use prediction_game::game::Game;
use prediction_game::settle::settle;
use prediction_game::types::{
    Config, DenomTicker, Direction, FinishedRound, PriceObservation, WalletInfo, RATIO_PRECISION,
};

fn base_config() -> Config {
    Config {
        next_round_seconds: 300,
        minimum_bet: 10,
        gaming_fee: 300,
        token_denom: "ubet".to_string(),
        users_contract: "users".to_string(),
        exp_per_denom_bet: 2,
        exp_per_denom_won: 3,
        dev_wallet_list: vec![WalletInfo { address: "dev".to_string(), ratio: RATIO_PRECISION }],
    }
}

fn fresh_game() -> Game {
    Game::new(
        base_config(),
        vec!["ubet".to_string()],
        vec![DenomTicker { denom: "ubet".to_string(), ticker: "UBET".to_string() }],
        "admin".to_string(),
    )
    .unwrap()
}

fn obs(price: i128, at: u64) -> Option<PriceObservation> {
    Some(PriceObservation { price, observed_at: at })
}

/// Drive a fresh game to the point where round 0 is finished with the given
/// open and close prices, with the given stakes placed while bidding.
fn run_round(
    stakes: &[(&str, Direction, u128)],
    open_price: i128,
    close_price: i128,
) -> Game {
    let mut g = fresh_game();
    g.close_round(0, None, None).unwrap();
    for (who, dir, amount) in stakes {
        g.place_bet(10, &who.to_string(), 0, *dir, &"ubet".to_string(), *amount, *amount)
            .unwrap();
    }
    g.close_round(300, None, obs(open_price, 295)).unwrap();
    g.close_round(600, obs(close_price, 595), obs(open_price, 595)).unwrap();
    g
}

#[test]
fn proportional_payout_round_one() {
    // Side A (bull) holds 300, side B (bear) holds 100; bulls win.
    let mut g = run_round(
        &[("alice", Direction::Bull, 30), ("bob", Direction::Bull, 270), (
            "carol",
            Direction::Bear,
            100,
        )],
        1000,
        1500,
    );
    let out = g.collect_winning_round(&"alice".to_string(), 0).unwrap();
    // floor(400 * 30 / 300) = 40.
    assert_eq!(out.total_payout, 40);
    // A losing position receives nothing and cannot claim.
    let err = g.collect_winning_round(&"carol".to_string(), 0).unwrap_err();
    assert!(matches!(err, ContractError::NothingToClaim));
}

#[test]
fn stake_twice_same_side_accumulates() {
    let mut g = fresh_game();
    g.close_round(0, None, None).unwrap();
    let alice = "alice".to_string();
    let ubet = "ubet".to_string();
    g.place_bet(10, &alice, 0, Direction::Bull, &ubet, 50, 50).unwrap();
    g.place_bet(20, &alice, 0, Direction::Bull, &ubet, 25, 25).unwrap();
    let pos = g.query_my_current_position(&alice);
    assert_eq!(pos.next_bull_amount, 75);
    assert_eq!(pos.next_bear_amount, 0);
    let status = g.query_status(20);
    let bidding = status.bidding_round.unwrap();
    assert_eq!(bidding.bull_amount, 75);
    assert_eq!(bidding.bear_amount, 0);
    assert_eq!(g.query_total_spent(&alice).total_spent, 75);
}

#[test]
fn stake_on_other_side_rejected_without_state_change() {
    let mut g = fresh_game();
    g.close_round(0, None, None).unwrap();
    let alice = "alice".to_string();
    let ubet = "ubet".to_string();
    g.place_bet(10, &alice, 0, Direction::Bull, &ubet, 50, 50).unwrap();
    let err = g.place_bet(20, &alice, 0, Direction::Bear, &ubet, 25, 25).unwrap_err();
    assert!(matches!(err, ContractError::InvalidDirectionBet));
    let pos = g.query_my_current_position(&alice);
    assert_eq!(pos.next_bull_amount, 50);
    assert_eq!(pos.next_bear_amount, 0);
    assert_eq!(g.query_total_spent(&alice).total_spent, 50);
}

#[test]
fn no_double_payout() {
    let mut g = run_round(
        &[("alice", Direction::Bull, 100), ("bob", Direction::Bear, 100)],
        1000,
        1500,
    );
    let alice = "alice".to_string();
    let out = g.collect_winning_round(&alice, 0).unwrap();
    assert_eq!(out.total_payout, 200);
    let err = g.collect_winning_round(&alice, 0).unwrap_err();
    assert!(matches!(err, ContractError::NothingToClaim));
}

#[test]
fn one_sided_round_refunds_exactly_with_no_fee() {
    let mut g = run_round(&[("alice", Direction::Bull, 120)], 1000, 1500);
    let out = g.collect_winning_round(&"alice".to_string(), 0).unwrap();
    assert_eq!(out.total_payout, 120);
    assert_eq!(out.fee, 0);
    assert_eq!(out.payout_transfer.amount, 120);
    assert!(out.fee_transfers.is_empty());
    assert!(out.experience.is_none());
}

#[test]
fn tie_refunds_exactly_with_no_fee() {
    let mut g = run_round(
        &[("alice", Direction::Bull, 70), ("bob", Direction::Bear, 30)],
        1234,
        1234,
    );
    let round = g.query_finished_round(0).unwrap();
    assert!(round.winner.is_none());
    let out_a = g.collect_winning_round(&"alice".to_string(), 0).unwrap();
    assert_eq!(out_a.total_payout, 70);
    assert_eq!(out_a.fee, 0);
    let out_b = g.collect_winning_round(&"bob".to_string(), 0).unwrap();
    assert_eq!(out_b.total_payout, 30);
    assert_eq!(out_b.fee, 0);
}

#[test]
fn winner_pays_fee_and_earns_experience() {
    let mut g = run_round(
        &[("alice", Direction::Bull, 100), ("bob", Direction::Bear, 300)],
        2000,
        1900,
    );
    // Bears win: bob takes floor(400 * 300 / 300) = 400.
    let out = g.collect_winning_round(&"bob".to_string(), 0).unwrap();
    assert_eq!(out.total_payout, 400);
    // fee = floor(300 * 400 / 10000) = 12.
    assert_eq!(out.fee, 12);
    assert_eq!(out.payout_transfer.amount, 388);
    assert_eq!(out.fee_transfers.len(), 1);
    assert_eq!(out.fee_transfers[0].to_address, "dev");
    assert_eq!(out.fee_transfers[0].amount, 12);
    let xp = out.experience.unwrap();
    assert_eq!(xp.user, "bob");
    assert_eq!(xp.experience, 1200);
}

#[test]
fn collect_winnings_aggregates_and_clears_positions() {
    let mut g = run_round(
        &[("alice", Direction::Bull, 100), ("bob", Direction::Bear, 100)],
        1000,
        900,
    );
    // Round 0 is finished (bears win); round 1 is live and round 2 is
    // bidding. Bob also stakes in round 2, which must be left alone.
    let bob = "bob".to_string();
    let ubet = "ubet".to_string();
    g.place_bet(601, &bob, 2, Direction::Bull, &ubet, 40, 40).unwrap();
    let out = g.collect_winnings(&bob).unwrap();
    assert_eq!(out.total_payout, 200);
    assert_eq!(out.fee, 6);
    assert_eq!(out.payout_transfer.amount, 194);
    // The finished position is gone, the bidding one stays.
    let games = g.query_my_games_without_limit(&bob);
    assert_eq!(games.my_game_list.len(), 1);
    assert_eq!(games.my_game_list[0].round_id, 2);
    // Nothing left to claim for bob.
    let err = g.collect_winnings(&bob).unwrap_err();
    assert!(matches!(err, ContractError::NothingToClaim));
    // Alice lost; her position is deleted by the sweep, but it pays nothing.
    let err = g.collect_winnings(&"alice".to_string()).unwrap_err();
    assert!(matches!(err, ContractError::NothingToClaim));
}

#[test]
fn claim_records_are_kept() {
    let mut g = run_round(
        &[("alice", Direction::Bull, 100), ("bob", Direction::Bear, 100)],
        1000,
        1500,
    );
    let alice = "alice".to_string();
    g.collect_winning_round(&alice, 0).unwrap();
    let infos = g.query_claim_info_by_user(&alice, None, None);
    assert_eq!(infos.claim_info.len(), 1);
    assert_eq!(infos.claim_info[0].round_id, 0);
    assert_eq!(infos.claim_info[0].claimed_amount, 200);
    let by_round = g.query_claim_info_per_round(0, None, None);
    assert_eq!(by_round.claim_info.len(), 1);
}

#[test]
fn pending_reward_matches_claim() {
    let g = run_round(
        &[("alice", Direction::Bull, 30), ("bob", Direction::Bull, 270), (
            "carol",
            Direction::Bear,
            100,
        )],
        1000,
        1500,
    );
    let pending = g.query_my_pending_reward(&"alice".to_string()).unwrap();
    assert_eq!(pending.pending_reward, 40);
    let rounds = g.query_my_pending_reward_rounds(&"alice".to_string()).unwrap();
    assert_eq!(rounds.pending_reward_total, 40);
    assert_eq!(rounds.pending_reward_rounds, vec![(0, 40)]);
    let one = g.query_my_pending_reward_round(0, &"alice".to_string()).unwrap();
    assert_eq!(one.pending_reward, 40);
    let loser = g.query_my_pending_reward(&"carol".to_string()).unwrap();
    assert_eq!(loser.pending_reward, 0);
}

#[test]
fn refundable_amount_tracks_unmatched_rounds() {
    let g = run_round(&[("alice", Direction::Bear, 55)], 1000, 1500);
    let r = g.query_my_refundable_amount(&"alice".to_string()).unwrap();
    assert_eq!(r.pending_refundable_amount, 55);
    let rounds = g.query_my_refundable_amount_rounds(&"alice".to_string()).unwrap();
    assert_eq!(rounds.pending_refundable_amount_rounds, vec![(0, 55)]);
}

#[test]
fn settle_is_exact_on_the_documented_example() {
    let round = FinishedRound {
        id: 1,
        bid_time: 0,
        open_time: 100,
        close_time: 200,
        open_price: 1000,
        close_price: 1100,
        winner: Some(Direction::Bull),
        bull_amount: 300,
        bear_amount: 100,
        denom: "ubet".to_string(),
    };
    assert_eq!(settle(&round, 30, Direction::Bull).unwrap(), (40, true));
    assert_eq!(settle(&round, 100, Direction::Bear).unwrap(), (0, true));
}
