use prediction_game::dao_bets::{Bet, BetOption, Config, DaoBets};
use prediction_game::errors::ContractError;
use prediction_game::types::{WalletInfo, RATIO_PRECISION};

fn dao_config() -> Config {
    Config {
        minimum_bet: 5,
        gaming_fee: 500,
        token_denom: "ubet".to_string(),
        users_contract: "users".to_string(),
        exp_per_denom_bet: 1,
        exp_per_denom_won: 2,
        fee_receiver_wallet_list: vec![
            WalletInfo { address: "dev".to_string(), ratio: RATIO_PRECISION },
        ],
    }
}

fn fresh_dao() -> DaoBets {
    DaoBets::new(dao_config(), "owner".to_string()).unwrap()
}

fn opts(titles: &[&str]) -> Vec<BetOption> {
    titles.iter().map(|t| BetOption { title: t.to_string(), img_url: None }).collect()
}

fn created(d: &mut DaoBets) -> u128 {
    d.create_bet(
        &"owner".to_string(),
        "who wins".to_string(),
        "a three way bet".to_string(),
        None,
        None,
        1000,
        None,
        opts(&["red", "green", "blue"]),
    )
    .unwrap()
}

#[test]
fn bet_ids_start_at_one() {
    let mut d = fresh_dao();
    assert_eq!(d.query_total_bets(), 0);
    let id1 = created(&mut d);
    let id2 = created(&mut d);
    assert_eq!(id1, 1);
    assert_eq!(id2, 2);
    assert_eq!(d.query_total_bets(), 2);
    assert!(d.query_unfinished_bet(1).is_some());
    assert!(d.query_finished_bet(1).is_none());
}

#[test]
fn only_the_owner_manages_bets() {
    let mut d = fresh_dao();
    let mallory = "mallory".to_string();
    assert!(matches!(
        d.create_bet(
            &mallory,
            "t".to_string(),
            "d".to_string(),
            None,
            None,
            1000,
            None,
            opts(&["a"]),
        ),
        Err(ContractError::Unauthorized)
    ));
    let id = created(&mut d);
    assert!(matches!(
        d.complete_bet(&mallory, id, "red".to_string()),
        Err(ContractError::Unauthorized)
    ));
    assert!(matches!(d.cancel_bet(&mallory, id), Err(ContractError::Unauthorized)));
    assert!(matches!(
        d.update_config(&mallory, dao_config()),
        Err(ContractError::Unauthorized)
    ));
    // Ownership can move.
    d.update_owner(&"owner".to_string(), mallory.clone()).unwrap();
    d.cancel_bet(&mallory, id).unwrap();
}

#[test]
fn option_stakes_accumulate_per_option() {
    let mut d = fresh_dao();
    let id = created(&mut d);
    let ubet = "ubet".to_string();
    d.bet_on(10, &"alice".to_string(), id, "red".to_string(), &ubet, 100).unwrap();
    d.bet_on(11, &"bob".to_string(), id, "green".to_string(), &ubet, 50).unwrap();
    d.bet_on(12, &"alice".to_string(), id, "red".to_string(), &ubet, 20).unwrap();
    let b: Bet = d.query_unfinished_bet(id).unwrap();
    let red = b.current_bet_amounts.iter().find(|a| a.title == "red").unwrap();
    let green = b.current_bet_amounts.iter().find(|a| a.title == "green").unwrap();
    let blue = b.current_bet_amounts.iter().find(|a| a.title == "blue").unwrap();
    assert_eq!(red.amount, 120);
    assert_eq!(green.amount, 50);
    assert_eq!(blue.amount, 0);
    assert_eq!(b.num_players, 2);
    assert_eq!(d.query_total_spent(&"alice".to_string()), 120);
}

#[test]
fn option_stake_validation() {
    let mut d = fresh_dao();
    let id = created(&mut d);
    let alice = "alice".to_string();
    let ubet = "ubet".to_string();
    assert!(matches!(
        d.bet_on(10, &alice, id, "red".to_string(), &"uwrong".to_string(), 100),
        Err(ContractError::InvalidFunds)
    ));
    assert!(matches!(
        d.bet_on(10, &alice, id, "red".to_string(), &ubet, 0),
        Err(ContractError::InvalidFunds)
    ));
    assert!(matches!(
        d.bet_on(10, &alice, id, "red".to_string(), &ubet, 3),
        Err(ContractError::BetUnderMinBetAmount)
    ));
    assert!(matches!(
        d.bet_on(10, &alice, 99, "red".to_string(), &ubet, 100),
        Err(ContractError::BetNotFound)
    ));
    assert!(matches!(
        d.bet_on(1001, &alice, id, "red".to_string(), &ubet, 100),
        Err(ContractError::BetAlreadyFinished)
    ));
    assert!(matches!(
        d.bet_on(10, &alice, id, "purple".to_string(), &ubet, 100),
        Err(ContractError::InvalidOption)
    ));
    d.bet_on(10, &alice, id, "red".to_string(), &ubet, 100).unwrap();
    assert!(matches!(
        d.bet_on(11, &alice, id, "green".to_string(), &ubet, 100),
        Err(ContractError::CantIncreaseBetOnDifferentOption)
    ));
}

#[test]
fn declared_winner_splits_the_pool() {
    let mut d = fresh_dao();
    let id = created(&mut d);
    let owner = "owner".to_string();
    let ubet = "ubet".to_string();
    d.bet_on(10, &"alice".to_string(), id, "red".to_string(), &ubet, 300).unwrap();
    d.bet_on(11, &"bob".to_string(), id, "green".to_string(), &ubet, 100).unwrap();
    d.complete_bet(&owner, id, "red".to_string()).unwrap();
    // Winner: floor(400 * 300 / 300) = 400; fee = floor(500 * 400 / 10000).
    let out = d.collect_winnings_bet(&"alice".to_string(), id).unwrap();
    assert_eq!(out.total_payout, 400);
    assert_eq!(out.fee, 20);
    assert_eq!(out.payout_transfer.amount, 380);
    assert_eq!(out.fee_transfers.len(), 1);
    assert_eq!(out.experience.unwrap().experience, 800);
    // Claiming twice finds nothing.
    assert!(matches!(
        d.collect_winnings_bet(&"alice".to_string(), id),
        Err(ContractError::NothingToClaim)
    ));
    // The loser gets nothing and keeps being told so.
    assert!(matches!(
        d.collect_winnings_bet(&"bob".to_string(), id),
        Err(ContractError::NothingToClaim)
    ));
}

#[test]
fn cancelled_bet_refunds_in_full() {
    let mut d = fresh_dao();
    let id = created(&mut d);
    let owner = "owner".to_string();
    let ubet = "ubet".to_string();
    d.bet_on(10, &"alice".to_string(), id, "red".to_string(), &ubet, 300).unwrap();
    d.bet_on(11, &"bob".to_string(), id, "green".to_string(), &ubet, 100).unwrap();
    d.cancel_bet(&owner, id).unwrap();
    let out = d.collect_winnings_bet(&"bob".to_string(), id).unwrap();
    assert_eq!(out.total_payout, 100);
    assert_eq!(out.fee, 0);
    assert!(out.fee_transfers.is_empty());
    assert!(out.experience.is_none());
}

#[test]
fn dao_collect_all_sweeps_finished_bets() {
    let mut d = fresh_dao();
    let owner = "owner".to_string();
    let ubet = "ubet".to_string();
    let alice = "alice".to_string();
    let id1 = created(&mut d);
    let id2 = created(&mut d);
    let id3 = created(&mut d);
    d.bet_on(10, &alice, id1, "red".to_string(), &ubet, 100).unwrap();
    d.bet_on(10, &"bob".to_string(), id1, "green".to_string(), &ubet, 100).unwrap();
    d.bet_on(10, &alice, id2, "blue".to_string(), &ubet, 40).unwrap();
    d.bet_on(10, &alice, id3, "red".to_string(), &ubet, 7).unwrap();
    d.complete_bet(&owner, id1, "red".to_string()).unwrap();
    d.cancel_bet(&owner, id2).unwrap();
    // id3 stays open and must be untouched.
    let out = d.collect_winnings(&alice).unwrap();
    // id1 pays floor(200 * 100 / 100) = 200 (commissionable), id2 refunds 40.
    assert_eq!(out.total_payout, 240);
    assert_eq!(out.fee, 10);
    assert_eq!(out.payout_transfer.amount, 230);
    let left = d.query_my_games_without_limit(&alice);
    assert_eq!(left.my_bets_list.len(), 1);
    assert_eq!(left.my_bets_list[0].bet_id, id3);
    assert!(matches!(d.collect_winnings(&alice), Err(ContractError::NothingToClaim)));
}

#[test]
fn dao_pending_reward_queries() {
    let mut d = fresh_dao();
    let owner = "owner".to_string();
    let ubet = "ubet".to_string();
    let alice = "alice".to_string();
    let id1 = created(&mut d);
    let id2 = d
        .create_bet(
            &owner,
            "another topic".to_string(),
            "d".to_string(),
            None,
            None,
            1000,
            None,
            opts(&["x", "y"]),
        )
        .unwrap();
    d.bet_on(10, &alice, id1, "red".to_string(), &ubet, 60).unwrap();
    d.bet_on(10, &alice, id2, "x".to_string(), &ubet, 25).unwrap();
    d.complete_bet(&owner, id1, "red".to_string()).unwrap();
    d.cancel_bet(&owner, id2).unwrap();
    assert_eq!(d.query_my_pending_reward(&alice).unwrap(), 85);
    let rounds = d.query_my_pending_reward_rounds(&alice).unwrap();
    assert_eq!(rounds.pending_reward_total, 85);
    assert_eq!(rounds.pending_reward_rounds, vec![(id1, 60), (id2, 25)]);
    let by_topic = d.query_my_pending_reward_rounds_by_topic(&alice, &"who wins".to_string())
        .unwrap();
    assert_eq!(by_topic.pending_reward_rounds, vec![(id1, 60)]);
    assert_eq!(d.query_my_pending_reward_round(id1, &alice).unwrap(), 60);
    assert!(matches!(
        d.query_my_pending_reward_round(77, &alice),
        Err(ContractError::BetNotFound)
    ));
}

#[test]
fn modify_bet_updates_metadata_only() {
    let mut d = fresh_dao();
    let owner = "owner".to_string();
    let id = created(&mut d);
    d.modify_bet(&owner, id, Some("new topic".to_string()), None, Some(2000), None, None)
        .unwrap();
    let b = d.query_unfinished_bet(id).unwrap();
    assert_eq!(b.topic, "new topic");
    assert_eq!(b.description, "a three way bet");
    assert_eq!(b.end_bet_timestamp, 2000);
    assert!(matches!(
        d.modify_bet(&owner, 99, None, None, None, None, None),
        Err(ContractError::BetNotFound)
    ));
}
