use prediction_game::dao_bets::{BetOption, Config as DaoConfig, DaoBets};
use prediction_game::errors::ContractError;
use prediction_game::types::{Direction, Elo, MigrateMsg, TopKey, WalletInfo, RATIO_PRECISION};

#[test]
fn direction_labels() {
    assert_eq!(Direction::Bull.label(), "bull");
    assert_eq!(Direction::Bear.label(), "bear");
}

#[test]
fn error_labels_are_stable() {
    assert_eq!(ContractError::NothingToClaim.label(), "nothing to claim");
    assert_eq!(ContractError::PriceTooOld.label(), "price too old");
    assert_eq!(ContractError::Overflow.label(), "overflow");
}

#[test]
fn storage_keys_are_one_byte() {
    let keys = [
        TopKey::IsHalted,
        TopKey::Config,
        TopKey::NextRoundId,
        TopKey::NextRound,
        TopKey::LiveRound,
        TopKey::Rounds,
        TopKey::Admins,
        TopKey::TotalsSpent,
        TopKey::Oracle,
        TopKey::PriceIdentifiers,
        TopKey::RoundDenoms,
    ];
    for a in 0..keys.len() {
        assert_eq!(keys[a].as_str().len(), 1);
        for b in (a + 1)..keys.len() {
            assert_ne!(keys[a].as_str(), keys[b].as_str());
        }
    }
    // The migration message carries nothing.
    let MigrateMsg {} = MigrateMsg {};
    // Elo adjustments carry an amount and a sign.
    let e = Elo { amount: 25, add: false };
    assert_eq!(e.amount, 25);
    assert!(!e.add);
}

fn listing_dao() -> DaoBets {
    let cfg = DaoConfig {
        minimum_bet: 1,
        gaming_fee: 0,
        token_denom: "ubet".to_string(),
        users_contract: "users".to_string(),
        exp_per_denom_bet: 0,
        exp_per_denom_won: 0,
        fee_receiver_wallet_list: vec![
            WalletInfo { address: "dev".to_string(), ratio: RATIO_PRECISION },
        ],
    };
    let mut d = DaoBets::new(cfg, "owner".to_string()).unwrap();
    let owner = "owner".to_string();
    for (topic, result) in [("sports", Some("yes")), ("politics", None), ("sports", Some("no"))] {
        let id = d
            .create_bet(
                &owner,
                topic.to_string(),
                "d".to_string(),
                None,
                None,
                1000,
                None,
                vec![
                    BetOption { title: "yes".to_string(), img_url: None },
                    BetOption { title: "no".to_string(), img_url: None },
                ],
            )
            .unwrap();
        if let Some(win) = result {
            d.complete_bet(&owner, id, win.to_string()).unwrap();
        }
    }
    d
}

#[test]
fn bet_listings_page_by_id_and_topic() {
    let d = listing_dao();
    // Bets 1 and 3 finished, bet 2 still open.
    let finished = d.query_finished_bets(None, None);
    assert_eq!(finished.len(), 2);
    assert_eq!(finished[0].bet_id, 1);
    assert_eq!(finished[1].bet_id, 3);
    let after1 = d.query_finished_bets(Some(1), None);
    assert_eq!(after1.len(), 1);
    assert_eq!(after1[0].bet_id, 3);
    let open = d.query_unfinished_bets(None, None);
    assert_eq!(open.len(), 1);
    assert_eq!(open[0].bet_id, 2);
    let sports = d.query_finished_bets_by_topic(&"sports".to_string(), None, None);
    assert_eq!(sports.len(), 2);
    let politics = d.query_finished_bets_by_topic(&"politics".to_string(), None, None);
    assert!(politics.is_empty());
    let open_politics = d.query_unfinished_bets_by_topic(&"politics".to_string(), None, None);
    assert_eq!(open_politics.len(), 1);
    let limited = d.query_finished_bets(None, Some(1));
    assert_eq!(limited.len(), 1);
    assert_eq!(limited[0].bet_id, 1);
}

#[test]
fn dao_position_and_claim_listings() {
    let mut d = listing_dao();
    let owner = "owner".to_string();
    let ubet = "ubet".to_string();
    // Bet 2 is still open: alice and bob stake on it.
    d.bet_on(10, &"alice".to_string(), 2, "yes".to_string(), &ubet, 30).unwrap();
    d.bet_on(11, &"bob".to_string(), 2, "no".to_string(), &ubet, 20).unwrap();
    let users = d.query_users_per_round(2, None, None);
    assert_eq!(users.my_bets_list.len(), 2);
    assert_eq!(users.my_bets_list[0].player, "alice");
    let after_alice = d.query_users_per_round(2, Some(&"alice".to_string()), None);
    assert_eq!(after_alice.my_bets_list.len(), 1);
    assert_eq!(after_alice.my_bets_list[0].player, "bob");
    // Resolve and claim, then the claim listings see it.
    d.complete_bet(&owner, 2, "yes".to_string()).unwrap();
    d.collect_winnings_bet(&"alice".to_string(), 2).unwrap();
    let by_round = d.query_claim_info_per_round(2, None, None);
    assert_eq!(by_round.claim_info.len(), 1);
    assert_eq!(by_round.claim_info[0].claimed_amount, 50);
    let by_user = d.query_claim_info_by_user(&"alice".to_string(), None, None);
    assert_eq!(by_user.claim_info.len(), 1);
    let after_cursor = d.query_claim_info_by_user(&"alice".to_string(), Some(2), None);
    assert!(after_cursor.claim_info.is_empty());
}
