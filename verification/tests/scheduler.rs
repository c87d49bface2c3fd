use prediction_game::errors::ContractError;
use prediction_game::game::{assert_price_not_too_old, Game};
use prediction_game::types::{
    Config, DenomTicker, Direction, PriceObservation, WalletInfo, RATIO_PRECISION,
};

fn config_with(denoms: &[&str]) -> (Config, Vec<String>, Vec<DenomTicker>) {
    let cfg = Config {
        next_round_seconds: 300,
        minimum_bet: 10,
        gaming_fee: 300,
        token_denom: "ubet".to_string(),
        users_contract: "users".to_string(),
        exp_per_denom_bet: 2,
        exp_per_denom_won: 3,
        dev_wallet_list: vec![WalletInfo { address: "dev".to_string(), ratio: RATIO_PRECISION }],
    };
    let ds: Vec<String> = denoms.iter().map(|d| d.to_string()).collect();
    let ts: Vec<DenomTicker> = denoms
        .iter()
        .map(|d| DenomTicker { denom: d.to_string(), ticker: format!("T{}", d) })
        .collect();
    (cfg, ds, ts)
}

fn game_with(denoms: &[&str]) -> Game {
    let (cfg, ds, ts) = config_with(denoms);
    Game::new(cfg, ds, ts, "admin".to_string()).unwrap()
}

fn obs(price: i128, at: u64) -> Option<PriceObservation> {
    Some(PriceObservation { price, observed_at: at })
}

#[test]
fn round_ids_increase_gaplessly() {
    let mut g = game_with(&["ubet"]);
    // First call creates round 0 bidding; nothing is live.
    g.close_round(0, None, None).unwrap();
    let s = g.query_status(0);
    assert_eq!(s.bidding_round.unwrap().id, 0);
    assert!(s.live_round.is_none());
    // Each later step keeps exactly one bidding and at most one live round,
    // with chained ids.
    let mut now = 300;
    for expect_live in 0u128..4 {
        g.close_round(now, obs(1000, now - 5), obs(1000, now - 5)).unwrap();
        let s = g.query_status(now);
        assert_eq!(s.live_round.unwrap().id, expect_live);
        assert_eq!(s.bidding_round.unwrap().id, expect_live + 1);
        now += 300;
    }
    // All rounds before the live one are finished, densely by id.
    for rid in 0u128..3 {
        assert_eq!(g.query_finished_round(rid).unwrap().id, rid);
    }
    assert!(g.query_finished_round(3).is_none());
}

#[test]
fn advance_is_a_no_op_before_its_time() {
    let mut g = game_with(&["ubet"]);
    g.close_round(0, None, None).unwrap();
    // Too early: nothing is due, nothing changes, no price needed.
    g.close_round(100, None, None).unwrap();
    let s = g.query_status(100);
    assert_eq!(s.bidding_round.unwrap().id, 0);
    assert!(s.live_round.is_none());
}

#[test]
fn stale_observation_blocks_the_whole_advance() {
    let mut g = game_with(&["ubet"]);
    g.close_round(0, None, None).unwrap();
    // The bidding round is due at 300, but the observation is 11 seconds
    // old: the advance fails and nothing moves.
    let err = g.close_round(300, None, obs(1000, 289)).unwrap_err();
    assert!(matches!(err, ContractError::PriceTooOld));
    let s = g.query_status(300);
    assert!(s.live_round.is_none());
    assert_eq!(s.bidding_round.unwrap().id, 0);
    // A missing observation is just as fatal.
    let err = g.close_round(300, None, None).unwrap_err();
    assert!(matches!(err, ContractError::PriceTooOld));
    // A fresh one goes through.
    g.close_round(300, None, obs(1000, 295)).unwrap();
    assert_eq!(g.query_status(300).live_round.unwrap().id, 0);
}

#[test]
fn staleness_bound_is_ten_seconds() {
    assert!(assert_price_not_too_old(100, 90).is_ok());
    assert!(matches!(assert_price_not_too_old(100, 89), Err(ContractError::PriceTooOld)));
    // Near the epoch nothing can be too old.
    assert!(assert_price_not_too_old(5, 0).is_ok());
}

#[test]
fn assets_rotate_by_round_id() {
    let mut g = game_with(&["ubet", "uother"]);
    g.close_round(0, None, None).unwrap();
    assert_eq!(g.query_status(0).bidding_round.unwrap().denom, "ubet");
    g.close_round(300, None, obs(1000, 295)).unwrap();
    assert_eq!(g.query_status(300).bidding_round.unwrap().denom, "uother");
    g.close_round(600, obs(1000, 595), obs(1000, 595)).unwrap();
    assert_eq!(g.query_status(600).bidding_round.unwrap().denom, "ubet");
}

#[test]
fn winner_follows_the_price_comparison() {
    for (open, close, expect) in [
        (1000i128, 1500i128, Some(Direction::Bull)),
        (1000, 500, Some(Direction::Bear)),
        (1000, 1000, None),
    ] {
        let mut g = game_with(&["ubet"]);
        g.close_round(0, None, None).unwrap();
        g.close_round(300, None, obs(open, 295)).unwrap();
        g.close_round(600, obs(close, 595), obs(close, 595)).unwrap();
        assert_eq!(g.query_finished_round(0).unwrap().winner, expect);
        assert_eq!(g.query_finished_round(0).unwrap().open_price, open);
        assert_eq!(g.query_finished_round(0).unwrap().close_price, close);
    }
}

#[test]
fn halt_blocks_advancing_and_staking() {
    let mut g = game_with(&["ubet"]);
    let admin = "admin".to_string();
    g.close_round(0, None, None).unwrap();
    g.execute_update_halt(&admin, true).unwrap();
    assert!(matches!(g.close_round(300, None, obs(1000, 295)), Err(ContractError::Halted)));
    assert!(matches!(
        g.place_bet(10, &"alice".to_string(), 0, Direction::Bull, &"ubet".to_string(), 50, 50),
        Err(ContractError::Halted)
    ));
    g.execute_update_halt(&admin, false).unwrap();
    g.close_round(300, None, obs(1000, 295)).unwrap();
}

#[test]
fn stake_validation_errors() {
    let mut g = game_with(&["ubet"]);
    g.close_round(0, None, None).unwrap();
    let alice = "alice".to_string();
    let ubet = "ubet".to_string();
    let wrong = "uwrong".to_string();
    assert!(matches!(
        g.place_bet(10, &alice, 7, Direction::Bull, &ubet, 50, 50),
        Err(ContractError::NotCurrentRound { round_id: 7, current_round_id: 0 })
    ));
    assert!(matches!(
        g.place_bet(10, &alice, 0, Direction::Bull, &wrong, 50, 50),
        Err(ContractError::InvalidFunds)
    ));
    assert!(matches!(
        g.place_bet(10, &alice, 0, Direction::Bull, &ubet, 50, 40),
        Err(ContractError::NotEnoughFunds)
    ));
    assert!(matches!(
        g.place_bet(10, &alice, 0, Direction::Bull, &ubet, 5, 5),
        Err(ContractError::BetUnderMinBetAmount)
    ));
    // Past the open time the round no longer accepts stakes.
    assert!(matches!(
        g.place_bet(301, &alice, 0, Direction::Bull, &ubet, 50, 50),
        Err(ContractError::RoundFinished { round_id: 0, seconds: 1 })
    ));
    // Claims against rounds that have not finished are refused.
    assert!(matches!(
        g.collect_winning_round(&alice, 0),
        Err(ContractError::NothingToClaim)
    ));
}

#[test]
fn instantiation_validation() {
    let (cfg, ds, ts) = config_with(&["ubet"]);
    // Empty rotation list.
    assert!(matches!(
        Game::new(cfg.clone(), vec![], ts.clone(), "admin".to_string()),
        Err(ContractError::DenomsEmpty)
    ));
    // Unregistered asset.
    assert!(matches!(
        Game::new(cfg.clone(), vec!["unknown".to_string()], ts.clone(), "admin".to_string()),
        Err(ContractError::DenomNotRegistered { .. })
    ));
    // Ratios that do not reach one.
    let mut bad = cfg.clone();
    bad.dev_wallet_list = vec![WalletInfo { address: "dev".to_string(), ratio: 1 }];
    assert!(matches!(
        Game::new(bad, ds.clone(), ts.clone(), "admin".to_string()),
        Err(ContractError::WrongRatio)
    ));
    // An empty recipient list is allowed at instantiation.
    let mut empty = cfg.clone();
    empty.dev_wallet_list = vec![];
    assert!(Game::new(empty, ds, ts, "admin".to_string()).is_ok());
}
