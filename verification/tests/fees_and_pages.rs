use prediction_game::errors::ContractError;
use prediction_game::fees::{compute_gaming_fee, split_fee};
use prediction_game::math::normalize_price;
use prediction_game::game::Game;
use prediction_game::types::{
    Config, DenomTicker, Direction, PriceObservation, WalletInfo, RATIO_PRECISION,
};

#[test]
fn gaming_fee_is_parts_per_ten_thousand() {
    // floor(300 * 12345 / 10000) = 370.
    assert_eq!(compute_gaming_fee(300, 12345).unwrap(), 370);
    assert_eq!(compute_gaming_fee(300, 0).unwrap(), 0);
    assert_eq!(compute_gaming_fee(0, 12345).unwrap(), 0);
    // floor(10000 * 7 / 10000) = 7: a rate of one keeps the whole amount.
    assert_eq!(compute_gaming_fee(10000, 7).unwrap(), 7);
    // A rate large enough to overflow the quotient is an arithmetic error.
    assert!(matches!(
        compute_gaming_fee(u128::MAX, u128::MAX),
        Err(ContractError::Overflow)
    ));
}

#[test]
fn fee_split_floors_each_share_and_never_exceeds_the_fee() {
    let half = RATIO_PRECISION / 2;
    let wallets = vec![
        WalletInfo { address: "a".to_string(), ratio: half },
        WalletInfo { address: "b".to_string(), ratio: half },
    ];
    // An odd fee loses one unit to flooring: 50 + 50 <= 101.
    let shares = split_fee(101, &wallets);
    assert_eq!(shares.len(), 2);
    assert_eq!(shares[0].to_address, "a");
    assert_eq!(shares[0].amount, 50);
    assert_eq!(shares[1].amount, 50);
    // Thirds floor individually: 3 * 33 <= 100.
    let third = RATIO_PRECISION / 3;
    let thirds = vec![
        WalletInfo { address: "a".to_string(), ratio: third },
        WalletInfo { address: "b".to_string(), ratio: third },
        WalletInfo { address: "c".to_string(), ratio: third },
    ];
    let shares = split_fee(100, &thirds);
    assert_eq!(shares.iter().map(|t| t.amount).sum::<u128>(), 99);
}

fn paged_game() -> Game {
    let cfg = Config {
        next_round_seconds: 300,
        minimum_bet: 1,
        gaming_fee: 0,
        token_denom: "ubet".to_string(),
        users_contract: "users".to_string(),
        exp_per_denom_bet: 0,
        exp_per_denom_won: 0,
        dev_wallet_list: vec![],
    };
    let mut g = Game::new(
        cfg,
        vec!["ubet".to_string()],
        vec![DenomTicker { denom: "ubet".to_string(), ticker: "UBET".to_string() }],
        "admin".to_string(),
    )
    .unwrap();
    let ubet = "ubet".to_string();
    // Three rounds of bidding; alice bets in each, bob only in round 0.
    let mut now = 0;
    for rid in 0u128..3 {
        g.close_round(now, Some(PriceObservation { price: 1000, observed_at: now }), Some(
            PriceObservation { price: 1000, observed_at: now },
        ))
        .unwrap();
        g.place_bet(now + 1, &"alice".to_string(), rid, Direction::Bull, &ubet, 10 + rid, 10 + rid)
            .unwrap();
        if rid == 0 {
            g.place_bet(now + 1, &"bob".to_string(), rid, Direction::Bear, &ubet, 7, 7).unwrap();
        }
        now += 300;
    }
    g
}

#[test]
fn my_games_pages_by_round_cursor() {
    let g = paged_game();
    let alice = "alice".to_string();
    let all = g.query_my_games(&alice, None, None);
    assert_eq!(all.my_game_list.len(), 3);
    assert_eq!(all.my_game_list[0].round_id, 0);
    assert_eq!(all.my_game_list[2].round_id, 2);
    let after0 = g.query_my_games(&alice, Some(0), None);
    assert_eq!(after0.my_game_list.len(), 2);
    assert_eq!(after0.my_game_list[0].round_id, 1);
    let limited = g.query_my_games(&alice, None, Some(1));
    assert_eq!(limited.my_game_list.len(), 1);
    assert_eq!(limited.my_game_list[0].round_id, 0);
    assert_eq!(limited.my_game_list[0].amount, 10);
}

#[test]
fn users_per_round_pages_by_user_cursor() {
    let g = paged_game();
    let all = g.query_users_per_round(0, None, None);
    assert_eq!(all.round_users.len(), 2);
    assert_eq!(all.round_users[0].player, "alice");
    assert_eq!(all.round_users[1].player, "bob");
    let after_alice = g.query_users_per_round(0, Some(&"alice".to_string()), None);
    assert_eq!(after_alice.round_users.len(), 1);
    assert_eq!(after_alice.round_users[0].player, "bob");
    let after_bob = g.query_users_per_round(0, Some(&"bob".to_string()), None);
    assert!(after_bob.round_users.is_empty());
}

#[test]
fn admin_surface_rules() {
    let mut g = paged_game();
    let admin = "admin".to_string();
    let mallory = "mallory".to_string();
    assert!(matches!(
        g.execute_add_admin(&mallory, "mallory2".to_string()),
        Err(ContractError::Unauthorized)
    ));
    g.execute_add_admin(&admin, "second".to_string()).unwrap();
    assert_eq!(g.query_get_admins().admins, vec!["admin".to_string(), "second".to_string()]);
    g.execute_remove_admin(&admin, &"second".to_string()).unwrap();
    assert_eq!(g.query_get_admins().admins, vec!["admin".to_string()]);
    // The last admin cannot be removed.
    assert!(matches!(
        g.execute_remove_admin(&admin, &admin),
        Err(ContractError::NeedOneAdmin)
    ));
    // Recipient lists must sum to exactly one.
    assert!(matches!(
        g.execute_modify_dev_wallets(&admin, vec![]),
        Err(ContractError::WrongRatio)
    ));
    g.execute_modify_dev_wallets(
        &admin,
        vec![WalletInfo { address: "dev".to_string(), ratio: RATIO_PRECISION }],
    )
    .unwrap();
    // The rotation list only accepts registered assets.
    assert!(matches!(
        g.execute_modify_bet_array(&admin, vec!["unknown".to_string()]),
        Err(ContractError::DenomNotRegistered { .. })
    ));
    assert!(matches!(
        g.execute_modify_bet_array(&admin, vec![]),
        Err(ContractError::DenomsEmpty)
    ));
    g.execute_add_ticker(&admin, "uother".to_string(), "OTHER".to_string()).unwrap();
    g.execute_modify_bet_array(&admin, vec!["uother".to_string()]).unwrap();
    assert_eq!(g.query_get_round_denoms().denoms, vec!["uother".to_string()]);
    let tickers = g.query_get_tickers().tickers;
    assert!(tickers.contains(&"OTHER".to_string()));
}

#[test]
fn price_normalization_rescales_to_eighteen_decimals() {
    // A coarser feed is scaled up exactly.
    assert_eq!(normalize_price(12345, 8).unwrap(), 123450000000000);
    assert_eq!(normalize_price(-12345, 8).unwrap(), -123450000000000);
    // A feed already at the target precision passes through.
    assert_eq!(normalize_price(987, 18).unwrap(), 987);
    // A finer feed is scaled down, rounding toward zero for both signs.
    assert_eq!(normalize_price(1999, 21).unwrap(), 1);
    assert_eq!(normalize_price(-1999, 21).unwrap(), -1);
    assert_eq!(normalize_price(999, 21).unwrap(), 0);
    // Scaling a huge price up leaves the signed 128-bit range.
    assert!(matches!(
        normalize_price(i128::MAX, 0),
        Err(ContractError::Overflow)
    ));
    // Zero survives any rescaling.
    assert_eq!(normalize_price(0, 0).unwrap(), 0);
}
