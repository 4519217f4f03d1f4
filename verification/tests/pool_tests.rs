use carbonsol::engine::Engine;
use carbonsol::math::isqrt_u128;
use carbonsol::records::EngineError;
use carbonsol::records::TokenPair;

const CST: u64 = 1;
const VCU: u64 = 2;
const SOL: u64 = 3;
const AUTH: u64 = 100;
const LP: u64 = 400;

/// CST and SOL initialized, with the provider funded on both sides.
fn setup() -> Engine {
    let mut e = Engine::new(CST, VCU, SOL);
    assert_eq!(e.initialize_token(CST, 100_000, 6, AUTH, None, None), Ok(()));
    assert_eq!(e.initialize_token(SOL, 100_000, 9, AUTH, None, None), Ok(()));
    assert_eq!(e.transfer(CST, 10_000, AUTH, LP, AUTH), Ok(()));
    assert_eq!(e.transfer(SOL, 10_000, AUTH, LP, AUTH), Ok(()));
    e
}

#[test]
fn isqrt_matches_exact_squares_and_floors() {
    assert_eq!(isqrt_u128(0), 0);
    assert_eq!(isqrt_u128(1), 1);
    assert_eq!(isqrt_u128(2), 1);
    assert_eq!(isqrt_u128(3), 1);
    assert_eq!(isqrt_u128(4), 2);
    assert_eq!(isqrt_u128(40_000), 200);
    assert_eq!(isqrt_u128(40_001), 200);
    assert_eq!(isqrt_u128(u64::MAX as u128 * u64::MAX as u128), u64::MAX);
}

#[test]
fn first_deposit_mints_geometric_mean() {
    let mut e = setup();
    // isqrt(100 * 400) = 200 shares
    assert_eq!(e.add_liquidity(TokenPair::CstSol, 100, 400, LP, LP), Ok(200));
    assert_eq!(e.pool_state(TokenPair::CstSol), Some((100, 400, 200)));
    assert_eq!(e.lp_balance_of(TokenPair::CstSol, LP), 200);
    assert_eq!(e.balance_of(CST, LP), 9_900);
    assert_eq!(e.balance_of(SOL, LP), 9_600);
    // supplies unchanged: the deposit only moved into the pool
    assert_eq!(e.total_supply_of(CST), Some(100_000));
    assert_eq!(e.total_supply_of(SOL), Some(100_000));
}

#[test]
fn later_deposit_must_match_the_ratio() {
    let mut e = setup();
    assert_eq!(e.add_liquidity(TokenPair::CstSol, 100, 400, LP, LP), Ok(200));
    // required amount for 50 CST is 50 * 400 / 100 = 200 SOL
    assert_eq!(
        e.add_liquidity(TokenPair::CstSol, 50, 199, LP, LP),
        Err(EngineError::ValidationError)
    );
    assert_eq!(
        e.add_liquidity(TokenPair::CstSol, 50, 201, LP, LP),
        Err(EngineError::ValidationError)
    );
    // the matching deposit mints pro rata: 200 * 50 / 100 = 100 shares
    assert_eq!(e.add_liquidity(TokenPair::CstSol, 50, 200, LP, LP), Ok(100));
    assert_eq!(e.pool_state(TokenPair::CstSol), Some((150, 600, 300)));
    assert_eq!(e.lp_balance_of(TokenPair::CstSol, LP), 300);
}

#[test]
fn add_liquidity_validates_inputs() {
    let mut e = setup();
    assert_eq!(
        e.add_liquidity(TokenPair::CstSol, 100, 400, LP, AUTH),
        Err(EngineError::AuthorizationError)
    );
    assert_eq!(
        e.add_liquidity(TokenPair::CstSol, 0, 400, LP, LP),
        Err(EngineError::ValidationError)
    );
    assert_eq!(
        e.add_liquidity(TokenPair::VcuCst, 100, 400, LP, LP),
        Err(EngineError::StateError)
    );
    assert_eq!(
        e.add_liquidity(TokenPair::CstSol, 20_000, 400, LP, LP),
        Err(EngineError::ResourceError)
    );
    assert_eq!(e.pool_state(TokenPair::CstSol), None);
}

#[test]
fn partial_withdrawal_scales_everything_down() {
    let mut e = setup();
    assert_eq!(e.add_liquidity(TokenPair::CstSol, 150, 600, LP, LP), Ok(300));
    // burning 150 of 300 shares pays 150*150/300 = 75 CST and
    // 600*150/300 = 300 SOL
    assert_eq!(e.remove_liquidity(TokenPair::CstSol, 150, LP, LP), Ok((75, 300)));
    assert_eq!(e.pool_state(TokenPair::CstSol), Some((75, 300, 150)));
    assert_eq!(e.lp_balance_of(TokenPair::CstSol, LP), 150);
    assert_eq!(e.balance_of(CST, LP), 9_925);
    assert_eq!(e.balance_of(SOL, LP), 9_700);
}

#[test]
fn full_withdrawal_empties_and_removes_the_pool() {
    let mut e = setup();
    assert_eq!(e.add_liquidity(TokenPair::CstSol, 100, 400, LP, LP), Ok(200));
    assert_eq!(e.remove_liquidity(TokenPair::CstSol, 200, LP, LP), Ok((100, 400)));
    assert_eq!(e.pool_state(TokenPair::CstSol), None);
    assert_eq!(e.lp_balance_of(TokenPair::CstSol, LP), 0);
    // everything is back in the provider's free balance
    assert_eq!(e.balance_of(CST, LP), 10_000);
    assert_eq!(e.balance_of(SOL, LP), 10_000);
    assert_eq!(e.total_supply_of(CST), Some(100_000));
    assert_eq!(e.total_supply_of(SOL), Some(100_000));
    // the next deposit re-creates the pool lazily, at a fresh ratio
    assert_eq!(e.add_liquidity(TokenPair::CstSol, 9, 16, LP, LP), Ok(12));
    assert_eq!(e.pool_state(TokenPair::CstSol), Some((9, 16, 12)));
}

#[test]
fn remove_liquidity_validates_inputs() {
    let mut e = setup();
    assert_eq!(e.add_liquidity(TokenPair::CstSol, 100, 400, LP, LP), Ok(200));
    assert_eq!(
        e.remove_liquidity(TokenPair::CstSol, 10, LP, AUTH),
        Err(EngineError::AuthorizationError)
    );
    assert_eq!(
        e.remove_liquidity(TokenPair::CstSol, 0, LP, LP),
        Err(EngineError::ValidationError)
    );
    assert_eq!(
        e.remove_liquidity(TokenPair::VcuSol, 10, LP, LP),
        Err(EngineError::StateError)
    );
    assert_eq!(
        e.remove_liquidity(TokenPair::CstSol, 201, LP, LP),
        Err(EngineError::ResourceError)
    );
    assert_eq!(
        e.remove_liquidity(TokenPair::CstSol, 10, AUTH, AUTH),
        Err(EngineError::ResourceError)
    );
    assert_eq!(e.pool_state(TokenPair::CstSol), Some((100, 400, 200)));
}

#[test]
fn deposits_from_two_providers_track_shares_separately() {
    let mut e = setup();
    assert_eq!(e.transfer(CST, 1_000, AUTH, 401, AUTH), Ok(()));
    assert_eq!(e.transfer(SOL, 4_000, AUTH, 401, AUTH), Ok(()));
    assert_eq!(e.add_liquidity(TokenPair::CstSol, 100, 400, LP, LP), Ok(200));
    assert_eq!(e.add_liquidity(TokenPair::CstSol, 100, 400, 401, 401), Ok(200));
    assert_eq!(e.lp_balance_of(TokenPair::CstSol, LP), 200);
    assert_eq!(e.lp_balance_of(TokenPair::CstSol, 401), 200);
    assert_eq!(e.pool_state(TokenPair::CstSol), Some((200, 800, 400)));
    // one provider cannot burn the other's shares
    assert_eq!(
        e.remove_liquidity(TokenPair::CstSol, 201, 401, 401),
        Err(EngineError::ResourceError)
    );
    assert_eq!(e.remove_liquidity(TokenPair::CstSol, 200, 401, 401), Ok((100, 400)));
    assert_eq!(e.pool_state(TokenPair::CstSol), Some((100, 400, 200)));
}
