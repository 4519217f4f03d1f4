use carbonsol::engine::Engine;
use carbonsol::records::EngineError;
use carbonsol::records::OrderStatus;
use carbonsol::records::OrderType;
use carbonsol::records::VcuMetadata;

const CST: u64 = 1;
const VCU: u64 = 2;
const SOL: u64 = 3;
const MKT: u64 = 10;
const AUTH: u64 = 100;
const BUYER: u64 = 201;
const SELLER: u64 = 202;
const FEES: u64 = 300;

fn meta() -> VcuMetadata {
    VcuMetadata {
        project_id: [7u8; 32],
        verification_standard: [2u8; 32],
        verification_timestamp: 5,
        location: [b'D', b'E'],
        project_type: 1,
        vintage_year: 2020,
    }
}

/// A market trading VCU (base) against CST (quote), fee 50 bps, with a
/// funded buyer and seller.
fn setup() -> Engine {
    let mut e = Engine::new(CST, VCU, SOL);
    assert_eq!(e.initialize_token(CST, 10_000, 6, AUTH, None, None), Ok(()));
    assert_eq!(e.initialize_token(VCU, 1_000, 0, AUTH, None, Some(meta())), Ok(()));
    assert_eq!(e.initialize_market(MKT, AUTH, VCU, CST, 50, FEES), Ok(()));
    assert_eq!(e.transfer(CST, 1_000, AUTH, BUYER, AUTH), Ok(()));
    assert_eq!(e.transfer(VCU, 100, AUTH, SELLER, AUTH), Ok(()));
    e
}

#[test]
fn initialize_market_validates_inputs() {
    let mut e = Engine::new(CST, VCU, SOL);
    assert_eq!(e.initialize_token(CST, 10_000, 6, AUTH, None, None), Ok(()));
    assert_eq!(e.initialize_token(VCU, 1_000, 0, AUTH, None, Some(meta())), Ok(()));
    assert_eq!(
        e.initialize_market(MKT, AUTH, VCU, CST, 10_001, FEES),
        Err(EngineError::ValidationError)
    );
    assert_eq!(
        e.initialize_market(MKT, AUTH, VCU, VCU, 50, FEES),
        Err(EngineError::ValidationError)
    );
    assert_eq!(
        e.initialize_market(MKT, AUTH, VCU, SOL, 50, FEES),
        Err(EngineError::StateError)
    );
    assert_eq!(e.initialize_market(MKT, AUTH, VCU, CST, 10_000, FEES), Ok(()));
    assert_eq!(
        e.initialize_market(MKT, AUTH, VCU, CST, 50, FEES),
        Err(EngineError::DuplicateInitialization)
    );
}

#[test]
fn create_order_escrows_committed_funds() {
    let mut e = setup();
    // a buy order escrows price * quantity quote units
    assert_eq!(e.create_order(MKT, 1001, BUYER, BUYER, OrderType::Buy, 10, 100, 2), Ok(()));
    assert_eq!(e.balance_of(CST, BUYER), 0);
    let o = e.get_order(1001).unwrap();
    assert_eq!(o.escrow, 1_000);
    assert_eq!(o.escrow_token, CST);
    assert_eq!(o.status, OrderStatus::Open);
    assert_eq!(o.sequence, 0);
    assert_eq!(o.filled_quantity, 0);
    // a sell order escrows the base quantity
    assert_eq!(e.create_order(MKT, 1000, SELLER, SELLER, OrderType::Sell, 9, 100, 1), Ok(()));
    assert_eq!(e.balance_of(VCU, SELLER), 0);
    let s = e.get_order(1000).unwrap();
    assert_eq!(s.escrow, 100);
    assert_eq!(s.escrow_token, VCU);
    assert_eq!(s.sequence, 1);
    assert_eq!(e.get_market(MKT).unwrap().orders_count, 2);
}

#[test]
fn create_order_validates_inputs() {
    let mut e = setup();
    assert_eq!(
        e.create_order(MKT, 1001, BUYER, SELLER, OrderType::Buy, 10, 100, 2),
        Err(EngineError::AuthorizationError)
    );
    assert_eq!(
        e.create_order(99, 1001, BUYER, BUYER, OrderType::Buy, 10, 100, 2),
        Err(EngineError::StateError)
    );
    assert_eq!(
        e.create_order(MKT, 1001, BUYER, BUYER, OrderType::Buy, 0, 100, 2),
        Err(EngineError::ValidationError)
    );
    assert_eq!(
        e.create_order(MKT, 1001, BUYER, BUYER, OrderType::Buy, 10, 0, 2),
        Err(EngineError::ValidationError)
    );
    // the buyer cannot commit more than the free balance
    assert_eq!(
        e.create_order(MKT, 1001, BUYER, BUYER, OrderType::Buy, 11, 100, 2),
        Err(EngineError::ResourceError)
    );
    // a buy whose quote commitment does not fit in 64 bits is rejected
    assert_eq!(
        e.create_order(MKT, 1001, BUYER, BUYER, OrderType::Buy, u64::MAX, 2, 2),
        Err(EngineError::ValidationError)
    );
    assert_eq!(e.create_order(MKT, 1001, BUYER, BUYER, OrderType::Buy, 10, 100, 2), Ok(()));
    assert_eq!(
        e.create_order(MKT, 1001, SELLER, SELLER, OrderType::Sell, 9, 1, 3),
        Err(EngineError::DuplicateInitialization)
    );
}

#[test]
fn cancel_refunds_escrow_and_is_terminal() {
    let mut e = setup();
    assert_eq!(e.create_order(MKT, 1001, BUYER, BUYER, OrderType::Buy, 10, 100, 2), Ok(()));
    assert_eq!(e.balance_of(CST, BUYER), 0);
    assert_eq!(e.cancel_order(1001, SELLER), Err(EngineError::AuthorizationError));
    assert_eq!(e.cancel_order(1001, BUYER), Ok(()));
    assert_eq!(e.balance_of(CST, BUYER), 1_000);
    let o = e.get_order(1001).unwrap();
    assert_eq!(o.status, OrderStatus::Cancelled);
    assert_eq!(o.escrow, 0);
    // cancelling again is rejected with StateError and changes nothing
    assert_eq!(e.cancel_order(1001, BUYER), Err(EngineError::StateError));
    assert_eq!(e.balance_of(CST, BUYER), 1_000);
    assert_eq!(e.get_order(1001).unwrap(), o);
}

#[test]
fn match_uses_maker_price_and_min_quantity() {
    let mut e = setup();
    // the sell order rests first (maker), the buy order arrives second
    assert_eq!(e.create_order(MKT, 1000, SELLER, SELLER, OrderType::Sell, 9, 100, 1), Ok(()));
    assert_eq!(e.create_order(MKT, 1001, BUYER, BUYER, OrderType::Buy, 10, 100, 2), Ok(()));
    assert_eq!(e.match_orders(1001, 1000, 100), Ok((100, 9)));
    // the proposal caps the quantity
    assert_eq!(e.match_orders(1001, 1000, 30), Ok((30, 9)));
    // no balances moved
    assert_eq!(e.balance_of(CST, BUYER), 0);
    assert_eq!(e.balance_of(VCU, SELLER), 0);
}

#[test]
fn match_breaks_created_at_ties_by_sequence() {
    let mut e = setup();
    // both orders carry the same timestamp; the sell has the lower
    // sequence number and is the maker
    assert_eq!(e.create_order(MKT, 1000, SELLER, SELLER, OrderType::Sell, 9, 100, 5), Ok(()));
    assert_eq!(e.create_order(MKT, 1001, BUYER, BUYER, OrderType::Buy, 10, 100, 5), Ok(()));
    assert_eq!(e.match_orders(1001, 1000, 100), Ok((100, 9)));
}

#[test]
fn match_rejects_uncrossed_and_mismatched_orders() {
    let mut e = setup();
    assert_eq!(e.create_order(MKT, 1000, SELLER, SELLER, OrderType::Sell, 11, 100, 1), Ok(()));
    assert_eq!(e.create_order(MKT, 1001, BUYER, BUYER, OrderType::Buy, 10, 50, 2), Ok(()));
    // buy price below sell price: no cross
    assert_eq!(e.match_orders(1001, 1000, 100), Err(EngineError::ValidationError));
    // sides must be buy then sell
    assert_eq!(e.match_orders(1000, 1001, 100), Err(EngineError::ValidationError));
    assert_eq!(e.match_orders(1001, 1001, 100), Err(EngineError::ValidationError));
    assert_eq!(e.match_orders(1001, 9999, 100), Err(EngineError::StateError));
    assert_eq!(e.match_orders(1001, 1000, 0), Err(EngineError::ValidationError));
}

#[test]
fn settle_full_fill_with_fee_and_price_improvement() {
    // maker sell 100 at 9; taker buy 100 at 10; fee rate 50 bps.
    // quantity 100 settles at the maker price 9: quote amount 900,
    // fee floor(900 * 50 / 10000) = 4, net to seller 896; the buyer's
    // 100 units of price improvement come back out of escrow.
    let mut e = setup();
    assert_eq!(e.create_order(MKT, 1000, SELLER, SELLER, OrderType::Sell, 9, 100, 1), Ok(()));
    assert_eq!(e.create_order(MKT, 1001, BUYER, BUYER, OrderType::Buy, 10, 100, 2), Ok(()));
    let (qty, price) = e.match_orders(1001, 1000, 100).unwrap();
    assert_eq!((qty, price), (100, 9));
    assert_eq!(e.settle_trade(1001, 1000, qty, price, 3), Ok(()));
    // buyer: -900 quote overall, +100 base
    assert_eq!(e.balance_of(CST, BUYER), 100);
    assert_eq!(e.balance_of(VCU, BUYER), 100);
    // seller: +896 quote, -100 base
    assert_eq!(e.balance_of(CST, SELLER), 896);
    assert_eq!(e.balance_of(VCU, SELLER), 0);
    // fee collector: +4 quote
    assert_eq!(e.balance_of(CST, FEES), 4);
    let b = e.get_order(1001).unwrap();
    let s = e.get_order(1000).unwrap();
    assert_eq!(b.status, OrderStatus::Filled);
    assert_eq!(s.status, OrderStatus::Filled);
    assert_eq!(b.filled_quantity, 100);
    assert_eq!(s.filled_quantity, 100);
    assert_eq!(b.escrow, 0);
    assert_eq!(s.escrow, 0);
    assert_eq!(b.updated_at, 3);
    // supplies are conserved
    assert_eq!(e.total_supply_of(CST), Some(10_000));
    assert_eq!(e.total_supply_of(VCU), Some(1_000));
}

#[test]
fn settle_partial_fill_keeps_orders_open() {
    let mut e = setup();
    assert_eq!(e.create_order(MKT, 1000, SELLER, SELLER, OrderType::Sell, 9, 100, 1), Ok(()));
    assert_eq!(e.create_order(MKT, 1001, BUYER, BUYER, OrderType::Buy, 10, 100, 2), Ok(()));
    assert_eq!(e.settle_trade(1001, 1000, 40, 9, 3), Ok(()));
    let b = e.get_order(1001).unwrap();
    let s = e.get_order(1000).unwrap();
    assert_eq!(b.status, OrderStatus::Open);
    assert_eq!(s.status, OrderStatus::Open);
    assert_eq!(b.filled_quantity, 40);
    assert_eq!(s.filled_quantity, 40);
    // the buy escrow still covers price * remaining at the limit price
    assert_eq!(b.escrow, 600);
    assert_eq!(s.escrow, 60);
    // quote amount 360, fee floor(360 * 50 / 10000) = 1
    assert_eq!(e.balance_of(CST, SELLER), 359);
    assert_eq!(e.balance_of(CST, FEES), 1);
    assert_eq!(e.balance_of(VCU, BUYER), 40);
    // settling more than the remainder is rejected with no change
    assert_eq!(e.settle_trade(1001, 1000, 61, 9, 4), Err(EngineError::StateError));
    assert_eq!(e.get_order(1001).unwrap(), b);
}

#[test]
fn settle_rejects_terminal_orders_without_any_change() {
    let mut e = setup();
    assert_eq!(e.create_order(MKT, 1000, SELLER, SELLER, OrderType::Sell, 9, 100, 1), Ok(()));
    assert_eq!(e.create_order(MKT, 1001, BUYER, BUYER, OrderType::Buy, 10, 100, 2), Ok(()));
    assert_eq!(e.settle_trade(1001, 1000, 100, 9, 3), Ok(()));
    let buyer_cst = e.balance_of(CST, BUYER);
    let seller_cst = e.balance_of(CST, SELLER);
    // both orders are Filled now: a second settlement is rejected and
    // credits nothing twice
    assert_eq!(e.settle_trade(1001, 1000, 1, 9, 4), Err(EngineError::StateError));
    assert_eq!(e.balance_of(CST, BUYER), buyer_cst);
    assert_eq!(e.balance_of(CST, SELLER), seller_cst);
    assert_eq!(e.balance_of(CST, FEES), 4);
}

#[test]
fn settle_rejects_price_outside_the_cross() {
    let mut e = setup();
    assert_eq!(e.create_order(MKT, 1000, SELLER, SELLER, OrderType::Sell, 9, 100, 1), Ok(()));
    assert_eq!(e.create_order(MKT, 1001, BUYER, BUYER, OrderType::Buy, 10, 100, 2), Ok(()));
    assert_eq!(e.settle_trade(1001, 1000, 10, 8, 3), Err(EngineError::ValidationError));
    assert_eq!(e.settle_trade(1001, 1000, 10, 11, 3), Err(EngineError::ValidationError));
    assert_eq!(e.settle_trade(1001, 1000, 0, 9, 3), Err(EngineError::ValidationError));
    assert_eq!(e.balance_of(CST, SELLER), 0);
}
