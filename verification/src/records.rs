//! The persisted record types of the platform and their local invariants.
//!
//! Keys (token types, holders, markets, orders) are the stable external
//! identifiers under which the host's keyed storage addresses each record;
//! the engine consumes them as plain integers.  Signature verification is
//! the host's job: an operation receives the key of the verified signer
//! and only compares it against the expected authority.

use vstd::prelude::*;

verus! {

/// Side of an order.
#[derive(Clone, Copy, Debug, PartialEq, Eq, Structural)]
pub enum OrderType {
    Buy,
    Sell,
}

/// Lifecycle state of an order.  `Filled` and `Cancelled` are terminal.
#[derive(Clone, Copy, Debug, PartialEq, Eq, Structural)]
pub enum OrderStatus {
    Open,
    Filled,
    Cancelled,
}

/// Token pair of a liquidity pool.
#[derive(Clone, Copy, Debug, PartialEq, Eq, Structural)]
pub enum TokenPair {
    CstSol,
    VcuCst,
    VcuSol,
}

/// Per-operation outcome taxonomy.  Every failure is reported to the
/// caller; none leaves a partial state change behind.
#[derive(Clone, Copy, Debug, PartialEq, Eq, Structural)]
pub enum EngineError {
    /// Missing or mismatched signer.
    AuthorizationError,
    /// Operation invalid for the current lifecycle state of a record.
    StateError,
    /// Zero amount or price, ratio mismatch, fee rate or arithmetic range
    /// out of bounds.
    ValidationError,
    /// Insufficient balance or liquidity.
    ResourceError,
    /// A record with the given key already exists.
    DuplicateInitialization,
}

/// Verification metadata carried by a verified-carbon-unit token type.
#[derive(Clone, Copy, Debug)]
pub struct VcuMetadata {
    pub project_id: [u8; 32],
    pub verification_standard: [u8; 32],
    pub verification_timestamp: u64,
    pub location: [u8; 2],
    pub project_type: u8,
    pub vintage_year: u16,
}

/// Append-only proof-of-offset entry, written by `retire` and never
/// mutated or removed.
#[derive(Clone, Copy, Debug)]
pub struct RetirementRecord {
    pub project_id: [u8; 32],
    pub retiree: u64,
    pub amount: u64,
    pub timestamp: u64,
}

/// One record per token type: supply and authority.  A token carrying
/// `meta` is a verified carbon unit and admits `retire`.
#[derive(Clone, Copy, Debug)]
pub struct MintRecord {
    pub token: u64,
    pub total_supply: u64,
    pub decimals: u8,
    pub mint_authority: u64,
    pub freeze_authority: Option<u64>,
    pub meta: Option<VcuMetadata>,
}

/// Free balance of one holder in one token type.
#[derive(Clone, Copy, Debug)]
pub struct BalanceEntry {
    pub token: u64,
    pub holder: u64,
    pub amount: u64,
}

/// An order resting in a market's book.  `escrow` is the amount of
/// `escrow_token` still locked against the order's open commitment; it is
/// funded when the order is created so that settlement never has to
/// re-check balance sufficiency.
#[derive(Clone, Copy, Debug, PartialEq, Eq, Structural)]
pub struct Order {
    pub id: u64,
    pub owner: u64,
    pub market: u64,
    pub side: OrderType,
    pub price: u64,
    pub quantity: u64,
    pub filled_quantity: u64,
    pub status: OrderStatus,
    pub created_at: u64,
    pub updated_at: u64,
    pub sequence: u64,
    pub escrow: u64,
    pub escrow_token: u64,
}

/// A market over a token pair, with its fee rate in basis points and the
/// monotonic counter that assigns order sequence numbers.
#[derive(Clone, Copy, Debug)]
pub struct Market {
    pub id: u64,
    pub authority: u64,
    pub base_token: u64,
    pub quote_token: u64,
    pub fee_rate_bps: u16,
    pub orders_count: u64,
    pub fee_collector: u64,
}

/// Liquidity-provider share balance inside one pool.
#[derive(Clone, Copy, Debug)]
pub struct LpBalance {
    pub holder: u64,
    pub amount: u64,
}

/// Constant-product pool over a token pair.  A pool record exists exactly
/// while its reserves are positive.
#[derive(Debug)]
pub struct LiquidityPool {
    pub pair: TokenPair,
    pub token_a: u64,
    pub token_b: u64,
    pub reserve_a: u64,
    pub reserve_b: u64,
    pub lp_token_supply: u64,
    pub lp_balances: Vec<LpBalance>,
}

pub open spec fn is_terminal(st: OrderStatus) -> bool {
    st == OrderStatus::Filled || st == OrderStatus::Cancelled
}

pub open spec fn order_remaining(o: Order) -> int {
    o.quantity - o.filled_quantity
}

/// Local invariant of one order: the fill bound, the terminal-state law,
/// and the exact escrow equation.  An open buy order keeps exactly
/// `price * remaining` quote units in escrow; an open sell order keeps
/// exactly `remaining` base units; a terminal order keeps nothing.
pub open spec fn order_wf(o: Order) -> bool {
    &&& o.price >= 1
    &&& o.quantity >= 1
    &&& o.filled_quantity <= o.quantity
    &&& (o.status == OrderStatus::Filled <==> o.filled_quantity == o.quantity)
    &&& (o.status == OrderStatus::Open ==> {
        if o.side == OrderType::Buy {
            o.escrow as int == o.price * order_remaining(o)
        } else {
            o.escrow as int == order_remaining(o)
        }
    })
    &&& (is_terminal(o.status) ==> o.escrow == 0)
}

pub open spec fn market_wf(m: Market) -> bool {
    &&& m.fee_rate_bps <= 10000
    &&& m.base_token != m.quote_token
}

// Contribution functions: each engine total is `sum` of one of these
// mapped over a record sequence.

pub open spec fn bal_fn(token: u64, holder: u64) -> spec_fn(BalanceEntry) -> int {
    |e: BalanceEntry| if e.token == token && e.holder == holder { e.amount as int } else { 0 }
}

pub open spec fn token_fn(token: u64) -> spec_fn(BalanceEntry) -> int {
    |e: BalanceEntry| if e.token == token { e.amount as int } else { 0 }
}

pub open spec fn escrow_fn(token: u64) -> spec_fn(Order) -> int {
    |o: Order| if o.escrow_token == token { o.escrow as int } else { 0 }
}

pub open spec fn reserve_fn(token: u64) -> spec_fn(LiquidityPool) -> int {
    |p: LiquidityPool| (if p.token_a == token { p.reserve_a as int } else { 0 })
        + (if p.token_b == token { p.reserve_b as int } else { 0 })
}

pub open spec fn lp_fn(holder: u64) -> spec_fn(LpBalance) -> int {
    |b: LpBalance| if b.holder == holder { b.amount as int } else { 0 }
}

pub open spec fn lp_all_fn() -> spec_fn(LpBalance) -> int {
    |b: LpBalance| b.amount as int
}

/// Share balance of one holder inside a pool.
pub open spec fn pool_lp_of(p: LiquidityPool, holder: u64) -> int {
    crate::sums::sum(p.lp_balances@.map_values(lp_fn(holder)))
}

/// Local invariant of one pool: reserves and share supply are positive,
/// the pair is over two distinct tokens, holders are unique, and the
/// share supply equals the sum of the holders' share balances.
pub open spec fn pool_wf(p: LiquidityPool) -> bool {
    &&& p.reserve_a >= 1
    &&& p.reserve_b >= 1
    &&& p.lp_token_supply >= 1
    &&& p.token_a != p.token_b
    &&& forall|i: int, j: int|
        0 <= i < j < p.lp_balances@.len()
            ==> p.lp_balances@[i].holder != p.lp_balances@[j].holder
    &&& p.lp_token_supply as int == crate::sums::sum(p.lp_balances@.map_values(lp_all_fn()))
}

} // verus!
