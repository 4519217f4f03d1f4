//! The engine's global laws, stated once over well-formedness.
//!
//! Every operation of the engine requires `wf()` and re-establishes it,
//! so each fact proved here holds at every observable point of any
//! sequence of operations.

use vstd::prelude::*;
use crate::engine::Engine;
use crate::engine::seq_mint_index;
use crate::engine::seq_order_index;
use crate::records::EngineError;
use crate::records::OrderStatus;
use crate::records::OrderType;
use crate::records::order_wf;

verus! {

/// Conservation: for every initialized token type, the recorded total
/// supply equals the sum of all free balances, all order escrows and all
/// pool reserves in that token.  Since every operation preserves `wf`,
/// this holds after any sequence of mint, burn, transfer, order,
/// settlement and liquidity operations.
pub proof fn lemma_conservation(e: Engine, token: u64)
    requires
        e.wf(),
        e.has_mint(token),
    ensures
        e.mint_of(token).total_supply as int
            == e.free_total(token) + e.escrow_total(token) + e.reserve_total(token),
{
    let i = seq_mint_index(e.mints@, token);
    assert(0 <= i < e.mints@.len() && e.mints@[i].token == token);
    assert(e.mints@[i].total_supply as int == e.token_total(e.mints@[i].token));
}

/// Order bounds: every stored order keeps `0 <= filled_quantity <=
/// quantity`, and is `Filled` exactly when the fill reaches the
/// quantity.  That no field of a terminal order ever changes is part of
/// each mutating operation's own postcondition.
pub proof fn lemma_order_bounds(e: Engine, order_id: u64)
    requires
        e.wf(),
        e.has_order(order_id),
    ensures
        0 <= e.order_of(order_id).filled_quantity <= e.order_of(order_id).quantity,
        e.order_of(order_id).status == OrderStatus::Filled
            <==> e.order_of(order_id).filled_quantity == e.order_of(order_id).quantity,
{
    let i = seq_order_index(e.orders@, order_id);
    assert(0 <= i < e.orders@.len() && e.orders@[i].id == order_id);
    assert(order_wf(e.orders@[i]));
}

/// An open order's escrow is exactly what its unfilled commitment still
/// owes: `price * remaining` quote units for a buy, `remaining` base
/// units for a sell — so settlement never has to re-check balance
/// sufficiency.
pub proof fn lemma_open_order_escrow(e: Engine, order_id: u64)
    requires
        e.wf(),
        e.has_order(order_id),
        e.order_of(order_id).status == OrderStatus::Open,
    ensures
        e.order_of(order_id).side == OrderType::Buy
            ==> e.order_of(order_id).escrow as int
                == e.order_of(order_id).price
                    * (e.order_of(order_id).quantity - e.order_of(order_id).filled_quantity),
        e.order_of(order_id).side == OrderType::Sell
            ==> e.order_of(order_id).escrow as int
                == e.order_of(order_id).quantity - e.order_of(order_id).filled_quantity,
{
    let i = seq_order_index(e.orders@, order_id);
    assert(0 <= i < e.orders@.len() && e.orders@[i].id == order_id);
    assert(order_wf(e.orders@[i]));
}

/// Idempotent rejection: once an order is cancelled, a second cancel by
/// its owner reports `StateError` — and by `cancel_order`'s contract a
/// rejected cancel changes nothing, so cancelling twice leaves exactly
/// the state after the first cancel.
pub proof fn lemma_cancel_idempotent_rejection(e: Engine, order_id: u64, requester: u64)
    requires
        e.wf(),
        e.has_order(order_id),
        e.order_of(order_id).status == OrderStatus::Cancelled,
        requester == e.order_of(order_id).owner,
    ensures
        e.cancel_order_outcome(order_id, requester)
            == Err::<(), EngineError>(EngineError::StateError),
{
}

/// Settlement rejection is total: on any input whose validation fails,
/// `settle_trade`'s contract pins the result to the first violated
/// condition and the state to be unchanged.  In particular a settlement
/// against a terminal order reports `StateError`.
pub proof fn lemma_settle_terminal_rejected(e: Engine, buy_id: u64, sell_id: u64, quantity: u64, price: u64)
    requires
        e.wf(),
        buy_id != sell_id,
        e.has_order(buy_id),
        e.has_order(sell_id),
        e.order_of(buy_id).market == e.order_of(sell_id).market,
        e.order_of(buy_id).side == OrderType::Buy,
        e.order_of(sell_id).side == OrderType::Sell,
        crate::records::is_terminal(e.order_of(buy_id).status)
            || crate::records::is_terminal(e.order_of(sell_id).status),
    ensures
        e.settle_trade_outcome(buy_id, sell_id, quantity, price)
            == Err::<(), EngineError>(EngineError::StateError),
{
}

} // verus!
