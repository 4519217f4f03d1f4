//! Atomic multi-leg settlement of a matched trade.
//!
//! A settlement moves four legs at once: base units from the seller's
//! escrow to the buyer, and the quote amount out of the buyer's escrow,
//! split between the seller (net), the market's fee collector (fee) and
//! the buyer (the price-improvement refund that keeps the buy order's
//! escrow equation exact).  Every precondition is checked before the
//! first leg is applied; a failed settlement changes nothing.

use vstd::prelude::*;
use crate::engine::Engine;
use crate::engine::lemma_market_index_is;
use crate::engine::seq_order_index;
use crate::engine::same_registry;
use crate::math::lemma_mul_le;
use crate::math::lemma_share_le_whole;
use crate::math::lemma_u64_mul_fits;
use crate::records::EngineError;
use crate::records::Order;
use crate::records::OrderStatus;
use crate::records::OrderType;
use crate::records::escrow_fn;
use crate::records::is_terminal;
use crate::records::order_remaining;
use crate::records::order_wf;
use crate::sums::lemma_sum_map_elem_le;
use crate::sums::lemma_sum_map_update;

verus! {

/// Fee owed on a quote amount at a basis-point rate, rounded down.
pub open spec fn fee_of(quote_amount: int, fee_rate_bps: u16) -> int {
    quote_amount * fee_rate_bps / 10000
}

/// How one side of a matched pair looks after settling `quantity` units:
/// the fill grows, the escrow shrinks by exactly the committed rate, and
/// the order becomes `Filled` when the fill reaches the quantity.
pub open spec fn settled_order(o: Order, quantity: u64, now: u64) -> Order {
    Order {
        filled_quantity: (o.filled_quantity + quantity) as u64,
        status: if o.filled_quantity + quantity == o.quantity {
            OrderStatus::Filled
        } else {
            OrderStatus::Open
        },
        escrow: if o.side == OrderType::Buy {
            (o.escrow - o.price * quantity) as u64
        } else {
            (o.escrow - quantity) as u64
        },
        updated_at: now,
        ..o
    }
}

impl Engine {
    /// Outcome of `settle_trade` on the current state.
    pub open spec fn settle_trade_outcome(self, buy_id: u64, sell_id: u64, quantity: u64, price: u64) -> Result<(), EngineError> {
        if buy_id == sell_id {
            Err(EngineError::ValidationError)
        } else if !self.has_order(buy_id) || !self.has_order(sell_id) {
            Err(EngineError::StateError)
        } else if self.order_of(buy_id).market != self.order_of(sell_id).market {
            Err(EngineError::ValidationError)
        } else if self.order_of(buy_id).side != OrderType::Buy
            || self.order_of(sell_id).side != OrderType::Sell {
            Err(EngineError::ValidationError)
        } else if self.order_of(buy_id).status != OrderStatus::Open
            || self.order_of(sell_id).status != OrderStatus::Open {
            Err(EngineError::StateError)
        } else if quantity == 0 {
            Err(EngineError::ValidationError)
        } else if quantity > order_remaining(self.order_of(buy_id))
            || quantity > order_remaining(self.order_of(sell_id)) {
            Err(EngineError::StateError)
        } else if price < self.order_of(sell_id).price || price > self.order_of(buy_id).price {
            Err(EngineError::ValidationError)
        } else {
            Ok(())
        }
    }

    /// Settle `quantity` units between an open buy and an open sell at a
    /// price inside the crossed range, atomically: the four legs commit
    /// together or not at all.
    #[verifier::rlimit(40)]
    pub fn settle_trade(&mut self, buy_id: u64, sell_id: u64, quantity: u64, price: u64, now: u64) -> (r: Result<(), EngineError>)
        requires
            old(self).wf(),
        ensures
            final(self).wf(),
            r == old(self).settle_trade_outcome(buy_id, sell_id, quantity, price),
            r is Err ==> *final(self) == *old(self),
            r is Ok ==> ({
                let b = old(self).order_of(buy_id);
                let s = old(self).order_of(sell_id);
                let m = old(self).market_of(b.market);
                let quote_amount = price * quantity;
                let fee = fee_of(quote_amount, m.fee_rate_bps);
                let net = quote_amount - fee;
                let refund = (b.price - price) * quantity;
                &&& final(self).orders@ == old(self).orders@
                    .update(seq_order_index(old(self).orders@, buy_id), settled_order(b, quantity, now))
                    .update(seq_order_index(old(self).orders@, sell_id), settled_order(s, quantity, now))
                &&& forall|t: u64, h: u64|
                    #[trigger] final(self).bal_of(t, h) == old(self).bal_of(t, h)
                        + (if t == m.base_token && h == b.owner { quantity as int } else { 0 })
                        + (if t == m.quote_token && h == b.owner { refund } else { 0 })
                        + (if t == m.quote_token && h == s.owner { net } else { 0 })
                        + (if t == m.quote_token && h == m.fee_collector { fee } else { 0 })
                &&& final(self).mints@ == old(self).mints@
                &&& final(self).markets@ == old(self).markets@
                &&& final(self).pools@ == old(self).pools@
                &&& final(self).retirements@ == old(self).retirements@
                &&& same_registry(*old(self), *final(self))
            }),
            // terminal orders never change
            forall|j: int|
                0 <= j < old(self).orders@.len() && is_terminal(old(self).orders@[j].status)
                    ==> final(self).orders@[j] == old(self).orders@[j],
    {
        if buy_id == sell_id {
            return Err(EngineError::ValidationError);
        }
        let bi = match self.find_order(buy_id) {
            None => {
                return Err(EngineError::StateError);
            },
            Some(i) => i,
        };
        let si = match self.find_order(sell_id) {
            None => {
                return Err(EngineError::StateError);
            },
            Some(i) => i,
        };
        proof {
            crate::engine::lemma_order_index_is(self.orders@, buy_id, bi as int);
            crate::engine::lemma_order_index_is(self.orders@, sell_id, si as int);
        }
        let b = self.orders[bi];
        let s = self.orders[si];
        if b.market != s.market {
            return Err(EngineError::ValidationError);
        }
        if !matches!(b.side, OrderType::Buy) || !matches!(s.side, OrderType::Sell) {
            return Err(EngineError::ValidationError);
        }
        if !matches!(b.status, OrderStatus::Open) || !matches!(s.status, OrderStatus::Open) {
            return Err(EngineError::StateError);
        }
        if quantity == 0 {
            return Err(EngineError::ValidationError);
        }
        proof {
            assert(order_wf(b) && order_wf(s));
        }
        if quantity > b.quantity - b.filled_quantity || quantity > s.quantity - s.filled_quantity {
            return Err(EngineError::StateError);
        }
        if price < s.price || price > b.price {
            return Err(EngineError::ValidationError);
        }
        let mi = match self.find_market(b.market) {
            None => {
                proof {
                    assert(self.order_linked(b));
                    assert(false);
                }
                return Err(EngineError::StateError);
            },
            Some(i) => i,
        };
        proof {
            lemma_market_index_is(self.markets@, b.market, mi as int);
        }
        let m = self.markets[mi];
        // amounts of the four legs; everything fits because the buy
        // escrow equals price * remaining and bounds the quote side
        proof {
            assert(self.order_linked(b) && self.order_linked(s));
            assert(b.escrow_token == m.quote_token && s.escrow_token == m.base_token);
            assert(crate::records::market_wf(m));
            lemma_u64_mul_fits(price, quantity);
            lemma_u64_mul_fits(b.price, quantity);
            lemma_mul_le(price as int, b.price as int, quantity as int, order_remaining(b));
            lemma_mul_le(b.price as int, b.price as int, quantity as int, order_remaining(b));
            lemma_mul_le(price as int, b.price as int, quantity as int, quantity as int);
            assert(b.escrow as int == b.price * order_remaining(b));
            assert(price * quantity <= b.escrow as int);
            assert(b.price * quantity <= b.escrow as int);
            assert(price * quantity <= b.price * quantity);
        }
        let quote128: u128 = (price as u128) * (quantity as u128);
        let quote: u64 = quote128 as u64;
        proof {
            lemma_mul_le(quote as int, u64::MAX as int, m.fee_rate_bps as int, 10000);
            assert(0xffffffffffffffffint * 10000int < 0x100000000000000000000000000000000int);
            lemma_share_le_whole(quote as int, m.fee_rate_bps as int, 10000);
        }
        let fee128: u128 = quote128 * (m.fee_rate_bps as u128) / 10000;
        let fee: u64 = fee128 as u64;
        let net: u64 = quote - fee;
        let bpq128: u128 = (b.price as u128) * (quantity as u128);
        let bpq: u64 = bpq128 as u64;
        let refund: u64 = bpq - quote;
        proof {
            // (b.price - price) * quantity == b.price * quantity - price * quantity
            assert((b.price - price) * quantity == b.price * quantity - price * quantity)
                by (nonlinear_arith);
            assert(refund as int == (b.price - price) * quantity);
        }
        // all preconditions hold; stage the six mutations
        let ghost pre = *self;
        let b_new = Order {
            filled_quantity: b.filled_quantity + quantity,
            status: if b.filled_quantity + quantity == b.quantity {
                OrderStatus::Filled
            } else {
                OrderStatus::Open
            },
            escrow: b.escrow - bpq,
            updated_at: now,
            ..b
        };
        let s_new = Order {
            filled_quantity: s.filled_quantity + quantity,
            status: if s.filled_quantity + quantity == s.quantity {
                OrderStatus::Filled
            } else {
                OrderStatus::Open
            },
            escrow: s.escrow - quantity,
            updated_at: now,
            ..s
        };
        proof {
            assert(b_new == settled_order(b, quantity, now));
            assert(s_new == settled_order(s, quantity, now));
            // the settled orders are well formed: the escrow equations
            // shrink in step with the remainders
            assert(b.price * order_remaining(b) - b.price * quantity
                == b.price * (order_remaining(b) - quantity)) by (nonlinear_arith);
            assert(b_new.escrow as int == b.price * order_remaining(b_new));
            if b_new.filled_quantity == b_new.quantity {
                assert(b.price * order_remaining(b_new) == 0) by (nonlinear_arith)
                    requires order_remaining(b_new) == 0;
            }
            assert(order_wf(b_new));
            assert(order_wf(s_new));
        }
        self.orders[bi] = b_new;
        self.orders[si] = s_new;
        let ghost mid0 = *self;
        proof {
            assert(bi != si);
            assert(mid0.orders@ == pre.orders@.update(bi as int, b_new).update(si as int, s_new));
            // escrow totals after the two order updates
            assert forall|t: u64|
                #[trigger] mid0.escrow_total(t) == pre.escrow_total(t)
                    - (if t == m.quote_token { bpq as int } else { 0 })
                    - (if t == m.base_token { quantity as int } else { 0 }) by {
                let seq1 = pre.orders@.update(bi as int, b_new);
                lemma_sum_map_update(pre.orders@, bi as int, b_new, escrow_fn(t));
                assert(seq1[si as int] == s);
                lemma_sum_map_update(seq1, si as int, s_new, escrow_fn(t));
            }
            // headroom facts, all in terms of the pre state
            pre.lemma_bal_headroom(m.base_token, b.owner);
            pre.lemma_totals_nonneg(m.base_token);
            pre.lemma_bal_headroom(m.quote_token, b.owner);
            pre.lemma_totals_nonneg(m.quote_token);
            assert forall|j: int| 0 <= j < pre.orders@.len()
                implies #[trigger] escrow_fn(m.base_token)(pre.orders@[j]) >= 0 by {}
            lemma_sum_map_elem_le(pre.orders@, si as int, escrow_fn(m.base_token));
            assert(quantity as int <= pre.escrow_total(m.base_token));
            assert forall|j: int| 0 <= j < pre.orders@.len()
                implies #[trigger] escrow_fn(m.quote_token)(pre.orders@[j]) >= 0 by {}
            lemma_sum_map_elem_le(pre.orders@, bi as int, escrow_fn(m.quote_token));
            assert(bpq as int <= pre.escrow_total(m.quote_token));
            // first credit fits: buyer's base balance plus quantity
            assert(mid0.bal_of(m.base_token, b.owner) == pre.bal_of(m.base_token, b.owner));
            assert(mid0.bal_of(m.base_token, b.owner) + quantity <= u64::MAX);
        }
        self.credit(m.base_token, b.owner, quantity);
        let ghost mid1 = *self;
        proof {
            assert(mid1.free_total(m.quote_token) == pre.free_total(m.quote_token));
            mid1.lemma_bal_le_free(m.quote_token, b.owner);
            assert(mid1.bal_of(m.quote_token, b.owner) + refund <= u64::MAX);
        }
        self.credit(m.quote_token, b.owner, refund);
        let ghost mid2 = *self;
        proof {
            assert(mid2.free_total(m.quote_token)
                == pre.free_total(m.quote_token) + refund);
            mid2.lemma_bal_le_free(m.quote_token, s.owner);
            assert(mid2.bal_of(m.quote_token, s.owner) + net <= u64::MAX);
        }
        self.credit(m.quote_token, s.owner, net);
        let ghost mid3 = *self;
        proof {
            assert(mid3.free_total(m.quote_token)
                == pre.free_total(m.quote_token) + refund + net);
            mid3.lemma_bal_le_free(m.quote_token, m.fee_collector);
            assert(mid3.bal_of(m.quote_token, m.fee_collector) + fee <= u64::MAX);
        }
        self.credit(m.quote_token, m.fee_collector, fee);
        proof {
            // well-formedness: ids are unchanged, every untouched order
            // is as before, the two settled ones were shown well formed
            assert forall|p: int, q: int| 0 <= p < q < self.orders@.len()
                implies self.orders@[p].id != self.orders@[q].id by {
                if p != bi as int && p != si as int {
                    assert(self.orders@[p] == pre.orders@[p]);
                }
                if q != bi as int && q != si as int {
                    assert(self.orders@[q] == pre.orders@[q]);
                }
            }
            assert(self.orders_unique());
            assert forall|i: int| 0 <= i < self.orders@.len()
                implies order_wf(#[trigger] self.orders@[i])
                    && self.order_linked(self.orders@[i]) by {
                let x = self.orders@[i];
                if i == bi as int {
                    assert(x == b_new);
                    assert(pre.order_linked(b));
                } else if i == si as int {
                    assert(x == s_new);
                    assert(pre.order_linked(s));
                } else {
                    assert(x == pre.orders@[i]);
                    assert(pre.order_linked(x));
                }
            }
            assert(self.orders_ok());
            assert(self.markets_ok());
            assert(self.pools_ok());
            // the quote legs add back up to the buy-escrow release
            assert(refund + net + fee == bpq as int);
            // conservation per token
            assert forall|i: int| 0 <= i < self.mints@.len()
                implies (#[trigger] self.mints@[i]).total_supply as int
                    == self.token_total(self.mints@[i].token) by {
                let t = self.mints@[i].token;
                assert(mid1.bal_of(t, b.owner) == mid0.bal_of(t, b.owner)
                    + (if t == m.base_token { quantity as int } else { 0 }));
                assert(mid1.free_total(t) == mid0.free_total(t)
                    + (if t == m.base_token { quantity as int } else { 0 }));
                assert(mid2.free_total(t) == mid1.free_total(t)
                    + (if t == m.quote_token { refund as int } else { 0 }));
                assert(mid3.free_total(t) == mid2.free_total(t)
                    + (if t == m.quote_token { net as int } else { 0 }));
                assert(self.free_total(t) == mid3.free_total(t)
                    + (if t == m.quote_token { fee as int } else { 0 }));
                assert(mid0.free_total(t) == pre.free_total(t));
                assert(self.escrow_total(t) == mid0.escrow_total(t));
                assert(self.reserve_total(t) == pre.reserve_total(t));
            }
            assert(self.conserved());
            // the balance deltas, composed across the four credits
            assert forall|t: u64, h: u64|
                #[trigger] self.bal_of(t, h) == pre.bal_of(t, h)
                    + (if t == m.base_token && h == b.owner { quantity as int } else { 0 })
                    + (if t == m.quote_token && h == b.owner { refund as int } else { 0 })
                    + (if t == m.quote_token && h == s.owner { net as int } else { 0 })
                    + (if t == m.quote_token && h == m.fee_collector { fee as int } else { 0 }) by {
                assert(mid0.bal_of(t, h) == pre.bal_of(t, h));
                assert(mid1.bal_of(t, h) == mid0.bal_of(t, h)
                    + (if t == m.base_token && h == b.owner { quantity as int } else { 0 }));
                assert(mid2.bal_of(t, h) == mid1.bal_of(t, h)
                    + (if t == m.quote_token && h == b.owner { refund as int } else { 0 }));
                assert(mid3.bal_of(t, h) == mid2.bal_of(t, h)
                    + (if t == m.quote_token && h == s.owner { net as int } else { 0 }));
                assert(self.bal_of(t, h) == mid3.bal_of(t, h)
                    + (if t == m.quote_token && h == m.fee_collector { fee as int } else { 0 }));
            }
        }
        Ok(())
    }
}

} // verus!
