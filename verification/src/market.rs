//! Market and order-book operations: market initialization, order
//! creation with escrow funding, cancellation with escrow release, and
//! price/time matching.
//!
//! A match itself changes no balance: it only computes the quantity and
//! execution price that authorize a subsequent settlement.  The
//! execution price is the maker's price (the order created earlier, ties
//! broken by lower sequence number), giving price improvement to the
//! taker; this is fixed policy.

use vstd::prelude::*;
use crate::engine::Engine;
use crate::engine::lemma_market_index_is;
use crate::engine::seq_has_mint;
use crate::engine::seq_market_index;
use crate::engine::seq_order_index;
use crate::engine::same_registry;
use crate::math::lemma_mul_le;
use crate::math::lemma_u64_mul_fits;
use crate::records::EngineError;
use crate::records::Market;
use crate::records::Order;
use crate::records::OrderStatus;
use crate::records::OrderType;
use crate::records::escrow_fn;
use crate::records::is_terminal;
use crate::records::order_remaining;
use crate::records::order_wf;
use crate::sums::lemma_sum_map_elem_le;
use crate::sums::lemma_sum_map_push;
use crate::sums::lemma_sum_map_update;

verus! {

/// The token a new order commits: quote for a buy, base for a sell.
pub open spec fn order_commit_token(m: Market, side: OrderType) -> u64 {
    if side == OrderType::Buy {
        m.quote_token
    } else {
        m.base_token
    }
}

/// The amount a new order commits into escrow: `price * quantity` quote
/// units for a buy, `quantity` base units for a sell.
pub open spec fn order_commit_amount(side: OrderType, price: u64, quantity: u64) -> int {
    if side == OrderType::Buy {
        price * quantity
    } else {
        quantity as int
    }
}

/// The order that `create_order` stores on success.
pub open spec fn created_order(
    m: Market,
    order_id: u64,
    owner: u64,
    side: OrderType,
    price: u64,
    quantity: u64,
    now: u64,
) -> Order {
    Order {
        id: order_id,
        owner,
        market: m.id,
        side,
        price,
        quantity,
        filled_quantity: 0,
        status: OrderStatus::Open,
        created_at: now,
        updated_at: now,
        sequence: m.orders_count,
        escrow: order_commit_amount(side, price, quantity) as u64,
        escrow_token: order_commit_token(m, side),
    }
}

/// The maker of a matched pair is the order created earlier; ties go to
/// the lower sequence number.
pub open spec fn maker_is_buy(b: Order, s: Order) -> bool {
    ||| b.created_at < s.created_at
    ||| (b.created_at == s.created_at && b.sequence <= s.sequence)
}

/// Execution price of a match: the maker's limit price.
pub open spec fn maker_price(b: Order, s: Order) -> u64 {
    if maker_is_buy(b, s) {
        b.price
    } else {
        s.price
    }
}

/// Matched quantity: the least of both remainders and the proposal.
pub open spec fn match_quantity(b: Order, s: Order, proposed: u64) -> int {
    let br = order_remaining(b);
    let sr = order_remaining(s);
    let m = if br <= sr { br } else { sr };
    if m <= proposed as int { m } else { proposed as int }
}

impl Engine {
    /// Look up an order by id.
    pub fn get_order(&self, id: u64) -> (r: Option<crate::records::Order>)
        requires
            self.orders_unique(),
        ensures
            match r {
                Some(o) => self.has_order(id) && o == self.order_of(id),
                None => !self.has_order(id),
            },
    {
        match self.find_order(id) {
            Some(i) => {
                proof {
                    crate::engine::lemma_order_index_is(self.orders@, id, i as int);
                }
                Some(self.orders[i])
            },
            None => None,
        }
    }

    /// Look up a market by id.
    pub fn get_market(&self, id: u64) -> (r: Option<Market>)
        requires
            self.markets_unique(),
        ensures
            match r {
                Some(m) => self.has_market(id) && m == self.market_of(id),
                None => !self.has_market(id),
            },
    {
        match self.find_market(id) {
            Some(i) => {
                proof {
                    lemma_market_index_is(self.markets@, id, i as int);
                }
                Some(self.markets[i])
            },
            None => None,
        }
    }

    /// Outcome of `initialize_market` on the current state.
    pub open spec fn initialize_market_outcome(
        self,
        id: u64,
        base_token: u64,
        quote_token: u64,
        fee_rate_bps: u16,
    ) -> Result<(), EngineError> {
        if self.has_market(id) {
            Err(EngineError::DuplicateInitialization)
        } else if fee_rate_bps > 10000 {
            Err(EngineError::ValidationError)
        } else if base_token == quote_token {
            Err(EngineError::ValidationError)
        } else if !self.has_mint(base_token) || !self.has_mint(quote_token) {
            Err(EngineError::StateError)
        } else {
            Ok(())
        }
    }

    /// Create a market over an initialized token pair with a fee rate in
    /// basis points.
    pub fn initialize_market(
        &mut self,
        id: u64,
        authority: u64,
        base_token: u64,
        quote_token: u64,
        fee_rate_bps: u16,
        fee_collector: u64,
    ) -> (r: Result<(), EngineError>)
        requires
            old(self).wf(),
        ensures
            final(self).wf(),
            r == old(self).initialize_market_outcome(id, base_token, quote_token, fee_rate_bps),
            r is Err ==> *final(self) == *old(self),
            r is Ok ==> {
                &&& final(self).markets@ == old(self).markets@.push(
                    (Market {
                        id,
                        authority,
                        base_token,
                        quote_token,
                        fee_rate_bps,
                        orders_count: 0,
                        fee_collector,
                    }),
                )
                &&& final(self).mints@ == old(self).mints@
                &&& final(self).balances@ == old(self).balances@
                &&& final(self).orders@ == old(self).orders@
                &&& final(self).pools@ == old(self).pools@
                &&& final(self).retirements@ == old(self).retirements@
                &&& same_registry(*old(self), *final(self))
            },
    {
        if self.find_market(id).is_some() {
            proof {
                let i = choose|i: int|
                    0 <= i < self.markets@.len() && self.markets@[i].id == id;
            }
            return Err(EngineError::DuplicateInitialization);
        }
        if fee_rate_bps > 10000 {
            return Err(EngineError::ValidationError);
        }
        if base_token == quote_token {
            return Err(EngineError::ValidationError);
        }
        if self.find_mint(base_token).is_none() {
            return Err(EngineError::StateError);
        }
        if self.find_mint(quote_token).is_none() {
            return Err(EngineError::StateError);
        }
        let ghost pre = *self;
        let market = Market { id, authority, base_token, quote_token, fee_rate_bps, orders_count: 0, fee_collector };
        self.markets.push(market);
        proof {
            assert(seq_has_mint(self.mints@, base_token));
            assert(seq_has_mint(self.mints@, quote_token));
            // the fresh id differs from every existing one
            assert forall|p: int, q: int| 0 <= p < q < self.markets@.len()
                implies self.markets@[p].id != self.markets@[q].id by {
                if q == pre.markets@.len() as int {
                    assert(self.markets@[p] == pre.markets@[p]);
                }
            }
            assert(self.markets_unique());
            assert(self.markets_ok());
            // existing orders still resolve to the same market records
            assert forall|i: int| 0 <= i < self.orders@.len()
                implies order_wf(#[trigger] self.orders@[i])
                    && self.order_linked(self.orders@[i]) by {
                let o = self.orders@[i];
                assert(pre.order_linked(o));
                Engine::lemma_market_index_stable(pre.markets@, self.markets@, o.market);
                assert(self.market_of(o.market) == pre.market_of(o.market));
            }
            assert(self.orders_ok());
            assert(self.conserved());
        }
        Ok(())
    }

    /// Outcome of `create_order` on the current state.
    pub open spec fn create_order_outcome(
        self,
        market_id: u64,
        order_id: u64,
        owner: u64,
        signer: u64,
        side: OrderType,
        price: u64,
        quantity: u64,
    ) -> Result<(), EngineError> {
        if signer != owner {
            Err(EngineError::AuthorizationError)
        } else if !self.has_market(market_id) {
            Err(EngineError::StateError)
        } else if self.has_order(order_id) {
            Err(EngineError::DuplicateInitialization)
        } else if price == 0 || quantity == 0 {
            Err(EngineError::ValidationError)
        } else if self.market_of(market_id).orders_count == u64::MAX {
            Err(EngineError::StateError)
        } else if order_commit_amount(side, price, quantity) > u64::MAX {
            Err(EngineError::ValidationError)
        } else if self.bal_of(order_commit_token(self.market_of(market_id), side), owner)
            < order_commit_amount(side, price, quantity) {
            Err(EngineError::ResourceError)
        } else {
            Ok(())
        }
    }

    /// Store a new open order.  The committed side's funds move from the
    /// owner's free balance into the order's escrow, and the order takes
    /// the market's next sequence number.
    pub fn create_order(
        &mut self,
        market_id: u64,
        order_id: u64,
        owner: u64,
        signer: u64,
        side: OrderType,
        price: u64,
        quantity: u64,
        now: u64,
    ) -> (r: Result<(), EngineError>)
        requires
            old(self).wf(),
        ensures
            final(self).wf(),
            r == old(self).create_order_outcome(market_id, order_id, owner, signer, side, price, quantity),
            r is Err ==> *final(self) == *old(self),
            r is Ok ==> {
                &&& final(self).orders@ == old(self).orders@.push(
                    created_order(old(self).market_of(market_id), order_id, owner, side, price, quantity, now),
                )
                &&& final(self).markets@ == old(self).markets@.update(
                    seq_market_index(old(self).markets@, market_id),
                    (Market {
                        orders_count: (old(self).market_of(market_id).orders_count + 1) as u64,
                        ..old(self).market_of(market_id)
                    }),
                )
                &&& forall|t: u64, h: u64|
                    #[trigger] final(self).bal_of(t, h) == old(self).bal_of(t, h)
                        - (if t == order_commit_token(old(self).market_of(market_id), side)
                            && h == owner {
                            order_commit_amount(side, price, quantity)
                        } else {
                            0
                        })
                &&& final(self).mints@ == old(self).mints@
                &&& final(self).pools@ == old(self).pools@
                &&& final(self).retirements@ == old(self).retirements@
                &&& same_registry(*old(self), *final(self))
            },
    {
        if signer != owner {
            return Err(EngineError::AuthorizationError);
        }
        let mi = match self.find_market(market_id) {
            None => {
                return Err(EngineError::StateError);
            },
            Some(i) => i,
        };
        proof {
            lemma_market_index_is(self.markets@, market_id, mi as int);
        }
        if self.find_order(order_id).is_some() {
            proof {
                let i = choose|i: int|
                    0 <= i < self.orders@.len() && self.orders@[i].id == order_id;
            }
            return Err(EngineError::DuplicateInitialization);
        }
        if price == 0 || quantity == 0 {
            return Err(EngineError::ValidationError);
        }
        let m = self.markets[mi];
        if m.orders_count == u64::MAX {
            return Err(EngineError::StateError);
        }
        proof {
            lemma_u64_mul_fits(price, quantity);
        }
        let commit128: u128 = if matches!(side, OrderType::Buy) {
            (price as u128) * (quantity as u128)
        } else {
            quantity as u128
        };
        if commit128 > u64::MAX as u128 {
            return Err(EngineError::ValidationError);
        }
        let commit: u64 = commit128 as u64;
        let commit_token: u64 = if matches!(side, OrderType::Buy) {
            m.quote_token
        } else {
            m.base_token
        };
        let bal = self.balance_of(commit_token, owner);
        if bal < commit {
            return Err(EngineError::ResourceError);
        }
        // all preconditions hold; stage the three mutations
        let ghost pre = *self;
        proof {
            assert(commit as int == order_commit_amount(side, price, quantity));
            assert(commit >= 1) by {
                if side == OrderType::Buy {
                    lemma_mul_le(1, price as int, 1, quantity as int);
                }
            }
        }
        let order = Order {
            id: order_id,
            owner,
            market: market_id,
            side,
            price,
            quantity,
            filled_quantity: 0,
            status: OrderStatus::Open,
            created_at: now,
            updated_at: now,
            sequence: m.orders_count,
            escrow: commit,
            escrow_token: commit_token,
        };
        self.markets[mi].orders_count = m.orders_count + 1;
        self.orders.push(order);
        let ghost mid = *self;
        proof {
            assert(mid.markets@ == pre.markets@.update(mi as int, (Market {
                orders_count: (m.orders_count + 1) as u64,
                ..m
            })));
            assert(mid.balances_unique());
            assert(mid.bal_of(commit_token, owner) == pre.bal_of(commit_token, owner));
        }
        self.debit(commit_token, owner, commit);
        proof {
            assert(order == created_order(pre.market_of(market_id), order_id, owner, side, price, quantity, now));
            // markets: ids unchanged, fee and tokens unchanged
            assert forall|p: int, q: int| 0 <= p < q < self.markets@.len()
                implies self.markets@[p].id != self.markets@[q].id by {
                if p != mi as int {
                    assert(self.markets@[p] == pre.markets@[p]);
                }
                if q != mi as int {
                    assert(self.markets@[q] == pre.markets@[q]);
                }
            }
            assert(self.markets_unique());
            assert(self.markets_ok());
            // orders: the new id is fresh, every old order unchanged
            assert forall|p: int, q: int| 0 <= p < q < self.orders@.len()
                implies self.orders@[p].id != self.orders@[q].id by {
                if q == pre.orders@.len() as int {
                    assert(self.orders@[p] == pre.orders@[p]);
                }
            }
            assert(self.orders_unique());
            assert forall|i: int| 0 <= i < self.orders@.len()
                implies order_wf(#[trigger] self.orders@[i])
                    && self.order_linked(self.orders@[i]) by {
                let o = self.orders@[i];
                if i < pre.orders@.len() {
                    assert(o == pre.orders@[i]);
                    assert(pre.order_linked(o));
                    Engine::lemma_market_index_stable(pre.markets@, self.markets@, o.market);
                    assert(self.market_of(o.market).quote_token
                        == pre.market_of(o.market).quote_token);
                    assert(self.market_of(o.market).base_token
                        == pre.market_of(o.market).base_token);
                } else {
                    assert(o == order);
                    assert(order_wf(o));
                    Engine::lemma_market_index_stable(pre.markets@, self.markets@, market_id);
                    assert(self.market_of(market_id).quote_token == m.quote_token);
                    assert(self.market_of(market_id).base_token == m.base_token);
                }
            }
            assert(self.orders_ok());
            assert(self.pools_ok());
            // conservation: the committed amount moved from the owner's
            // free balance into the new order's escrow
            assert forall|i: int| 0 <= i < self.mints@.len()
                implies (#[trigger] self.mints@[i]).total_supply as int
                    == self.token_total(self.mints@[i].token) by {
                let t = self.mints@[i].token;
                assert(self.free_total(t) == mid.free_total(t)
                    - (if t == commit_token { commit as int } else { 0 }));
                assert(mid.free_total(t) == pre.free_total(t));
                lemma_sum_map_push(pre.orders@, order, escrow_fn(t));
                assert(self.escrow_total(t) == pre.escrow_total(t)
                    + (if t == commit_token { commit as int } else { 0 }));
            }
            assert(self.conserved());
            Engine::lemma_market_index_stable(pre.markets@, self.markets@, market_id);
        }
        Ok(())
    }

    /// Outcome of `cancel_order` on the current state.
    pub open spec fn cancel_order_outcome(self, order_id: u64, requester: u64) -> Result<(), EngineError> {
        if !self.has_order(order_id) {
            Err(EngineError::StateError)
        } else if requester != self.order_of(order_id).owner {
            Err(EngineError::AuthorizationError)
        } else if self.order_of(order_id).status != OrderStatus::Open {
            Err(EngineError::StateError)
        } else {
            Ok(())
        }
    }

    /// Cancel an open order: release its remaining escrow back to the
    /// owner's free balance and mark it `Cancelled` (terminal).
    pub fn cancel_order(&mut self, order_id: u64, requester: u64) -> (r: Result<(), EngineError>)
        requires
            old(self).wf(),
        ensures
            final(self).wf(),
            r == old(self).cancel_order_outcome(order_id, requester),
            r is Err ==> *final(self) == *old(self),
            r is Ok ==> {
                &&& final(self).orders@ == old(self).orders@.update(
                    seq_order_index(old(self).orders@, order_id),
                    (Order {
                        status: OrderStatus::Cancelled,
                        escrow: 0,
                        ..old(self).order_of(order_id)
                    }),
                )
                &&& forall|t: u64, h: u64|
                    #[trigger] final(self).bal_of(t, h) == old(self).bal_of(t, h)
                        + (if t == old(self).order_of(order_id).escrow_token
                            && h == old(self).order_of(order_id).owner {
                            old(self).order_of(order_id).escrow as int
                        } else {
                            0
                        })
                &&& final(self).mints@ == old(self).mints@
                &&& final(self).markets@ == old(self).markets@
                &&& final(self).pools@ == old(self).pools@
                &&& final(self).retirements@ == old(self).retirements@
                &&& same_registry(*old(self), *final(self))
            },
            // terminal orders never change
            forall|j: int|
                0 <= j < old(self).orders@.len() && is_terminal(old(self).orders@[j].status)
                    ==> final(self).orders@[j] == old(self).orders@[j],
    {
        let oi = match self.find_order(order_id) {
            None => {
                return Err(EngineError::StateError);
            },
            Some(i) => i,
        };
        proof {
            crate::engine::lemma_order_index_is(self.orders@, order_id, oi as int);
        }
        let o = self.orders[oi];
        if requester != o.owner {
            return Err(EngineError::AuthorizationError);
        }
        if !matches!(o.status, OrderStatus::Open) {
            return Err(EngineError::StateError);
        }
        let ghost pre = *self;
        proof {
            // the escrow token is a minted token, and releasing the
            // escrow cannot overflow the owner's balance
            assert(pre.order_linked(o));
            let mi = seq_market_index(pre.markets@, o.market);
            assert(seq_has_mint(pre.mints@, o.escrow_token));
            pre.lemma_bal_headroom(o.escrow_token, o.owner);
            pre.lemma_totals_nonneg(o.escrow_token);
            assert forall|j: int| 0 <= j < pre.orders@.len()
                implies #[trigger] escrow_fn(o.escrow_token)(pre.orders@[j]) >= 0 by {}
            lemma_sum_map_elem_le(pre.orders@, oi as int, escrow_fn(o.escrow_token));
        }
        let cancelled = Order { status: OrderStatus::Cancelled, escrow: 0, ..o };
        self.orders[oi] = cancelled;
        let ghost mid = *self;
        proof {
            assert(mid.orders@ == pre.orders@.update(oi as int, cancelled));
            assert(mid.balances_unique());
            assert(mid.bal_of(o.escrow_token, o.owner) == pre.bal_of(o.escrow_token, o.owner));
        }
        self.credit(o.escrow_token, o.owner, o.escrow);
        proof {
            // orders: ids unchanged
            assert forall|p: int, q: int| 0 <= p < q < self.orders@.len()
                implies self.orders@[p].id != self.orders@[q].id by {
                if p != oi as int {
                    assert(self.orders@[p] == pre.orders@[p]);
                }
                if q != oi as int {
                    assert(self.orders@[q] == pre.orders@[q]);
                }
            }
            assert(self.orders_unique());
            assert forall|i: int| 0 <= i < self.orders@.len()
                implies order_wf(#[trigger] self.orders@[i])
                    && self.order_linked(self.orders@[i]) by {
                let x = self.orders@[i];
                if i != oi as int {
                    assert(x == pre.orders@[i]);
                    assert(pre.order_linked(x));
                } else {
                    assert(x == cancelled);
                    assert(order_wf(o));
                    assert(pre.order_linked(o));
                }
            }
            assert(self.orders_ok());
            assert(self.markets_ok());
            assert(self.pools_ok());
            // conservation: the escrow moved back to the owner's balance
            assert forall|i: int| 0 <= i < self.mints@.len()
                implies (#[trigger] self.mints@[i]).total_supply as int
                    == self.token_total(self.mints@[i].token) by {
                let t = self.mints@[i].token;
                assert(self.free_total(t) == mid.free_total(t)
                    + (if t == o.escrow_token { o.escrow as int } else { 0 }));
                assert(mid.free_total(t) == pre.free_total(t));
                lemma_sum_map_update(pre.orders@, oi as int, cancelled, escrow_fn(t));
                assert(self.escrow_total(t) == pre.escrow_total(t)
                    - (if t == o.escrow_token { o.escrow as int } else { 0 }));
            }
            assert(self.conserved());
        }
        Ok(())
    }

    /// Outcome of `match_orders` on the current state: the authorized
    /// quantity and execution price, or the first violated condition.
    pub open spec fn match_orders_outcome(self, buy_id: u64, sell_id: u64, proposed: u64) -> Result<(u64, u64), EngineError> {
        if buy_id == sell_id {
            Err(EngineError::ValidationError)
        } else if !self.has_order(buy_id) || !self.has_order(sell_id) {
            Err(EngineError::StateError)
        } else if self.order_of(buy_id).market != self.order_of(sell_id).market {
            Err(EngineError::ValidationError)
        } else if self.order_of(buy_id).side != OrderType::Buy
            || self.order_of(sell_id).side != OrderType::Sell {
            Err(EngineError::ValidationError)
        } else if self.order_of(buy_id).status != OrderStatus::Open
            || self.order_of(sell_id).status != OrderStatus::Open {
            Err(EngineError::StateError)
        } else if self.order_of(buy_id).price < self.order_of(sell_id).price {
            Err(EngineError::ValidationError)
        } else if proposed == 0 {
            Err(EngineError::ValidationError)
        } else {
            Ok((
                match_quantity(self.order_of(buy_id), self.order_of(sell_id), proposed) as u64,
                maker_price(self.order_of(buy_id), self.order_of(sell_id)),
            ))
        }
    }

    /// Match an open buy against an open sell on the same market.  No
    /// balance changes: the result only authorizes a `settle_trade` with
    /// the computed quantity and price.
    pub fn match_orders(&self, buy_id: u64, sell_id: u64, proposed: u64) -> (r: Result<(u64, u64), EngineError>)
        requires
            self.wf(),
        ensures
            r == self.match_orders_outcome(buy_id, sell_id, proposed),
            r matches Ok(qp) ==> {
                &&& 1 <= qp.0
                &&& qp.0 <= order_remaining(self.order_of(buy_id))
                &&& qp.0 <= order_remaining(self.order_of(sell_id))
                &&& self.order_of(sell_id).price <= qp.1 <= self.order_of(buy_id).price
            },
    {
        if buy_id == sell_id {
            return Err(EngineError::ValidationError);
        }
        let bi = match self.find_order(buy_id) {
            None => {
                return Err(EngineError::StateError);
            },
            Some(i) => i,
        };
        let si = match self.find_order(sell_id) {
            None => {
                return Err(EngineError::StateError);
            },
            Some(i) => i,
        };
        proof {
            crate::engine::lemma_order_index_is(self.orders@, buy_id, bi as int);
            crate::engine::lemma_order_index_is(self.orders@, sell_id, si as int);
        }
        let b = self.orders[bi];
        let s = self.orders[si];
        if b.market != s.market {
            return Err(EngineError::ValidationError);
        }
        if !matches!(b.side, OrderType::Buy) || !matches!(s.side, OrderType::Sell) {
            return Err(EngineError::ValidationError);
        }
        if !matches!(b.status, OrderStatus::Open) || !matches!(s.status, OrderStatus::Open) {
            return Err(EngineError::StateError);
        }
        if b.price < s.price {
            return Err(EngineError::ValidationError);
        }
        if proposed == 0 {
            return Err(EngineError::ValidationError);
        }
        let br = b.quantity - b.filled_quantity;
        let sr = s.quantity - s.filled_quantity;
        let mut qty = if br <= sr { br } else { sr };
        if proposed < qty {
            qty = proposed;
        }
        let price = if b.created_at < s.created_at
            || (b.created_at == s.created_at && b.sequence <= s.sequence) {
            b.price
        } else {
            s.price
        };
        Ok((qty, price))
    }
}

} // verus!
