//! The engine state: every persisted record, addressed by stable key,
//! together with the global well-formedness invariant that every
//! operation requires and preserves.
//!
//! The heart of the invariant is conservation: for every token type with
//! a mint record, the recorded total supply equals the sum of all free
//! balances, all order escrows and all pool reserves in that token.

use vstd::prelude::*;
use crate::records::BalanceEntry;
use crate::records::LiquidityPool;
use crate::records::Market;
use crate::records::MintRecord;
use crate::records::Order;
use crate::records::OrderType;
use crate::records::RetirementRecord;
use crate::records::TokenPair;
use crate::records::bal_fn;
use crate::records::escrow_fn;
use crate::records::market_wf;
use crate::records::order_wf;
use crate::records::pool_wf;
use crate::records::reserve_fn;
use crate::records::token_fn;
use crate::sums::lemma_sum_map_nonneg;
use crate::sums::lemma_sum_map_push;
use crate::sums::lemma_sum_map_single;
use crate::sums::lemma_sum_map_update;
use crate::sums::lemma_sum_map_zero;
use crate::sums::sum;

verus! {

/// The whole persisted state.  The three `*_token` fields are the keys of
/// the platform's well-known token types, used to resolve a `TokenPair`
/// to concrete token keys.
pub struct Engine {
    pub cst_token: u64,
    pub vcu_token: u64,
    pub sol_token: u64,
    pub mints: Vec<MintRecord>,
    pub balances: Vec<BalanceEntry>,
    pub markets: Vec<Market>,
    pub orders: Vec<Order>,
    pub pools: Vec<LiquidityPool>,
    pub retirements: Vec<RetirementRecord>,
}

// Keyed lookup over record sequences.  Each `seq_*_index` is the index of
// the record with the given key; under the uniqueness invariants it is
// uniquely determined (`lemma_*_index_is`).

pub open spec fn seq_has_mint(ms: Seq<MintRecord>, token: u64) -> bool {
    exists|i: int| 0 <= i < ms.len() && ms[i].token == token
}

pub open spec fn seq_mint_index(ms: Seq<MintRecord>, token: u64) -> int {
    choose|i: int| 0 <= i < ms.len() && ms[i].token == token
}

pub open spec fn seq_has_market(ms: Seq<Market>, id: u64) -> bool {
    exists|i: int| 0 <= i < ms.len() && ms[i].id == id
}

pub open spec fn seq_market_index(ms: Seq<Market>, id: u64) -> int {
    choose|i: int| 0 <= i < ms.len() && ms[i].id == id
}

pub open spec fn seq_has_order(os: Seq<Order>, id: u64) -> bool {
    exists|i: int| 0 <= i < os.len() && os[i].id == id
}

pub open spec fn seq_order_index(os: Seq<Order>, id: u64) -> int {
    choose|i: int| 0 <= i < os.len() && os[i].id == id
}

pub open spec fn seq_has_pool(ps: Seq<LiquidityPool>, pair: TokenPair) -> bool {
    exists|i: int| 0 <= i < ps.len() && ps[i].pair == pair
}

pub open spec fn seq_pool_index(ps: Seq<LiquidityPool>, pair: TokenPair) -> int {
    choose|i: int| 0 <= i < ps.len() && ps[i].pair == pair
}

pub proof fn lemma_mint_index_is(ms: Seq<MintRecord>, token: u64, i: int)
    requires
        0 <= i < ms.len(),
        ms[i].token == token,
        forall|p: int, q: int| 0 <= p < q < ms.len() ==> ms[p].token != ms[q].token,
    ensures
        seq_has_mint(ms, token),
        seq_mint_index(ms, token) == i,
{
    assert(seq_has_mint(ms, token));
    let j = seq_mint_index(ms, token);
    if j != i {
        assert(ms[j].token == token);
        assert(false);
    }
}

pub proof fn lemma_market_index_is(ms: Seq<Market>, id: u64, i: int)
    requires
        0 <= i < ms.len(),
        ms[i].id == id,
        forall|p: int, q: int| 0 <= p < q < ms.len() ==> ms[p].id != ms[q].id,
    ensures
        seq_has_market(ms, id),
        seq_market_index(ms, id) == i,
{
    assert(seq_has_market(ms, id));
    let j = seq_market_index(ms, id);
    if j != i {
        assert(ms[j].id == id);
        assert(false);
    }
}

pub proof fn lemma_order_index_is(os: Seq<Order>, id: u64, i: int)
    requires
        0 <= i < os.len(),
        os[i].id == id,
        forall|p: int, q: int| 0 <= p < q < os.len() ==> os[p].id != os[q].id,
    ensures
        seq_has_order(os, id),
        seq_order_index(os, id) == i,
{
    assert(seq_has_order(os, id));
    let j = seq_order_index(os, id);
    if j != i {
        assert(os[j].id == id);
        assert(false);
    }
}

pub proof fn lemma_pool_index_is(ps: Seq<LiquidityPool>, pair: TokenPair, i: int)
    requires
        0 <= i < ps.len(),
        ps[i].pair == pair,
        forall|p: int, q: int| 0 <= p < q < ps.len() ==> ps[p].pair != ps[q].pair,
    ensures
        seq_has_pool(ps, pair),
        seq_pool_index(ps, pair) == i,
{
    assert(seq_has_pool(ps, pair));
    let j = seq_pool_index(ps, pair);
    if j != i {
        assert(ps[j].pair == pair);
        assert(false);
    }
}

/// The token keys under which the engine resolves a pool pair; the first
/// component is the pool's `token_a` (base), the second its `token_b`.
pub open spec fn spec_pair_tokens(e: Engine, pair: TokenPair) -> (u64, u64) {
    match pair {
        TokenPair::CstSol => (e.cst_token, e.sol_token),
        TokenPair::VcuCst => (e.vcu_token, e.cst_token),
        TokenPair::VcuSol => (e.vcu_token, e.sol_token),
    }
}

pub open spec fn same_registry(pre: Engine, post: Engine) -> bool {
    &&& post.cst_token == pre.cst_token
    &&& post.vcu_token == pre.vcu_token
    &&& post.sol_token == pre.sol_token
}

impl Engine {
    // ------ totals ------

    /// Free balance of one holder in one token type.
    pub open spec fn bal_of(self, token: u64, holder: u64) -> int {
        sum(self.balances@.map_values(bal_fn(token, holder)))
    }

    /// Sum of all free balances in one token type.
    pub open spec fn free_total(self, token: u64) -> int {
        sum(self.balances@.map_values(token_fn(token)))
    }

    /// Sum of all order escrows held in one token type.
    pub open spec fn escrow_total(self, token: u64) -> int {
        sum(self.orders@.map_values(escrow_fn(token)))
    }

    /// Sum of all pool reserves held in one token type.
    pub open spec fn reserve_total(self, token: u64) -> int {
        sum(self.pools@.map_values(reserve_fn(token)))
    }

    /// Everything the ledger can account for in one token type.
    pub open spec fn token_total(self, token: u64) -> int {
        self.free_total(token) + self.escrow_total(token) + self.reserve_total(token)
    }

    // ------ lookups ------

    pub open spec fn has_mint(self, token: u64) -> bool {
        seq_has_mint(self.mints@, token)
    }

    pub open spec fn mint_of(self, token: u64) -> MintRecord {
        self.mints@[seq_mint_index(self.mints@, token)]
    }

    pub open spec fn has_market(self, id: u64) -> bool {
        seq_has_market(self.markets@, id)
    }

    pub open spec fn market_of(self, id: u64) -> Market {
        self.markets@[seq_market_index(self.markets@, id)]
    }

    pub open spec fn has_order(self, id: u64) -> bool {
        seq_has_order(self.orders@, id)
    }

    pub open spec fn order_of(self, id: u64) -> Order {
        self.orders@[seq_order_index(self.orders@, id)]
    }

    pub open spec fn has_pool(self, pair: TokenPair) -> bool {
        seq_has_pool(self.pools@, pair)
    }

    pub open spec fn pool_of(self, pair: TokenPair) -> LiquidityPool {
        self.pools@[seq_pool_index(self.pools@, pair)]
    }

    /// Share balance of one provider in one pool, zero if the pool is
    /// absent.
    pub open spec fn lp_of(self, pair: TokenPair, holder: u64) -> int {
        if self.has_pool(pair) {
            crate::records::pool_lp_of(self.pool_of(pair), holder)
        } else {
            0
        }
    }

    // ------ uniqueness ------

    pub open spec fn mints_unique(self) -> bool {
        forall|i: int, j: int|
            0 <= i < j < self.mints@.len() ==> self.mints@[i].token != self.mints@[j].token
    }

    pub open spec fn balances_unique(self) -> bool {
        forall|i: int, j: int|
            0 <= i < j < self.balances@.len()
                ==> !(self.balances@[i].token == self.balances@[j].token
                    && self.balances@[i].holder == self.balances@[j].holder)
    }

    pub open spec fn markets_unique(self) -> bool {
        forall|i: int, j: int|
            0 <= i < j < self.markets@.len() ==> self.markets@[i].id != self.markets@[j].id
    }

    pub open spec fn orders_unique(self) -> bool {
        forall|i: int, j: int|
            0 <= i < j < self.orders@.len() ==> self.orders@[i].id != self.orders@[j].id
    }

    pub open spec fn pools_unique(self) -> bool {
        forall|i: int, j: int|
            0 <= i < j < self.pools@.len() ==> self.pools@[i].pair != self.pools@[j].pair
    }

    // ------ cross-record invariants ------

    /// Every balance entry belongs to an initialized token type.
    pub open spec fn balances_minted(self) -> bool {
        forall|i: int|
            0 <= i < self.balances@.len()
                ==> seq_has_mint(self.mints@, #[trigger] self.balances@[i].token)
    }

    pub open spec fn markets_ok(self) -> bool {
        forall|i: int|
            0 <= i < self.markets@.len() ==> {
                &&& market_wf(#[trigger] self.markets@[i])
                &&& seq_has_mint(self.mints@, self.markets@[i].base_token)
                &&& seq_has_mint(self.mints@, self.markets@[i].quote_token)
            }
    }

    /// An order's escrow is held in the committed-side token of its
    /// market: the quote token for a buy, the base token for a sell.
    pub open spec fn order_linked(self, o: Order) -> bool {
        &&& seq_has_market(self.markets@, o.market)
        &&& o.escrow_token == (if o.side == OrderType::Buy {
            self.market_of(o.market).quote_token
        } else {
            self.market_of(o.market).base_token
        })
    }

    pub open spec fn orders_ok(self) -> bool {
        forall|i: int|
            0 <= i < self.orders@.len()
                ==> order_wf(#[trigger] self.orders@[i]) && self.order_linked(self.orders@[i])
    }

    pub open spec fn pools_ok(self) -> bool {
        forall|i: int|
            0 <= i < self.pools@.len() ==> {
                &&& pool_wf(#[trigger] self.pools@[i])
                &&& seq_has_mint(self.mints@, self.pools@[i].token_a)
                &&& seq_has_mint(self.mints@, self.pools@[i].token_b)
                &&& self.pools@[i].token_a == spec_pair_tokens(self, self.pools@[i].pair).0
                &&& self.pools@[i].token_b == spec_pair_tokens(self, self.pools@[i].pair).1
            }
    }

    /// Conservation: every initialized token's recorded supply equals the
    /// sum of free balances, order escrows and pool reserves in it.
    pub open spec fn conserved(self) -> bool {
        forall|i: int|
            0 <= i < self.mints@.len()
                ==> (#[trigger] self.mints@[i]).total_supply as int
                    == self.token_total(self.mints@[i].token)
    }

    /// Global well-formedness: required and preserved by every operation.
    pub open spec fn wf(self) -> bool {
        &&& self.mints_unique()
        &&& self.balances_unique()
        &&& self.markets_unique()
        &&& self.orders_unique()
        &&& self.pools_unique()
        &&& self.balances_minted()
        &&& self.markets_ok()
        &&& self.orders_ok()
        &&& self.pools_ok()
        &&& self.conserved()
    }

    // ------ construction ------

    /// A fresh, empty engine over the three well-known token keys.
    pub fn new(cst_token: u64, vcu_token: u64, sol_token: u64) -> (e: Engine)
        ensures
            e.wf(),
            e.cst_token == cst_token,
            e.vcu_token == vcu_token,
            e.sol_token == sol_token,
            e.mints@ == Seq::<MintRecord>::empty(),
            e.balances@ == Seq::<BalanceEntry>::empty(),
            e.markets@ == Seq::<Market>::empty(),
            e.orders@ == Seq::<Order>::empty(),
            e.pools@ == Seq::<LiquidityPool>::empty(),
            e.retirements@ == Seq::<RetirementRecord>::empty(),
    {
        Engine {
            cst_token,
            vcu_token,
            sol_token,
            mints: Vec::new(),
            balances: Vec::new(),
            markets: Vec::new(),
            orders: Vec::new(),
            pools: Vec::new(),
            retirements: Vec::new(),
        }
    }

    // ------ bounds ------

    /// All four totals of a token are non-negative.
    pub proof fn lemma_totals_nonneg(self, token: u64)
        ensures
            self.free_total(token) >= 0,
            self.escrow_total(token) >= 0,
            self.reserve_total(token) >= 0,
    {
        assert forall|j: int| 0 <= j < self.balances@.len()
            implies #[trigger] token_fn(token)(self.balances@[j]) >= 0 by {}
        lemma_sum_map_nonneg(self.balances@, token_fn(token));
        assert forall|j: int| 0 <= j < self.orders@.len()
            implies #[trigger] escrow_fn(token)(self.orders@[j]) >= 0 by {}
        lemma_sum_map_nonneg(self.orders@, escrow_fn(token));
        assert forall|j: int| 0 <= j < self.pools@.len()
            implies #[trigger] reserve_fn(token)(self.pools@[j]) >= 0 by {}
        lemma_sum_map_nonneg(self.pools@, reserve_fn(token));
    }

    /// A single holder's balance is bounded by the free total, which under
    /// conservation is bounded by the recorded supply.
    pub proof fn lemma_bal_headroom(self, token: u64, holder: u64)
        requires
            self.mints_unique(),
            self.conserved(),
            self.has_mint(token),
        ensures
            0 <= self.bal_of(token, holder),
            self.bal_of(token, holder) <= self.free_total(token),
            self.free_total(token) + self.escrow_total(token) + self.reserve_total(token)
                == self.mint_of(token).total_supply as int,
    {
        let i = seq_mint_index(self.mints@, token);
        assert(0 <= i < self.mints@.len() && self.mints@[i].token == token);
        assert(self.mints@[i].total_supply as int == self.token_total(token));
        crate::sums::lemma_sum_map_le(
            self.balances@,
            bal_fn(token, holder),
            token_fn(token),
        );
        assert forall|j: int| 0 <= j < self.balances@.len()
            implies #[trigger] bal_fn(token, holder)(self.balances@[j]) >= 0 by {}
        lemma_sum_map_nonneg(self.balances@, bal_fn(token, holder));
    }

    /// A holder's balance is bounded by the free total of the token.
    pub proof fn lemma_bal_le_free(self, token: u64, holder: u64)
        ensures
            0 <= self.bal_of(token, holder),
            self.bal_of(token, holder) <= self.free_total(token),
    {
        crate::sums::lemma_sum_map_le(self.balances@, bal_fn(token, holder), token_fn(token));
        assert forall|j: int| 0 <= j < self.balances@.len()
            implies #[trigger] bal_fn(token, holder)(self.balances@[j]) >= 0 by {}
        lemma_sum_map_nonneg(self.balances@, bal_fn(token, holder));
    }

    /// With unique entries, a matching entry carries the whole balance.
    pub proof fn lemma_bal_entry(self, i: int, token: u64, holder: u64)
        requires
            self.balances_unique(),
            0 <= i < self.balances@.len(),
            self.balances@[i].token == token,
            self.balances@[i].holder == holder,
        ensures
            self.bal_of(token, holder) == self.balances@[i].amount as int,
    {
        assert forall|j: int| 0 <= j < self.balances@.len() && j != i
            implies #[trigger] bal_fn(token, holder)(self.balances@[j]) == 0 by {
            if j < i {
                assert(!(self.balances@[j].token == self.balances@[i].token
                    && self.balances@[j].holder == self.balances@[i].holder));
            } else {
                assert(!(self.balances@[i].token == self.balances@[j].token
                    && self.balances@[i].holder == self.balances@[j].holder));
            }
        }
        lemma_sum_map_single(self.balances@, i, bal_fn(token, holder));
    }

    /// With no matching entry, the balance is zero.
    pub proof fn lemma_bal_absent(self, token: u64, holder: u64)
        requires
            forall|j: int|
                0 <= j < self.balances@.len()
                    ==> !((#[trigger] self.balances@[j]).token == token
                        && self.balances@[j].holder == holder),
        ensures
            self.bal_of(token, holder) == 0,
    {
        assert forall|j: int| 0 <= j < self.balances@.len()
            implies #[trigger] bal_fn(token, holder)(self.balances@[j]) == 0 by {}
        lemma_sum_map_zero(self.balances@, bal_fn(token, holder));
    }

    /// Presence of a mint survives any change that keeps every existing
    /// record's token key in place (a push, or an update of other fields).
    pub proof fn lemma_has_mint_extend(ms1: Seq<MintRecord>, ms2: Seq<MintRecord>, token: u64)
        requires
            seq_has_mint(ms1, token),
            ms1.len() <= ms2.len(),
            forall|j: int| 0 <= j < ms1.len() ==> ms2[j].token == (#[trigger] ms1[j]).token,
        ensures
            seq_has_mint(ms2, token),
    {
        let i = choose|i: int| 0 <= i < ms1.len() && ms1[i].token == token;
        assert(ms2[i].token == token);
    }

    /// A market keeps its lookup index across a change that keeps every
    /// existing record's id in place (a push, or an update of other
    /// fields).
    pub proof fn lemma_market_index_stable(ms1: Seq<Market>, ms2: Seq<Market>, id: u64)
        requires
            seq_has_market(ms1, id),
            ms1.len() <= ms2.len(),
            forall|j: int| 0 <= j < ms1.len() ==> (#[trigger] ms2[j]).id == ms1[j].id,
            forall|p: int, q: int| 0 <= p < q < ms2.len() ==> ms2[p].id != ms2[q].id,
        ensures
            seq_has_market(ms2, id),
            seq_market_index(ms2, id) == seq_market_index(ms1, id),
            0 <= seq_market_index(ms1, id) < ms1.len(),
            ms1[seq_market_index(ms1, id)].id == id,
    {
        let i = seq_market_index(ms1, id);
        assert(0 <= i < ms1.len() && ms1[i].id == id);
        lemma_market_index_is(ms2, id, i);
    }

    /// The same, for orders.
    pub proof fn lemma_order_index_stable(os1: Seq<Order>, os2: Seq<Order>, id: u64)
        requires
            seq_has_order(os1, id),
            os1.len() <= os2.len(),
            forall|j: int| 0 <= j < os1.len() ==> (#[trigger] os2[j]).id == os1[j].id,
            forall|p: int, q: int| 0 <= p < q < os2.len() ==> os2[p].id != os2[q].id,
        ensures
            seq_has_order(os2, id),
            seq_order_index(os2, id) == seq_order_index(os1, id),
            0 <= seq_order_index(os1, id) < os1.len(),
            os1[seq_order_index(os1, id)].id == id,
    {
        let i = seq_order_index(os1, id);
        assert(0 <= i < os1.len() && os1[i].id == id);
        lemma_order_index_is(os2, id, i);
    }

    /// A token type without a mint record holds nothing anywhere: no
    /// balance entry, no order escrow and no pool reserve refers to it.
    pub proof fn lemma_unminted_zero(self, token: u64)
        requires
            self.balances_minted(),
            self.markets_ok(),
            self.orders_ok(),
            self.pools_ok(),
            !self.has_mint(token),
        ensures
            self.free_total(token) == 0,
            self.escrow_total(token) == 0,
            self.reserve_total(token) == 0,
    {
        assert forall|j: int| 0 <= j < self.balances@.len()
            implies #[trigger] token_fn(token)(self.balances@[j]) == 0 by {
            assert(seq_has_mint(self.mints@, self.balances@[j].token));
        }
        lemma_sum_map_zero(self.balances@, token_fn(token));
        assert forall|j: int| 0 <= j < self.orders@.len()
            implies #[trigger] escrow_fn(token)(self.orders@[j]) == 0 by {
            let o = self.orders@[j];
            assert(order_wf(o) && self.order_linked(o));
            let mi = seq_market_index(self.markets@, o.market);
            assert(seq_has_mint(self.mints@, self.markets@[mi].base_token));
            assert(seq_has_mint(self.mints@, self.markets@[mi].quote_token));
        }
        lemma_sum_map_zero(self.orders@, escrow_fn(token));
        assert forall|j: int| 0 <= j < self.pools@.len()
            implies #[trigger] reserve_fn(token)(self.pools@[j]) == 0 by {
            assert(seq_has_mint(self.mints@, self.pools@[j].token_a));
            assert(seq_has_mint(self.mints@, self.pools@[j].token_b));
        }
        lemma_sum_map_zero(self.pools@, reserve_fn(token));
    }

    // ------ record search ------

    pub fn find_mint(&self, token: u64) -> (r: Option<usize>)
        ensures
            match r {
                Some(i) => i < self.mints@.len() && self.mints@[i as int].token == token,
                None => !self.has_mint(token),
            },
    {
        let mut i: usize = 0;
        while i < self.mints.len()
            invariant
                i <= self.mints@.len(),
                forall|j: int| 0 <= j < i ==> (#[trigger] self.mints@[j]).token != token,
            decreases self.mints@.len() - i,
        {
            if self.mints[i].token == token {
                return Some(i);
            }
            i += 1;
        }
        None
    }

    pub fn find_balance(&self, token: u64, holder: u64) -> (r: Option<usize>)
        ensures
            match r {
                Some(i) => i < self.balances@.len() && self.balances@[i as int].token == token
                    && self.balances@[i as int].holder == holder,
                None => forall|j: int|
                    0 <= j < self.balances@.len()
                        ==> !((#[trigger] self.balances@[j]).token == token
                            && self.balances@[j].holder == holder),
            },
    {
        let mut i: usize = 0;
        while i < self.balances.len()
            invariant
                i <= self.balances@.len(),
                forall|j: int|
                    0 <= j < i
                        ==> !((#[trigger] self.balances@[j]).token == token
                            && self.balances@[j].holder == holder),
            decreases self.balances@.len() - i,
        {
            if self.balances[i].token == token && self.balances[i].holder == holder {
                return Some(i);
            }
            i += 1;
        }
        None
    }

    pub fn find_market(&self, id: u64) -> (r: Option<usize>)
        ensures
            match r {
                Some(i) => i < self.markets@.len() && self.markets@[i as int].id == id,
                None => !self.has_market(id),
            },
    {
        let mut i: usize = 0;
        while i < self.markets.len()
            invariant
                i <= self.markets@.len(),
                forall|j: int| 0 <= j < i ==> (#[trigger] self.markets@[j]).id != id,
            decreases self.markets@.len() - i,
        {
            if self.markets[i].id == id {
                return Some(i);
            }
            i += 1;
        }
        None
    }

    pub fn find_order(&self, id: u64) -> (r: Option<usize>)
        ensures
            match r {
                Some(i) => i < self.orders@.len() && self.orders@[i as int].id == id,
                None => !self.has_order(id),
            },
    {
        let mut i: usize = 0;
        while i < self.orders.len()
            invariant
                i <= self.orders@.len(),
                forall|j: int| 0 <= j < i ==> (#[trigger] self.orders@[j]).id != id,
            decreases self.orders@.len() - i,
        {
            if self.orders[i].id == id {
                return Some(i);
            }
            i += 1;
        }
        None
    }

    pub fn find_pool(&self, pair: TokenPair) -> (r: Option<usize>)
        ensures
            match r {
                Some(i) => i < self.pools@.len() && self.pools@[i as int].pair == pair,
                None => !self.has_pool(pair),
            },
    {
        let mut i: usize = 0;
        while i < self.pools.len()
            invariant
                i <= self.pools@.len(),
                forall|j: int| 0 <= j < i ==> (#[trigger] self.pools@[j]).pair != pair,
            decreases self.pools@.len() - i,
        {
            if self.pools[i].pair == pair {
                return Some(i);
            }
            i += 1;
        }
        None
    }

    // ------ getters ------

    /// Free balance of `holder` in `token`.
    pub fn balance_of(&self, token: u64, holder: u64) -> (r: u64)
        requires
            self.balances_unique(),
        ensures
            r as int == self.bal_of(token, holder),
    {
        match self.find_balance(token, holder) {
            Some(i) => {
                proof {
                    self.lemma_bal_entry(i as int, token, holder);
                }
                self.balances[i].amount
            },
            None => {
                proof {
                    self.lemma_bal_absent(token, holder);
                }
                0
            },
        }
    }

    /// Recorded total supply of a token type, if it is initialized.
    pub fn total_supply_of(&self, token: u64) -> (r: Option<u64>)
        requires
            self.mints_unique(),
        ensures
            match r {
                Some(s) => self.has_mint(token) && s == self.mint_of(token).total_supply,
                None => !self.has_mint(token),
            },
    {
        match self.find_mint(token) {
            Some(i) => {
                proof {
                    lemma_mint_index_is(self.mints@, token, i as int);
                }
                Some(self.mints[i].total_supply)
            },
            None => None,
        }
    }

    // ------ balance mutation ------

    /// Add `amount` to the free balance of `holder` in `token`.
    pub(crate) fn credit(&mut self, token: u64, holder: u64, amount: u64)
        requires
            old(self).balances_unique(),
            old(self).has_mint(token),
            old(self).bal_of(token, holder) + amount <= u64::MAX,
            old(self).bal_of(token, holder) >= 0,
        ensures
            final(self).balances_unique(),
            old(self).balances_minted() ==> final(self).balances_minted(),
            forall|t: u64, h: u64|
                #[trigger] final(self).bal_of(t, h) == old(self).bal_of(t, h)
                    + (if t == token && h == holder { amount as int } else { 0 }),
            forall|t: u64|
                #[trigger] final(self).free_total(t) == old(self).free_total(t)
                    + (if t == token { amount as int } else { 0 }),
            final(self).mints@ == old(self).mints@,
            final(self).markets@ == old(self).markets@,
            final(self).orders@ == old(self).orders@,
            final(self).pools@ == old(self).pools@,
            final(self).retirements@ == old(self).retirements@,
            same_registry(*old(self), *final(self)),
    {
        let ghost s0 = self.balances@;
        match self.find_balance(token, holder) {
            Some(i) => {
                proof {
                    self.lemma_bal_entry(i as int, token, holder);
                }
                let cur = self.balances[i].amount;
                self.balances[i].amount = cur + amount;
                proof {
                    let e0 = s0[i as int];
                    let e1 = self.balances@[i as int];
                    assert(self.balances@ == s0.update(
                        i as int,
                        BalanceEntry { token, holder, amount: (e0.amount + amount) as u64 },
                    ));
                    assert forall|t: u64, h: u64|
                        #[trigger] self.bal_of(t, h) == old(self).bal_of(t, h)
                            + (if t == token && h == holder { amount as int } else { 0 }) by {
                        lemma_sum_map_update(s0, i as int, e1, bal_fn(t, h));
                    }
                    assert forall|t: u64|
                        #[trigger] self.free_total(t) == old(self).free_total(t)
                            + (if t == token { amount as int } else { 0 }) by {
                        lemma_sum_map_update(s0, i as int, e1, token_fn(t));
                    }
                    if old(self).balances_minted() {
                        assert forall|k: int| 0 <= k < self.balances@.len()
                            implies seq_has_mint(self.mints@, #[trigger] self.balances@[k].token) by {
                            if k != i as int {
                                assert(self.balances@[k] == s0[k]);
                            }
                        }
                    }
                }
            },
            None => {
                proof {
                    self.lemma_bal_absent(token, holder);
                }
                let entry = BalanceEntry { token, holder, amount };
                self.balances.push(entry);
                proof {
                    assert forall|t: u64, h: u64|
                        #[trigger] self.bal_of(t, h) == old(self).bal_of(t, h)
                            + (if t == token && h == holder { amount as int } else { 0 }) by {
                        lemma_sum_map_push(s0, entry, bal_fn(t, h));
                    }
                    assert forall|t: u64|
                        #[trigger] self.free_total(t) == old(self).free_total(t)
                            + (if t == token { amount as int } else { 0 }) by {
                        lemma_sum_map_push(s0, entry, token_fn(t));
                    }
                    if old(self).balances_minted() {
                        assert forall|k: int| 0 <= k < self.balances@.len()
                            implies seq_has_mint(self.mints@, #[trigger] self.balances@[k].token) by {
                            if k < s0.len() {
                                assert(self.balances@[k] == s0[k]);
                            }
                        }
                    }
                }
            },
        }
    }

    /// Remove `amount` from the free balance of `holder` in `token`.
    pub(crate) fn debit(&mut self, token: u64, holder: u64, amount: u64)
        requires
            old(self).balances_unique(),
            amount >= 1,
            old(self).bal_of(token, holder) >= amount,
        ensures
            final(self).balances_unique(),
            old(self).balances_minted() ==> final(self).balances_minted(),
            forall|t: u64, h: u64|
                #[trigger] final(self).bal_of(t, h) == old(self).bal_of(t, h)
                    - (if t == token && h == holder { amount as int } else { 0 }),
            forall|t: u64|
                #[trigger] final(self).free_total(t) == old(self).free_total(t)
                    - (if t == token { amount as int } else { 0 }),
            final(self).mints@ == old(self).mints@,
            final(self).markets@ == old(self).markets@,
            final(self).orders@ == old(self).orders@,
            final(self).pools@ == old(self).pools@,
            final(self).retirements@ == old(self).retirements@,
            same_registry(*old(self), *final(self)),
    {
        let ghost s0 = self.balances@;
        match self.find_balance(token, holder) {
            Some(i) => {
                proof {
                    self.lemma_bal_entry(i as int, token, holder);
                }
                let cur = self.balances[i].amount;
                self.balances[i].amount = cur - amount;
                proof {
                    let e1 = self.balances@[i as int];
                    assert forall|t: u64, h: u64|
                        #[trigger] self.bal_of(t, h) == old(self).bal_of(t, h)
                            - (if t == token && h == holder { amount as int } else { 0 }) by {
                        lemma_sum_map_update(s0, i as int, e1, bal_fn(t, h));
                    }
                    assert forall|t: u64|
                        #[trigger] self.free_total(t) == old(self).free_total(t)
                            - (if t == token { amount as int } else { 0 }) by {
                        lemma_sum_map_update(s0, i as int, e1, token_fn(t));
                    }
                    if old(self).balances_minted() {
                        assert forall|k: int| 0 <= k < self.balances@.len()
                            implies seq_has_mint(self.mints@, #[trigger] self.balances@[k].token) by {
                            if k != i as int {
                                assert(self.balances@[k] == s0[k]);
                            }
                        }
                    }
                }
            },
            None => {
                proof {
                    self.lemma_bal_absent(token, holder);
                    assert(false);
                }
            },
        }
    }
}

} // verus!
