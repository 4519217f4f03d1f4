//! Constant-product liquidity pools: share minting on deposit, share
//! burning on withdrawal.
//!
//! A pool is created lazily by the first deposit for its pair, which
//! mints `isqrt(amountA * amountB)` shares; a later deposit must match
//! the standing reserve ratio exactly (after floor rounding) and mints
//! shares pro rata.  A withdrawal pays out floor-proportional amounts of
//! both reserves; withdrawing the whole share supply empties and removes
//! the pool record.

use vstd::prelude::*;
use crate::engine::Engine;
use crate::engine::lemma_pool_index_is;
use crate::engine::seq_has_mint;
use crate::engine::seq_pool_index;
use crate::engine::same_registry;
use crate::engine::spec_pair_tokens;
use crate::math::is_isqrt;
use crate::math::isqrt_u128;
use crate::math::lemma_mul_div_exact;
use crate::math::lemma_mul_le;
use crate::math::lemma_share_le_whole;
use crate::math::lemma_share_lt_whole;
use crate::math::lemma_u64_mul_fits;
use crate::records::EngineError;
use crate::records::LiquidityPool;
use crate::records::LpBalance;
use crate::records::TokenPair;
use crate::records::lp_all_fn;
use crate::records::lp_fn;
use crate::records::pool_lp_of;
use crate::records::pool_wf;
use crate::records::reserve_fn;
use crate::sums::lemma_sum_map_elem_le;
use crate::sums::lemma_sum_map_le;
use crate::sums::lemma_sum_map_nonneg;
use crate::sums::lemma_sum_map_push;
use crate::sums::lemma_sum_map_remove;
use crate::sums::lemma_sum_map_single;
use crate::sums::lemma_sum_map_update;
use crate::sums::lemma_sum_map_zero;
use crate::sums::sum;

verus! {

/// Share balance of one holder over a share ledger.
pub open spec fn lp_sum(s: Seq<LpBalance>, holder: u64) -> int {
    sum(s.map_values(lp_fn(holder)))
}

/// Total of all share balances in a share ledger.
pub open spec fn lp_total(s: Seq<LpBalance>) -> int {
    sum(s.map_values(lp_all_fn()))
}

pub proof fn lemma_lp_entry(s: Seq<LpBalance>, i: int, holder: u64)
    requires
        0 <= i < s.len(),
        s[i].holder == holder,
        forall|p: int, q: int| 0 <= p < q < s.len() ==> s[p].holder != s[q].holder,
    ensures
        lp_sum(s, holder) == s[i].amount as int,
{
    assert forall|j: int| 0 <= j < s.len() && j != i
        implies #[trigger] lp_fn(holder)(s[j]) == 0 by {
        if j < i {
            assert(s[j].holder != s[i].holder);
        } else {
            assert(s[i].holder != s[j].holder);
        }
    }
    lemma_sum_map_single(s, i, lp_fn(holder));
}

pub proof fn lemma_lp_absent(s: Seq<LpBalance>, holder: u64)
    requires
        forall|j: int| 0 <= j < s.len() ==> (#[trigger] s[j]).holder != holder,
    ensures
        lp_sum(s, holder) == 0,
{
    assert forall|j: int| 0 <= j < s.len()
        implies #[trigger] lp_fn(holder)(s[j]) == 0 by {}
    lemma_sum_map_zero(s, lp_fn(holder));
}

pub proof fn lemma_lp_le_total(s: Seq<LpBalance>, holder: u64)
    ensures
        0 <= lp_sum(s, holder) <= lp_total(s),
{
    lemma_sum_map_le(s, lp_fn(holder), lp_all_fn());
    assert forall|j: int| 0 <= j < s.len()
        implies #[trigger] lp_fn(holder)(s[j]) >= 0 by {}
    lemma_sum_map_nonneg(s, lp_fn(holder));
}

/// Linear search for a holder's share entry.
fn find_lp(v: &Vec<LpBalance>, holder: u64) -> (r: Option<usize>)
    ensures
        match r {
            Some(i) => i < v@.len() && v@[i as int].holder == holder,
            None => forall|j: int| 0 <= j < v@.len() ==> (#[trigger] v@[j]).holder != holder,
        },
{
    let mut i: usize = 0;
    while i < v.len()
        invariant
            i <= v@.len(),
            forall|j: int| 0 <= j < i ==> (#[trigger] v@[j]).holder != holder,
        decreases v@.len() - i,
    {
        if v[i].holder == holder {
            return Some(i);
        }
        i += 1;
    }
    None
}

impl Engine {
    /// The token keys behind a pool pair.
    pub fn pair_tokens(&self, pair: TokenPair) -> (r: (u64, u64))
        ensures
            r == spec_pair_tokens(*self, pair),
    {
        match pair {
            TokenPair::CstSol => (self.cst_token, self.sol_token),
            TokenPair::VcuCst => (self.vcu_token, self.cst_token),
            TokenPair::VcuSol => (self.vcu_token, self.sol_token),
        }
    }

    /// Reserves and share supply of a pool, if it exists.
    pub fn pool_state(&self, pair: TokenPair) -> (r: Option<(u64, u64, u64)>)
        requires
            self.pools_unique(),
        ensures
            match r {
                Some(s) => self.has_pool(pair) && s.0 == self.pool_of(pair).reserve_a
                    && s.1 == self.pool_of(pair).reserve_b
                    && s.2 == self.pool_of(pair).lp_token_supply,
                None => !self.has_pool(pair),
            },
    {
        match self.find_pool(pair) {
            Some(i) => {
                proof {
                    lemma_pool_index_is(self.pools@, pair, i as int);
                }
                Some((self.pools[i].reserve_a, self.pools[i].reserve_b, self.pools[i].lp_token_supply))
            },
            None => None,
        }
    }

    /// Liquidity-share balance of a provider in a pool (zero if the pool
    /// is absent).
    pub fn lp_balance_of(&self, pair: TokenPair, holder: u64) -> (r: u64)
        requires
            self.pools_unique(),
            forall|i: int| 0 <= i < self.pools@.len() ==> pool_wf(#[trigger] self.pools@[i]),
        ensures
            r as int == self.lp_of(pair, holder),
    {
        match self.find_pool(pair) {
            Some(i) => {
                proof {
                    lemma_pool_index_is(self.pools@, pair, i as int);
                    assert(pool_wf(self.pools@[i as int]));
                }
                match find_lp(&self.pools[i].lp_balances, holder) {
                    Some(l) => {
                        proof {
                            lemma_lp_entry(self.pools@[i as int].lp_balances@, l as int, holder);
                        }
                        self.pools[i].lp_balances[l].amount
                    },
                    None => {
                        proof {
                            lemma_lp_absent(self.pools@[i as int].lp_balances@, holder);
                        }
                        0
                    },
                }
            },
            None => 0,
        }
    }

    /// Outcome of `add_liquidity` on the current state.
    pub open spec fn add_liquidity_outcome(self, pair: TokenPair, amount_a: u64, amount_b: u64, provider: u64, signer: u64) -> Result<(), EngineError> {
        let (ta, tb) = spec_pair_tokens(self, pair);
        if signer != provider {
            Err(EngineError::AuthorizationError)
        } else if amount_a == 0 || amount_b == 0 {
            Err(EngineError::ValidationError)
        } else if ta == tb {
            Err(EngineError::ValidationError)
        } else if !self.has_mint(ta) || !self.has_mint(tb) {
            Err(EngineError::StateError)
        } else if self.bal_of(ta, provider) < amount_a {
            Err(EngineError::ResourceError)
        } else if self.bal_of(tb, provider) < amount_b {
            Err(EngineError::ResourceError)
        } else if !self.has_pool(pair) {
            Ok(())
        } else {
            let p = self.pool_of(pair);
            if amount_b as int != amount_a * p.reserve_b / (p.reserve_a as int) {
                Err(EngineError::ValidationError)
            } else {
                let minted = p.lp_token_supply * amount_a / (p.reserve_a as int);
                if p.reserve_a + amount_a > u64::MAX || p.reserve_b + amount_b > u64::MAX
                    || p.lp_token_supply + minted > u64::MAX {
                    Err(EngineError::ValidationError)
                } else {
                    Ok(())
                }
            }
        }
    }

    /// Deposit both sides of a pair and mint liquidity shares.  The
    /// first deposit for a pair creates the pool and mints
    /// `isqrt(amount_a * amount_b)` shares; a later deposit must match
    /// the reserve ratio (`amount_b == amount_a * reserve_b / reserve_a`
    /// after floor rounding, else `ValidationError`) and mints
    /// `lp_token_supply * amount_a / reserve_a` shares.
    #[verifier::rlimit(80)]
    pub fn add_liquidity(&mut self, pair: TokenPair, amount_a: u64, amount_b: u64, provider: u64, signer: u64) -> (r: Result<u64, EngineError>)
        requires
            old(self).wf(),
        ensures
            final(self).wf(),
            r is Ok <==> old(self).add_liquidity_outcome(pair, amount_a, amount_b, provider, signer) is Ok,
            r matches Err(e) ==> Err::<(), EngineError>(e)
                == old(self).add_liquidity_outcome(pair, amount_a, amount_b, provider, signer),
            r is Err ==> *final(self) == *old(self),
            r matches Ok(minted) ==> ({
                let (ta, tb) = spec_pair_tokens(*old(self), pair);
                &&& forall|t: u64, h: u64|
                    #[trigger] final(self).bal_of(t, h) == old(self).bal_of(t, h)
                        - (if t == ta && h == provider { amount_a as int } else { 0 })
                        - (if t == tb && h == provider { amount_b as int } else { 0 })
                &&& final(self).mints@ == old(self).mints@
                &&& final(self).markets@ == old(self).markets@
                &&& final(self).orders@ == old(self).orders@
                &&& final(self).retirements@ == old(self).retirements@
                &&& same_registry(*old(self), *final(self))
                &&& final(self).has_pool(pair)
                &&& (if !old(self).has_pool(pair) {
                    &&& is_isqrt(amount_a * amount_b, minted as int)
                    &&& final(self).pools@.len() == old(self).pools@.len() + 1
                    &&& (forall|j: int|
                        0 <= j < old(self).pools@.len()
                            ==> final(self).pools@[j] == old(self).pools@[j])
                    &&& final(self).pool_of(pair).token_a == ta
                    &&& final(self).pool_of(pair).token_b == tb
                    &&& final(self).pool_of(pair).reserve_a == amount_a
                    &&& final(self).pool_of(pair).reserve_b == amount_b
                    &&& final(self).pool_of(pair).lp_token_supply == minted
                    &&& pool_lp_of(final(self).pool_of(pair), provider) == minted as int
                } else {
                    let p = old(self).pool_of(pair);
                    &&& minted as int == p.lp_token_supply * amount_a / (p.reserve_a as int)
                    &&& amount_b as int == amount_a * p.reserve_b / (p.reserve_a as int)
                    &&& final(self).pools@.len() == old(self).pools@.len()
                    &&& (forall|j: int|
                        0 <= j < old(self).pools@.len()
                            && j != seq_pool_index(old(self).pools@, pair)
                            ==> final(self).pools@[j] == old(self).pools@[j])
                    &&& final(self).pool_of(pair).token_a == p.token_a
                    &&& final(self).pool_of(pair).token_b == p.token_b
                    &&& final(self).pool_of(pair).reserve_a == p.reserve_a + amount_a
                    &&& final(self).pool_of(pair).reserve_b == p.reserve_b + amount_b
                    &&& final(self).pool_of(pair).lp_token_supply == p.lp_token_supply + minted
                    &&& (forall|h: u64|
                        #[trigger] pool_lp_of(final(self).pool_of(pair), h)
                            == pool_lp_of(p, h) + (if h == provider { minted as int } else { 0 }))
                })
            }),
    {
        let (ta, tb) = self.pair_tokens(pair);
        if signer != provider {
            return Err(EngineError::AuthorizationError);
        }
        if amount_a == 0 || amount_b == 0 {
            return Err(EngineError::ValidationError);
        }
        if ta == tb {
            return Err(EngineError::ValidationError);
        }
        if self.find_mint(ta).is_none() {
            return Err(EngineError::StateError);
        }
        if self.find_mint(tb).is_none() {
            return Err(EngineError::StateError);
        }
        if self.balance_of(ta, provider) < amount_a {
            return Err(EngineError::ResourceError);
        }
        if self.balance_of(tb, provider) < amount_b {
            return Err(EngineError::ResourceError);
        }
        let pool_idx = self.find_pool(pair);
        let minted: u64;
        match pool_idx {
            None => {
                proof {
                    lemma_u64_mul_fits(amount_a, amount_b);
                }
                minted = isqrt_u128((amount_a as u128) * (amount_b as u128));
                proof {
                    lemma_mul_le(1, amount_a as int, 1, amount_b as int);
                    if minted == 0 {
                        assert(amount_a * amount_b < 1);
                    }
                }
            },
            Some(pi) => {
                proof {
                    lemma_pool_index_is(self.pools@, pair, pi as int);
                    assert(pool_wf(self.pools@[pi as int]));
                    assert(self.pools@[pi as int].token_a == ta);
                    assert(self.pools@[pi as int].token_b == tb);
                }
                let ra = self.pools[pi].reserve_a;
                let rb = self.pools[pi].reserve_b;
                let supply = self.pools[pi].lp_token_supply;
                proof {
                    lemma_u64_mul_fits(amount_a, rb);
                    lemma_u64_mul_fits(supply, amount_a);
                }
                let need_b: u128 = (amount_a as u128) * (rb as u128) / (ra as u128);
                if (amount_b as u128) != need_b {
                    return Err(EngineError::ValidationError);
                }
                let minted128: u128 = (supply as u128) * (amount_a as u128) / (ra as u128);
                if amount_a > u64::MAX - ra || amount_b > u64::MAX - rb
                    || minted128 > (u64::MAX - supply) as u128 {
                    return Err(EngineError::ValidationError);
                }
                minted = minted128 as u64;
            },
        }
        // all preconditions hold; move the deposit and record the shares
        let ghost pre = *self;
        proof {
            pre.lemma_bal_headroom(ta, provider);
            pre.lemma_bal_headroom(tb, provider);
        }
        self.debit(ta, provider, amount_a);
        let ghost mid1 = *self;
        self.debit(tb, provider, amount_b);
        let ghost mid2 = *self;
        match pool_idx {
            None => {
                let mut shares: Vec<LpBalance> = Vec::new();
                shares.push(LpBalance { holder: provider, amount: minted });
                proof {
                    lemma_sum_map_push(Seq::<LpBalance>::empty(), LpBalance { holder: provider, amount: minted }, lp_all_fn());
                    assert(sum(Seq::<LpBalance>::empty().map_values(lp_all_fn())) == 0) by {
                        lemma_sum_map_zero(Seq::<LpBalance>::empty(), lp_all_fn());
                    }
                    lemma_sum_map_push(Seq::<LpBalance>::empty(), LpBalance { holder: provider, amount: minted }, lp_fn(provider));
                    lemma_sum_map_zero(Seq::<LpBalance>::empty(), lp_fn(provider));
                }
                let pool = LiquidityPool {
                    pair,
                    token_a: ta,
                    token_b: tb,
                    reserve_a: amount_a,
                    reserve_b: amount_b,
                    lp_token_supply: minted,
                    lp_balances: shares,
                };
                proof {
                    assert(lp_total(pool.lp_balances@) == minted as int);
                    assert(pool_lp_of(pool, provider) == minted as int);
                    assert(pool_wf(pool));
                }
                self.pools.push(pool);
                proof {
                    assert forall|p: int, q: int| 0 <= p < q < self.pools@.len()
                        implies self.pools@[p].pair != self.pools@[q].pair by {
                        if q == pre.pools@.len() as int {
                            assert(self.pools@[p] == pre.pools@[p]);
                        }
                    }
                    assert(self.pools_unique());
                    lemma_pool_index_is(self.pools@, pair, pre.pools@.len() as int);
                    assert forall|i: int| 0 <= i < self.pools@.len()
                        implies pool_wf(#[trigger] self.pools@[i])
                            && seq_has_mint(self.mints@, self.pools@[i].token_a)
                            && seq_has_mint(self.mints@, self.pools@[i].token_b) by {
                        if i < pre.pools@.len() {
                            assert(self.pools@[i] == pre.pools@[i]);
                        }
                    }
                    assert(self.pools_ok());
                    assert forall|i: int| 0 <= i < self.mints@.len()
                        implies (#[trigger] self.mints@[i]).total_supply as int
                            == self.token_total(self.mints@[i].token) by {
                        let t = self.mints@[i].token;
                        assert(mid1.free_total(t) == pre.free_total(t)
                            - (if t == ta { amount_a as int } else { 0 }));
                        assert(mid2.free_total(t) == mid1.free_total(t)
                            - (if t == tb { amount_b as int } else { 0 }));
                        assert(self.free_total(t) == mid2.free_total(t));
                        lemma_sum_map_push(pre.pools@, pool, reserve_fn(t));
                        assert(self.reserve_total(t) == pre.reserve_total(t)
                            + (if t == ta { amount_a as int } else { 0 })
                            + (if t == tb { amount_b as int } else { 0 }));
                    }
                    assert(self.conserved());
                }
            },
            Some(pi) => {
                let ra = self.pools[pi].reserve_a;
                let rb = self.pools[pi].reserve_b;
                let supply = self.pools[pi].lp_token_supply;
                proof {
                    lemma_pool_index_is(pre.pools@, pair, pi as int);
                }
                let ghost p0 = pre.pools@[pi as int];
                proof {
                    assert(p0.token_a == ta && p0.token_b == tb);
                }
                self.pools[pi].reserve_a = ra + amount_a;
                self.pools[pi].reserve_b = rb + amount_b;
                self.pools[pi].lp_token_supply = supply + minted;
                let li = find_lp(&self.pools[pi].lp_balances, provider);
                match li {
                    Some(l) => {
                        proof {
                            lemma_lp_entry(p0.lp_balances@, l as int, provider);
                            lemma_lp_le_total(p0.lp_balances@, provider);
                        }
                        let cur = self.pools[pi].lp_balances[l].amount;
                        self.pools[pi].lp_balances[l].amount = cur + minted;
                        proof {
                            let e1 = self.pools@[pi as int].lp_balances@[l as int];
                            assert forall|h: u64|
                                #[trigger] pool_lp_of(self.pools@[pi as int], h)
                                    == pool_lp_of(p0, h)
                                        + (if h == provider { minted as int } else { 0 }) by {
                                lemma_sum_map_update(p0.lp_balances@, l as int, e1, lp_fn(h));
                            }
                            lemma_sum_map_update(p0.lp_balances@, l as int, e1, lp_all_fn());
                        }
                    },
                    None => {
                        proof {
                            lemma_lp_absent(p0.lp_balances@, provider);
                        }
                        let entry = LpBalance { holder: provider, amount: minted };
                        self.pools[pi].lp_balances.push(entry);
                        proof {
                            assert forall|h: u64|
                                #[trigger] pool_lp_of(self.pools@[pi as int], h)
                                    == pool_lp_of(p0, h)
                                        + (if h == provider { minted as int } else { 0 }) by {
                                lemma_sum_map_push(p0.lp_balances@, entry, lp_fn(h));
                            }
                            lemma_sum_map_push(p0.lp_balances@, entry, lp_all_fn());
                        }
                    },
                }
                proof {
                    let p1 = self.pools@[pi as int];
                    assert(self.pools@ == pre.pools@.update(pi as int, p1));
                    assert(p1.pair == pair && p1.token_a == p0.token_a && p1.token_b == p0.token_b);
                    assert(p1.reserve_a == ra + amount_a && p1.reserve_b == rb + amount_b);
                    assert(p1.lp_token_supply == supply + minted);
                    // holders stay unique in the share ledger
                    assert forall|p: int, q: int| 0 <= p < q < p1.lp_balances@.len()
                        implies p1.lp_balances@[p].holder != p1.lp_balances@[q].holder by {
                        if q < p0.lp_balances@.len() {
                            assert(p1.lp_balances@[p].holder == p0.lp_balances@[p].holder);
                            assert(p1.lp_balances@[q].holder == p0.lp_balances@[q].holder);
                        } else {
                            assert(p1.lp_balances@[p].holder == p0.lp_balances@[p].holder);
                        }
                    }
                    assert(pool_wf(p1));
                    assert forall|p: int, q: int| 0 <= p < q < self.pools@.len()
                        implies self.pools@[p].pair != self.pools@[q].pair by {
                        if p != pi as int {
                            assert(self.pools@[p] == pre.pools@[p]);
                        }
                        if q != pi as int {
                            assert(self.pools@[q] == pre.pools@[q]);
                        }
                    }
                    assert(self.pools_unique());
                    lemma_pool_index_is(self.pools@, pair, pi as int);
                    assert forall|i: int| 0 <= i < self.pools@.len()
                        implies pool_wf(#[trigger] self.pools@[i])
                            && seq_has_mint(self.mints@, self.pools@[i].token_a)
                            && seq_has_mint(self.mints@, self.pools@[i].token_b) by {
                        if i != pi as int {
                            assert(self.pools@[i] == pre.pools@[i]);
                        }
                    }
                    assert(self.pools_ok());
                    assert forall|i: int| 0 <= i < self.mints@.len()
                        implies (#[trigger] self.mints@[i]).total_supply as int
                            == self.token_total(self.mints@[i].token) by {
                        let t = self.mints@[i].token;
                        assert(mid1.free_total(t) == pre.free_total(t)
                            - (if t == ta { amount_a as int } else { 0 }));
                        assert(mid2.free_total(t) == mid1.free_total(t)
                            - (if t == tb { amount_b as int } else { 0 }));
                        assert(self.free_total(t) == mid2.free_total(t));
                        lemma_sum_map_update(pre.pools@, pi as int, p1, reserve_fn(t));
                        assert(self.reserve_total(t) == pre.reserve_total(t)
                            + (if t == ta { amount_a as int } else { 0 })
                            + (if t == tb { amount_b as int } else { 0 }));
                    }
                    assert(self.conserved());
                }
            },
        }
        proof {
            assert forall|t: u64, h: u64|
                #[trigger] self.bal_of(t, h) == pre.bal_of(t, h)
                    - (if t == ta && h == provider { amount_a as int } else { 0 })
                    - (if t == tb && h == provider { amount_b as int } else { 0 }) by {
                assert(mid1.bal_of(t, h) == pre.bal_of(t, h)
                    - (if t == ta && h == provider { amount_a as int } else { 0 }));
                assert(mid2.bal_of(t, h) == mid1.bal_of(t, h)
                    - (if t == tb && h == provider { amount_b as int } else { 0 }));
                assert(self.bal_of(t, h) == mid2.bal_of(t, h));
            }
        }
        Ok(minted)
    }

    /// Outcome of `remove_liquidity` on the current state.
    pub open spec fn remove_liquidity_outcome(self, pair: TokenPair, lp_amount: u64, provider: u64, signer: u64) -> Result<(), EngineError> {
        if signer != provider {
            Err(EngineError::AuthorizationError)
        } else if lp_amount == 0 {
            Err(EngineError::ValidationError)
        } else if !self.has_pool(pair) {
            Err(EngineError::StateError)
        } else if self.lp_of(pair, provider) < lp_amount {
            Err(EngineError::ResourceError)
        } else {
            Ok(())
        }
    }

    /// Burn `lp_amount` shares and pay out the proportional slice of both
    /// reserves, rounded down:
    /// `amount_a == reserve_a * lp_amount / lp_token_supply` and the
    /// analogue for `amount_b`.  Burning the whole supply empties and
    /// removes the pool.
    #[verifier::rlimit(80)]
    pub fn remove_liquidity(&mut self, pair: TokenPair, lp_amount: u64, provider: u64, signer: u64) -> (r: Result<(u64, u64), EngineError>)
        requires
            old(self).wf(),
        ensures
            final(self).wf(),
            r is Ok <==> old(self).remove_liquidity_outcome(pair, lp_amount, provider, signer) is Ok,
            r matches Err(e) ==> Err::<(), EngineError>(e)
                == old(self).remove_liquidity_outcome(pair, lp_amount, provider, signer),
            r is Err ==> *final(self) == *old(self),
            r matches Ok(out) ==> ({
                let p = old(self).pool_of(pair);
                let pi = seq_pool_index(old(self).pools@, pair);
                &&& out.0 as int == p.reserve_a * lp_amount / (p.lp_token_supply as int)
                &&& out.1 as int == p.reserve_b * lp_amount / (p.lp_token_supply as int)
                &&& forall|t: u64, h: u64|
                    #[trigger] final(self).bal_of(t, h) == old(self).bal_of(t, h)
                        + (if t == p.token_a && h == provider { out.0 as int } else { 0 })
                        + (if t == p.token_b && h == provider { out.1 as int } else { 0 })
                &&& final(self).mints@ == old(self).mints@
                &&& final(self).markets@ == old(self).markets@
                &&& final(self).orders@ == old(self).orders@
                &&& final(self).retirements@ == old(self).retirements@
                &&& same_registry(*old(self), *final(self))
                &&& (if lp_amount == p.lp_token_supply {
                    &&& out.0 == p.reserve_a
                    &&& out.1 == p.reserve_b
                    &&& final(self).pools@ == old(self).pools@.remove(pi)
                } else {
                    &&& final(self).pools@.len() == old(self).pools@.len()
                    &&& (forall|j: int|
                        0 <= j < old(self).pools@.len() && j != pi
                            ==> final(self).pools@[j] == old(self).pools@[j])
                    &&& final(self).pool_of(pair).token_a == p.token_a
                    &&& final(self).pool_of(pair).token_b == p.token_b
                    &&& final(self).pool_of(pair).reserve_a == p.reserve_a - out.0
                    &&& final(self).pool_of(pair).reserve_b == p.reserve_b - out.1
                    &&& final(self).pool_of(pair).lp_token_supply == p.lp_token_supply - lp_amount
                    &&& (forall|h: u64|
                        #[trigger] pool_lp_of(final(self).pool_of(pair), h)
                            == pool_lp_of(p, h) - (if h == provider { lp_amount as int } else { 0 }))
                })
            }),
    {
        if signer != provider {
            return Err(EngineError::AuthorizationError);
        }
        if lp_amount == 0 {
            return Err(EngineError::ValidationError);
        }
        let pi = match self.find_pool(pair) {
            None => {
                return Err(EngineError::StateError);
            },
            Some(i) => i,
        };
        proof {
            lemma_pool_index_is(self.pools@, pair, pi as int);
            assert(pool_wf(self.pools@[pi as int]));
        }
        let ta = self.pools[pi].token_a;
        let tb = self.pools[pi].token_b;
        let ra = self.pools[pi].reserve_a;
        let rb = self.pools[pi].reserve_b;
        let supply = self.pools[pi].lp_token_supply;
        let li = match find_lp(&self.pools[pi].lp_balances, provider) {
            None => {
                proof {
                    lemma_lp_absent(self.pools@[pi as int].lp_balances@, provider);
                }
                return Err(EngineError::ResourceError);
            },
            Some(l) => l,
        };
        proof {
            lemma_lp_entry(self.pools@[pi as int].lp_balances@, li as int, provider);
        }
        let held = self.pools[pi].lp_balances[li].amount;
        if held < lp_amount {
            return Err(EngineError::ResourceError);
        }
        proof {
            lemma_lp_le_total(self.pools@[pi as int].lp_balances@, provider);
            assert(lp_amount <= supply);
            lemma_u64_mul_fits(ra, lp_amount);
            lemma_u64_mul_fits(rb, lp_amount);
            lemma_share_le_whole(ra as int, lp_amount as int, supply as int);
            lemma_share_le_whole(rb as int, lp_amount as int, supply as int);
        }
        let amount_a: u64 = ((ra as u128) * (lp_amount as u128) / (supply as u128)) as u64;
        let amount_b: u64 = ((rb as u128) * (lp_amount as u128) / (supply as u128)) as u64;
        let ghost pre = *self;
        let ghost p0 = pre.pools@[pi as int];
        proof {
            // headroom for both payouts: each is bounded by its reserve,
            // which sits inside the conserved supply of its token
            pre.lemma_bal_headroom(ta, provider);
            pre.lemma_totals_nonneg(ta);
            pre.lemma_bal_headroom(tb, provider);
            pre.lemma_totals_nonneg(tb);
            assert forall|j: int| 0 <= j < pre.pools@.len()
                implies #[trigger] reserve_fn(ta)(pre.pools@[j]) >= 0 by {}
            lemma_sum_map_elem_le(pre.pools@, pi as int, reserve_fn(ta));
            assert forall|j: int| 0 <= j < pre.pools@.len()
                implies #[trigger] reserve_fn(tb)(pre.pools@[j]) >= 0 by {}
            lemma_sum_map_elem_le(pre.pools@, pi as int, reserve_fn(tb));
            assert(amount_a as int <= pre.reserve_total(ta));
            assert(amount_b as int <= pre.reserve_total(tb));
        }
        if lp_amount == supply {
            // the whole share supply leaves: the payout is exact and the
            // pool record disappears
            proof {
                lemma_mul_div_exact(ra as int, supply as int);
                lemma_mul_div_exact(rb as int, supply as int);
                assert(amount_a == ra && amount_b == rb);
            }
            let _removed = self.pools.remove(pi);
            let ghost mid0 = *self;
            proof {
                assert(mid0.pools@ == pre.pools@.remove(pi as int));
                assert forall|p: int, q: int| 0 <= p < q < mid0.pools@.len()
                    implies mid0.pools@[p].pair != mid0.pools@[q].pair by {
                    let p2: int = if p < pi as int { p } else { p + 1 };
                    let q2: int = if q < pi as int { q } else { q + 1 };
                    assert(mid0.pools@[p] == pre.pools@[p2]);
                    assert(mid0.pools@[q] == pre.pools@[q2]);
                }
                assert(mid0.pools_unique());
                assert forall|i: int| 0 <= i < mid0.pools@.len()
                    implies pool_wf(#[trigger] mid0.pools@[i])
                        && seq_has_mint(mid0.mints@, mid0.pools@[i].token_a)
                        && seq_has_mint(mid0.mints@, mid0.pools@[i].token_b) by {
                    let i2: int = if i < pi as int { i } else { i + 1 };
                    assert(mid0.pools@[i] == pre.pools@[i2]);
                }
                assert(mid0.pools_ok());
                assert(mid0.balances_unique());
            }
            self.credit(ta, provider, amount_a);
            let ghost mid1 = *self;
            proof {
                mid1.lemma_bal_le_free(tb, provider);
                assert(mid1.free_total(tb) == pre.free_total(tb)
                    + (if tb == ta { amount_a as int } else { 0 }));
                assert(mid1.bal_of(tb, provider) + amount_b <= u64::MAX);
            }
            self.credit(tb, provider, amount_b);
            proof {
                assert forall|i: int| 0 <= i < self.mints@.len()
                    implies (#[trigger] self.mints@[i]).total_supply as int
                        == self.token_total(self.mints@[i].token) by {
                    let t = self.mints@[i].token;
                    assert(mid1.free_total(t) == pre.free_total(t)
                        + (if t == ta { amount_a as int } else { 0 }));
                    assert(self.free_total(t) == mid1.free_total(t)
                        + (if t == tb { amount_b as int } else { 0 }));
                    lemma_sum_map_remove(pre.pools@, pi as int, reserve_fn(t));
                    assert(self.reserve_total(t) == pre.reserve_total(t)
                        - (if t == ta { ra as int } else { 0 })
                        - (if t == tb { rb as int } else { 0 }));
                }
                assert(self.conserved());
                assert forall|t: u64, h: u64|
                    #[trigger] self.bal_of(t, h) == pre.bal_of(t, h)
                        + (if t == ta && h == provider { amount_a as int } else { 0 })
                        + (if t == tb && h == provider { amount_b as int } else { 0 }) by {
                    assert(mid1.bal_of(t, h) == pre.bal_of(t, h)
                        + (if t == ta && h == provider { amount_a as int } else { 0 }));
                    assert(self.bal_of(t, h) == mid1.bal_of(t, h)
                        + (if t == tb && h == provider { amount_b as int } else { 0 }));
                }
            }
            Ok((amount_a, amount_b))
        } else {
            // partial withdrawal: the reserves shrink but stay positive
            proof {
                lemma_share_lt_whole(ra as int, lp_amount as int, supply as int);
                lemma_share_lt_whole(rb as int, lp_amount as int, supply as int);
            }
            self.pools[pi].reserve_a = ra - amount_a;
            self.pools[pi].reserve_b = rb - amount_b;
            self.pools[pi].lp_token_supply = supply - lp_amount;
            let cur = self.pools[pi].lp_balances[li].amount;
            self.pools[pi].lp_balances[li].amount = cur - lp_amount;
            let ghost mid0 = *self;
            proof {
                let p1 = mid0.pools@[pi as int];
                assert(mid0.pools@ == pre.pools@.update(pi as int, p1));
                let e1 = p1.lp_balances@[li as int];
                assert(p1.lp_balances@ == p0.lp_balances@.update(li as int, e1));
                assert forall|h: u64|
                    #[trigger] pool_lp_of(p1, h)
                        == pool_lp_of(p0, h)
                            - (if h == provider { lp_amount as int } else { 0 }) by {
                    lemma_sum_map_update(p0.lp_balances@, li as int, e1, lp_fn(h));
                }
                lemma_sum_map_update(p0.lp_balances@, li as int, e1, lp_all_fn());
                assert forall|p: int, q: int| 0 <= p < q < p1.lp_balances@.len()
                    implies p1.lp_balances@[p].holder != p1.lp_balances@[q].holder by {
                    if p != li as int {
                        assert(p1.lp_balances@[p] == p0.lp_balances@[p]);
                    }
                    if q != li as int {
                        assert(p1.lp_balances@[q] == p0.lp_balances@[q]);
                    }
                }
                assert(pool_wf(p1));
                assert forall|p: int, q: int| 0 <= p < q < mid0.pools@.len()
                    implies mid0.pools@[p].pair != mid0.pools@[q].pair by {
                    if p != pi as int {
                        assert(mid0.pools@[p] == pre.pools@[p]);
                    }
                    if q != pi as int {
                        assert(mid0.pools@[q] == pre.pools@[q]);
                    }
                }
                assert(mid0.pools_unique());
                lemma_pool_index_is(mid0.pools@, pair, pi as int);
                assert forall|i: int| 0 <= i < mid0.pools@.len()
                    implies pool_wf(#[trigger] mid0.pools@[i])
                        && seq_has_mint(mid0.mints@, mid0.pools@[i].token_a)
                        && seq_has_mint(mid0.mints@, mid0.pools@[i].token_b) by {
                    if i != pi as int {
                        assert(mid0.pools@[i] == pre.pools@[i]);
                    }
                }
                assert(mid0.pools_ok());
                assert(mid0.balances_unique());
            }
            self.credit(ta, provider, amount_a);
            let ghost mid1 = *self;
            proof {
                mid1.lemma_bal_le_free(tb, provider);
                assert(mid1.free_total(tb) == pre.free_total(tb)
                    + (if tb == ta { amount_a as int } else { 0 }));
                assert(mid1.bal_of(tb, provider) + amount_b <= u64::MAX);
            }
            self.credit(tb, provider, amount_b);
            proof {
                let p1 = mid0.pools@[pi as int];
                assert forall|i: int| 0 <= i < self.mints@.len()
                    implies (#[trigger] self.mints@[i]).total_supply as int
                        == self.token_total(self.mints@[i].token) by {
                    let t = self.mints@[i].token;
                    assert(mid1.free_total(t) == pre.free_total(t)
                        + (if t == ta { amount_a as int } else { 0 }));
                    assert(self.free_total(t) == mid1.free_total(t)
                        + (if t == tb { amount_b as int } else { 0 }));
                    lemma_sum_map_update(pre.pools@, pi as int, p1, reserve_fn(t));
                    assert(self.reserve_total(t) == pre.reserve_total(t)
                        - (if t == ta { amount_a as int } else { 0 })
                        - (if t == tb { amount_b as int } else { 0 }));
                }
                assert(self.conserved());
                assert forall|t: u64, h: u64|
                    #[trigger] self.bal_of(t, h) == pre.bal_of(t, h)
                        + (if t == ta && h == provider { amount_a as int } else { 0 })
                        + (if t == tb && h == provider { amount_b as int } else { 0 }) by {
                    assert(mid1.bal_of(t, h) == pre.bal_of(t, h)
                        + (if t == ta && h == provider { amount_a as int } else { 0 }));
                    assert(self.bal_of(t, h) == mid1.bal_of(t, h)
                        + (if t == tb && h == provider { amount_b as int } else { 0 }));
                }
                lemma_pool_index_is(self.pools@, pair, pi as int);
            }
            Ok((amount_a, amount_b))
        }
    }
}

} // verus!
