//! Token-ledger operations: initialization, mint, burn, transfer,
//! retirement, and the retirement audit queries.
//!
//! Every operation validates all of its preconditions first and mutates
//! nothing on failure; on success its postcondition pins the new state
//! exactly, and global well-formedness (conservation included) is
//! re-established.

use vstd::prelude::*;
use crate::engine::Engine;
use crate::engine::lemma_mint_index_is;
use crate::engine::seq_has_mint;
use crate::engine::seq_mint_index;
use crate::engine::same_registry;
use crate::records::EngineError;
use crate::records::MintRecord;
use crate::records::RetirementRecord;
use crate::records::VcuMetadata;

verus! {

/// The subsequence of a retirement log that belongs to one project, in
/// log order (chronological whenever the host clock is monotonic).
pub open spec fn project_filter(s: Seq<RetirementRecord>, pid: Seq<u8>) -> Seq<RetirementRecord>
    decreases s.len(),
{
    if s.len() == 0 {
        Seq::empty()
    } else if s.last().project_id@ == pid {
        project_filter(s.drop_last(), pid).push(s.last())
    } else {
        project_filter(s.drop_last(), pid)
    }
}

/// Byte-wise equality of two 32-byte keys.
pub fn key_bytes_equal(a: &[u8; 32], b: &[u8; 32]) -> (r: bool)
    ensures
        r <==> a@ == b@,
{
    let mut i: usize = 0;
    while i < 32
        invariant
            i <= 32,
            forall|j: int| 0 <= j < i ==> a@[j] == b@[j],
        decreases 32 - i,
    {
        if a[i] != b[i] {
            proof {
                assert(a@[i as int] != b@[i as int]);
            }
            return false;
        }
        i += 1;
    }
    proof {
        assert(a@ =~= b@);
    }
    true
}

impl Engine {
    /// Outcome of `initialize_token` on the current state.
    pub open spec fn initialize_token_outcome(self, token: u64) -> Result<(), EngineError> {
        if self.has_mint(token) {
            Err(EngineError::DuplicateInitialization)
        } else {
            Ok(())
        }
    }

    /// Create the mint record of a token type and credit the initial
    /// supply to the mint authority.  Fails if the type already exists.
    pub fn initialize_token(
        &mut self,
        token: u64,
        supply: u64,
        decimals: u8,
        mint_authority: u64,
        freeze_authority: Option<u64>,
        meta: Option<VcuMetadata>,
    ) -> (r: Result<(), EngineError>)
        requires
            old(self).wf(),
        ensures
            final(self).wf(),
            r == old(self).initialize_token_outcome(token),
            r is Err ==> *final(self) == *old(self),
            r is Ok ==> {
                &&& final(self).mints@ == old(self).mints@.push(
                    MintRecord { token, total_supply: supply, decimals, mint_authority, freeze_authority, meta },
                )
                &&& forall|t: u64, h: u64|
                    #[trigger] final(self).bal_of(t, h) == old(self).bal_of(t, h)
                        + (if t == token && h == mint_authority { supply as int } else { 0 })
                &&& final(self).markets@ == old(self).markets@
                &&& final(self).orders@ == old(self).orders@
                &&& final(self).pools@ == old(self).pools@
                &&& final(self).retirements@ == old(self).retirements@
                &&& same_registry(*old(self), *final(self))
            },
    {
        if self.find_mint(token).is_some() {
            proof {
                let i = choose|i: int|
                    0 <= i < self.mints@.len() && self.mints@[i].token == token;
            }
            return Err(EngineError::DuplicateInitialization);
        }
        let ghost pre = *self;
        let record = MintRecord { token, total_supply: supply, decimals, mint_authority, freeze_authority, meta };
        self.mints.push(record);
        let ghost mid = *self;
        proof {
            // the new token held nothing before, so its conservation
            // equation starts from zero
            pre.lemma_unminted_zero(token);
            // presence of every old mint survives the push
            assert forall|x: u64| seq_has_mint(pre.mints@, x)
                implies seq_has_mint(mid.mints@, x) by {
                Engine::lemma_has_mint_extend(pre.mints@, mid.mints@, x);
            }
            assert(mid.mints@[pre.mints@.len() as int] == record);
            assert(seq_has_mint(mid.mints@, token));
            assert(mid.balances_minted());
            assert(mid.balances_unique());
            // no entry matches the fresh token, so its balance is zero
            assert forall|j: int|
                0 <= j < mid.balances@.len()
                    implies !((#[trigger] mid.balances@[j]).token == token
                        && mid.balances@[j].holder == mint_authority) by {
                assert(seq_has_mint(pre.mints@, mid.balances@[j].token));
            }
            mid.lemma_bal_absent(token, mint_authority);
        }
        self.credit(token, mint_authority, supply);
        proof {
            // uniqueness of mints: the fresh token differs from every old one
            assert forall|p: int, q: int| 0 <= p < q < self.mints@.len()
                implies self.mints@[p].token != self.mints@[q].token by {
                if q == pre.mints@.len() as int {
                    assert(self.mints@[p] == pre.mints@[p]);
                }
            }
            assert forall|x: u64| seq_has_mint(pre.mints@, x)
                implies seq_has_mint(self.mints@, x) by {
                Engine::lemma_has_mint_extend(pre.mints@, self.mints@, x);
            }
            assert(self.markets_ok());
            assert(self.orders_ok());
            assert(self.pools_ok());
            // conservation: old tokens are untouched, the new one carries
            // exactly the credited initial supply
            assert forall|i: int| 0 <= i < self.mints@.len()
                implies (#[trigger] self.mints@[i]).total_supply as int
                    == self.token_total(self.mints@[i].token) by {
                let t = self.mints@[i].token;
                if i < pre.mints@.len() {
                    assert(self.mints@[i] == pre.mints@[i]);
                    assert(seq_has_mint(pre.mints@, t));
                    assert(t != token);
                    assert(self.free_total(t) == mid.free_total(t));
                    assert(mid.free_total(t) == pre.free_total(t));
                } else {
                    assert(self.mints@[i] == MintRecord { token, total_supply: supply, decimals, mint_authority, freeze_authority, meta });
                    assert(self.free_total(token) == supply as int);
                }
            }
            assert(self.conserved());
        }
        Ok(())
    }

    /// Outcome of `mint` on the current state.
    pub open spec fn mint_outcome(self, token: u64, amount: u64, signer: u64) -> Result<(), EngineError> {
        if amount == 0 {
            Err(EngineError::ValidationError)
        } else if !self.has_mint(token) {
            Err(EngineError::StateError)
        } else if signer != self.mint_of(token).mint_authority {
            Err(EngineError::AuthorizationError)
        } else if self.mint_of(token).total_supply + amount > u64::MAX {
            Err(EngineError::ValidationError)
        } else {
            Ok(())
        }
    }

    /// Increase a token's supply and the recipient's balance by `amount`,
    /// gated on the mint authority's signature.
    pub fn mint(&mut self, token: u64, amount: u64, to: u64, signer: u64) -> (r: Result<(), EngineError>)
        requires
            old(self).wf(),
        ensures
            final(self).wf(),
            r == old(self).mint_outcome(token, amount, signer),
            r is Err ==> *final(self) == *old(self),
            r is Ok ==> {
                &&& final(self).mints@ == old(self).mints@.update(
                    seq_mint_index(old(self).mints@, token),
                    (MintRecord {
                        total_supply: (old(self).mint_of(token).total_supply + amount) as u64,
                        ..old(self).mint_of(token)
                    }),
                )
                &&& final(self).mint_of(token).total_supply
                    == old(self).mint_of(token).total_supply + amount
                &&& forall|t: u64, h: u64|
                    #[trigger] final(self).bal_of(t, h) == old(self).bal_of(t, h)
                        + (if t == token && h == to { amount as int } else { 0 })
                &&& final(self).markets@ == old(self).markets@
                &&& final(self).orders@ == old(self).orders@
                &&& final(self).pools@ == old(self).pools@
                &&& final(self).retirements@ == old(self).retirements@
                &&& same_registry(*old(self), *final(self))
            },
    {
        if amount == 0 {
            return Err(EngineError::ValidationError);
        }
        let mi = match self.find_mint(token) {
            None => {
                return Err(EngineError::StateError);
            },
            Some(i) => i,
        };
        proof {
            lemma_mint_index_is(self.mints@, token, mi as int);
        }
        let m = self.mints[mi];
        if signer != m.mint_authority {
            return Err(EngineError::AuthorizationError);
        }
        if amount > u64::MAX - m.total_supply {
            return Err(EngineError::ValidationError);
        }
        let ghost pre = *self;
        self.mints[mi].total_supply = m.total_supply + amount;
        let ghost mid = *self;
        proof {
            assert(mid.mints@ == pre.mints@.update(mi as int, MintRecord {
                total_supply: (m.total_supply + amount) as u64,
                ..m
            }));
            assert forall|x: u64| seq_has_mint(pre.mints@, x)
                implies seq_has_mint(mid.mints@, x) by {
                Engine::lemma_has_mint_extend(pre.mints@, mid.mints@, x);
            }
            assert(mid.balances_minted());
            pre.lemma_bal_headroom(token, to);
            pre.lemma_totals_nonneg(token);
        }
        self.credit(token, to, amount);
        proof {
            assert forall|x: u64| seq_has_mint(pre.mints@, x)
                implies seq_has_mint(self.mints@, x) by {
                Engine::lemma_has_mint_extend(pre.mints@, self.mints@, x);
            }
            assert(self.mints_unique());
            assert(self.markets_ok());
            assert(self.orders_ok());
            assert(self.pools_ok());
            assert forall|i: int| 0 <= i < self.mints@.len()
                implies (#[trigger] self.mints@[i]).total_supply as int
                    == self.token_total(self.mints@[i].token) by {
                let t = self.mints@[i].token;
                assert(self.free_total(t) == pre.free_total(t)
                    + (if t == token { amount as int } else { 0 }));
                if i != mi as int {
                    assert(self.mints@[i] == pre.mints@[i]);
                    assert(t != token);
                }
            }
            assert(self.conserved());
            lemma_mint_index_is(self.mints@, token, mi as int);
        }
        Ok(())
    }

    /// Outcome of `burn` on the current state.
    pub open spec fn burn_outcome(self, token: u64, amount: u64, holder: u64, signer: u64) -> Result<(), EngineError> {
        if amount == 0 {
            Err(EngineError::ValidationError)
        } else if !self.has_mint(token) {
            Err(EngineError::StateError)
        } else if self.bal_of(token, holder) < amount {
            Err(EngineError::ResourceError)
        } else if signer != holder {
            Err(EngineError::AuthorizationError)
        } else {
            Ok(())
        }
    }

    /// Decrease the holder's balance and the token's supply by `amount`,
    /// gated on the holder's own signature.
    pub fn burn(&mut self, token: u64, amount: u64, holder: u64, signer: u64) -> (r: Result<(), EngineError>)
        requires
            old(self).wf(),
        ensures
            final(self).wf(),
            r == old(self).burn_outcome(token, amount, holder, signer),
            r is Err ==> *final(self) == *old(self),
            r is Ok ==> {
                &&& final(self).mints@ == old(self).mints@.update(
                    seq_mint_index(old(self).mints@, token),
                    (MintRecord {
                        total_supply: (old(self).mint_of(token).total_supply - amount) as u64,
                        ..old(self).mint_of(token)
                    }),
                )
                &&& final(self).mint_of(token).total_supply
                    == old(self).mint_of(token).total_supply - amount
                &&& forall|t: u64, h: u64|
                    #[trigger] final(self).bal_of(t, h) == old(self).bal_of(t, h)
                        - (if t == token && h == holder { amount as int } else { 0 })
                &&& final(self).markets@ == old(self).markets@
                &&& final(self).orders@ == old(self).orders@
                &&& final(self).pools@ == old(self).pools@
                &&& final(self).retirements@ == old(self).retirements@
                &&& same_registry(*old(self), *final(self))
            },
    {
        let r = self.burn_impl(token, amount, holder, signer, None);
        r
    }

    /// Outcome of `retire` on the current state.
    pub open spec fn retire_outcome(self, token: u64, amount: u64, holder: u64, signer: u64) -> Result<(), EngineError> {
        if amount == 0 {
            Err(EngineError::ValidationError)
        } else if !self.has_mint(token) {
            Err(EngineError::StateError)
        } else if self.mint_of(token).meta is None {
            Err(EngineError::ValidationError)
        } else if self.bal_of(token, holder) < amount {
            Err(EngineError::ResourceError)
        } else if signer != holder {
            Err(EngineError::AuthorizationError)
        } else {
            Ok(())
        }
    }

    /// Irreversible proof-of-offset: burn `amount` units of a token that
    /// carries verification metadata and append a retirement record in
    /// the same atomic step.
    pub fn retire(&mut self, token: u64, amount: u64, holder: u64, signer: u64, now: u64) -> (r: Result<(), EngineError>)
        requires
            old(self).wf(),
        ensures
            final(self).wf(),
            r == old(self).retire_outcome(token, amount, holder, signer),
            r is Err ==> *final(self) == *old(self),
            r is Ok ==> {
                &&& final(self).mints@ == old(self).mints@.update(
                    seq_mint_index(old(self).mints@, token),
                    (MintRecord {
                        total_supply: (old(self).mint_of(token).total_supply - amount) as u64,
                        ..old(self).mint_of(token)
                    }),
                )
                &&& final(self).mint_of(token).total_supply
                    == old(self).mint_of(token).total_supply - amount
                &&& forall|t: u64, h: u64|
                    #[trigger] final(self).bal_of(t, h) == old(self).bal_of(t, h)
                        - (if t == token && h == holder { amount as int } else { 0 })
                &&& final(self).retirements@ == old(self).retirements@.push(
                    (RetirementRecord {
                        project_id: old(self).mint_of(token).meta->0.project_id,
                        retiree: holder,
                        amount,
                        timestamp: now,
                    }),
                )
                &&& final(self).markets@ == old(self).markets@
                &&& final(self).orders@ == old(self).orders@
                &&& final(self).pools@ == old(self).pools@
                &&& same_registry(*old(self), *final(self))
            },
    {
        if amount == 0 {
            return Err(EngineError::ValidationError);
        }
        let mi = match self.find_mint(token) {
            None => {
                return Err(EngineError::StateError);
            },
            Some(i) => i,
        };
        proof {
            lemma_mint_index_is(self.mints@, token, mi as int);
        }
        let meta = match self.mints[mi].meta {
            None => {
                return Err(EngineError::ValidationError);
            },
            Some(md) => md,
        };
        let r = self.burn_impl(token, amount, holder, signer, Some(RetirementRecord {
            project_id: meta.project_id,
            retiree: holder,
            amount,
            timestamp: now,
        }));
        r
    }

    /// Shared body of `burn` and `retire`: validate, debit, reduce the
    /// supply, and append the retirement record if one is due.
    fn burn_impl(&mut self, token: u64, amount: u64, holder: u64, signer: u64, record: Option<RetirementRecord>) -> (r: Result<(), EngineError>)
        requires
            old(self).wf(),
        ensures
            final(self).wf(),
            r == old(self).burn_outcome(token, amount, holder, signer),
            r is Err ==> *final(self) == *old(self),
            r is Ok ==> {
                &&& final(self).mints@ == old(self).mints@.update(
                    seq_mint_index(old(self).mints@, token),
                    (MintRecord {
                        total_supply: (old(self).mint_of(token).total_supply - amount) as u64,
                        ..old(self).mint_of(token)
                    }),
                )
                &&& final(self).mint_of(token).total_supply
                    == old(self).mint_of(token).total_supply - amount
                &&& forall|t: u64, h: u64|
                    #[trigger] final(self).bal_of(t, h) == old(self).bal_of(t, h)
                        - (if t == token && h == holder { amount as int } else { 0 })
                &&& final(self).retirements@ == (match record {
                    Some(rec) => old(self).retirements@.push(rec),
                    None => old(self).retirements@,
                })
                &&& final(self).markets@ == old(self).markets@
                &&& final(self).orders@ == old(self).orders@
                &&& final(self).pools@ == old(self).pools@
                &&& same_registry(*old(self), *final(self))
            },
    {
        if amount == 0 {
            return Err(EngineError::ValidationError);
        }
        let mi = match self.find_mint(token) {
            None => {
                return Err(EngineError::StateError);
            },
            Some(i) => i,
        };
        proof {
            lemma_mint_index_is(self.mints@, token, mi as int);
        }
        let bal = self.balance_of(token, holder);
        if bal < amount {
            return Err(EngineError::ResourceError);
        }
        if signer != holder {
            return Err(EngineError::AuthorizationError);
        }
        let ghost pre = *self;
        proof {
            pre.lemma_bal_headroom(token, holder);
            pre.lemma_totals_nonneg(token);
        }
        let m = self.mints[mi];
        // the burnt amount is bounded by the holder's balance, which is
        // bounded by the recorded supply
        self.mints[mi].total_supply = m.total_supply - amount;
        match record {
            Some(rec) => {
                self.retirements.push(rec);
            },
            None => {},
        }
        let ghost mid = *self;
        proof {
            assert(mid.mints@ == pre.mints@.update(mi as int, (MintRecord {
                total_supply: (m.total_supply - amount) as u64,
                ..m
            })));
            assert forall|x: u64| seq_has_mint(pre.mints@, x)
                implies seq_has_mint(mid.mints@, x) by {
                Engine::lemma_has_mint_extend(pre.mints@, mid.mints@, x);
            }
            assert(mid.balances_minted());
            assert(mid.balances_unique());
            assert(mid.bal_of(token, holder) == pre.bal_of(token, holder));
        }
        self.debit(token, holder, amount);
        proof {
            assert forall|x: u64| seq_has_mint(pre.mints@, x)
                implies seq_has_mint(self.mints@, x) by {
                Engine::lemma_has_mint_extend(pre.mints@, self.mints@, x);
            }
            assert(self.mints_unique());
            assert(self.markets_ok());
            assert(self.orders_ok());
            assert(self.pools_ok());
            assert forall|i: int| 0 <= i < self.mints@.len()
                implies (#[trigger] self.mints@[i]).total_supply as int
                    == self.token_total(self.mints@[i].token) by {
                let t = self.mints@[i].token;
                assert(self.free_total(t) == mid.free_total(t)
                    - (if t == token { amount as int } else { 0 }));
                assert(mid.free_total(t) == pre.free_total(t));
                if i != mi as int {
                    assert(self.mints@[i] == pre.mints@[i]);
                    assert(t != token);
                }
            }
            assert(self.conserved());
            lemma_mint_index_is(self.mints@, token, mi as int);
        }
        Ok(())
    }

    /// Outcome of `transfer` on the current state.
    pub open spec fn transfer_outcome(self, token: u64, amount: u64, from: u64, to: u64, signer: u64) -> Result<(), EngineError> {
        if amount == 0 {
            Err(EngineError::ValidationError)
        } else if !self.has_mint(token) {
            Err(EngineError::StateError)
        } else if signer != from {
            Err(EngineError::AuthorizationError)
        } else if self.bal_of(token, from) < amount {
            Err(EngineError::ResourceError)
        } else {
            Ok(())
        }
    }

    /// Move `amount` units from `from` to `to`, gated on the sender's
    /// signature.  The token's supply is untouched.
    pub fn transfer(&mut self, token: u64, amount: u64, from: u64, to: u64, signer: u64) -> (r: Result<(), EngineError>)
        requires
            old(self).wf(),
        ensures
            final(self).wf(),
            r == old(self).transfer_outcome(token, amount, from, to, signer),
            r is Err ==> *final(self) == *old(self),
            r is Ok ==> {
                &&& forall|t: u64, h: u64|
                    #[trigger] final(self).bal_of(t, h) == old(self).bal_of(t, h)
                        + (if t == token && h == to { amount as int } else { 0 })
                        - (if t == token && h == from { amount as int } else { 0 })
                &&& final(self).mints@ == old(self).mints@
                &&& final(self).markets@ == old(self).markets@
                &&& final(self).orders@ == old(self).orders@
                &&& final(self).pools@ == old(self).pools@
                &&& final(self).retirements@ == old(self).retirements@
                &&& same_registry(*old(self), *final(self))
            },
    {
        if amount == 0 {
            return Err(EngineError::ValidationError);
        }
        let mi = match self.find_mint(token) {
            None => {
                return Err(EngineError::StateError);
            },
            Some(i) => i,
        };
        proof {
            lemma_mint_index_is(self.mints@, token, mi as int);
        }
        if signer != from {
            return Err(EngineError::AuthorizationError);
        }
        let bal = self.balance_of(token, from);
        if bal < amount {
            return Err(EngineError::ResourceError);
        }
        let ghost pre = *self;
        proof {
            pre.lemma_bal_headroom(token, from);
            pre.lemma_totals_nonneg(token);
        }
        self.debit(token, from, amount);
        let ghost mid = *self;
        proof {
            // headroom for the credit: after the debit the recipient's
            // balance plus the amount still fits under the supply
            mid.lemma_bal_le_free(token, to);
            pre.lemma_bal_headroom(token, to);
            pre.lemma_totals_nonneg(token);
            assert(mid.free_total(token) == pre.free_total(token) - amount);
            assert(mid.bal_of(token, to) + amount <= u64::MAX);
        }
        self.credit(token, to, amount);
        proof {
            assert(self.mints_unique());
            assert(self.markets_ok());
            assert(self.orders_ok());
            assert(self.pools_ok());
            assert(self.balances_minted());
            assert forall|i: int| 0 <= i < self.mints@.len()
                implies (#[trigger] self.mints@[i]).total_supply as int
                    == self.token_total(self.mints@[i].token) by {
                let t = self.mints@[i].token;
                assert(mid.free_total(t) == pre.free_total(t)
                    - (if t == token { amount as int } else { 0 }));
                assert(self.free_total(t) == mid.free_total(t)
                    + (if t == token { amount as int } else { 0 }));
            }
            assert(self.conserved());
            assert forall|t: u64, h: u64|
                #[trigger] self.bal_of(t, h) == pre.bal_of(t, h)
                    + (if t == token && h == to { amount as int } else { 0 })
                    - (if t == token && h == from { amount as int } else { 0 }) by {
                assert(mid.bal_of(t, h) == pre.bal_of(t, h)
                    - (if t == token && h == from { amount as int } else { 0 }));
                assert(self.bal_of(t, h) == mid.bal_of(t, h)
                    + (if t == token && h == to { amount as int } else { 0 }));
            }
        }
        Ok(())
    }

    /// Outcome of `update_metadata` on the current state.
    pub open spec fn update_metadata_outcome(self, token: u64, signer: u64) -> Result<(), EngineError> {
        if !self.has_mint(token) {
            Err(EngineError::StateError)
        } else if self.mint_of(token).meta is None {
            Err(EngineError::ValidationError)
        } else if signer != self.mint_of(token).mint_authority {
            Err(EngineError::AuthorizationError)
        } else {
            Ok(())
        }
    }

    /// Replace the verification metadata of a verified-carbon token,
    /// gated on the mint authority's signature.
    pub fn update_metadata(&mut self, token: u64, meta: VcuMetadata, signer: u64) -> (r: Result<(), EngineError>)
        requires
            old(self).wf(),
        ensures
            final(self).wf(),
            r == old(self).update_metadata_outcome(token, signer),
            r is Err ==> *final(self) == *old(self),
            r is Ok ==> {
                &&& final(self).mints@ == old(self).mints@.update(
                    seq_mint_index(old(self).mints@, token),
                    (MintRecord { meta: Some(meta), ..old(self).mint_of(token) }),
                )
                &&& final(self).balances@ == old(self).balances@
                &&& final(self).markets@ == old(self).markets@
                &&& final(self).orders@ == old(self).orders@
                &&& final(self).pools@ == old(self).pools@
                &&& final(self).retirements@ == old(self).retirements@
                &&& same_registry(*old(self), *final(self))
            },
    {
        let mi = match self.find_mint(token) {
            None => {
                return Err(EngineError::StateError);
            },
            Some(i) => i,
        };
        proof {
            lemma_mint_index_is(self.mints@, token, mi as int);
        }
        let m = self.mints[mi];
        if m.meta.is_none() {
            return Err(EngineError::ValidationError);
        }
        if signer != m.mint_authority {
            return Err(EngineError::AuthorizationError);
        }
        let ghost pre = *self;
        self.mints[mi].meta = Some(meta);
        proof {
            assert forall|x: u64| seq_has_mint(pre.mints@, x)
                implies seq_has_mint(self.mints@, x) by {
                Engine::lemma_has_mint_extend(pre.mints@, self.mints@, x);
            }
            assert(self.mints_unique());
            assert(self.balances_minted());
            assert(self.markets_ok());
            assert(self.orders_ok());
            assert(self.pools_ok());
            assert forall|i: int| 0 <= i < self.mints@.len()
                implies (#[trigger] self.mints@[i]).total_supply as int
                    == self.token_total(self.mints@[i].token) by {
                if i != mi as int {
                    assert(self.mints@[i] == pre.mints@[i]);
                }
                assert(pre.mints@[i].total_supply as int == pre.token_total(pre.mints@[i].token));
            }
            assert(self.conserved());
        }
        Ok(())
    }

    /// Number of entries in the retirement log.
    pub fn retirement_count(&self) -> (r: usize)
        ensures
            r == self.retirements@.len(),
    {
        self.retirements.len()
    }

    /// One entry of the retirement log, by position.
    pub fn retirement_at(&self, i: usize) -> (r: RetirementRecord)
        requires
            i < self.retirements@.len(),
        ensures
            r == self.retirements@[i as int],
    {
        self.retirements[i]
    }

    /// The retirement entries of one project, in log order: a finite,
    /// restartable view of the audit trail for offset-certificate
    /// issuance.
    pub fn retirements_for_project(&self, project_id: &[u8; 32]) -> (r: Vec<RetirementRecord>)
        ensures
            r@ == project_filter(self.retirements@, project_id@),
    {
        let mut out: Vec<RetirementRecord> = Vec::new();
        let mut i: usize = 0;
        while i < self.retirements.len()
            invariant
                i <= self.retirements@.len(),
                out@ == project_filter(self.retirements@.subrange(0, i as int), project_id@),
            decreases self.retirements@.len() - i,
        {
            let rec = self.retirements[i];
            let ghost prefix = self.retirements@.subrange(0, i as int);
            let ghost prefix1 = self.retirements@.subrange(0, i as int + 1);
            proof {
                assert(prefix1.drop_last() =~= prefix);
                assert(prefix1.last() == self.retirements@[i as int]);
            }
            if key_bytes_equal(&rec.project_id, project_id) {
                out.push(rec);
            }
            i += 1;
        }
        proof {
            assert(self.retirements@.subrange(0, self.retirements@.len() as int)
                =~= self.retirements@);
        }
        out
    }
}

} // verus!
