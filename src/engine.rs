use vstd::prelude::*;
use crate::types::{
    Address, ContractError, Event, HookCall, Receiver, TokenId, TokenRecord, TransferEffect,
    TransferRequest, le_bytes, maturity_bytes,
};
use crate::entries::{
    TokenEntry, lemma_balance_le_total, lemma_token_push, lemma_token_update, total_in,
};
use crate::ledger::{Ledger, LedgerView, minted_of, retired_of};

verus! {

/// The event that records one applied transfer request.
pub open spec fn transfer_event(r: TransferRequest) -> Event {
    Event::Transfer { token_id: r.token_id, amount: r.amount, from: r.from, to: r.to.spec_address() }
}

/// The receive-hook call owed for a transfer to a contract, given the token's
/// maturity time; none for an account.
pub open spec fn hook_matches(h: Option<HookCall>, r: TransferRequest, maturity_time: u64) -> bool {
    match r.to {
        Receiver::Account(_) => h is None,
        Receiver::Contract(c, ep) => h is Some && h->Some_0.contract == c && h->Some_0.entrypoint@
            == ep@ && h->Some_0.token_id == r.token_id && h->Some_0.amount == r.amount
            && h->Some_0.from == r.from && h->Some_0.data@ == le_bytes(maturity_time),
    }
}

pub proof fn lemma_transfer_all_err(
    v: LedgerView,
    sender: Address,
    rs: Seq<TransferRequest>,
    k: int,
    e: ContractError,
)
    requires
        0 <= k <= rs.len(),
        v.transfer_all(sender, rs.take(k)) == Err::<LedgerView, ContractError>(e),
    ensures
        v.transfer_all(sender, rs) == Err::<LedgerView, ContractError>(e),
    decreases rs.len(),
{
    if k == rs.len() {
        assert(rs.take(k) =~= rs);
    } else {
        assert(rs.drop_last().take(k) =~= rs.take(k));
        lemma_transfer_all_err(v, sender, rs.drop_last(), k, e);
    }
}

impl Ledger {
    /// Whether `actor` may act for `owner`.
    pub fn is_authorized(&self, owner: Address, actor: Address) -> (r: bool)
        ensures
            r == self@.authorized(owner, actor),
    {
        actor == owner || self.operator_of(owner, actor)
    }

    /// Whether `operator` is registered as an operator of `owner`.
    pub fn operator_of(&self, owner: Address, operator: Address) -> (r: bool)
        ensures
            r == self@.operators.contains((owner, operator)),
    {
        match self.find_operator(owner, operator) {
            Some(i) => {
                assert(self.operators@.contains(self.operators@[i as int]));
                true
            },
            None => false,
        }
    }

    /// The balance of `owner` in `t`; rejects an unknown token.
    pub fn balance_of(&self, t: TokenId, owner: Address) -> (r: Result<u64, ContractError>)
        requires
            self.wf(),
        ensures
            match r {
                Ok(b) => self@.tokens.contains_key(t) && b == self@.balance(t, owner),
                Err(e) => !self@.tokens.contains_key(t) && e == ContractError::InvalidTokenId,
            },
    {
        match self.find_token(t) {
            Some(_) => Ok(self.balance(t, owner)),
            None => Err(ContractError::InvalidTokenId),
        }
    }

    /// The maturity time of `t`; rejects an unknown token.
    pub fn maturity_of(&self, t: TokenId) -> (r: Result<u64, ContractError>)
        requires
            self.wf(),
        ensures
            match r {
                Ok(m) => self@.tokens.contains_key(t) && m == self@.tokens[t].maturity_time,
                Err(e) => !self@.tokens.contains_key(t) && e == ContractError::InvalidTokenId,
            },
    {
        match self.find_token(t) {
            Some(i) => Ok(self.tokens[i].record.maturity_time),
            None => Err(ContractError::InvalidTokenId),
        }
    }

    /// Whether `t` is verified; rejects an unknown token.
    pub fn is_verified(&self, t: TokenId) -> (r: Result<bool, ContractError>)
        requires
            self.wf(),
        ensures
            match r {
                Ok(b) => self@.tokens.contains_key(t) && b == self@.tokens[t].verified,
                Err(e) => !self@.tokens.contains_key(t) && e == ContractError::InvalidTokenId,
            },
    {
        match self.find_token(t) {
            Some(i) => Ok(self.tokens[i].record.verified),
            None => Err(ContractError::InvalidTokenId),
        }
    }

    /// Balances for a batch of (token, owner) queries, in input order; the
    /// whole batch is rejected if one names an unknown token.
    pub fn balance_of_batch(&self, queries: &Vec<(TokenId, Address)>) -> (r: Result<
        Vec<u64>,
        ContractError,
    >)
        requires
            self.wf(),
        ensures
            match r {
                Ok(bs) => bs.len() == queries.len() && forall|j: int|
                    0 <= j < queries.len() ==> self@.tokens.contains_key(#[trigger] queries[j].0)
                        && bs[j] == self@.balance(queries[j].0, queries[j].1),
                Err(e) => e == ContractError::InvalidTokenId && exists|j: int|
                    0 <= j < queries.len() && !self@.tokens.contains_key(#[trigger] queries[j].0),
            },
    {
        let mut out: Vec<u64> = Vec::new();
        let mut i: usize = 0;
        while i < queries.len()
            invariant
                self.wf(),
                i <= queries.len(),
                out.len() == i,
                forall|j: int|
                    0 <= j < i ==> self@.tokens.contains_key(#[trigger] queries[j].0) && out[j]
                        == self@.balance(queries[j].0, queries[j].1),
            decreases queries.len() - i,
        {
            let (t, o) = queries[i];
            match self.balance_of(t, o) {
                Ok(b) => out.push(b),
                Err(e) => {
                    assert(!self@.tokens.contains_key(queries[i as int].0));
                    return Err(e);
                },
            }
            i += 1;
        }
        Ok(out)
    }

    /// Operator relations for a batch of (owner, address) queries, in input order.
    pub fn operator_of_batch(&self, queries: &Vec<(Address, Address)>) -> (r: Vec<bool>)
        ensures
            r.len() == queries.len(),
            forall|j: int|
                0 <= j < queries.len() ==> #[trigger] r[j] == self@.operators.contains(queries[j]),
    {
        let mut out: Vec<bool> = Vec::new();
        let mut i: usize = 0;
        while i < queries.len()
            invariant
                i <= queries.len(),
                out.len() == i,
                forall|j: int| 0 <= j < i ==> #[trigger] out[j] == self@.operators.contains(queries[j]),
            decreases queries.len() - i,
        {
            let (o, a) = queries[i];
            out.push(self.operator_of(o, a));
            i += 1;
        }
        out
    }

    /// Maturity times for a batch of tokens, in input order; the whole batch
    /// is rejected if one is unknown.
    pub fn maturity_of_batch(&self, queries: &Vec<TokenId>) -> (r: Result<Vec<u64>, ContractError>)
        requires
            self.wf(),
        ensures
            match r {
                Ok(ms) => ms.len() == queries.len() && forall|j: int|
                    0 <= j < queries.len() ==> self@.tokens.contains_key(#[trigger] queries[j])
                        && ms[j] == self@.tokens[queries[j]].maturity_time,
                Err(e) => e == ContractError::InvalidTokenId && exists|j: int|
                    0 <= j < queries.len() && !self@.tokens.contains_key(#[trigger] queries[j]),
            },
    {
        let mut out: Vec<u64> = Vec::new();
        let mut i: usize = 0;
        while i < queries.len()
            invariant
                self.wf(),
                i <= queries.len(),
                out.len() == i,
                forall|j: int|
                    0 <= j < i ==> self@.tokens.contains_key(#[trigger] queries[j]) && out[j]
                        == self@.tokens[queries[j]].maturity_time,
            decreases queries.len() - i,
        {
            match self.maturity_of(queries[i]) {
                Ok(m) => out.push(m),
                Err(e) => {
                    assert(!self@.tokens.contains_key(queries[i as int]));
                    return Err(e);
                },
            }
            i += 1;
        }
        Ok(out)
    }

    /// Verification flags for a batch of tokens, in input order; the whole
    /// batch is rejected if one is unknown.
    pub fn is_verified_batch(&self, queries: &Vec<TokenId>) -> (r: Result<Vec<bool>, ContractError>)
        requires
            self.wf(),
        ensures
            match r {
                Ok(vs) => vs.len() == queries.len() && forall|j: int|
                    0 <= j < queries.len() ==> self@.tokens.contains_key(#[trigger] queries[j])
                        && vs[j] == self@.tokens[queries[j]].verified,
                Err(e) => e == ContractError::InvalidTokenId && exists|j: int|
                    0 <= j < queries.len() && !self@.tokens.contains_key(#[trigger] queries[j]),
            },
    {
        let mut out: Vec<bool> = Vec::new();
        let mut i: usize = 0;
        while i < queries.len()
            invariant
                self.wf(),
                i <= queries.len(),
                out.len() == i,
                forall|j: int|
                    0 <= j < i ==> self@.tokens.contains_key(#[trigger] queries[j]) && out[j]
                        == self@.tokens[queries[j]].verified,
            decreases queries.len() - i,
        {
            match self.is_verified(queries[i]) {
                Ok(v) => out.push(v),
                Err(e) => {
                    assert(!self@.tokens.contains_key(queries[i as int]));
                    return Err(e);
                },
            }
            i += 1;
        }
        Ok(out)
    }

    /// Registers `operator` for `owner`; registering twice changes nothing more.
    pub fn add_operator(&mut self, owner: Address, operator: Address) -> (ev: Event)
        requires
            old(self).wf(),
        ensures
            final(self).wf(),
            final(self)@ == old(self)@.with_operator(owner, operator),
            ev == (Event::UpdateOperator { owner, operator, add: true }),
    {
        let ghost s = self.operators@;
        match self.find_operator(owner, operator) {
            Some(i) => {
                assert(s.contains(s[i as int]));
                assert(self@.operators =~= old(self)@.operators.insert((owner, operator)));
            },
            None => {
                self.operators.push((owner, operator));
                assert(self.operators@[s.len() as int] == (owner, operator));
                assert forall|x: (Address, Address)| #[trigger]
                    self.operators@.contains(x) == (s.contains(x) || x == (owner, operator)) by {
                    if s.contains(x) {
                        let j = choose|j: int| 0 <= j < s.len() && s[j] == x;
                        assert(self.operators@[j] == x);
                    }
                }
                assert(self@.operators =~= old(self)@.operators.insert((owner, operator)));
            },
        }
        Event::UpdateOperator { owner, operator, add: true }
    }

    /// Removes `operator` for `owner`; removing an absent relation succeeds.
    pub fn remove_operator(&mut self, owner: Address, operator: Address) -> (ev: Event)
        requires
            old(self).wf(),
        ensures
            final(self).wf(),
            final(self)@ == old(self)@.without_operator(owner, operator),
            ev == (Event::UpdateOperator { owner, operator, add: false }),
    {
        let ghost s = self.operators@;
        match self.find_operator(owner, operator) {
            Some(i) => {
                self.operators.remove(i);
                let ghost s2 = self.operators@;
                assert forall|j: int| 0 <= j < s2.len() implies #[trigger] s2[j] == if j < i {
                    s[j]
                } else {
                    s[j + 1]
                } by {}
                assert forall|x: (Address, Address)| #[trigger]
                    s2.contains(x) == (s.contains(x) && x != (owner, operator)) by {
                    if s2.contains(x) {
                        let j = choose|j: int| 0 <= j < s2.len() && s2[j] == x;
                        let j1 = if j < i { j } else { j + 1 };
                        assert(s[j1] == x);
                    }
                    if s.contains(x) && x != (owner, operator) {
                        let j = choose|j: int| 0 <= j < s.len() && s[j] == x;
                        let j2 = if j < i { j } else { j - 1 };
                        assert(s2[j2] == x);
                    }
                }
                assert(s2.no_duplicates()) by {
                    assert forall|a: int, b: int|
                        0 <= a < s2.len() && 0 <= b < s2.len() && a != b implies s2[a] != s2[b] by {
                        let a1 = if a < i { a } else { a + 1 };
                        let b1 = if b < i { b } else { b + 1 };
                        assert(s[a1] != s[b1]);
                    }
                }
                assert(self@.operators =~= old(self)@.operators.remove((owner, operator)));
            },
            None => {
                assert(self@.operators =~= old(self)@.operators.remove((owner, operator)));
            },
        }
        Event::UpdateOperator { owner, operator, add: false }
    }
    /// Mints `amount` of `t` to `owner`. A new token gets the given maturity time
    /// and verification flag; in the fungible variant an existing token's supply
    /// grows and its record keeps the rest.
    pub fn mint(
        &mut self,
        caller: Address,
        t: TokenId,
        owner: Address,
        amount: u64,
        maturity_time: u64,
        verified: bool,
    ) -> (r: Result<Event, ContractError>)
        requires
            old(self).wf(),
        ensures
            final(self).wf(),
            match r {
                Ok(ev) => old(self)@.mint_result(caller, t, owner, amount, maturity_time, verified)
                    == Ok::<LedgerView, ContractError>(final(self)@) && ev == (Event::Mint {
                    token_id: t,
                    amount,
                    owner,
                }),
                Err(e) => old(self)@.mint_result(caller, t, owner, amount, maturity_time, verified)
                    == Err::<LedgerView, ContractError>(e) && final(self)@ == old(self)@,
            },
    {
        if caller != self.minter {
            return Err(ContractError::Unauthorized);
        }
        if !self.fungible && amount != 1 {
            return Err(ContractError::InvalidAmount);
        }
        let ghost v = self@;
        let ghost toks = self.tokens@;
        proof {
            lemma_balance_le_total(self.balances@, t, owner);
            assert(total_in(self.balances@, t) + retired_of(v.tokens, t) == minted_of(v.tokens, t));
        }
        match self.find_token(t) {
            Some(i) => {
                if !self.fungible {
                    return Err(ContractError::TokenIdAlreadyExists);
                }
                let rec = self.tokens[i].record;
                if rec.minted > u64::MAX - amount {
                    return Err(ContractError::AmountOverflow);
                }
                self.credit(t, owner, amount);
                let nr = TokenRecord {
                    maturity_time: rec.maturity_time,
                    verified: rec.verified,
                    minted: rec.minted + amount,
                    retired_amount: rec.retired_amount,
                    retracted: rec.retracted,
                    issuer: rec.issuer,
                };
                self.tokens.set(i, TokenEntry { token_id: t, record: nr });
                proof {
                    lemma_token_update(toks, i as int, nr);
                }
            },
            None => {
                self.credit(t, owner, amount);
                let nr = TokenRecord {
                    maturity_time,
                    verified,
                    minted: amount,
                    retired_amount: 0,
                    retracted: false,
                    issuer: owner,
                };
                let e = TokenEntry { token_id: t, record: nr };
                self.tokens.push(e);
                proof {
                    lemma_token_push(toks, e);
                }
            },
        }
        proof {
            assert forall|u: TokenId| #[trigger]
                total_in(self.balances@, u) + retired_of(self@.tokens, u) == minted_of(
                    self@.tokens,
                    u,
                ) by {
                assert(total_in(old(self).balances@, u) + retired_of(v.tokens, u) == minted_of(
                    v.tokens,
                    u,
                ));
            }
            let rv = old(self)@.mint_result(caller, t, owner, amount, maturity_time, verified);
            assert(rv is Ok);
            assert(self@.balances =~= rv->Ok_0.balances);
            assert(self@.tokens =~= rv->Ok_0.tokens);
        }
        Ok(Event::Mint { token_id: t, amount, owner })
    }

    /// Applies one transfer request of `sender`. On success the ledger already
    /// holds the moved balances when the returned hook call, if any, is made.
    pub fn transfer_one(&mut self, sender: Address, req: &TransferRequest) -> (r: Result<
        TransferEffect,
        ContractError,
    >)
        requires
            old(self).wf(),
        ensures
            final(self).wf(),
            final(self).tokens == old(self).tokens,
            final(self).operators == old(self).operators,
            final(self).minter == old(self).minter,
            final(self).verifier == old(self).verifier,
            final(self).fungible == old(self).fungible,
            final(self).early_retirement == old(self).early_retirement,
            match r {
                Ok(eff) => old(self)@.transfer_result(sender, *req) == Ok::<
                    LedgerView,
                    ContractError,
                >(final(self)@) && eff.event == transfer_event(*req) && hook_matches(
                    eff.hook,
                    *req,
                    old(self)@.tokens[req.token_id].maturity_time,
                ),
                Err(e) => old(self)@.transfer_result(sender, *req) == Err::<
                    LedgerView,
                    ContractError,
                >(e) && final(self)@ == old(self)@,
            },
    {
        if !self.is_authorized(req.from, sender) {
            return Err(ContractError::Unauthorized);
        }
        if !self.fungible && req.amount != 1 {
            return Err(ContractError::InvalidAmount);
        }
        let t = req.token_id;
        let amount = req.amount;
        let ti = match self.find_token(t) {
            Some(i) => i,
            None => {
                return Err(ContractError::InvalidTokenId);
            },
        };
        if self.balance(t, req.from) < amount {
            return Err(ContractError::InsufficientBalance);
        }
        let to = req.to.address();
        let ghost v = self@;
        proof {
            assert(total_in(self.balances@, t) + retired_of(v.tokens, t) == minted_of(v.tokens, t));
        }
        self.debit(t, req.from, amount);
        proof {
            lemma_balance_le_total(self.balances@, t, to);
        }
        self.credit(t, to, amount);
        proof {
            assert forall|u: TokenId| #[trigger]
                total_in(self.balances@, u) + retired_of(self@.tokens, u) == minted_of(
                    self@.tokens,
                    u,
                ) by {
                assert(total_in(old(self).balances@, u) + retired_of(v.tokens, u) == minted_of(
                    v.tokens,
                    u,
                ));
            }
        }
        let maturity = self.tokens[ti].record.maturity_time;
        let hook = match &req.to {
            Receiver::Account(_) => None,
            Receiver::Contract(c, ep) => Some(
                HookCall {
                    contract: *c,
                    entrypoint: ep.clone(),
                    token_id: t,
                    amount,
                    from: req.from,
                    data: maturity_bytes(maturity),
                },
            ),
        };
        let event = Event::Transfer { token_id: t, amount, from: req.from, to };
        Ok(TransferEffect { event, hook })
    }
    /// Applies a list of transfer requests in order, all or nothing: on the
    /// first failure the ledger is left as it was and that failure is returned.
    pub fn transfer(&mut self, sender: Address, reqs: &Vec<TransferRequest>) -> (r: Result<
        Vec<TransferEffect>,
        ContractError,
    >)
        requires
            old(self).wf(),
        ensures
            final(self).wf(),
            match r {
                Ok(effects) => old(self)@.transfer_all(sender, reqs@) == Ok::<
                    LedgerView,
                    ContractError,
                >(final(self)@) && effects.len() == reqs.len() && forall|j: int|
                    0 <= j < reqs.len() ==> #[trigger] effects[j].event == transfer_event(reqs[j])
                        && hook_matches(
                        effects[j].hook,
                        reqs[j],
                        old(self)@.tokens[reqs[j].token_id].maturity_time,
                    ),
                Err(e) => old(self)@.transfer_all(sender, reqs@) == Err::<
                    LedgerView,
                    ContractError,
                >(e) && final(self)@ == old(self)@,
            },
    {
        let saved = self.balances.clone();
        proof {
            assert(saved@ =~= self.balances@);
        }
        let mut effects: Vec<TransferEffect> = Vec::new();
        let mut i: usize = 0;
        while i < reqs.len()
            invariant
                old(self).wf(),
                self.wf(),
                i <= reqs.len(),
                old(self)@.transfer_all(sender, reqs@.take(i as int)) == Ok::<
                    LedgerView,
                    ContractError,
                >(self@),
                saved@ == old(self).balances@,
                self.tokens == old(self).tokens,
                self.operators == old(self).operators,
                self.minter == old(self).minter,
                self.verifier == old(self).verifier,
                self.fungible == old(self).fungible,
                self.early_retirement == old(self).early_retirement,
                effects.len() == i,
                forall|j: int|
                    0 <= j < i ==> #[trigger] effects[j].event == transfer_event(reqs[j])
                        && hook_matches(
                        effects[j].hook,
                        reqs[j],
                        old(self)@.tokens[reqs[j].token_id].maturity_time,
                    ),
            decreases reqs.len() - i,
        {
            let ghost v = self@;
            proof {
                assert(reqs@.take(i + 1).drop_last() =~= reqs@.take(i as int));
            }
            match self.transfer_one(sender, &reqs[i]) {
                Ok(eff) => {
                    effects.push(eff);
                },
                Err(e) => {
                    proof {
                        lemma_transfer_all_err(old(self)@, sender, reqs@, i + 1, e);
                    }
                    self.balances = saved;
                    proof {
                        assert forall|u: TokenId| #[trigger]
                            total_in(self.balances@, u) + retired_of(self@.tokens, u) == minted_of(
                                self@.tokens,
                                u,
                            ) by {
                            assert(total_in(old(self).balances@, u) + retired_of(
                                old(self)@.tokens,
                                u,
                            ) == minted_of(old(self)@.tokens, u));
                        }
                    }
                    return Err(e);
                },
            }
            i += 1;
        }
        proof {
            assert(reqs@.take(i as int) =~= reqs@);
        }
        Ok(effects)
    }

    /// Retires `amount` of `t` held by `owner`, on behalf of `caller`.
    pub fn retire(&mut self, caller: Address, t: TokenId, owner: Address, amount: u64, now: u64) -> (r:
        Result<Event, ContractError>)
        requires
            old(self).wf(),
        ensures
            final(self).wf(),
            match r {
                Ok(ev) => old(self)@.retire_result(caller, t, owner, amount, now) == Ok::<
                    LedgerView,
                    ContractError,
                >(final(self)@) && ev == (Event::Retire { token_id: t, amount, owner, by: caller }),
                Err(e) => old(self)@.retire_result(caller, t, owner, amount, now) == Err::<
                    LedgerView,
                    ContractError,
                >(e) && final(self)@ == old(self)@,
            },
    {
        if !self.is_authorized(owner, caller) {
            return Err(ContractError::Unauthorized);
        }
        if amount == 0 || (!self.fungible && amount != 1) {
            return Err(ContractError::InvalidAmount);
        }
        let i = match self.find_token(t) {
            Some(i) => i,
            None => {
                return Err(ContractError::InvalidTokenId);
            },
        };
        let rec = self.tokens[i].record;
        if !self.early_retirement && now < rec.maturity_time {
            return Err(ContractError::NotMature);
        }
        if self.balance(t, owner) < amount {
            return Err(ContractError::InsufficientBalance);
        }
        let ghost v = self@;
        let ghost toks = self.tokens@;
        proof {
            lemma_balance_le_total(self.balances@, t, owner);
            assert(total_in(self.balances@, t) + retired_of(v.tokens, t) == minted_of(v.tokens, t));
        }
        self.debit(t, owner, amount);
        let nr = TokenRecord {
            maturity_time: rec.maturity_time,
            verified: rec.verified,
            minted: rec.minted,
            retired_amount: rec.retired_amount + amount,
            retracted: rec.retracted,
            issuer: rec.issuer,
        };
        self.tokens.set(i, TokenEntry { token_id: t, record: nr });
        proof {
            lemma_token_update(toks, i as int, nr);
            assert forall|u: TokenId| #[trigger]
                total_in(self.balances@, u) + retired_of(self@.tokens, u) == minted_of(
                    self@.tokens,
                    u,
                ) by {
                assert(total_in(old(self).balances@, u) + retired_of(v.tokens, u) == minted_of(
                    v.tokens,
                    u,
                ));
            }
            let rv = old(self)@.retire_result(caller, t, owner, amount, now);
            assert(self@.balances =~= rv->Ok_0.balances);
            assert(self@.tokens =~= rv->Ok_0.tokens);
        }
        Ok(Event::Retire { token_id: t, amount, owner, by: caller })
    }

    /// Returns `amount` of `t` from `holder` to the token's issuer before
    /// maturity and marks the token retracted.
    pub fn retract(&mut self, caller: Address, t: TokenId, holder: Address, amount: u64, now: u64) -> (r:
        Result<Event, ContractError>)
        requires
            old(self).wf(),
        ensures
            final(self).wf(),
            match r {
                Ok(ev) => old(self)@.retract_result(caller, t, holder, amount, now) == Ok::<
                    LedgerView,
                    ContractError,
                >(final(self)@) && ev == (Event::Retract {
                    token_id: t,
                    amount,
                    from: holder,
                    to: old(self)@.tokens[t].issuer,
                }),
                Err(e) => old(self)@.retract_result(caller, t, holder, amount, now) == Err::<
                    LedgerView,
                    ContractError,
                >(e) && final(self)@ == old(self)@,
            },
    {
        let i = match self.find_token(t) {
            Some(i) => i,
            None => {
                return Err(ContractError::InvalidTokenId);
            },
        };
        let rec = self.tokens[i].record;
        if rec.retired_amount > 0 {
            return Err(ContractError::AlreadyRetired);
        }
        if now >= rec.maturity_time {
            return Err(ContractError::AlreadyMature);
        }
        if caller != self.minter {
            return Err(ContractError::Unauthorized);
        }
        if !self.fungible && amount != 1 {
            return Err(ContractError::InvalidAmount);
        }
        if self.balance(t, holder) < amount {
            return Err(ContractError::InsufficientBalance);
        }
        let ghost v = self@;
        let ghost toks = self.tokens@;
        proof {
            assert(total_in(self.balances@, t) + retired_of(v.tokens, t) == minted_of(v.tokens, t));
        }
        self.debit(t, holder, amount);
        proof {
            lemma_balance_le_total(self.balances@, t, rec.issuer);
        }
        self.credit(t, rec.issuer, amount);
        let nr = TokenRecord {
            maturity_time: rec.maturity_time,
            verified: rec.verified,
            minted: rec.minted,
            retired_amount: rec.retired_amount,
            retracted: true,
            issuer: rec.issuer,
        };
        self.tokens.set(i, TokenEntry { token_id: t, record: nr });
        proof {
            lemma_token_update(toks, i as int, nr);
            assert forall|u: TokenId| #[trigger]
                total_in(self.balances@, u) + retired_of(self@.tokens, u) == minted_of(
                    self@.tokens,
                    u,
                ) by {
                assert(total_in(old(self).balances@, u) + retired_of(v.tokens, u) == minted_of(
                    v.tokens,
                    u,
                ));
            }
            let rv = old(self)@.retract_result(caller, t, holder, amount, now);
            assert(self@.balances =~= rv->Ok_0.balances);
            assert(self@.tokens =~= rv->Ok_0.tokens);
        }
        Ok(Event::Retract { token_id: t, amount, from: holder, to: rec.issuer })
    }
    /// Sets the verification flag of `t`; only the verifier may.
    pub fn set_verified(&mut self, caller: Address, t: TokenId, verified: bool) -> (r: Result<
        (),
        ContractError,
    >)
        requires
            old(self).wf(),
        ensures
            final(self).wf(),
            match r {
                Ok(_) => old(self)@.set_verified_result(caller, t, verified) == Ok::<
                    LedgerView,
                    ContractError,
                >(final(self)@),
                Err(e) => old(self)@.set_verified_result(caller, t, verified) == Err::<
                    LedgerView,
                    ContractError,
                >(e) && final(self)@ == old(self)@,
            },
    {
        if caller != self.verifier {
            return Err(ContractError::Unauthorized);
        }
        let i = match self.find_token(t) {
            Some(i) => i,
            None => {
                return Err(ContractError::InvalidTokenId);
            },
        };
        let rec = self.tokens[i].record;
        let ghost v = self@;
        let ghost toks = self.tokens@;
        let nr = TokenRecord {
            maturity_time: rec.maturity_time,
            verified,
            minted: rec.minted,
            retired_amount: rec.retired_amount,
            retracted: rec.retracted,
            issuer: rec.issuer,
        };
        self.tokens.set(i, TokenEntry { token_id: t, record: nr });
        proof {
            lemma_token_update(toks, i as int, nr);
            assert forall|u: TokenId| #[trigger]
                total_in(self.balances@, u) + retired_of(self@.tokens, u) == minted_of(
                    self@.tokens,
                    u,
                ) by {
                assert(total_in(old(self).balances@, u) + retired_of(v.tokens, u) == minted_of(
                    v.tokens,
                    u,
                ));
            }
            let rv = old(self)@.set_verified_result(caller, t, verified);
            assert(self@.balances =~= rv->Ok_0.balances);
            assert(self@.tokens =~= rv->Ok_0.tokens);
        }
        Ok(())
    }
}

} // verus!
