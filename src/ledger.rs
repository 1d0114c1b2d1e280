use vstd::prelude::*;
use crate::types::{Address, ContractError, Event, Receiver, TokenId, TokenRecord, TransferRequest};
use crate::entries::{
    BalanceEntry, TokenEntry, balance_in, balances_wf, holds_at, lemma_balance_at,
    lemma_balance_push, lemma_balance_remove, lemma_balance_update, lemma_token_at, lemma_total_push,
    lemma_total_remove, lemma_total_update, token_at, token_map, tokens_wf, total_in,
};

verus! {

/// The whole state of one contract instance.
pub struct Ledger {
    pub balances: Vec<BalanceEntry>,
    pub tokens: Vec<TokenEntry>,
    /// Pairs (owner, operator).
    pub operators: Vec<(Address, Address)>,
    /// The only address that may mint or retract.
    pub minter: Address,
    /// The only address that may change a token's verification flag.
    pub verifier: Address,
    /// Fungible credits; otherwise every token is a single unit.
    pub fungible: bool,
    /// Whether tokens may be retired before their maturity time.
    pub early_retirement: bool,
}

/// The ledger as a mathematical value.
pub struct LedgerView {
    /// Every (token, owner) pair's balance; zero where nothing is held.
    pub balances: Map<(TokenId, Address), nat>,
    pub tokens: Map<TokenId, TokenRecord>,
    pub operators: Set<(Address, Address)>,
    pub minter: Address,
    pub verifier: Address,
    pub fungible: bool,
    pub early_retirement: bool,
}

impl View for Ledger {
    type V = LedgerView;

    open spec fn view(&self) -> LedgerView {
        LedgerView {
            balances: Map::new(
                |k: (TokenId, Address)| true,
                |k: (TokenId, Address)| balance_in(self.balances@, k.0, k.1),
            ),
            tokens: token_map(self.tokens@),
            operators: self.operators@.to_set(),
            minter: self.minter,
            verifier: self.verifier,
            fungible: self.fungible,
            early_retirement: self.early_retirement,
        }
    }
}

pub open spec fn minted_of(m: Map<TokenId, TokenRecord>, t: TokenId) -> nat {
    if m.contains_key(t) { m[t].minted as nat } else { 0 }
}

pub open spec fn retired_of(m: Map<TokenId, TokenRecord>, t: TokenId) -> nat {
    if m.contains_key(t) { m[t].retired_amount as nat } else { 0 }
}

impl LedgerView {
    pub open spec fn balance(self, t: TokenId, o: Address) -> nat {
        self.balances[(t, o)]
    }

    /// The actor may act for the owner: it is the owner or one of its operators.
    pub open spec fn authorized(self, owner: Address, actor: Address) -> bool {
        actor == owner || self.operators.contains((owner, actor))
    }

    /// The amount is allowed by the unit policy of the ledger's variant.
    pub open spec fn unit_ok(self, amount: u64) -> bool {
        self.fungible || amount == 1
    }

    pub open spec fn with_balance(self, t: TokenId, o: Address, b: nat) -> LedgerView {
        LedgerView { balances: self.balances.insert((t, o), b), ..self }
    }

    pub open spec fn with_record(self, t: TokenId, r: TokenRecord) -> LedgerView {
        LedgerView { tokens: self.tokens.insert(t, r), ..self }
    }

    /// `amount` of `t` taken from `from` and given to `to`.
    pub open spec fn moved(self, t: TokenId, from: Address, to: Address, amount: nat) -> LedgerView {
        let a = self.with_balance(t, from, (self.balance(t, from) - amount) as nat);
        a.with_balance(t, to, a.balance(t, to) + amount)
    }

    pub open spec fn transfer_result(self, sender: Address, r: TransferRequest) -> Result<
        LedgerView,
        ContractError,
    > {
        if !self.authorized(r.from, sender) {
            Err(ContractError::Unauthorized)
        } else if !self.unit_ok(r.amount) {
            Err(ContractError::InvalidAmount)
        } else if !self.tokens.contains_key(r.token_id) {
            Err(ContractError::InvalidTokenId)
        } else if self.balance(r.token_id, r.from) < r.amount {
            Err(ContractError::InsufficientBalance)
        } else {
            Ok(self.moved(r.token_id, r.from, r.to.spec_address(), r.amount as nat))
        }
    }

    /// The requests applied in order; the first failure is the result.
    pub open spec fn transfer_all(self, sender: Address, rs: Seq<TransferRequest>) -> Result<
        LedgerView,
        ContractError,
    >
        decreases rs.len(),
    {
        if rs.len() == 0 {
            Ok(self)
        } else {
            match self.transfer_all(sender, rs.drop_last()) {
                Ok(v) => v.transfer_result(sender, rs.last()),
                Err(e) => Err(e),
            }
        }
    }

    pub open spec fn mint_result(
        self,
        caller: Address,
        t: TokenId,
        owner: Address,
        amount: u64,
        maturity_time: u64,
        verified: bool,
    ) -> Result<LedgerView, ContractError> {
        if caller != self.minter {
            Err(ContractError::Unauthorized)
        } else if !self.unit_ok(amount) {
            Err(ContractError::InvalidAmount)
        } else if self.tokens.contains_key(t) && !self.fungible {
            Err(ContractError::TokenIdAlreadyExists)
        } else if self.tokens.contains_key(t) && self.tokens[t].minted + amount > u64::MAX {
            Err(ContractError::AmountOverflow)
        } else {
            let r = if self.tokens.contains_key(t) {
                TokenRecord { minted: (self.tokens[t].minted + amount) as u64, ..self.tokens[t] }
            } else {
                TokenRecord {
                    maturity_time,
                    verified,
                    minted: amount,
                    retired_amount: 0,
                    retracted: false,
                    issuer: owner,
                }
            };
            Ok(self.with_balance(t, owner, self.balance(t, owner) + amount as nat).with_record(t, r))
        }
    }

    pub open spec fn retire_result(
        self,
        caller: Address,
        t: TokenId,
        owner: Address,
        amount: u64,
        now: u64,
    ) -> Result<LedgerView, ContractError> {
        if !self.authorized(owner, caller) {
            Err(ContractError::Unauthorized)
        } else if amount == 0 || !self.unit_ok(amount) {
            Err(ContractError::InvalidAmount)
        } else if !self.tokens.contains_key(t) {
            Err(ContractError::InvalidTokenId)
        } else if !self.early_retirement && now < self.tokens[t].maturity_time {
            Err(ContractError::NotMature)
        } else if self.balance(t, owner) < amount {
            Err(ContractError::InsufficientBalance)
        } else {
            let r = TokenRecord {
                retired_amount: (self.tokens[t].retired_amount + amount) as u64,
                ..self.tokens[t]
            };
            Ok(self.with_balance(t, owner, (self.balance(t, owner) - amount) as nat).with_record(t, r))
        }
    }

    pub open spec fn retract_result(
        self,
        caller: Address,
        t: TokenId,
        holder: Address,
        amount: u64,
        now: u64,
    ) -> Result<LedgerView, ContractError> {
        if !self.tokens.contains_key(t) {
            Err(ContractError::InvalidTokenId)
        } else if self.tokens[t].retired_amount > 0 {
            Err(ContractError::AlreadyRetired)
        } else if now >= self.tokens[t].maturity_time {
            Err(ContractError::AlreadyMature)
        } else if caller != self.minter {
            Err(ContractError::Unauthorized)
        } else if !self.unit_ok(amount) {
            Err(ContractError::InvalidAmount)
        } else if self.balance(t, holder) < amount {
            Err(ContractError::InsufficientBalance)
        } else {
            let r = TokenRecord { retracted: true, ..self.tokens[t] };
            Ok(self.moved(t, holder, self.tokens[t].issuer, amount as nat).with_record(t, r))
        }
    }

    pub open spec fn set_verified_result(self, caller: Address, t: TokenId, verified: bool) -> Result<
        LedgerView,
        ContractError,
    > {
        if caller != self.verifier {
            Err(ContractError::Unauthorized)
        } else if !self.tokens.contains_key(t) {
            Err(ContractError::InvalidTokenId)
        } else {
            Ok(self.with_record(t, TokenRecord { verified, ..self.tokens[t] }))
        }
    }

    pub open spec fn with_operator(self, owner: Address, operator: Address) -> LedgerView {
        LedgerView { operators: self.operators.insert((owner, operator)), ..self }
    }

    pub open spec fn without_operator(self, owner: Address, operator: Address) -> LedgerView {
        LedgerView { operators: self.operators.remove((owner, operator)), ..self }
    }
}

impl Ledger {
    /// The ledger's invariant: entries are unique, no balance entry is zero, and
    /// every token's balances plus its retired amount equal what was minted.
    pub open spec fn wf(&self) -> bool {
        &&& balances_wf(self.balances@)
        &&& tokens_wf(self.tokens@)
        &&& self.operators@.no_duplicates()
        &&& forall|t: TokenId|
            #[trigger] total_in(self.balances@, t) + retired_of(self@.tokens, t) == minted_of(
                self@.tokens,
                t,
            )
    }

    /// An empty ledger.
    pub fn new(minter: Address, verifier: Address, fungible: bool, early_retirement: bool) -> (r:
        Ledger)
        ensures
            r.wf(),
            r@.balances == Map::new(|k: (TokenId, Address)| true, |k: (TokenId, Address)| 0nat),
            r@.tokens == Map::<TokenId, TokenRecord>::empty(),
            r@.operators == Set::<(Address, Address)>::empty(),
            r@.minter == minter,
            r@.verifier == verifier,
            r@.fungible == fungible,
            r@.early_retirement == early_retirement,
    {
        let r = Ledger {
            balances: Vec::new(),
            tokens: Vec::new(),
            operators: Vec::new(),
            minter,
            verifier,
            fungible,
            early_retirement,
        };
        assert forall|t: TokenId| #[trigger] total_in(r.balances@, t) == 0 by {}
        assert(r@.balances =~= Map::new(|k: (TokenId, Address)| true, |k: (TokenId, Address)| 0nat));
        assert(r@.tokens =~= Map::<TokenId, TokenRecord>::empty());
        assert(r@.operators =~= Set::<(Address, Address)>::empty());
        r
    }

    pub(crate) fn find_balance(&self, t: TokenId, o: Address) -> (r: Option<usize>)
        ensures
            match r {
                Some(i) => holds_at(self.balances@, t, o, i as int),
                None => forall|i: int| !holds_at(self.balances@, t, o, i),
            },
    {
        let mut i: usize = 0;
        while i < self.balances.len()
            invariant
                i <= self.balances.len(),
                forall|j: int| 0 <= j < i ==> !holds_at(self.balances@, t, o, j),
            decreases self.balances.len() - i,
        {
            if self.balances[i].token_id == t && self.balances[i].owner == o {
                return Some(i);
            }
            i += 1;
        }
        None
    }

    pub(crate) fn find_token(&self, t: TokenId) -> (r: Option<usize>)
        requires
            tokens_wf(self.tokens@),
        ensures
            match r {
                Some(i) => token_at(self.tokens@, t, i as int) && self@.tokens.contains_key(t)
                    && self@.tokens[t] == self.tokens@[i as int].record,
                None => !self@.tokens.contains_key(t),
            },
    {
        let mut i: usize = 0;
        while i < self.tokens.len()
            invariant
                i <= self.tokens.len(),
                tokens_wf(self.tokens@),
                forall|j: int| 0 <= j < i ==> !token_at(self.tokens@, t, j),
            decreases self.tokens.len() - i,
        {
            if self.tokens[i].token_id == t {
                proof {
                    lemma_token_at(self.tokens@, t, i as int);
                }
                return Some(i);
            }
            i += 1;
        }
        None
    }

    pub(crate) fn find_operator(&self, owner: Address, operator: Address) -> (r: Option<usize>)
        ensures
            match r {
                Some(i) => i < self.operators.len() && self.operators@[i as int] == (owner, operator),
                None => !self@.operators.contains((owner, operator)),
            },
    {
        let mut i: usize = 0;
        while i < self.operators.len()
            invariant
                i <= self.operators.len(),
                forall|j: int| 0 <= j < i ==> self.operators@[j] != (owner, operator),
            decreases self.operators.len() - i,
        {
            if self.operators[i].0 == owner && self.operators[i].1 == operator {
                return Some(i);
            }
            i += 1;
        }
        None
    }

    /// The balance of `o` in `t`; zero where nothing is held. Never fails.
    pub fn balance(&self, t: TokenId, o: Address) -> (r: u64)
        requires
            self.wf(),
        ensures
            r == self@.balance(t, o),
    {
        match self.find_balance(t, o) {
            Some(i) => {
                proof {
                    lemma_balance_at(self.balances@, t, o, i as int);
                }
                self.balances[i].amount
            },
            None => 0,
        }
    }

    /// Adds `amount` to the balance of `o` in `t`.
    pub(crate) fn credit(&mut self, t: TokenId, o: Address, amount: u64)
        requires
            balances_wf(old(self).balances@),
            old(self)@.balance(t, o) + amount <= u64::MAX,
        ensures
            balances_wf(final(self).balances@),
            final(self)@ == old(self)@.with_balance(t, o, old(self)@.balance(t, o) + amount as nat),
            forall|u: TokenId|
                #[trigger] total_in(final(self).balances@, u) == total_in(old(self).balances@, u) + if u
                    == t {
                    amount as nat
                } else {
                    0
                },
            final(self).tokens == old(self).tokens,
            final(self).operators == old(self).operators,
            final(self).minter == old(self).minter,
            final(self).verifier == old(self).verifier,
            final(self).fungible == old(self).fungible,
            final(self).early_retirement == old(self).early_retirement,
    {
        let ghost s = self.balances@;
        if amount == 0 {
            assert(self@.balances =~= old(self)@.with_balance(t, o, old(self)@.balance(t, o)).balances);
            return ;
        }
        match self.find_balance(t, o) {
            Some(i) => {
                proof {
                    lemma_balance_at(s, t, o, i as int);
                }
                let e = BalanceEntry { token_id: t, owner: o, amount: self.balances[i].amount + amount };
                self.balances.set(i, e);
                proof {
                    lemma_balance_update(s, i as int, e);
                    assert forall|u: TokenId| #[trigger]
                        total_in(self.balances@, u) == total_in(s, u) + if u == t {
                            amount as nat
                        } else {
                            0
                        } by {
                        lemma_total_update(s, i as int, e, u);
                    }
                }
            },
            None => {
                let e = BalanceEntry { token_id: t, owner: o, amount };
                self.balances.push(e);
                proof {
                    lemma_balance_push(s, e);
                    assert forall|u: TokenId| #[trigger]
                        total_in(self.balances@, u) == total_in(s, u) + if u == t {
                            amount as nat
                        } else {
                            0
                        } by {
                        lemma_total_push(s, e, u);
                    }
                }
            },
        }
        assert(self@.balances =~= old(self)@.with_balance(
            t,
            o,
            old(self)@.balance(t, o) + amount as nat,
        ).balances);
    }

    /// Takes `amount` from the balance of `o` in `t`, dropping an entry that
    /// reaches zero.
    pub(crate) fn debit(&mut self, t: TokenId, o: Address, amount: u64)
        requires
            balances_wf(old(self).balances@),
            old(self)@.balance(t, o) >= amount,
        ensures
            balances_wf(final(self).balances@),
            final(self)@ == old(self)@.with_balance(
                t,
                o,
                (old(self)@.balance(t, o) - amount) as nat,
            ),
            forall|u: TokenId|
                #[trigger] total_in(final(self).balances@, u) + (if u == t {
                    amount as nat
                } else {
                    0
                }) == total_in(old(self).balances@, u),
            final(self).tokens == old(self).tokens,
            final(self).operators == old(self).operators,
            final(self).minter == old(self).minter,
            final(self).verifier == old(self).verifier,
            final(self).fungible == old(self).fungible,
            final(self).early_retirement == old(self).early_retirement,
    {
        let ghost s = self.balances@;
        if amount == 0 {
            assert(self@.balances =~= old(self)@.with_balance(t, o, old(self)@.balance(t, o)).balances);
            return ;
        }
        match self.find_balance(t, o) {
            Some(i) => {
                proof {
                    lemma_balance_at(s, t, o, i as int);
                }
                let held = self.balances[i].amount;
                if held == amount {
                    self.balances.remove(i);
                    proof {
                        lemma_balance_remove(s, i as int);
                        assert forall|u: TokenId| #[trigger]
                            total_in(self.balances@, u) + (if u == t {
                                amount as nat
                            } else {
                                0
                            }) == total_in(s, u) by {
                            lemma_total_remove(s, i as int, u);
                        }
                    }
                } else {
                    let e = BalanceEntry { token_id: t, owner: o, amount: held - amount };
                    self.balances.set(i, e);
                    proof {
                        lemma_balance_update(s, i as int, e);
                        assert forall|u: TokenId| #[trigger]
                            total_in(self.balances@, u) + (if u == t {
                                amount as nat
                            } else {
                                0
                            }) == total_in(s, u) by {
                            lemma_total_update(s, i as int, e, u);
                        }
                    }
                }
            },
            None => {
                assert(false);
            },
        }
        assert(self@.balances =~= old(self)@.with_balance(
            t,
            o,
            (old(self)@.balance(t, o) - amount) as nat,
        ).balances);
    }
}

} // verus!
