use vstd::prelude::*;
use crate::types::{Address, ContractError, TokenId, TransferRequest};
use crate::entries::{lemma_balance_le_total, total_in};
use crate::ledger::{Ledger, LedgerView, minted_of, retired_of};

verus! {

/// Supply is conserved: in a well-formed ledger, which every operation keeps
/// well-formed, the balances of a token plus its retired amount add up to what
/// was ever minted of it, and a token never minted has no balances.
pub proof fn lemma_supply_conserved(l: Ledger, t: TokenId)
    requires
        l.wf(),
    ensures
        l@.tokens.contains_key(t) ==> total_in(l.balances@, t) + l@.tokens[t].retired_amount
            == l@.tokens[t].minted,
        !l@.tokens.contains_key(t) ==> total_in(l.balances@, t) == 0,
{
    assert(total_in(l.balances@, t) + retired_of(l@.tokens, t) == minted_of(l@.tokens, t));
}

/// A transfer succeeds only when the sender is the owner or one of its operators.
pub proof fn lemma_transfer_needs_authorization(v: LedgerView, sender: Address, r: TransferRequest)
    ensures
        v.transfer_result(sender, r) is Ok ==> sender == r.from || v.operators.contains(
            (r.from, sender),
        ),
{
}

/// Granting an operator that was not registered and then revoking it gives the
/// ledger back exactly, so every authorization and transfer outcome is as
/// before the grant.
pub proof fn lemma_grant_then_revoke(v: LedgerView, owner: Address, operator: Address)
    requires
        !v.operators.contains((owner, operator)),
    ensures
        v.with_operator(owner, operator).without_operator(owner, operator) == v,
        forall|o: Address, a: Address|
            #[trigger] v.with_operator(owner, operator).without_operator(owner, operator).authorized(o, a)
                == v.authorized(o, a),
        forall|sender: Address, r: TransferRequest|
            #[trigger] v.with_operator(owner, operator).without_operator(
                owner,
                operator,
            ).transfer_result(sender, r) == v.transfer_result(sender, r),
{
    assert(v.operators.insert((owner, operator)).remove((owner, operator)) =~= v.operators);
}

/// Registering the same operator twice gives the same ledger as registering it once.
pub proof fn lemma_add_operator_idempotent(v: LedgerView, owner: Address, operator: Address)
    ensures
        v.with_operator(owner, operator).with_operator(owner, operator) == v.with_operator(
            owner,
            operator,
        ),
{
    assert(v.operators.insert((owner, operator)).insert((owner, operator)) =~= v.operators.insert(
        (owner, operator),
    ));
}

/// In the single-unit variant, a transfer, mint or retirement of any amount
/// other than one is rejected.
pub proof fn lemma_unit_policy(
    v: LedgerView,
    caller: Address,
    r: TransferRequest,
    t: TokenId,
    owner: Address,
    amount: u64,
    maturity_time: u64,
    verified: bool,
    now: u64,
)
    requires
        !v.fungible,
        amount != 1,
    ensures
        r.amount != 1 ==> v.transfer_result(caller, r) is Err,
        v.mint_result(caller, t, owner, amount, maturity_time, verified) is Err,
        v.retire_result(caller, t, owner, amount, now) is Err,
{
}

/// Retiring before the maturity time, where early retirement is not allowed,
/// fails with `NotMature` once the caller, amount and token are in order.
pub proof fn lemma_retire_before_maturity(
    v: LedgerView,
    caller: Address,
    t: TokenId,
    owner: Address,
    amount: u64,
    now: u64,
)
    requires
        !v.early_retirement,
        v.authorized(owner, caller),
        amount > 0 && v.unit_ok(amount),
        v.tokens.contains_key(t),
        now < v.tokens[t].maturity_time,
    ensures
        v.retire_result(caller, t, owner, amount, now) == Err::<LedgerView, ContractError>(
            ContractError::NotMature,
        ),
{
}

/// Retirement is irreversible: after a successful retirement, every retraction
/// of that token fails with `AlreadyRetired`.
pub proof fn lemma_retired_cannot_be_retracted(
    l: Ledger,
    caller: Address,
    t: TokenId,
    owner: Address,
    amount: u64,
    now: u64,
    retractor: Address,
    holder: Address,
    retract_amount: u64,
    later: u64,
)
    requires
        l.wf(),
        l@.retire_result(caller, t, owner, amount, now) is Ok,
    ensures
        l@.retire_result(caller, t, owner, amount, now)->Ok_0.retract_result(
            retractor,
            t,
            holder,
            retract_amount,
            later,
        ) == Err::<LedgerView, ContractError>(ContractError::AlreadyRetired),
{
    lemma_balance_le_total(l.balances@, t, owner);
    assert(total_in(l.balances@, t) + retired_of(l@.tokens, t) == minted_of(l@.tokens, t));
}

} // verus!
