use carbon_credits::ledger::Ledger;
use carbon_credits::types::{
    maturity_bytes, Address, ContractError, Event, Receiver, TokenId, TransferRequest,
};

const MINTER: Address = Address::Account(100);
const VERIFIER: Address = Address::Account(200);
const A: Address = Address::Account(1);
const B: Address = Address::Account(2);
const C: Address = Address::Account(3);

fn req(t: u64, amount: u64, from: Address, to: Receiver) -> TransferRequest {
    TransferRequest { token_id: TokenId(t), amount, from, to, data: Vec::new() }
}

fn nft() -> Ledger {
    Ledger::new(MINTER, VERIFIER, false, false)
}

fn credits() -> Ledger {
    Ledger::new(MINTER, VERIFIER, true, false)
}

#[test]
fn mint_transfer_retire_scenario() {
    let t = 1_000u64;
    let mut l = nft();
    let t1 = TokenId(1);
    assert_eq!(
        l.mint(MINTER, t1, A, 1, t + 100, true),
        Ok(Event::Mint { token_id: t1, amount: 1, owner: A })
    );
    let effects = l.transfer(A, &vec![req(1, 1, A, Receiver::Account(2))]).unwrap();
    assert_eq!(effects.len(), 1);
    assert_eq!(effects[0].event, Event::Transfer { token_id: t1, amount: 1, from: A, to: B });
    assert!(effects[0].hook.is_none());
    assert_eq!(l.balance_of(t1, A), Ok(0));
    assert_eq!(l.balance_of(t1, B), Ok(1));

    assert_eq!(l.retire(B, t1, B, 1, t), Err(ContractError::NotMature));
    assert_eq!(l.balance_of(t1, B), Ok(1));
    assert_eq!(l.balance(t1, A), 0);

    assert_eq!(
        l.retire(B, t1, B, 1, t + 150),
        Ok(Event::Retire { token_id: t1, amount: 1, owner: B, by: B })
    );
    assert_eq!(l.balance_of(t1, B), Ok(0));
    assert_eq!(l.tokens[0].record.retired_amount, 1);

    assert_eq!(l.retire(B, t1, B, 1, t + 200), Err(ContractError::InsufficientBalance));
    assert_eq!(l.retract(MINTER, t1, B, 1, t + 200), Err(ContractError::AlreadyRetired));
}

#[test]
fn batch_with_invalid_amount_is_atomic() {
    let mut l = nft();
    l.mint(MINTER, TokenId(1), A, 1, 0, false).unwrap();
    l.mint(MINTER, TokenId(2), A, 1, 0, false).unwrap();
    let reqs = vec![req(1, 1, A, Receiver::Account(2)), req(2, 2, A, Receiver::Account(2))];
    assert_eq!(l.transfer(A, &reqs).unwrap_err(), ContractError::InvalidAmount);
    assert_eq!(l.balance(TokenId(1), A), 1);
    assert_eq!(l.balance(TokenId(1), B), 0);
    assert_eq!(l.balance(TokenId(2), A), 1);
}

#[test]
fn batch_applies_in_order() {
    let mut l = credits();
    l.mint(MINTER, TokenId(5), A, 10, 0, true).unwrap();
    let reqs = vec![req(5, 4, A, Receiver::Account(2)), req(5, 3, A, Receiver::Account(3))];
    let effects = l.transfer(A, &reqs).unwrap();
    assert_eq!(effects.len(), 2);
    assert_eq!(effects[1].event, Event::Transfer { token_id: TokenId(5), amount: 3, from: A, to: C });
    assert_eq!(l.balance(TokenId(5), A), 3);
    assert_eq!(l.balance(TokenId(5), B), 4);
    assert_eq!(l.balance(TokenId(5), C), 3);
}

#[test]
fn hook_follows_the_applied_transfer() {
    let mut l = nft();
    let maturity = 0x0102_0304_0506_0708u64;
    l.mint(MINTER, TokenId(9), A, 1, maturity, false).unwrap();
    let r = req(9, 1, A, Receiver::Contract(7, String::from("onReceivingCIS2")));
    let eff = l.transfer_one(A, &r).unwrap();
    assert_eq!(
        eff.event,
        Event::Transfer { token_id: TokenId(9), amount: 1, from: A, to: Address::Contract(7) }
    );
    let hook = eff.hook.unwrap();
    assert_eq!(hook.contract, 7);
    assert_eq!(hook.entrypoint, "onReceivingCIS2");
    assert_eq!(hook.token_id, TokenId(9));
    assert_eq!(hook.amount, 1);
    assert_eq!(hook.from, A);
    assert_eq!(hook.data, vec![8, 7, 6, 5, 4, 3, 2, 1]);
    // What the recipient sees when it calls back while the hook runs.
    assert_eq!(l.balance_of(TokenId(9), A), Ok(0));
    assert_eq!(l.balance_of(TokenId(9), Address::Contract(7)), Ok(1));
    // The token can be passed on from inside the hook, but not spent twice.
    let back = req(9, 1, A, Receiver::Account(2));
    assert_eq!(l.transfer_one(A, &back).unwrap_err(), ContractError::InsufficientBalance);
}

#[test]
fn maturity_bytes_are_little_endian() {
    assert_eq!(maturity_bytes(0), vec![0; 8]);
    assert_eq!(maturity_bytes(258), vec![2, 1, 0, 0, 0, 0, 0, 0]);
    assert_eq!(maturity_bytes(u64::MAX), vec![255; 8]);
}

#[test]
fn operators_may_transfer_and_revoking_restores() {
    let mut l = nft();
    l.mint(MINTER, TokenId(1), A, 1, 0, false).unwrap();
    let r = req(1, 1, A, Receiver::Account(2));
    assert_eq!(l.transfer_one(C, &r).unwrap_err(), ContractError::Unauthorized);
    assert!(!l.is_authorized(A, C));
    assert_eq!(
        l.add_operator(A, C),
        Event::UpdateOperator { owner: A, operator: C, add: true }
    );
    assert!(l.is_authorized(A, C));
    assert!(!l.is_authorized(C, A));
    assert_eq!(
        l.remove_operator(A, C),
        Event::UpdateOperator { owner: A, operator: C, add: false }
    );
    assert!(!l.is_authorized(A, C));
    assert_eq!(l.transfer_one(C, &r).unwrap_err(), ContractError::Unauthorized);
    l.add_operator(A, C);
    assert!(l.transfer_one(C, &r).is_ok());
    assert_eq!(l.balance(TokenId(1), B), 1);
}

#[test]
fn adding_an_operator_twice_is_idempotent() {
    let mut l = nft();
    let e1 = l.add_operator(A, B);
    let e2 = l.add_operator(A, B);
    assert_eq!(e1, e2);
    assert_eq!(l.operators.len(), 1);
    assert!(l.operator_of(A, B));
    l.remove_operator(A, B);
    assert!(!l.operator_of(A, B));
    assert_eq!(
        l.remove_operator(A, B),
        Event::UpdateOperator { owner: A, operator: B, add: false }
    );
    assert!(l.operators.is_empty());
}

#[test]
fn unit_policy_rejects_other_amounts() {
    let mut l = nft();
    assert_eq!(l.mint(MINTER, TokenId(1), A, 2, 0, false), Err(ContractError::InvalidAmount));
    assert_eq!(l.mint(MINTER, TokenId(1), A, 0, 0, false), Err(ContractError::InvalidAmount));
    l.mint(MINTER, TokenId(1), A, 1, 0, false).unwrap();
    assert_eq!(
        l.transfer_one(A, &req(1, 0, A, Receiver::Account(2))).unwrap_err(),
        ContractError::InvalidAmount
    );
    assert_eq!(l.retire(A, TokenId(1), A, 2, 10), Err(ContractError::InvalidAmount));
    assert_eq!(l.balance(TokenId(1), A), 1);
    assert_eq!(l.tokens[0].record.retired_amount, 0);
}

#[test]
fn mint_errors() {
    let mut l = nft();
    assert_eq!(l.mint(A, TokenId(1), A, 1, 0, false), Err(ContractError::Unauthorized));
    l.mint(MINTER, TokenId(1), A, 1, 0, false).unwrap();
    assert_eq!(
        l.mint(MINTER, TokenId(1), B, 1, 0, false),
        Err(ContractError::TokenIdAlreadyExists)
    );
    let mut f = credits();
    f.mint(MINTER, TokenId(1), A, u64::MAX - 1, 0, false).unwrap();
    assert_eq!(f.mint(MINTER, TokenId(1), B, 2, 0, false), Err(ContractError::AmountOverflow));
    assert_eq!(f.mint(MINTER, TokenId(1), B, 1, 5, true), Ok(Event::Mint {
        token_id: TokenId(1),
        amount: 1,
        owner: B,
    }));
    assert_eq!(f.tokens[0].record.minted, u64::MAX);
    assert_eq!(f.maturity_of(TokenId(1)), Ok(0));
    assert_eq!(f.is_verified(TokenId(1)), Ok(false));
}

#[test]
fn transfer_errors() {
    let mut l = credits();
    l.mint(MINTER, TokenId(1), A, 5, 0, false).unwrap();
    assert_eq!(
        l.transfer_one(A, &req(2, 1, A, Receiver::Account(2))).unwrap_err(),
        ContractError::InvalidTokenId
    );
    assert_eq!(
        l.transfer_one(A, &req(1, 6, A, Receiver::Account(2))).unwrap_err(),
        ContractError::InsufficientBalance
    );
    assert_eq!(
        l.transfer_one(B, &req(1, 1, A, Receiver::Account(2))).unwrap_err(),
        ContractError::Unauthorized
    );
    assert!(l.transfer_one(A, &req(1, 5, A, Receiver::Account(1))).is_ok());
    assert_eq!(l.balance(TokenId(1), A), 5);
}

#[test]
fn queries_reject_unknown_tokens() {
    let mut l = nft();
    l.mint(MINTER, TokenId(1), A, 1, 77, true).unwrap();
    assert_eq!(l.balance_of(TokenId(2), A), Err(ContractError::InvalidTokenId));
    assert_eq!(l.maturity_of(TokenId(2)), Err(ContractError::InvalidTokenId));
    assert_eq!(l.is_verified(TokenId(2)), Err(ContractError::InvalidTokenId));
    assert_eq!(l.maturity_of(TokenId(1)), Ok(77));
    assert_eq!(l.is_verified(TokenId(1)), Ok(true));
    assert_eq!(l.balance(TokenId(2), A), 0);
}

#[test]
fn retire_respects_maturity_and_policy() {
    let mut l = credits();
    l.mint(MINTER, TokenId(1), A, 10, 50, false).unwrap();
    assert_eq!(l.retire(A, TokenId(1), A, 3, 49), Err(ContractError::NotMature));
    assert_eq!(l.retire(B, TokenId(1), A, 3, 50), Err(ContractError::Unauthorized));
    assert_eq!(l.retire(A, TokenId(1), A, 0, 50), Err(ContractError::InvalidAmount));
    assert_eq!(l.retire(A, TokenId(2), A, 1, 50), Err(ContractError::InvalidTokenId));
    assert_eq!(l.retire(A, TokenId(1), A, 11, 50), Err(ContractError::InsufficientBalance));
    l.add_operator(A, B);
    assert!(l.retire(B, TokenId(1), A, 3, 50).is_ok());
    assert_eq!(l.balance(TokenId(1), A), 7);
    assert_eq!(l.tokens[0].record.retired_amount, 3);

    let mut early = Ledger::new(MINTER, VERIFIER, true, true);
    early.mint(MINTER, TokenId(1), A, 10, 50, false).unwrap();
    assert!(early.retire(A, TokenId(1), A, 4, 0).is_ok());
    assert_eq!(early.balance(TokenId(1), A), 6);
}

#[test]
fn retract_returns_to_issuer_before_maturity() {
    let mut l = credits();
    l.mint(MINTER, TokenId(1), A, 10, 50, false).unwrap();
    l.transfer_one(A, &req(1, 4, A, Receiver::Account(2))).unwrap();
    assert_eq!(l.retract(A, TokenId(1), B, 4, 10), Err(ContractError::Unauthorized));
    assert_eq!(l.retract(MINTER, TokenId(2), B, 4, 10), Err(ContractError::InvalidTokenId));
    assert_eq!(l.retract(MINTER, TokenId(1), B, 5, 10), Err(ContractError::InsufficientBalance));
    assert_eq!(l.retract(MINTER, TokenId(1), B, 4, 50), Err(ContractError::AlreadyMature));
    assert_eq!(
        l.retract(MINTER, TokenId(1), B, 4, 10),
        Ok(Event::Retract { token_id: TokenId(1), amount: 4, from: B, to: A })
    );
    assert_eq!(l.balance(TokenId(1), A), 10);
    assert_eq!(l.balance(TokenId(1), B), 0);
    assert!(l.tokens[0].record.retracted);
}

#[test]
fn supply_is_conserved_across_operations() {
    let mut l = credits();
    let t = TokenId(3);
    l.mint(MINTER, t, A, 20, 10, false).unwrap();
    l.mint(MINTER, t, B, 5, 10, false).unwrap();
    l.transfer(A, &vec![req(3, 7, A, Receiver::Account(3)), req(3, 2, A, Receiver::Account(2))])
        .unwrap();
    l.retract(MINTER, t, C, 1, 5).unwrap();
    l.retire(B, t, B, 4, 10).unwrap();
    assert!(l.transfer(C, &vec![req(3, 100, C, Receiver::Account(1))]).is_err());
    let held: u64 = [A, B, C].iter().map(|o| l.balance(t, *o)).sum();
    let rec = l.tokens[0].record;
    assert_eq!(held + rec.retired_amount, rec.minted);
    assert_eq!(rec.minted, 25);
    assert!(l.balances.iter().all(|e| e.amount > 0));
}

#[test]
fn batch_queries_answer_in_order() {
    let mut l = nft();
    l.mint(MINTER, TokenId(1), A, 1, 30, true).unwrap();
    l.mint(MINTER, TokenId(2), B, 1, 40, false).unwrap();
    l.add_operator(B, C);
    assert_eq!(
        l.balance_of_batch(&vec![(TokenId(2), B), (TokenId(1), B), (TokenId(1), A)]),
        Ok(vec![1, 0, 1])
    );
    assert_eq!(
        l.balance_of_batch(&vec![(TokenId(1), A), (TokenId(3), A)]),
        Err(ContractError::InvalidTokenId)
    );
    assert_eq!(l.operator_of_batch(&vec![(B, C), (C, B), (A, C)]), vec![true, false, false]);
    assert_eq!(l.maturity_of_batch(&vec![TokenId(2), TokenId(1)]), Ok(vec![40, 30]));
    assert_eq!(l.is_verified_batch(&vec![TokenId(1), TokenId(2)]), Ok(vec![true, false]));
    assert_eq!(l.is_verified_batch(&vec![TokenId(4)]), Err(ContractError::InvalidTokenId));
    assert_eq!(l.maturity_of_batch(&vec![]), Ok(vec![]));
}

#[test]
fn only_the_verifier_sets_the_flag() {
    let mut l = nft();
    l.mint(MINTER, TokenId(1), A, 1, 0, false).unwrap();
    assert_eq!(l.set_verified(MINTER, TokenId(1), true), Err(ContractError::Unauthorized));
    assert_eq!(l.set_verified(VERIFIER, TokenId(2), true), Err(ContractError::InvalidTokenId));
    assert_eq!(l.is_verified(TokenId(1)), Ok(false));
    assert_eq!(l.set_verified(VERIFIER, TokenId(1), true), Ok(()));
    assert_eq!(l.is_verified(TokenId(1)), Ok(true));
    assert_eq!(l.balance(TokenId(1), A), 1);
}
