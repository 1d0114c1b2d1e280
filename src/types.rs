use vstd::prelude::*;

verus! {

/// An owner or actor: an account, or a contract instance given by its index.
#[derive(Clone, Copy, Debug, PartialEq, Eq, Structural)]
pub enum Address {
    Account(u64),
    Contract(u64),
}

/// A token identifier; two identifiers are the same token exactly when equal.
#[derive(Clone, Copy, Debug, PartialEq, Eq, Structural)]
pub struct TokenId(pub u64);

/// The recipient of a transfer: an account, or a contract together with the
/// name of the entrypoint that is called when tokens arrive.
#[derive(Clone, Debug)]
pub enum Receiver {
    Account(u64),
    Contract(u64, String),
}

impl Receiver {
    pub open spec fn spec_address(&self) -> Address {
        match self {
            Receiver::Account(a) => Address::Account(*a),
            Receiver::Contract(c, _) => Address::Contract(*c),
        }
    }

    /// The address that receives the tokens.
    pub fn address(&self) -> (r: Address)
        ensures
            r == self.spec_address(),
    {
        match self {
            Receiver::Account(a) => Address::Account(*a),
            Receiver::Contract(c, _) => Address::Contract(*c),
        }
    }
}

/// One element of a transfer request list.
#[derive(Clone, Debug)]
pub struct TransferRequest {
    pub token_id: TokenId,
    pub amount: u64,
    pub from: Address,
    pub to: Receiver,
    pub data: Vec<u8>,
}

/// What the ledger knows of one token.
#[derive(Clone, Copy, Debug, PartialEq, Eq, Structural)]
pub struct TokenRecord {
    /// Time (milliseconds) from which the token counts as mature.
    pub maturity_time: u64,
    pub verified: bool,
    /// Everything ever minted of the token.
    pub minted: u64,
    /// Everything retired of the token.
    pub retired_amount: u64,
    pub retracted: bool,
    /// The owner the token was first minted to; retraction returns tokens here.
    pub issuer: Address,
}

#[derive(Clone, Copy, Debug, PartialEq, Eq, Structural)]
pub enum ContractError {
    ParseError,
    Unauthorized,
    InvalidTokenId,
    InvalidAmount,
    InsufficientBalance,
    TokenIdAlreadyExists,
    NotMature,
    AlreadyMature,
    AlreadyRetired,
    LoggingFailure,
    ExternalCallFailure,
    /// Minting would take a token's supply past what a `u64` holds.
    AmountOverflow,
}

/// The record of one successful state change, in the order the changes happen.
#[derive(Clone, Copy, Debug, PartialEq, Eq, Structural)]
pub enum Event {
    Transfer { token_id: TokenId, amount: u64, from: Address, to: Address },
    Mint { token_id: TokenId, amount: u64, owner: Address },
    Retire { token_id: TokenId, amount: u64, owner: Address, by: Address },
    Retract { token_id: TokenId, amount: u64, from: Address, to: Address },
    UpdateOperator { owner: Address, operator: Address, add: bool },
}

/// A call into a receiving contract after tokens were credited to it.
#[derive(Clone, Debug)]
pub struct HookCall {
    pub contract: u64,
    pub entrypoint: String,
    pub token_id: TokenId,
    pub amount: u64,
    pub from: Address,
    /// The token's maturity time, as eight little-endian bytes.
    pub data: Vec<u8>,
}

/// What one applied transfer asks of its surroundings: an event to log and,
/// for a contract recipient, a call to make.
#[derive(Clone, Debug)]
pub struct TransferEffect {
    pub event: Event,
    pub hook: Option<HookCall>,
}

/// The eight little-endian bytes of `t`.
pub open spec fn le_bytes(t: u64) -> Seq<u8> {
    seq![
        (t % 0x100) as u8,
        ((t / 0x100) % 0x100) as u8,
        ((t / 0x1_0000) % 0x100) as u8,
        ((t / 0x100_0000) % 0x100) as u8,
        ((t / 0x1_0000_0000) % 0x100) as u8,
        ((t / 0x100_0000_0000) % 0x100) as u8,
        ((t / 0x1_0000_0000_0000) % 0x100) as u8,
        ((t / 0x100_0000_0000_0000) % 0x100) as u8,
    ]
}

/// Encodes a timestamp as the receive hook's auxiliary data.
pub fn maturity_bytes(t: u64) -> (r: Vec<u8>)
    ensures
        r@ == le_bytes(t),
{
    let mut r: Vec<u8> = Vec::new();
    r.push((t % 0x100) as u8);
    r.push(((t / 0x100) % 0x100) as u8);
    r.push(((t / 0x1_0000) % 0x100) as u8);
    r.push(((t / 0x100_0000) % 0x100) as u8);
    r.push(((t / 0x1_0000_0000) % 0x100) as u8);
    r.push(((t / 0x100_0000_0000) % 0x100) as u8);
    r.push(((t / 0x1_0000_0000_0000) % 0x100) as u8);
    r.push(((t / 0x100_0000_0000_0000) % 0x100) as u8);
    assert(r@ =~= le_bytes(t));
    r
}

} // verus!
