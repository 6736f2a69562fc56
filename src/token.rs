use vstd::prelude::*;

verus! {

/// Token ids are handed out from 1 upward and never reused.
pub type TokenId = u64;

/// Token metadata is an opaque string, fixed at mint time.
pub type TokenMetadata = String;

/// An account identifier, as resolved by the hosting environment.
pub type AccountId = String;

/// An amount of the host's currency in its smallest unit.
pub type Balance = u128;

/// Fee that must be attached to mint one token.
pub const MINT_FEE: Balance = 1_000_000_000_000_000_000_000_000;

/// Fee that must be attached to set a price or to withdraw.
pub const OTHER_FEE: Balance = 1_000_000_000_000_000_000_000;

#[derive(PartialEq, Eq, Structural, Clone, Copy, Debug)]
pub enum TokenStatus {
    NotForSale,
    ForSale,
}

/// Why an operation on the ledger was rejected. A rejected operation
/// leaves the ledger as it was.
#[derive(PartialEq, Eq, Structural, Clone, Copy, Debug)]
pub enum LedgerError {
    /// The token id was never minted.
    NotFound,
    /// The token id lies beyond the last minted id.
    InvalidId,
    /// The caller does not own the token.
    Unauthorized,
    /// The token is not offered for sale.
    NotForSale,
    /// The attached amount differs from the fee or price asked.
    PaymentMismatch,
    /// The caller has no proceeds to withdraw.
    NothingToWithdraw,
}

#[derive(Debug)]
pub struct TokenData {
    pub owner_id: AccountId,
    pub status: TokenStatus,
    pub price: Balance,
    pub metadata: TokenMetadata,
    pub token_id: TokenId,
}

/// The mathematical value of a token record.
pub struct TokenView {
    pub owner_id: Seq<char>,
    pub status: TokenStatus,
    pub price: Balance,
    pub metadata: Seq<char>,
    pub token_id: TokenId,
}

impl View for TokenData {
    type V = TokenView;

    open spec fn view(&self) -> TokenView {
        TokenView {
            owner_id: self.owner_id@,
            status: self.status,
            price: self.price,
            metadata: self.metadata@,
            token_id: self.token_id,
        }
    }
}

impl TokenData {
    /// A copy of the record with the same value.
    pub fn duplicate(&self) -> (r: TokenData)
        ensures
            r@ == self@,
    {
        TokenData {
            owner_id: self.owner_id.clone(),
            status: self.status,
            price: self.price,
            metadata: self.metadata.clone(),
            token_id: self.token_id,
        }
    }
}

} // verus!
