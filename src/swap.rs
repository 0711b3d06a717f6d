use vstd::prelude::*;
use cosmwasm_std::Timestamp;

verus! {

/// When a swap lapses.
#[derive(Clone, Copy, Debug, PartialEq, Eq, Structural)]
pub enum Expiration {
    /// Lapses once the block height reaches this height.
    AtHeight(u64),
    /// Lapses once the block time, in nanoseconds, reaches this time.
    AtTime(u64),
    /// Never lapses.
    Never,
}

/// The block a transaction runs in.
#[derive(Clone, Debug)]
pub struct BlockInfo {
    pub height: u64,
    /// Block time in nanoseconds since the Unix epoch.
    pub time: u64,
    pub chain_id: String,
}

/// Native coins of one denomination.
#[derive(Clone, Debug)]
pub struct Coin {
    pub denom: String,
    pub amount: u128,
}

/// Escrowed funds: native coins, or an amount of one cw20 token.
#[derive(Clone, Debug)]
pub enum Balance {
    Native(Vec<Coin>),
    Cw20 { address: Vec<u8>, amount: u128 },
}

/// A hash-locked conditional transfer.
#[derive(Clone, Debug)]
pub struct AtomicSwap {
    /// The digest of the preimage that the recipient must reveal.
    pub hash: Vec<u8>,
    /// Canonical address of the party that may claim the swap.
    pub recipient: Vec<u8>,
    /// Canonical address of the party that may reclaim it once expired.
    pub source: Vec<u8>,
    pub expires: Expiration,
    pub balance: Balance,
}

/// Whether `e` has lapsed in `block`.
pub open spec fn expired_at(e: Expiration, block: BlockInfo) -> bool {
    match e {
        Expiration::AtHeight(h) => block.height >= h,
        Expiration::AtTime(t) => block.time >= t,
        Expiration::Never => false,
    }
}

/// Relies on `cw20::Expiration::is_expired`: a height or time lapses once the
/// block's height or time reaches it; `Never` never does.
#[verifier::external_body]
fn cw20_is_expired(e: &Expiration, block: &BlockInfo) -> (r: bool)
    ensures
        r == expired_at(*e, *block),
{
    let expires = match *e {
        Expiration::AtHeight(h) => cw20::Expiration::AtHeight(h),
        Expiration::AtTime(t) => cw20::Expiration::AtTime(Timestamp::from_nanos(t)),
        Expiration::Never => cw20::Expiration::Never {},
    };
    let b = cosmwasm_std::BlockInfo {
        height: block.height,
        time: Timestamp::from_nanos(block.time),
        chain_id: block.chain_id.clone(),
    };
    expires.is_expired(&b)
}

impl AtomicSwap {
    /// Whether the swap has lapsed in `block`.
    pub fn is_expired(&self, block: &BlockInfo) -> (r: bool)
        ensures
            r == expired_at(self.expires, *block),
    {
        cw20_is_expired(&self.expires, block)
    }
}

impl Default for AtomicSwap {
    /// A swap with empty addresses and hash, no funds, and no expiry.
    fn default() -> (r: AtomicSwap)
        ensures
            r.hash@.len() == 0,
            r.recipient@.len() == 0,
            r.source@.len() == 0,
            r.expires == Expiration::Never,
            r.balance matches Balance::Native(coins) && coins@.len() == 0,
    {
        AtomicSwap {
            hash: Vec::new(),
            recipient: Vec::new(),
            source: Vec::new(),
            expires: Expiration::Never,
            balance: Balance::Native(Vec::new()),
        }
    }
}

} // verus!
