//! Origins of dispatched calls and the validity of unsigned transactions.

use vstd::prelude::*;

verus! {

/// An account as the chain knows it.
pub type AccountId = u64;

/// Who dispatched a call.
#[derive(Clone, Copy, Debug, PartialEq, Eq, Structural)]
pub enum Origin {
    /// The chain itself, through a privileged call.
    Root,
    /// A transaction signed by an account.
    Signed(AccountId),
    /// An unsigned transaction.
    Unsigned,
}

/// Why a dispatched call was refused.
#[derive(Clone, Copy, Debug, PartialEq, Eq, Structural)]
pub enum DispatchError {
    /// The call came from an origin that it does not accept.
    BadOrigin,
}

/// The signer of a signed origin; any other origin is refused.
pub fn ensure_signed(origin: Origin) -> (r: Result<AccountId, DispatchError>)
    ensures
        r == (match origin {
            Origin::Signed(who) => Ok::<AccountId, DispatchError>(who),
            _ => Err(DispatchError::BadOrigin),
        }),
{
    match origin {
        Origin::Signed(who) => Ok(who),
        _ => Err(DispatchError::BadOrigin),
    }
}

/// Accepts the root origin only.
pub fn ensure_root(origin: Origin) -> (r: Result<(), DispatchError>)
    ensures
        r == (if origin == Origin::Root {
            Ok::<(), DispatchError>(())
        } else {
            Err(DispatchError::BadOrigin)
        }),
{
    match origin {
        Origin::Root => Ok(()),
        _ => Err(DispatchError::BadOrigin),
    }
}

/// Accepts the unsigned origin only.
pub fn ensure_none(origin: Origin) -> (r: Result<(), DispatchError>)
    ensures
        r == (if origin == Origin::Unsigned {
            Ok::<(), DispatchError>(())
        } else {
            Err(DispatchError::BadOrigin)
        }),
{
    match origin {
        Origin::Unsigned => Ok(()),
        _ => Err(DispatchError::BadOrigin),
    }
}

/// How the transaction pool is told to treat a valid unsigned transaction.
#[derive(Debug)]
pub struct ValidTransaction {
    pub priority: u64,
    pub requires: Vec<Vec<u8>>,
    pub provides: Vec<Vec<u8>>,
    pub longevity: u64,
    pub propagate: bool,
}

/// Why an unsigned transaction was refused.
#[derive(Clone, Copy, Debug, PartialEq, Eq, Structural)]
pub enum InvalidTransaction {
    /// The call may not be submitted unsigned.
    Call,
}

/// The pool's verdict on an unsigned transaction.
pub type TransactionValidity = Result<ValidTransaction, InvalidTransaction>;

/// `v` has priority 0, requires nothing, provides the single tag `tag`,
/// lives as long as possible and is propagated.
pub open spec fn provides_only(v: ValidTransaction, tag: Seq<u8>) -> bool {
    &&& v.priority == 0
    &&& v.requires@.len() == 0
    &&& v.provides@.len() == 1
    &&& v.provides@[0]@ == tag
    &&& v.longevity == u64::MAX
    &&& v.propagate
}

/// A valid transaction that provides `tag` and nothing else.
pub fn valid_providing(tag: Vec<u8>) -> (v: ValidTransaction)
    ensures
        provides_only(v, tag@),
{
    let mut provides: Vec<Vec<u8>> = Vec::new();
    provides.push(tag);
    ValidTransaction {
        priority: 0,
        requires: Vec::new(),
        provides,
        longevity: u64::MAX,
        propagate: true,
    }
}

} // verus!
