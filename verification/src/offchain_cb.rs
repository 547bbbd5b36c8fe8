//! The offchain-callback pallet: pings stored on chain are answered by the
//! offchain worker with pongs, which only authorities may sign.

use crate::dispatch::{
    AccountId, DispatchError, Origin, TransactionValidity, InvalidTransaction, ensure_none,
    ensure_root, ensure_signed, provides_only, valid_providing,
};
use crate::encode::{encode_nonce_moment, lemma_le_bytes_injective, pow256, scale_u64};
use vstd::prelude::*;

verus! {

/// A request stored on chain for the offchain worker to answer.
#[derive(Clone, Copy, Debug, PartialEq, Eq, Structural)]
pub enum OffchainRequest {
    /// Answer nonce `.0`, pinged by account `.1`, with pongs.
    Ping(u8, AccountId),
}

/// Events that the pallet deposits.
#[derive(Clone, Copy, Debug, PartialEq, Eq, Structural)]
pub enum Event {
    /// An authority answered the nonce.
    Ack(u8, AccountId),
    /// The nonce was answered unsigned.
    AckNoAuthor(u8),
}

/// Calls that the pallet accepts.
#[derive(Clone, Copy, Debug, PartialEq, Eq, Structural)]
pub enum Call {
    Ping(u8),
    PongSigned(u8),
    PongUnsigned(u8),
    AddAuthority(AccountId),
}

/// A transaction that the offchain worker asks its host to submit.
#[derive(Clone, Copy, Debug, PartialEq, Eq, Structural)]
pub enum OffchainAction {
    /// Submit the call unsigned.
    SubmitUnsigned(Call),
    /// Sign the call with the key of the account, and submit it.
    SignAndSubmit(Call, AccountId),
}

/// The authorities after adding `who`: unchanged when `who` is one already,
/// else `who` appended.
pub open spec fn with_authority(auths: Seq<AccountId>, who: AccountId) -> Seq<AccountId> {
    if auths.contains(who) {
        auths
    } else {
        auths.push(who)
    }
}

/// The first of `auths` that is also among `keys`.
pub open spec fn first_local_authority(auths: Seq<AccountId>, keys: Seq<AccountId>) -> Option<
    AccountId,
>
    decreases auths.len(),
{
    if auths.len() == 0 {
        None
    } else if keys.contains(auths[0]) {
        Some(auths[0])
    } else {
        first_local_authority(auths.drop_first(), keys)
    }
}

/// The transactions that answer one request: an unsigned pong, a pong signed
/// by the account that pinged, and a pong signed by the local authority
/// `key`.
pub open spec fn answer(r: OffchainRequest, key: AccountId) -> Seq<OffchainAction> {
    match r {
        OffchainRequest::Ping(nonce, who) => seq![
            OffchainAction::SubmitUnsigned(Call::PongUnsigned(nonce)),
            OffchainAction::SignAndSubmit(Call::PongSigned(nonce), who),
            OffchainAction::SignAndSubmit(Call::PongSigned(nonce), key),
        ],
    }
}

/// The answers to `reqs`, request by request.
pub open spec fn answers(reqs: Seq<OffchainRequest>, key: AccountId) -> Seq<OffchainAction>
    decreases reqs.len(),
{
    if reqs.len() == 0 {
        Seq::empty()
    } else {
        answers(reqs.drop_last(), key) + answer(reqs.last(), key)
    }
}

/// The pallet's storage.
pub struct OffchainCb {
    /// Requests made within the current block.
    oc_requests: Vec<OffchainRequest>,
    /// The accounts that may sign pongs.
    authorities: Vec<AccountId>,
}

impl OffchainCb {
    /// The requests made within the current block.
    pub closed spec fn requests(&self) -> Seq<OffchainRequest> {
        self.oc_requests@
    }

    /// The accounts that may sign pongs.
    pub closed spec fn authority_set(&self) -> Seq<AccountId> {
        self.authorities@
    }

    /// Storage at genesis: no requests, and the given authorities.
    pub fn new(authorities: Vec<AccountId>) -> (s: Self)
        ensures
            s.requests().len() == 0,
            s.authority_set() == authorities@,
    {
        OffchainCb { oc_requests: Vec::new(), authorities }
    }

    /// The authorities.
    pub fn authorities(&self) -> (r: &Vec<AccountId>)
        ensures
            r@ == self.authority_set(),
    {
        &self.authorities
    }

    /// The requests made within the current block.
    pub fn oc_requests(&self) -> (r: &Vec<OffchainRequest>)
        ensures
            r@ == self.requests(),
    {
        &self.oc_requests
    }

    /// At the start of every block the requests of the last one are dropped.
    pub fn on_initialize(&mut self, _now: u64)
        ensures
            final(self).requests().len() == 0,
            final(self).authority_set() == old(self).authority_set(),
    {
        self.oc_requests = Vec::new();
    }

    /// Stores a ping with `nonce` from the signer; refused from any other
    /// origin.
    pub fn ping(&mut self, origin: Origin, nonce: u8) -> (r: Result<(), DispatchError>)
        ensures
            final(self).authority_set() == old(self).authority_set(),
            match origin {
                Origin::Signed(who) => r is Ok && final(self).requests() == old(self).requests().push(
                    OffchainRequest::Ping(nonce, who),
                ),
                _ => r == Err::<(), DispatchError>(DispatchError::BadOrigin) && final(self).requests()
                    == old(self).requests(),
            },
    {
        let who = ensure_signed(origin)?;
        self.oc_requests.push(OffchainRequest::Ping(nonce, who));
        Ok(())
    }

    /// A signed pong: acknowledged with an event when its signer is an
    /// authority, accepted silently otherwise; refused unless signed.
    pub fn pong_signed(&self, origin: Origin, nonce: u8) -> (r: Result<Option<Event>, DispatchError>)
        ensures
            r == (match origin {
                Origin::Signed(author) => Ok::<Option<Event>, DispatchError>(
                    if self.authority_set().contains(author) {
                        Some(Event::Ack(nonce, author))
                    } else {
                        None
                    },
                ),
                _ => Err(DispatchError::BadOrigin),
            }),
    {
        let author = ensure_signed(origin)?;
        if self.is_authority(author) {
            Ok(Some(Event::Ack(nonce, author)))
        } else {
            Ok(None)
        }
    }

    /// An unsigned pong, always acknowledged; refused unless unsigned.
    pub fn pong_unsigned(&self, origin: Origin, nonce: u8) -> (r: Result<Event, DispatchError>)
        ensures
            r == (if origin == Origin::Unsigned {
                Ok::<Event, DispatchError>(Event::AckNoAuthor(nonce))
            } else {
                Err(DispatchError::BadOrigin)
            }),
    {
        ensure_none(origin)?;
        Ok(Event::AckNoAuthor(nonce))
    }

    /// Root adds `who` to the authorities, unless it is one already; refused
    /// from any other origin.
    pub fn add_authority(&mut self, origin: Origin, who: AccountId) -> (r: Result<(), DispatchError>)
        ensures
            final(self).requests() == old(self).requests(),
            if origin == Origin::Root {
                r is Ok && final(self).authority_set() == with_authority(old(self).authority_set(), who)
            } else {
                r == Err::<(), DispatchError>(DispatchError::BadOrigin) && final(self).authority_set()
                    == old(self).authority_set()
            },
    {
        ensure_root(origin)?;
        if !self.is_authority(who) {
            self.authorities.push(who);
        }
        Ok(())
    }

    /// Whether `who` may sign pongs.
    pub fn is_authority(&self, who: AccountId) -> (r: bool)
        ensures
            r == self.authority_set().contains(who),
    {
        let mut i: usize = 0;
        while i < self.authorities.len()
            invariant
                i <= self.authorities@.len(),
                forall|j: int| 0 <= j < i ==> self.authorities@[j] != who,
            decreases self.authorities@.len() - i,
        {
            if self.authorities[i] == who {
                assert(self.authorities@[i as int] == who);
                return true;
            }
            i = i + 1;
        }
        false
    }

    /// The first authority, in storage order, whose key is among the local
    /// `local_keys`.
    pub fn authority_id(&self, local_keys: &Vec<AccountId>) -> (r: Option<AccountId>)
        ensures
            r == first_local_authority(self.authority_set(), local_keys@),
    {
        let ghost auths = self.authority_set();
        let mut i: usize = 0;
        assert(auths.skip(0) =~= auths);
        while i < self.authorities.len()
            invariant
                i <= auths.len(),
                auths == self.authorities@,
                first_local_authority(auths, local_keys@) == first_local_authority(
                    auths.skip(i as int),
                    local_keys@,
                ),
            decreases auths.len() - i,
        {
            let authority = self.authorities[i];
            assert(auths.skip(i as int)[0] == authority);
            assert(auths.skip(i as int).drop_first() =~= auths.skip(i + 1));
            if contains_key(local_keys, authority) {
                return Some(authority);
            }
            i = i + 1;
        }
        assert(auths.skip(i as int).len() == 0);
        None
    }

    /// The transactions that the offchain worker submits. As pongs count
    /// only from authorities, it runs only when some authority's key is
    /// local: then every stored ping, in order, is answered by an unsigned
    /// pong, a pong signed by the account that pinged, and a pong signed by
    /// the first local authority. Without a local authority it submits
    /// nothing.
    pub fn offchain_worker(&self, local_keys: &Vec<AccountId>) -> (r: Vec<OffchainAction>)
        ensures
            r@ == match first_local_authority(self.authority_set(), local_keys@) {
                Some(key) => answers(self.requests(), key),
                None => Seq::<OffchainAction>::empty(),
            },
    {
        let key = match self.authority_id(local_keys) {
            Some(key) => key,
            None => {
                return Vec::new();
            },
        };
        let ghost reqs = self.requests();
        let mut actions: Vec<OffchainAction> = Vec::new();
        let mut i: usize = 0;
        while i < self.oc_requests.len()
            invariant
                i <= reqs.len(),
                reqs == self.oc_requests@,
                actions@ == answers(reqs.take(i as int), key),
            decreases reqs.len() - i,
        {
            let ghost before = actions@;
            assert(reqs.take(i + 1).drop_last() =~= reqs.take(i as int));
            assert(reqs.take(i + 1).last() == reqs[i as int]);
            match self.oc_requests[i] {
                OffchainRequest::Ping(nonce, who) => {
                    actions.push(OffchainAction::SubmitUnsigned(Call::PongUnsigned(nonce)));
                    actions.push(OffchainAction::SignAndSubmit(Call::PongSigned(nonce), who));
                    actions.push(OffchainAction::SignAndSubmit(Call::PongSigned(nonce), key));
                    assert(actions@ =~= before + answer(reqs[i as int], key));
                },
            }
            i = i + 1;
        }
        assert(reqs.take(i as int) =~= reqs);
        actions
    }
}

/// Whether `keys` holds `who`.
fn contains_key(keys: &Vec<AccountId>, who: AccountId) -> (r: bool)
    ensures
        r == keys@.contains(who),
{
    let mut i: usize = 0;
    while i < keys.len()
        invariant
            i <= keys@.len(),
            forall|j: int| 0 <= j < i ==> keys@[j] != who,
        decreases keys@.len() - i,
    {
        if keys[i] == who {
            assert(keys@[i as int] == who);
            return true;
        }
        i = i + 1;
    }
    false
}

/// The tag that `call`, submitted unsigned at time `now`, provides: its
/// nonce followed by the time; `None` for a call that may not come unsigned.
pub open spec fn pong_tag(call: Call, now: u64) -> Option<Seq<u8>> {
    match call {
        Call::PongUnsigned(nonce) => Some(seq![nonce] + scale_u64(now)),
        _ => None,
    }
}

/// `r` is the pool's verdict on `call` submitted unsigned at time `now`: a
/// valid transaction providing the pong's tag, or a refusal of the call.
pub open spec fn is_verdict(r: TransactionValidity, call: Call, now: u64) -> bool {
    match pong_tag(call, now) {
        Some(tag) => r matches Ok(v) && provides_only(v, tag),
        None => r matches Err(e) && e == InvalidTransaction::Call,
    }
}

/// Only an unsigned pong may come unsigned; it provides the tag made of its
/// nonce and the time `now`. The verdict reads no storage and changes none.
pub fn validate_unsigned(call: &Call, now: u64) -> (r: TransactionValidity)
    ensures
        is_verdict(r, *call, now),
{
    match call {
        Call::PongUnsigned(nonce) => Ok(valid_providing(encode_nonce_moment(*nonce, now))),
        _ => Err(InvalidTransaction::Call),
    }
}

/// Law: the verdict on an unsigned call depends on the call and the time
/// alone, so two verdicts on the same call at the same time agree; and
/// pongs with different nonces or times provide different tags, so the pool
/// never mistakes one for another.
pub proof fn lemma_verdict_depends_on_call_and_time(
    call: Call,
    now: u64,
    r1: TransactionValidity,
    r2: TransactionValidity,
    nonce2: u8,
    now2: u64,
)
    requires
        is_verdict(r1, call, now),
        is_verdict(r2, call, now),
    ensures
        r1 is Ok <==> r2 is Ok,
        r1 is Ok ==> r1->Ok_0.provides@.len() == 1 && r2->Ok_0.provides@.len() == 1 && r1->Ok_0.provides@[0]@
            == r2->Ok_0.provides@[0]@,
        r1 is Ok ==> r1->Ok_0.priority == r2->Ok_0.priority && r1->Ok_0.requires@.len() == r2->Ok_0.requires@.len()
            && r1->Ok_0.longevity == r2->Ok_0.longevity && r1->Ok_0.propagate == r2->Ok_0.propagate,
        r1 is Err ==> r1 == r2,
        call matches Call::PongUnsigned(nonce) ==> (pong_tag(call, now) == pong_tag(
            Call::PongUnsigned(nonce2),
            now2,
        ) <==> nonce == nonce2 && now == now2),
{
    if let Call::PongUnsigned(nonce) = call {
        let t1 = seq![nonce] + scale_u64(now);
        let t2 = seq![nonce2] + scale_u64(now2);
        if t1 == t2 {
            assert(t1[0] == t2[0]);
            assert(t1.drop_first() =~= scale_u64(now));
            assert(t2.drop_first() =~= scale_u64(now2));
            assert(pow256(8) == 0x1_0000_0000_0000_0000) by {
                reveal_with_fuel(pow256, 9);
            }
            lemma_le_bytes_injective(now as nat, now2 as nat, 8);
        }
    }
}

/// Law: adding an authority makes it one, keeps every other, and adding
/// it again changes nothing.
pub proof fn lemma_add_authority_idempotent(auths: Seq<AccountId>, who: AccountId)
    ensures
        with_authority(auths, who).contains(who),
        forall|a: AccountId| auths.contains(a) ==> #[trigger] with_authority(auths, who).contains(a),
        with_authority(with_authority(auths, who), who) == with_authority(auths, who),
{
    if !auths.contains(who) {
        let t = auths.push(who);
        assert(t[auths.len() as int] == who);
        assert forall|a: AccountId| auths.contains(a) implies #[trigger] t.contains(a) by {
            let i = choose|i: int| 0 <= i < auths.len() && auths[i] == a;
            assert(t[i] == a);
        }
    }
}

/// Law: each stored ping adds exactly its own answers after those of the
/// earlier pings; with no pings there is nothing to submit.
pub proof fn lemma_ping_answered(reqs: Seq<OffchainRequest>, r: OffchainRequest, key: AccountId)
    ensures
        answers(reqs.push(r), key) == answers(reqs, key) + answer(r, key),
        answers(Seq::<OffchainRequest>::empty(), key) == Seq::<OffchainAction>::empty(),
{
    assert(reqs.push(r).drop_last() =~= reqs);
}

/// Law: the local authority that signs pongs is an authority whose key is
/// local, the first such in storage order; there is none only when no
/// authority's key is local.
pub proof fn lemma_first_local_authority(auths: Seq<AccountId>, keys: Seq<AccountId>)
    ensures
        match first_local_authority(auths, keys) {
            Some(a) => exists|i: int|
                0 <= i < auths.len() && auths[i] == a && keys.contains(a) && forall|j: int|
                    0 <= j < i ==> !keys.contains(#[trigger] auths[j]),
            None => forall|i: int| 0 <= i < auths.len() ==> !keys.contains(#[trigger] auths[i]),
        },
    decreases auths.len(),
{
    if auths.len() > 0 && !keys.contains(auths[0]) {
        let rest = auths.drop_first();
        lemma_first_local_authority(rest, keys);
        match first_local_authority(rest, keys) {
            Some(a) => {
                let i = choose|i: int|
                    0 <= i < rest.len() && rest[i] == a && keys.contains(a) && forall|j: int|
                        0 <= j < i ==> !keys.contains(#[trigger] rest[j]);
                assert(auths[i + 1] == a);
                assert forall|j: int| 0 <= j < i + 1 implies !keys.contains(#[trigger] auths[j]) by {
                    if j > 0 {
                        assert(auths[j] == rest[j - 1]);
                    }
                }
            },
            None => {
                assert forall|i: int| 0 <= i < auths.len() implies !keys.contains(#[trigger] auths[i]) by {
                    if i > 0 {
                        assert(auths[i] == rest[i - 1]);
                    }
                }
            },
        }
    }
}

} // verus!
