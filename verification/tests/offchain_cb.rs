use pricefetch::dispatch::{DispatchError, InvalidTransaction, Origin};
use pricefetch::offchain_cb::{validate_unsigned, Call, Event, OffchainAction, OffchainCb, OffchainRequest};

#[test]
fn ping_stores_a_request_from_the_signer() {
    let mut state = OffchainCb::new(vec![]);
    assert_eq!(state.ping(Origin::Signed(7), 3), Ok(()));
    assert_eq!(state.ping(Origin::Signed(8), 4), Ok(()));
    assert_eq!(state.oc_requests(), &vec![OffchainRequest::Ping(3, 7), OffchainRequest::Ping(4, 8)]);
}

#[test]
fn ping_refuses_unsigned_and_root() {
    let mut state = OffchainCb::new(vec![]);
    assert_eq!(state.ping(Origin::Unsigned, 3), Err(DispatchError::BadOrigin));
    assert_eq!(state.ping(Origin::Root, 3), Err(DispatchError::BadOrigin));
    assert!(state.oc_requests().is_empty());
}

#[test]
fn on_initialize_drops_requests() {
    let mut state = OffchainCb::new(vec![1]);
    state.ping(Origin::Signed(7), 3).unwrap();
    state.on_initialize(10);
    assert!(state.oc_requests().is_empty());
    assert_eq!(state.authorities(), &vec![1]);
    assert!(state.offchain_worker(&vec![1]).is_empty());
}

#[test]
fn pong_signed_acks_authorities_only() {
    let state = OffchainCb::new(vec![1, 2]);
    assert_eq!(state.pong_signed(Origin::Signed(2), 9), Ok(Some(Event::Ack(9, 2))));
    assert_eq!(state.pong_signed(Origin::Signed(3), 9), Ok(None));
    assert_eq!(state.pong_signed(Origin::Unsigned, 9), Err(DispatchError::BadOrigin));
    assert_eq!(state.pong_signed(Origin::Root, 9), Err(DispatchError::BadOrigin));
}

#[test]
fn pong_unsigned_acks_without_author() {
    let state = OffchainCb::new(vec![]);
    assert_eq!(state.pong_unsigned(Origin::Unsigned, 5), Ok(Event::AckNoAuthor(5)));
    assert_eq!(state.pong_unsigned(Origin::Signed(1), 5), Err(DispatchError::BadOrigin));
}

#[test]
fn add_authority_is_root_only_and_idempotent() {
    let mut state = OffchainCb::new(vec![1]);
    assert_eq!(state.add_authority(Origin::Signed(1), 2), Err(DispatchError::BadOrigin));
    assert_eq!(state.authorities(), &vec![1]);
    assert_eq!(state.add_authority(Origin::Root, 2), Ok(()));
    assert_eq!(state.add_authority(Origin::Root, 2), Ok(()));
    assert_eq!(state.add_authority(Origin::Root, 1), Ok(()));
    assert_eq!(state.authorities(), &vec![1, 2]);
    assert!(state.is_authority(2));
    assert!(!state.is_authority(3));
}

#[test]
fn authority_id_is_first_local_authority() {
    let state = OffchainCb::new(vec![5, 3, 9]);
    assert_eq!(state.authority_id(&vec![9, 3]), Some(3));
    assert_eq!(state.authority_id(&vec![9]), Some(9));
    assert_eq!(state.authority_id(&vec![4, 6]), None);
    assert_eq!(state.authority_id(&vec![]), None);
}

#[test]
fn offchain_worker_answers_every_ping() {
    let mut state = OffchainCb::new(vec![5, 3]);
    state.ping(Origin::Signed(7), 1).unwrap();
    state.ping(Origin::Signed(8), 2).unwrap();
    let actions = state.offchain_worker(&vec![3]);
    assert_eq!(
        actions,
        vec![
            OffchainAction::SubmitUnsigned(Call::PongUnsigned(1)),
            OffchainAction::SignAndSubmit(Call::PongSigned(1), 7),
            OffchainAction::SignAndSubmit(Call::PongSigned(1), 3),
            OffchainAction::SubmitUnsigned(Call::PongUnsigned(2)),
            OffchainAction::SignAndSubmit(Call::PongSigned(2), 8),
            OffchainAction::SignAndSubmit(Call::PongSigned(2), 3),
        ]
    );
    // without a local authority the worker submits nothing
    assert!(state.offchain_worker(&vec![]).is_empty());
    assert!(state.offchain_worker(&vec![7, 8]).is_empty());
}

#[test]
fn validate_unsigned_accepts_pong_unsigned_only() {
    let v = validate_unsigned(&Call::PongUnsigned(7), 0x0102030405060708).expect("valid");
    assert_eq!(v.priority, 0);
    assert!(v.requires.is_empty());
    assert_eq!(v.provides, vec![vec![7, 8, 7, 6, 5, 4, 3, 2, 1]]);
    assert_eq!(v.longevity, u64::MAX);
    assert!(v.propagate);
    assert_eq!(validate_unsigned(&Call::PongSigned(7), 1).unwrap_err(), InvalidTransaction::Call);
    assert_eq!(validate_unsigned(&Call::Ping(7), 1).unwrap_err(), InvalidTransaction::Call);
    assert_eq!(validate_unsigned(&Call::AddAuthority(7), 1).unwrap_err(), InvalidTransaction::Call);
}

#[test]
fn validate_unsigned_tags_differ_by_nonce_and_time() {
    let tag = |nonce: u8, now: u64| validate_unsigned(&Call::PongUnsigned(nonce), now).unwrap().provides;
    assert_eq!(tag(7, 1), tag(7, 1));
    assert_ne!(tag(7, 1), tag(8, 1));
    assert_ne!(tag(7, 1), tag(7, 256));
    assert_eq!(tag(0, 256), vec![vec![0, 0, 1, 0, 0, 0, 0, 0, 0]]);
}
