use snowball::error::SnowballError;
use snowball::hashing::{nonce_seed, session_id, session_key_seed, Digest};
use snowball::message::{MessageState, SchnorrSig, SnowballMessage, SnowballPayload};
use snowball::participant::ParticipantID;
use snowball::scalar::{from_digest, from_u64};
use snowball::session::{check_balance, same_key, Snowball};
use snowball::types::{
    Action, Awaiting, BuiltTransaction, CommitMaterial, KeyEntry, NetworkKey, OwnedInput,
    PoolMember, PoolNotification, PoolState, Progress, ProposedUTXO, RoundKeys, Validation,
    Verdict,
};

const FACILITATOR: NetworkKey = [0xf0; 65];
const FIRST_SID: Digest = [0x42; 32];
const SKEY: [u8; 32] = [0x31; 32];

fn key(i: u8) -> NetworkKey {
    [i; 65]
}

fn pid(i: u8) -> ParticipantID {
    ParticipantID::new(key(i), [i; 32])
}

fn input(amount: i64) -> OwnedInput {
    OwnedInput { hash: [amount as u8; 32], amount, gamma: from_u64(amount as u64) }
}

fn output(amount: i64) -> ProposedUTXO {
    ProposedUTXO { recip: [9; 32], amount, data: String::from("note"), locked_timestamp: None }
}

/// The session of participant 1.
fn session() -> Snowball {
    Snowball::with_seed(
        SKEY,
        key(1),
        FACILITATOR,
        vec![input(60), input(50)],
        vec![output(100)],
        10,
        [1; 32],
        [0x77; 32],
    )
}

fn member(i: u8, valid: bool) -> PoolMember {
    PoolMember { id: pid(i), txins: vec![[i; 32]], ownership_valid: valid }
}

fn started(members: Vec<PoolMember>) -> PoolNotification {
    PoolNotification::Started { session_id: FIRST_SID, participants: members }
}

fn keys() -> RoundKeys {
    RoundKeys { sig_k: [6; 32], sess_skey: [7; 32], sess_pkey: [8; 32] }
}

/// The session of participant 1 as it collects the session keys of
/// participants 2, 3 and 4.
fn collecting() -> Snowball {
    let mut sb = session();
    sb.take_actions();
    let r = sb.on_pool_notification(
        &FACILITATOR,
        started(vec![member(3, true), member(1, true), member(4, true), member(2, true)]),
    );
    assert_eq!(r, Ok(Progress::NotReady));
    sb.take_actions();
    assert_eq!(sb.on_round_keys(keys()), Ok(Progress::NotReady));
    sb
}

fn message(sb: &Snowball, from: u8, payload: SnowballPayload) -> SnowballMessage {
    SnowballMessage {
        sid: sb.session_id(),
        source: pid(from),
        destination: sb.participant_key(),
        payload,
    }
}

fn shared_keying(i: u8) -> SnowballPayload {
    SnowballPayload::SharedKeying { pkey: [i; 32], ksig: [i + 100; 32] }
}

#[test]
fn a_new_session_asks_to_join_the_pool() {
    let mut sb = session();
    assert_eq!(sb.poll_state(), PoolState::PoolWait);
    assert_eq!(sb.msg_state(), MessageState::Idle);
    assert_eq!(sb.awaiting(), Awaiting::Nothing);
    assert_eq!(sb.participant_key(), pid(1));
    assert_eq!(sb.session_id(), [0x77; 32]);
    assert_eq!(sb.session_round(), 0);
    assert!(sb.participants().is_empty());
    assert_eq!(sb.my_txouts().len(), 1);
    assert_eq!(sb.all_txins().len(), 1);
    assert_eq!(sb.all_txins()[0].txins, vec![[60u8; 32], [50u8; 32]]);
    assert_eq!(
        sb.take_actions(),
        vec![Action::SendPoolJoin {
            facilitator: FACILITATOR,
            seed: [1; 32],
            txins: vec![[60u8; 32], [50u8; 32]],
        }]
    );
    assert!(sb.take_actions().is_empty());
}

#[test]
fn a_session_draws_its_seed() {
    let a = Snowball::new(SKEY, key(1), FACILITATOR, vec![input(10)], vec![output(10)], 0);
    let b = Snowball::new(SKEY, key(1), FACILITATOR, vec![input(10)], vec![output(10)], 0);
    assert_eq!(a.participant_key().pkey, key(1));
    assert_ne!(a.participant_key().seed, b.participant_key().seed);
    assert_ne!(a.session_id(), b.session_id());
    assert_ne!(a.session_id(), a.participant_key().seed);
    assert_eq!(a.poll_state(), PoolState::PoolWait);
}

#[test]
fn funds_must_balance() {
    assert!(check_balance(&vec![input(60), input(50)], &vec![output(100)], 10));
    assert!(check_balance(&vec![], &vec![], 0));
    assert!(check_balance(&vec![input(5)], &vec![], 5));
    assert!(!check_balance(&vec![input(60), input(50)], &vec![output(100)], 9));
    assert!(!check_balance(&vec![input(60), input(50)], &vec![output(100)], 11));
    assert!(!check_balance(&vec![input(90)], &vec![output(100)], -10));
    let five: Vec<ProposedUTXO> = (0..5).map(|_| output(1)).collect();
    let six: Vec<ProposedUTXO> = (0..6).map(|_| output(1)).collect();
    assert!(check_balance(&vec![input(5)], &five, 0));
    assert!(!check_balance(&vec![input(6)], &six, 0));
}

#[test]
fn sums_that_do_not_fit_are_refused() {
    let big = i64::MAX;
    assert!(!check_balance(&vec![input(big), input(1)], &vec![output(big)], 1));
    assert!(!check_balance(&vec![input(big)], &vec![output(big), output(1)], 0));
    assert!(!check_balance(&vec![input(big)], &vec![output(big)], 1));
    assert!(check_balance(&vec![input(big)], &vec![output(big - 1)], 1));
    assert!(check_balance(&vec![input(big), input(-1)], &vec![output(big - 1)], 0));
}

#[test]
fn an_announcement_from_a_stranger_fails() {
    let mut sb = session();
    sb.take_actions();
    let r = sb.on_pool_notification(&key(9), started(vec![member(1, true), member(2, true), member(3, true)]));
    assert_eq!(r, Err(SnowballError::BadFacilitator));
    assert_eq!(sb.poll_state(), PoolState::PoolWait);
    assert_eq!(sb.session_id(), [0x77; 32]);
    assert!(sb.take_actions().is_empty());
    assert_eq!(sb.on_pool_notification(&key(9), PoolNotification::Canceled), Err(SnowballError::BadFacilitator));
    assert_eq!(sb.poll_state(), PoolState::PoolWait);
}

#[test]
fn an_announcement_without_this_participant_fails() {
    let mut sb = session();
    let r = sb.on_pool_notification(&FACILITATOR, started(vec![member(2, true), member(3, true), member(4, true)]));
    assert_eq!(r, Err(SnowballError::NotInParticipantList));
    assert_eq!(sb.poll_state(), PoolState::PoolWait);
    // the same key under another seed is another participant
    let other = PoolMember { id: ParticipantID::new(key(1), [2; 32]), txins: vec![], ownership_valid: true };
    let r = sb.on_pool_notification(&FACILITATOR, started(vec![other, member(3, true), member(4, true)]));
    assert_eq!(r, Err(SnowballError::NotInParticipantList));
}

#[test]
fn a_pool_of_two_is_too_small() {
    let mut sb = session();
    let r = sb.on_pool_notification(&FACILITATOR, started(vec![member(1, true), member(2, true)]));
    assert_eq!(r, Err(SnowballError::TooFewParticipants(2)));
}

#[test]
fn members_with_invalid_ownership_are_left_out() {
    let mut sb = session();
    let r = sb.on_pool_notification(
        &FACILITATOR,
        started(vec![member(1, true), member(2, false), member(3, true)]),
    );
    assert_eq!(r, Err(SnowballError::TooFewParticipants(2)));

    let mut sb = session();
    sb.take_actions();
    let r = sb.on_pool_notification(
        &FACILITATOR,
        started(vec![member(5, false), member(4, true), member(1, true), member(2, true), member(3, true)]),
    );
    assert_eq!(r, Ok(Progress::NotReady));
    assert_eq!(sb.participants(), &vec![pid(1), pid(2), pid(3), pid(4)]);
    assert_eq!(sb.all_txins().len(), 4);

    // this participant needs only to be listed: its own ownership is not
    // looked at
    let mut sb = session();
    let r = sb.on_pool_notification(
        &FACILITATOR,
        started(vec![member(1, false), member(2, true), member(3, false), member(4, true)]),
    );
    assert_eq!(r, Ok(Progress::NotReady));
    assert_eq!(sb.poll_state(), PoolState::PoolFormed);
    assert_eq!(sb.participants(), &vec![pid(1), pid(2), pid(4)]);
}

#[test]
fn an_announced_pool_begins_the_first_round() {
    let mut sb = session();
    sb.take_actions();
    let r = sb.on_pool_notification(
        &FACILITATOR,
        started(vec![member(3, true), member(1, true), member(2, true), member(3, true)]),
    );
    assert_eq!(r, Ok(Progress::NotReady));
    assert_eq!(sb.poll_state(), PoolState::PoolFormed);
    assert_eq!(sb.participants(), &vec![pid(1), pid(2), pid(3)]);
    assert_eq!(sb.session_round(), 1);
    let sid = session_id(&FIRST_SID, 1, &vec![pid(1), pid(2), pid(3)]);
    assert_eq!(sb.session_id(), sid);
    assert_eq!(sb.awaiting(), Awaiting::RoundKeys);
    assert_eq!(sb.msg_state(), MessageState::Idle);
    assert_eq!(
        sb.take_actions(),
        vec![Action::DeriveRoundKeys {
            round_k: from_digest(&nonce_seed(&sid, &SKEY)),
            key_seed: session_key_seed(&sid, &SKEY),
        }]
    );
}

#[test]
fn a_second_announcement_is_taken() {
    let mut sb = collecting();
    sb.take_actions();
    assert_eq!(sb.session_round(), 1);
    let r = sb.on_pool_notification(&FACILITATOR, started(vec![member(1, true), member(5, true), member(6, true)]));
    assert_eq!(r, Ok(Progress::NotReady));
    // the round that was running is given up, and the first round of the
    // new pool begins, as it does for those who are new to it
    assert_eq!(sb.session_round(), 1);
    assert_eq!(sb.session_id(), session_id(&FIRST_SID, 1, &vec![pid(1), pid(5), pid(6)]));
    assert_eq!(sb.participants(), &vec![pid(1), pid(5), pid(6)]);
    assert!(sb.pending_participants().is_empty());
    assert_eq!(sb.msg_state(), MessageState::Idle);
    assert_eq!(sb.awaiting(), Awaiting::RoundKeys);
    assert_eq!(sb.poll_state(), PoolState::PoolFormed);
    assert_eq!(sb.take_actions().len(), 1);
}

#[test]
fn a_cancel_while_rounds_run_is_put_off() {
    let mut sb = collecting();
    sb.take_actions();
    assert!(!sb.cancel_deferred());
    assert_eq!(sb.on_pool_notification(&FACILITATOR, PoolNotification::Canceled), Ok(Progress::NotReady));
    assert_eq!(sb.poll_state(), PoolState::PoolFormed);
    assert_eq!(sb.msg_state(), MessageState::SharedKeying);
    assert!(sb.cancel_deferred());
    assert!(sb.take_actions().is_empty());
    // another pool makes it void
    sb.on_pool_notification(&FACILITATOR, started(vec![member(1, true), member(2, true), member(3, true)]))
        .unwrap();
    assert!(!sb.cancel_deferred());
}

#[test]
fn an_announcement_without_this_participant_fails_wherever_the_session_stands() {
    let others = || started(vec![member(2, true), member(3, true), member(4, true)]);
    // while rounds are running
    let mut sb = collecting();
    let sid = sb.session_id();
    assert_eq!(sb.on_pool_notification(&FACILITATOR, others()), Err(SnowballError::NotInParticipantList));
    assert_eq!(sb.session_id(), sid);
    assert_eq!(sb.msg_state(), MessageState::SharedKeying);
    assert_eq!(sb.pending_participants(), &vec![pid(2), pid(3), pid(4)]);
    // while it waits for a new facilitator
    let mut sb = session();
    sb.on_pool_notification(&FACILITATOR, PoolNotification::Canceled).unwrap();
    assert_eq!(sb.on_pool_notification(&FACILITATOR, others()), Err(SnowballError::NotInParticipantList));
    assert_eq!(sb.poll_state(), PoolState::PoolRestart);
}

#[test]
fn a_pool_of_many_members_is_taken() {
    let mut sb = session();
    sb.take_actions();
    let mut members = vec![member(1, true)];
    for i in 0..299u16 {
        let mut seed = [0u8; 32];
        seed[0] = (i % 256) as u8;
        seed[1] = (i / 256) as u8;
        members.push(PoolMember { id: ParticipantID::new(key(2), seed), txins: vec![], ownership_valid: true });
    }
    assert_eq!(members.len(), 300);
    assert_eq!(sb.on_pool_notification(&FACILITATOR, started(members)), Ok(Progress::NotReady));
    assert_eq!(sb.poll_state(), PoolState::PoolFormed);
    assert_eq!(sb.participants().len(), 300);
    assert_eq!(sb.session_round(), 1);
    assert_eq!(sb.awaiting(), Awaiting::RoundKeys);
}

#[test]
fn another_pool_counts_its_rounds_anew() {
    let mut sb = collecting();
    assert_eq!(sb.session_round(), 1);
    sb.on_pool_notification(
        &FACILITATOR,
        started(vec![member(1, true), member(2, true), member(3, true)]),
    )
    .unwrap();
    assert_eq!(sb.session_round(), 1);
    assert_eq!(sb.participants(), &vec![pid(1), pid(2), pid(3)]);
}

#[test]
fn a_canceled_pool_waits_for_a_new_facilitator() {
    let mut sb = session();
    sb.take_actions();
    assert_eq!(sb.on_pool_notification(&FACILITATOR, PoolNotification::Canceled), Ok(Progress::NotReady));
    assert_eq!(sb.poll_state(), PoolState::PoolRestart);
    assert!(sb.take_actions().is_empty());
    sb.change_facilitator(key(0xf1));
    assert_eq!(sb.poll_state(), PoolState::PoolWait);
    assert_eq!(sb.facilitator(), key(0xf1));
    assert_eq!(
        sb.take_actions(),
        vec![Action::SendPoolJoin {
            facilitator: key(0xf1),
            seed: [1; 32],
            txins: vec![[60u8; 32], [50u8; 32]],
        }]
    );
    let r = sb.on_pool_notification(&FACILITATOR, PoolNotification::Canceled);
    assert_eq!(r, Err(SnowballError::BadFacilitator));
}

#[test]
fn a_new_facilitator_waits_while_rounds_are_running() {
    let mut sb = collecting();
    sb.take_actions();
    sb.change_facilitator(key(0xf1));
    assert_eq!(sb.facilitator(), FACILITATOR);
    assert!(sb.take_actions().is_empty());
    sb.change_facilitator(key(0xf2));
    assert_eq!(sb.facilitator(), FACILITATOR);
    assert_eq!(sb.poll_state(), PoolState::PoolFormed);
}

#[test]
fn session_keys_go_to_every_other_participant() {
    let mut sb = session();
    sb.take_actions();
    sb.on_pool_notification(
        &FACILITATOR,
        started(vec![member(3, true), member(1, true), member(2, true)]),
    )
    .unwrap();
    sb.take_actions();
    assert_eq!(sb.on_round_keys(keys()), Ok(Progress::NotReady));
    assert_eq!(sb.msg_state(), MessageState::SharedKeying);
    assert_eq!(sb.awaiting(), Awaiting::Nothing);
    assert_eq!(sb.participants(), &vec![pid(1)]);
    assert_eq!(sb.pending_participants(), &vec![pid(2), pid(3)]);
    assert_eq!(sb.sess_pkeys(), &vec![KeyEntry { id: pid(1), value: [8; 32] }]);
    assert_eq!(
        sb.take_actions(),
        vec![
            Action::Broadcast {
                sid: sb.session_id(),
                recipients: vec![pid(2), pid(3)],
                payload: SnowballPayload::SharedKeying { pkey: [8; 32], ksig: [6; 32] },
            },
            Action::StartTimer,
        ]
    );
    // keys that are not waited for change nothing
    assert_eq!(sb.on_round_keys(keys()), Ok(Progress::NotReady));
    assert!(sb.take_actions().is_empty());
}

#[test]
fn results_that_are_not_waited_for_change_nothing() {
    let mut sb = collecting();
    sb.take_actions();
    let sig = SchnorrSig { u: from_u64(1), k: [2; 32] };
    let material = CommitMaterial { shared: vec![], utxos: vec![vec![1; 64]], gammas: vec![] };
    assert_eq!(sb.on_commit_material(material), Ok(Progress::NotReady));
    assert_eq!(
        sb.on_supertransaction(BuiltTransaction { parsed: vec![true], sig }),
        Ok(Progress::NotReady)
    );
    assert_eq!(
        sb.on_validation(Validation { valid: true, k_sum: [3; 32] }),
        Ok(Progress::NotReady)
    );
    let verdict = Verdict { id: pid(2), balance_ok: false, range_ok: false, signature_ok: false };
    assert_eq!(sb.on_blame(&vec![verdict]), Ok(Progress::NotReady));
    assert!(sb.take_actions().is_empty());
    assert_eq!(sb.msg_state(), MessageState::SharedKeying);
    assert_eq!(sb.pending_participants(), &vec![pid(2), pid(3), pid(4)]);
    assert_eq!(sb.serialized_utxo_size(), None);
    assert_eq!(sb.poll_state(), PoolState::PoolFormed);
}

#[test]
fn messages_are_taken_from_who_is_waited_for() {
    let mut sb = collecting();
    sb.take_actions();
    let m = message(&sb, 3, shared_keying(3));
    assert_eq!(sb.on_message_received(&key(3), m.clone(), true), Ok(Progress::NotReady));
    assert_eq!(sb.participants(), &vec![pid(1), pid(3)]);
    assert_eq!(sb.pending_participants(), &vec![pid(2), pid(4)]);
    assert_eq!(
        sb.sess_pkeys(),
        &vec![KeyEntry { id: pid(1), value: [8; 32] }, KeyEntry { id: pid(3), value: [3; 32] }]
    );
    // the same again is dropped
    assert_eq!(sb.on_message_received(&key(3), m, true), Ok(Progress::NotReady));
    assert_eq!(sb.participants(), &vec![pid(1), pid(3)]);
    assert_eq!(sb.sess_pkeys().len(), 2);
    assert!(sb.take_actions().is_empty());
}

#[test]
fn messages_that_are_not_for_this_round_are_dropped() {
    let mut sb = collecting();
    sb.take_actions();
    // sent under another network key than that of its source
    let m = message(&sb, 2, shared_keying(2));
    sb.on_message_received(&key(3), m, true).unwrap();
    // for another participant
    let mut m = message(&sb, 2, shared_keying(2));
    m.destination = pid(3);
    sb.on_message_received(&key(2), m, true).unwrap();
    // under another session id
    let mut m = message(&sb, 2, shared_keying(2));
    m.sid[0] ^= 1;
    sb.on_message_received(&key(2), m, true).unwrap();
    // from who does not take part
    let m = message(&sb, 9, shared_keying(9));
    sb.on_message_received(&key(9), m, true).unwrap();
    // from this participant itself
    let m = message(&sb, 1, shared_keying(1));
    sb.on_message_received(&key(1), m, true).unwrap();
    assert_eq!(sb.participants(), &vec![pid(1)]);
    assert_eq!(sb.pending_participants(), &vec![pid(2), pid(3), pid(4)]);
    assert_eq!(sb.sess_pkeys().len(), 1);
    assert!(sb.take_actions().is_empty());
}

#[test]
fn messages_before_the_pool_are_dropped() {
    let mut sb = session();
    sb.take_actions();
    let m = message(&sb, 2, shared_keying(2));
    assert_eq!(sb.on_message_received(&key(2), m, true), Ok(Progress::NotReady));
    assert!(sb.take_actions().is_empty());
    assert_eq!(sb.handle_timer(), Ok(Progress::NotReady));
    assert_eq!(sb.poll_state(), PoolState::PoolWait);
}

#[test]
fn a_message_ahead_of_its_phase_waits() {
    let mut sb = collecting();
    sb.take_actions();
    // a commitment arrives while session keys are collected
    let early = message(&sb, 2, SnowballPayload::Commitment { cmt: [0xcc; 32] });
    sb.on_message_received(&key(2), early, true).unwrap();
    assert_eq!(sb.pending_participants(), &vec![pid(2), pid(3), pid(4)]);
    for i in [2u8, 3, 4] {
        let m = message(&sb, i, shared_keying(i));
        sb.on_message_received(&key(i), m, true).unwrap();
    }
    assert_eq!(sb.awaiting(), Awaiting::CommitMaterial);
    assert_eq!(sb.commit_phase_participants(), &vec![pid(1), pid(2), pid(3), pid(4)]);
    let actions = sb.take_actions();
    assert_eq!(actions.len(), 1);
    match &actions[0] {
        Action::PrepareCommit { sess_skey, peers } => {
            assert_eq!(*sess_skey, [7; 32]);
            assert_eq!(peers.len(), 4);
        }
        other => panic!("unexpected action {:?}", other),
    }
    let shared = (2..=4).map(|i| KeyEntry { id: pid(i), value: [i; 32] }).collect();
    let material = CommitMaterial { shared, utxos: vec![vec![0x55; 70]], gammas: vec![from_u64(3)] };
    sb.on_commit_material(material).unwrap();
    // the commitment that waited has been taken
    assert_eq!(sb.msg_state(), MessageState::Commitment);
    assert_eq!(sb.participants(), &vec![pid(1), pid(2)]);
    assert_eq!(sb.pending_participants(), &vec![pid(3), pid(4)]);
    assert_eq!(sb.serialized_utxo_size(), Some(70));
    assert_eq!(sb.contributions().len(), 1);
    assert_eq!(sb.contributions()[0].matrix.len(), 4 * 5 * 3 * 32);
}

#[test]
fn the_timer_leaves_out_who_has_not_answered() {
    let mut sb = collecting();
    sb.take_actions();
    for i in [2u8, 4] {
        let m = message(&sb, i, shared_keying(i));
        sb.on_message_received(&key(i), m, true).unwrap();
    }
    assert_eq!(sb.handle_timer(), Ok(Progress::NotReady));
    assert_eq!(sb.msg_state(), MessageState::Idle);
    assert_eq!(sb.awaiting(), Awaiting::CommitMaterial);
    assert_eq!(sb.commit_phase_participants(), &vec![pid(1), pid(2), pid(4)]);
    assert!(sb.pending_participants().is_empty());
    // the timer once more does nothing
    sb.take_actions();
    assert_eq!(sb.handle_timer(), Ok(Progress::NotReady));
    assert!(sb.take_actions().is_empty());
    // who comes late is dropped
    let m = message(&sb, 3, shared_keying(3));
    sb.on_message_received(&key(3), m, true).unwrap();
    assert_eq!(sb.participants(), &vec![pid(1), pid(2), pid(4)]);
}

#[test]
fn the_timer_with_too_few_answers_ends_the_session() {
    let mut sb = collecting();
    let m = message(&sb, 2, shared_keying(2));
    sb.on_message_received(&key(2), m, true).unwrap();
    assert_eq!(sb.handle_timer(), Err(SnowballError::TooFewParticipants(2)));
}

#[test]
fn network_keys_compare_byte_by_byte() {
    assert!(same_key(&key(1), &key(1)));
    assert!(!same_key(&key(1), &key(2)));
    let mut k = key(1);
    k[64] = 0;
    assert!(!same_key(&key(1), &k));
}

#[test]
fn a_wiped_session_holds_no_secret() {
    let mut sb = session();
    sb.take_actions();
    sb.wipe();
    assert_eq!(sb.poll_state(), PoolState::PoolWait);
    let r = sb.on_pool_notification(
        &FACILITATOR,
        started(vec![member(1, true), member(2, true), member(3, true)]),
    );
    assert_eq!(r, Ok(Progress::NotReady));
    let sid = sb.session_id();
    // the seeds are made of the zero secret now
    assert_eq!(
        sb.take_actions(),
        vec![Action::DeriveRoundKeys {
            round_k: from_digest(&nonce_seed(&sid, &[0; 32])),
            key_seed: session_key_seed(&sid, &[0; 32]),
        }]
    );
}

#[test]
fn a_round_that_begins_anew_forgets_its_keys() {
    let mut sb = collecting();
    for i in [2u8, 3, 4] {
        let m = message(&sb, i, shared_keying(i));
        sb.on_message_received(&key(i), m, true).unwrap();
    }
    let shared = (2..=4).map(|i| KeyEntry { id: pid(i), value: [i; 32] }).collect();
    let material = CommitMaterial { shared, utxos: vec![vec![0x55; 64]], gammas: vec![from_u64(3)] };
    sb.on_commit_material(material).unwrap();
    for i in [2u8, 3, 4] {
        let m = message(&sb, i, SnowballPayload::Commitment { cmt: [i; 32] });
        sb.on_message_received(&key(i), m, true).unwrap();
    }
    assert_eq!(sb.msg_state(), MessageState::CloakedVals);
    let first = sb.session_id();
    // nobody opens: three are needed, one is left
    assert_eq!(sb.handle_timer(), Err(SnowballError::TooFewParticipants(1)));
    assert_eq!(sb.session_id(), first);
    assert_eq!(sb.session_round(), 1);
}

#[test]
fn a_pool_announced_after_a_cancel_is_taken() {
    let mut sb = session();
    sb.take_actions();
    sb.on_pool_notification(&FACILITATOR, PoolNotification::Canceled).unwrap();
    assert_eq!(sb.poll_state(), PoolState::PoolRestart);
    let r = sb.on_pool_notification(
        &FACILITATOR,
        started(vec![member(1, true), member(2, true), member(3, true)]),
    );
    assert_eq!(r, Ok(Progress::NotReady));
    assert_eq!(sb.poll_state(), PoolState::PoolFormed);
    assert_eq!(sb.participants(), &vec![pid(1), pid(2), pid(3)]);
    assert_eq!(sb.session_round(), 1);
    assert_eq!(sb.awaiting(), Awaiting::RoundKeys);
}

#[test]
fn session_keys_with_an_invalid_point_are_not_kept() {
    let mut sb = collecting();
    sb.take_actions();
    let m = message(&sb, 3, shared_keying(3));
    assert_eq!(sb.on_message_received(&key(3), m, false), Ok(Progress::NotReady));
    // the sender is waited for no longer, and does not take part
    assert_eq!(sb.participants(), &vec![pid(1)]);
    assert_eq!(sb.pending_participants(), &vec![pid(2), pid(4)]);
    assert_eq!(sb.sess_pkeys().len(), 1);
    for i in [2u8, 4] {
        let m = message(&sb, i, shared_keying(i));
        sb.on_message_received(&key(i), m, true).unwrap();
    }
    assert_eq!(sb.commit_phase_participants(), &vec![pid(1), pid(2), pid(4)]);
}

/// The session of participant 1 as it collects what participants 2, 3 and
/// 4 open.
fn opening() -> Snowball {
    let mut sb = collecting();
    for i in [2u8, 3, 4] {
        let m = message(&sb, i, shared_keying(i));
        sb.on_message_received(&key(i), m, true).unwrap();
    }
    let shared = (2..=4).map(|i| KeyEntry { id: pid(i), value: [i; 32] }).collect();
    let material = CommitMaterial { shared, utxos: vec![vec![0x55; 64]], gammas: vec![from_u64(3)] };
    sb.on_commit_material(material).unwrap();
    for i in [2u8, 3, 4] {
        let m = message(&sb, i, SnowballPayload::Commitment { cmt: [i; 32] });
        sb.on_message_received(&key(i), m, true).unwrap();
    }
    assert_eq!(sb.msg_state(), MessageState::CloakedVals);
    sb.take_actions();
    sb
}

fn bogus(sb: &Snowball) -> SnowballPayload {
    SnowballPayload::CloakedVals {
        matrix: vec![0; sb.contributions()[0].matrix.len()],
        gamma_sum: [0; 32],
        fee_sum: [0; 32],
        cloaks: vec![],
    }
}

#[test]
fn what_was_not_committed_to_leaves_the_round_to_the_timer() {
    let mut sb = opening();
    for i in [2u8, 3, 4] {
        let m = message(&sb, i, bogus(&sb));
        assert_eq!(sb.on_message_received(&key(i), m, true), Ok(Progress::NotReady));
        assert_eq!(sb.participants(), &vec![pid(1)]);
        assert_eq!(sb.contributions().len(), 1);
    }
    // nobody is waited for, and yet the round has not gone on
    assert!(sb.pending_participants().is_empty());
    assert_eq!(sb.msg_state(), MessageState::CloakedVals);
    assert_eq!(sb.awaiting(), Awaiting::Nothing);
    assert_eq!(sb.session_round(), 1);
    assert!(sb.take_actions().is_empty());
    assert_eq!(sb.handle_timer(), Err(SnowballError::TooFewParticipants(1)));
}

#[test]
fn messages_whose_phase_has_come_are_discarded() {
    let mut sb = collecting();
    sb.take_actions();
    // two commitments come early: one from a participant, one from a stranger
    let early = message(&sb, 2, SnowballPayload::Commitment { cmt: [0xcc; 32] });
    sb.on_message_received(&key(2), early, true).unwrap();
    let strange = message(&sb, 9, SnowballPayload::Commitment { cmt: [0xdd; 32] });
    sb.on_message_received(&key(9), strange, true).unwrap();
    // and a signature, which is for a phase further on
    let sig = SchnorrSig { u: from_u64(1), k: [2; 32] };
    let later = message(&sb, 3, SnowballPayload::Signature { sig });
    sb.on_message_received(&key(3), later, true).unwrap();
    assert_eq!(sb.queued(), 3);
    for i in [2u8, 3, 4] {
        let m = message(&sb, i, shared_keying(i));
        sb.on_message_received(&key(i), m, true).unwrap();
    }
    assert_eq!(sb.queued(), 3);
    let shared = (2..=4).map(|i| KeyEntry { id: pid(i), value: [i; 32] }).collect();
    let material = CommitMaterial { shared, utxos: vec![vec![0x55; 64]], gammas: vec![from_u64(3)] };
    sb.on_commit_material(material).unwrap();
    // the commitment of the participant was taken, that of the stranger
    // discarded; the signature still waits
    assert_eq!(sb.msg_state(), MessageState::Commitment);
    assert_eq!(sb.participants(), &vec![pid(1), pid(2)]);
    assert_eq!(sb.queued(), 1);
}

#[test]
fn an_input_without_a_blinding_factor_is_refused() {
    let blind = OwnedInput { hash: [1; 32], amount: 10, gamma: [0; 32] };
    assert!(!check_balance(&vec![blind], &vec![output(10)], 0));
    // the order of the group stands for zero
    let order = [
        0xed, 0xd3, 0xf5, 0x5c, 0x1a, 0x63, 0x12, 0x58, 0xd6, 0x9c, 0xf7, 0xa2, 0xde, 0xf9, 0xde,
        0x14, 0, 0, 0, 0, 0, 0, 0, 0, 0, 0, 0, 0, 0, 0, 0, 0x10,
    ];
    let blind = OwnedInput { hash: [1; 32], amount: 10, gamma: order };
    assert!(!check_balance(&vec![blind], &vec![output(10)], 0));
    assert!(check_balance(&vec![input(10)], &vec![output(10)], 0));
}
