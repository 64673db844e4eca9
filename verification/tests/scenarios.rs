use snowball::blame::{judge, read_contribution};
use snowball::error::SnowballError;
use snowball::hashing::{hash_bytes, session_id, Digest};
use snowball::leader::leader_id;
use snowball::message::{MessageState, SchnorrSig, SnowballMessage, SnowballPayload};
use snowball::participant::{sort_dedup, ParticipantID};
use snowball::scalar::{add, from_digest, from_u64, zero};
use snowball::session::Snowball;
use snowball::types::{
    Action, Awaiting, BuiltTransaction, CommitMaterial, KeyEntry, NetworkKey, OwnedInput,
    PoolMember, PoolNotification, PoolState, Progress, ProposedUTXO, RoundKeys, SnowballOutput,
    Validation, Verdict,
};
use std::collections::VecDeque;

const FACILITATOR: NetworkKey = [0xf0; 65];
const FIRST_SID: Digest = [0x42; 32];
const UTXO_SIZE: usize = 64;
const MARKER: u8 = 0x55;

/// What a node does wrong, if anything.
#[derive(Clone, Copy, PartialEq)]
enum Fault {
    Honest,
    /// Falls silent instead of sending a payload of this kind.
    DropsBefore(MessageState),
    /// Opens a matrix that is not the one it committed to.
    OpensOther,
    /// Puts an output with an invalid range proof into its matrix.
    Forges,
}

struct Node {
    sb: Snowball,
    key: NetworkKey,
    index: u8,
    fault: Fault,
    alive: bool,
    sig_k: [u8; 32],
    result: Option<Result<SnowballOutput, SnowballError>>,
    sent: Vec<MessageState>,
    /// How many validations to come are found invalid whatever is held.
    rejects: u32,
}

struct Net {
    /// Every row is told to be an output, whatever it holds.
    sloppy: bool,
    nodes: Vec<Node>,
    wire: VecDeque<(NetworkKey, ParticipantID, SnowballMessage)>,
    joins: Vec<(NetworkKey, [u8; 32], Vec<Digest>)>,
}

fn key_of(index: u8) -> NetworkKey {
    [index + 1; 65]
}

fn xor32(a: &[u8; 32], b: &[u8; 32]) -> [u8; 32] {
    let mut out = [0u8; 32];
    for i in 0..32 {
        out[i] = a[i] ^ b[i];
    }
    out
}

/// A serialized output of the node `owner`: a marker, the owner, whether
/// its range proof is valid, and filler.
fn utxo(owner: u8, round: u16, good: bool) -> Vec<u8> {
    let mut out = vec![MARKER, owner, if good { 1 } else { 0 }, round as u8];
    out.extend((4..UTXO_SIZE).map(|i| owner.wrapping_mul(31).wrapping_add(i as u8)));
    out
}

fn parses(row: &[u8]) -> bool {
    row.len() == UTXO_SIZE && row[0] == MARKER
}

fn new_node(index: u8, fault: Fault) -> Node {
    let inputs = vec![OwnedInput {
        hash: [0x10 + index; 32],
        amount: 100,
        gamma: from_u64(1000 + index as u64),
    }];
    let outputs = vec![ProposedUTXO {
        recip: [0x20 + index; 32],
        amount: 90,
        data: String::new(),
        locked_timestamp: None,
    }];
    let sb = Snowball::with_seed(
        [0x30 + index; 32],
        key_of(index),
        FACILITATOR,
        inputs,
        outputs,
        10,
        [0; 32],
        [0x99; 32],
    );
    Node {
        sb,
        key: key_of(index),
        index,
        fault,
        alive: true,
        sig_k: [0; 32],
        result: None,
        sent: Vec::new(),
        rejects: 0,
    }
}

fn lookup(entries: &Vec<KeyEntry>, id: &ParticipantID) -> [u8; 32] {
    entries.iter().find(|e| e.id == *id).expect("an entry for the participant").value
}

impl Net {
    fn new(faults: &[Fault]) -> Net {
        let nodes = faults.iter().enumerate().map(|(i, f)| new_node(i as u8, *f)).collect();
        let mut net = Net { sloppy: false, nodes, wire: VecDeque::new(), joins: Vec::new() };
        for i in 0..net.nodes.len() {
            net.perform(i);
        }
        net
    }

    fn note(&mut self, i: usize, r: Result<Progress, SnowballError>) {
        match r {
            Ok(Progress::NotReady) => {}
            Ok(Progress::Ready(out)) => self.nodes[i].result = Some(Ok(out)),
            Err(e) => {
                self.nodes[i].result = Some(Err(e));
                self.nodes[i].alive = false;
            }
        }
    }

    /// Does what the node at `i` asks for, until it asks for nothing.
    fn perform(&mut self, i: usize) {
        loop {
            let actions = self.nodes[i].sb.take_actions();
            if actions.is_empty() || !self.nodes[i].alive {
                return;
            }
            for action in actions {
                if !self.nodes[i].alive {
                    return;
                }
                self.act(i, action);
            }
        }
    }

    fn act(&mut self, i: usize, action: Action) {
        match action {
            Action::SendPoolJoin { facilitator, seed, txins } => {
                assert_eq!(facilitator, FACILITATOR);
                self.joins.push((self.nodes[i].key, seed, txins));
            }
            Action::StartTimer | Action::StopTimer => {}
            Action::Broadcast { sid, recipients, payload } => {
                let kind = payload.kind();
                if let Fault::DropsBefore(k) = self.nodes[i].fault {
                    if k == kind {
                        self.nodes[i].alive = false;
                        return;
                    }
                }
                self.nodes[i].sent.push(kind);
                let payload = match (self.nodes[i].fault, payload) {
                    (
                        Fault::OpensOther,
                        SnowballPayload::CloakedVals { mut matrix, gamma_sum, fee_sum, cloaks },
                    ) => {
                        matrix[0] ^= 0xff;
                        SnowballPayload::CloakedVals { matrix, gamma_sum, fee_sum, cloaks }
                    }
                    (_, p) => p,
                };
                let source = self.nodes[i].sb.participant_key();
                for to in recipients {
                    let msg = SnowballMessage {
                        sid,
                        source,
                        destination: to,
                        payload: payload.clone(),
                    };
                    self.wire.push_back((self.nodes[i].key, to, msg));
                }
            }
            Action::DeriveRoundKeys { round_k, key_seed } => {
                let sig_k = hash_bytes(&round_k.to_vec());
                self.nodes[i].sig_k = sig_k;
                let keys = RoundKeys { sig_k, sess_skey: key_seed, sess_pkey: key_seed };
                let r = self.nodes[i].sb.on_round_keys(keys);
                self.note(i, r);
            }
            Action::PrepareCommit { sess_skey, peers } => {
                let me = self.nodes[i].sb.participant_key();
                let shared = peers
                    .iter()
                    .filter(|p| p.id != me)
                    .map(|p| KeyEntry { id: p.id, value: xor32(&sess_skey, &p.value) })
                    .collect();
                let round = self.nodes[i].sb.session_round();
                let good = self.nodes[i].fault != Fault::Forges;
                let material = CommitMaterial {
                    shared,
                    utxos: vec![utxo(self.nodes[i].index, round, good)],
                    gammas: vec![from_u64(7 + self.nodes[i].index as u64)],
                };
                let r = self.nodes[i].sb.on_commit_material(material);
                self.note(i, r);
            }
            Action::BuildSuperTransaction { rows, round_k, signing_skey, own_intact, .. } => {
                assert_eq!(signing_skey, [0x30 + self.nodes[i].index; 32]);
                assert!(own_intact);
                let parsed = rows.iter().map(|r| self.sloppy || parses(r)).collect();
                let sig = SchnorrSig { u: round_k, k: self.nodes[i].sig_k };
                let r = self.nodes[i].sb.on_supertransaction(BuiltTransaction { parsed, sig });
                self.note(i, r);
            }
            Action::ValidateTransaction { signatures, u_sum } => {
                let tx = self.nodes[i].sb.transaction().clone();
                let mut valid = tx.outputs.iter().all(|o| o[2] == 1)
                    && signatures.len() == self.nodes[i].sb.commit_phase_participants().len();
                if self.nodes[i].rejects > 0 {
                    self.nodes[i].rejects -= 1;
                    valid = false;
                }
                // the scalars of the parts come summed
                let mut u = zero();
                for s in &signatures {
                    u = add(&u, &s.u);
                }
                assert_eq!(u_sum, u);
                assert_eq!(tx.sig.u, u);
                // points are summed here: the test adds them bit by bit
                let mut k_sum = [0u8; 32];
                for s in &signatures {
                    k_sum = xor32(&k_sum, &s.k);
                }
                let r = self.nodes[i].sb.on_validation(Validation { valid, k_sum });
                self.note(i, r);
            }
            Action::AssignBlame { skeys } => {
                let verdicts = self.check_contributions(i, &skeys);
                let r = self.nodes[i].sb.on_blame(&verdicts);
                self.note(i, r);
            }
        }
    }

    /// Reads each participant's contribution with its revealed secret, and
    /// looks at the outputs that come out.
    fn check_contributions(&self, i: usize, skeys: &Vec<KeyEntry>) -> Vec<Verdict> {
        let sb = &self.nodes[i].sb;
        let list = sb.commit_phase_participants().clone();
        let sid = sb.session_id();
        let mut verdicts = Vec::new();
        for p in list.iter() {
            let shared: Option<Vec<KeyEntry>> = skeys.iter().find(|e| e.id == *p).map(|e| {
                list.iter()
                    .filter(|q| *q != p)
                    .map(|q| KeyEntry { id: *q, value: xor32(&e.value, &lookup(sb.sess_pkeys(), q)) })
                    .collect()
            });
            let read = read_contribution(
                &list,
                sb.contributions(),
                p,
                &shared,
                &sid,
                sb.serialized_utxo_size(),
                sb.dicemix_nbr_utxo_chunks(),
            );
            let verdict = match read {
                Ok((rows, gamma, fee)) => {
                    let owner = rows.first().map(|r| r[1]).unwrap_or(0);
                    let balance_ok = gamma
                        == snowball::scalar::sub(
                            &from_u64(1000 + owner as u64),
                            &from_u64(7 + owner as u64),
                        )
                        && fee == from_u64(10);
                    let parsed: Vec<bool> = rows.iter().map(|r| parses(r)).collect();
                    let ranges_ok = rows.iter().all(|r| !parses(r) || r[2] == 1);
                    judge(p, &parsed, balance_ok, ranges_ok, true)
                }
                Err(failed) => failed,
            };
            verdicts.push(verdict);
        }
        verdicts
    }

    /// The facilitator announces the pool to every node.
    fn announce(&mut self) {
        let members: Vec<PoolMember> = self
            .joins
            .iter()
            .map(|(key, seed, txins)| PoolMember {
                id: ParticipantID::new(*key, *seed),
                txins: txins.clone(),
                ownership_valid: true,
            })
            .collect();
        for i in 0..self.nodes.len() {
            let info = PoolNotification::Started {
                session_id: FIRST_SID,
                participants: members.clone(),
            };
            let r = self.nodes[i].sb.on_pool_notification(&FACILITATOR, info);
            self.note(i, r);
            self.perform(i);
        }
    }

    /// Delivers the first message on the wire.
    fn run_one(&mut self) {
        if let Some((from, to, msg)) = self.wire.pop_front() {
            let i = match self.nodes.iter().position(|n| n.sb.participant_key() == to) {
                Some(i) => i,
                None => return,
            };
            if !self.nodes[i].alive || self.nodes[i].result.is_some() {
                return;
            }
            let r = self.nodes[i].sb.on_message_received(&from, msg, true);
            self.note(i, r);
            self.perform(i);
        }
    }

    /// Delivers what is on the wire, and what is sent meanwhile.
    fn run(&mut self) {
        while !self.wire.is_empty() {
            self.run_one();
        }
    }

    /// The timer of every node that still waits runs out.
    fn time_out(&mut self) {
        for i in 0..self.nodes.len() {
            if self.nodes[i].alive && self.nodes[i].result.is_none() {
                let r = self.nodes[i].sb.handle_timer();
                self.note(i, r);
                self.perform(i);
            }
        }
    }

    fn output(&self, i: usize) -> &SnowballOutput {
        match &self.nodes[i].result {
            Some(Ok(out)) => out,
            Some(Err(e)) => panic!("node {} failed: {:?}", i, e),
            None => panic!(
                "node {} is not done: collecting {:?}, awaiting {:?}",
                i,
                self.nodes[i].sb.msg_state(),
                self.nodes[i].sb.awaiting()
            ),
        }
    }
}

/// The session id that the last round of `honest` began from: each round
/// begins from the session id of the round before, the first from the
/// announced one.
fn session_before(net: &Net, honest: &[u8], round: u16) -> Digest {
    let everyone: Vec<u8> = (0..net.nodes.len() as u8).collect();
    let mut sid = FIRST_SID;
    let mut r = 1;
    let mut list: Vec<u8> = everyone;
    while r < round {
        sid = session_id(&sid, r, &ids(&list));
        r += 1;
        if r == round {
            list = honest.to_vec();
        } else {
            // one leaves in each round that is abandoned
            list.pop();
        }
    }
    sid
}

fn ids(indices: &[u8]) -> Vec<ParticipantID> {
    indices.iter().map(|i| ParticipantID::new(key_of(*i), [0; 32])).collect()
}

/// The honest nodes at `honest` have all finished with the same
/// transaction, made of their outputs of round `round`.
fn assert_mixed(net: &Net, honest: &[u8], round: u16) {
    let first = net.output(honest[0] as usize).tx.clone();
    let mut outputs = first.outputs.clone();
    outputs.sort();
    let mut expected: Vec<Vec<u8>> = honest.iter().map(|i| utxo(*i, round, true)).collect();
    expected.sort();
    assert_eq!(outputs, expected);
    let mut inputs = first.txins.clone();
    inputs.sort();
    let expected_inputs: Vec<Digest> = honest.iter().map(|i| [0x10 + *i; 32]).collect();
    assert_eq!(inputs, expected_inputs);
    assert_eq!(first.fee, 10 * honest.len() as i64);
    let mut gamma = zero();
    for i in honest {
        gamma = add(&gamma, &snowball::scalar::sub(&from_u64(1000 + *i as u64), &from_u64(7 + *i as u64)));
    }
    assert_eq!(first.gamma_adj, gamma);
    // the signature: the sum of the nonces, and the sum of their points
    let mut u = zero();
    let mut k = [0u8; 32];
    for i in honest {
        let sid = session_id(&session_before(net, honest, round), round, &ids(honest));
        let nonce = from_digest(&snowball::hashing::nonce_seed(&sid, &[0x30 + *i; 32]));
        u = add(&u, &nonce);
        k = xor32(&k, &hash_bytes(&nonce.to_vec()));
    }
    assert_eq!(first.sig, SchnorrSig { u, k });
    let leader = leader_id(&ids(honest)).unwrap();
    let mut leaders = 0;
    for i in honest {
        let out = net.output(*i as usize);
        assert_eq!(out.tx, first);
        let sb = &net.nodes[*i as usize].sb;
        assert_eq!(out.is_leader, sb.participant_key() == leader);
        if out.is_leader {
            leaders += 1;
        }
        assert_eq!(sb.poll_state(), PoolState::PoolFinished);
        assert_eq!(sb.msg_state(), MessageState::Idle);
        assert_eq!(sb.awaiting(), Awaiting::Nothing);
        assert_eq!(sort_dedup(sb.participants()), ids(honest));
    }
    assert_eq!(leaders, 1);
}

#[test]
fn three_honest_participants_finish_in_one_round() {
    let mut net = Net::new(&[Fault::Honest; 3]);
    net.announce();
    net.run();
    assert_mixed(&net, &[0, 1, 2], 1);
    for n in &net.nodes {
        assert_eq!(
            n.sent,
            vec![
                MessageState::SharedKeying,
                MessageState::Commitment,
                MessageState::CloakedVals,
                MessageState::Signature
            ]
        );
    }
}

#[test]
fn first_round_runs_under_the_hash_of_the_announced_id() {
    let mut net = Net::new(&[Fault::Honest; 3]);
    net.announce();
    let expected = session_id(&FIRST_SID, 1, &ids(&[2, 0, 1]));
    for n in &net.nodes {
        assert_eq!(n.sb.session_id(), expected);
        assert_eq!(n.sb.session_round(), 1);
    }
}

#[test]
fn eight_honest_participants_finish_in_one_round() {
    let mut net = Net::new(&[Fault::Honest; 8]);
    net.announce();
    net.run();
    assert_mixed(&net, &[0, 1, 2, 3, 4, 5, 6, 7], 1);
}

#[test]
fn one_drops_before_commitment() {
    let mut faults = [Fault::Honest; 4];
    faults[3] = Fault::DropsBefore(MessageState::Commitment);
    let mut net = Net::new(&faults);
    net.announce();
    net.run();
    // the three wait for the commitment of the fourth
    for i in 0..3 {
        assert!(net.nodes[i].result.is_none());
        assert_eq!(net.nodes[i].sb.msg_state(), MessageState::Commitment);
        assert_eq!(net.nodes[i].sb.pending_participants(), &ids(&[3]));
        assert_eq!(net.nodes[i].sb.commit_phase_participants(), &ids(&[0, 1, 2, 3]));
    }
    net.time_out();
    net.run();
    assert_mixed(&net, &[0, 1, 2], 2);
    for i in 0..3 {
        // abandoned: commitment and opening of round one; then a whole round
        assert_eq!(net.nodes[i].sent.len(), 3 + 4);
        assert_eq!(net.nodes[i].sb.commit_phase_participants(), &ids(&[0, 1, 2]));
    }
}

#[test]
fn one_drops_before_cloaked_vals() {
    let mut faults = [Fault::Honest; 4];
    faults[1] = Fault::DropsBefore(MessageState::CloakedVals);
    let mut net = Net::new(&faults);
    net.announce();
    net.run();
    for i in [0, 2, 3] {
        assert!(net.nodes[i].result.is_none());
        assert_eq!(net.nodes[i].sb.msg_state(), MessageState::CloakedVals);
        assert_eq!(net.nodes[i].sb.pending_participants(), &ids(&[1]));
        assert_eq!(net.nodes[i].sb.session_round(), 1);
    }
    net.time_out();
    // the round has begun anew; what was committed and opened is dropped
    for i in [0, 2, 3] {
        assert_eq!(net.nodes[i].sb.session_round(), 2);
        assert_eq!(sort_dedup(net.nodes[i].sb.participants()).len() + net.nodes[i].sb.pending_participants().len(), 3);
    }
    net.run();
    assert_mixed(&net, &[0, 2, 3], 2);
}

#[test]
fn one_opens_what_it_did_not_commit_to() {
    let mut faults = [Fault::Honest; 4];
    faults[2] = Fault::OpensOther;
    let mut net = Net::new(&faults);
    net.announce();
    net.run();
    assert_mixed(&net, &[0, 1, 3], 2);
    // no timer was needed, and no blame
    for i in [0, 1, 3] {
        assert!(!net.nodes[i].sent.contains(&MessageState::SecretKeying));
    }
    assert!(net.nodes[2].result.is_none());
}

#[test]
fn one_forges_an_output() {
    let mut faults = [Fault::Honest; 4];
    faults[0] = Fault::Forges;
    let mut net = Net::new(&faults);
    net.announce();
    net.run();
    assert_mixed(&net, &[1, 2, 3], 2);
    // the checks of the forger find the fault in its own contribution: it
    // is not among those who go on
    assert_eq!(net.nodes[0].result, Some(Err(SnowballError::NotInParticipantList)));
    assert_eq!(net.nodes[0].sb.session_round(), 1);
    assert_eq!(net.nodes[0].sb.participants().len(), 4);
    for i in [1, 2, 3] {
        assert_eq!(
            net.nodes[i].sent,
            vec![
                MessageState::SharedKeying,
                MessageState::Commitment,
                MessageState::CloakedVals,
                MessageState::Signature,
                MessageState::SecretKeying,
                MessageState::SharedKeying,
                MessageState::Commitment,
                MessageState::CloakedVals,
                MessageState::Signature
            ]
        );
    }
}

#[test]
fn two_of_four_drop_and_too_few_are_left() {
    let mut faults = [Fault::Honest; 4];
    faults[0] = Fault::DropsBefore(MessageState::Commitment);
    faults[1] = Fault::DropsBefore(MessageState::Commitment);
    let mut net = Net::new(&faults);
    net.announce();
    net.run();
    net.time_out();
    net.run();
    for i in [2, 3] {
        match &net.nodes[i].result {
            Some(Err(SnowballError::TooFewParticipants(n))) => assert_eq!(*n, 2),
            _ => panic!("expected too few participants"),
        }
    }
}

#[test]
fn rounds_shrink_until_too_few_are_left() {
    // five begin; one leaves in each of the first two rounds
    let mut faults = [Fault::Honest; 5];
    faults[4] = Fault::DropsBefore(MessageState::CloakedVals);
    let mut net = Net::new(&faults);
    net.announce();
    net.run();
    net.time_out();
    for i in 0..4 {
        // five began: rounds begun and the count of the last are within
        // the first count and one
        let sb = &net.nodes[i].sb;
        assert_eq!(sb.session_round(), 2);
        assert_eq!(sb.participants().len() + sb.pending_participants().len(), 4);
    }
    net.nodes[3].alive = false;
    net.run();
    net.time_out();
    net.run();
    net.time_out();
    net.run();
    for i in 0..3 {
        assert_eq!(net.nodes[i].sb.commit_phase_participants().len(), 3);
    }
    assert_mixed(&net, &[0, 1, 2], 3);
}

#[test]
fn padding_leaves_even_where_every_row_is_told_to_be_an_output() {
    let mut net = Net::new(&[Fault::Honest; 4]);
    net.sloppy = true;
    net.announce();
    net.run();
    assert_mixed(&net, &[0, 1, 2, 3], 1);
    for n in &net.nodes {
        assert_eq!(n.sb.transaction().outputs.len(), 4);
    }
}

#[test]
fn blame_that_finds_no_fault_ends_the_session() {
    // every node finds the transaction invalid, and the checks find no
    // fault in anyone: as many would take part again, so no round begins
    let mut net = Net::new(&[Fault::Honest; 3]);
    for n in net.nodes.iter_mut() {
        n.rejects = 1;
    }
    net.announce();
    net.run();
    for n in &net.nodes {
        assert!(n.sent.contains(&MessageState::SecretKeying));
        assert_eq!(n.result, Some(Err(SnowballError::NobodyToBlame)));
        assert_eq!(n.sb.session_round(), 1);
        assert_eq!(n.sb.participants().len(), 3);
        assert_eq!(n.sb.awaiting(), Awaiting::Nothing);
    }
}

#[test]
fn a_new_facilitator_takes_over_when_the_session_is_over() {
    let mut net = Net::new(&[Fault::Honest; 3]);
    net.announce();
    net.nodes[0].sb.change_facilitator([0xf1; 65]);
    assert_eq!(net.nodes[0].sb.facilitator(), FACILITATOR);
    net.run();
    assert_mixed(&net, &[0, 1, 2], 1);
    assert_eq!(net.nodes[0].sb.facilitator(), [0xf1; 65]);
    assert_eq!(net.nodes[1].sb.facilitator(), FACILITATOR);
}

#[test]
fn messages_travel_as_bytes() {
    // every message of a round of three goes through its bytes
    let mut net = Net::new(&[Fault::Honest; 3]);
    net.announce();
    let mut count = 0;
    while let Some((from, to, msg)) = net.wire.pop_front() {
        let bytes = msg.into_buffer().unwrap();
        let read = SnowballMessage::from_buffer(&bytes).unwrap();
        assert_eq!(read, msg);
        net.wire.push_front((from, to, read));
        net.run_one();
        count += 1;
    }
    assert_eq!(count, 3 * 2 * 4);
    assert_mixed(&net, &[0, 1, 2], 1);
}
