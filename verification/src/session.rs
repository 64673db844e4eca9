//! The session: one participant's part in mixing one transaction.
//!
//! A session takes events (a notice from the facilitator, a message from
//! a peer, the timer, the result of outside work) and answers each with a
//! new state and with actions for its caller. Each method does what the
//! function of the same event in [`crate::model`] says.

use crate::bytes::{compare_bytes, Position};
use crate::dicemix::{
    contribution_views, dc_decode, dc_encode_scalar, dc_scalar_open, encode_matrix, find_cloak,
    rows_of, split_rows, Cloak, Contribution, matrix_fits, matrix_size,
};
use crate::error::SnowballError;
use crate::hashing::{hash_data, nonce_seed, same_hash, session_id, session_key_seed, Digest};
use crate::leader::leader_id;
use crate::lists::{
    copy_rows, copy_vec, derive_cloaks, find_key, gather_keys, gather_sigs, gather_txins,
    have_all_signed, is_listed, keep_members, list_convicted, select_cloaks, select_parsed,
    sum_scalars, sum_sig_scalars,
};
use crate::message::{MessageState, PayloadView, SchnorrSig, SnowballMessage, SnowballPayload};
use crate::model;
use crate::model::{going, Outcome, State, Step};
use crate::participant::{contains, exclude, same_set, sort_dedup, ParticipantID};
use crate::scalar::Scalar;
use crate::sound;
use crate::sound::inv;
use crate::types::{
    action_views, envelope_views, member_views, txin_views, Action, ActionView, Awaiting,
    BuiltTransaction, CommitMaterial, Envelope, EnvelopeView, KeyEntry, NetworkKey, OwnedInput,
    PoolNotification, PoolState, Progress, ProposedUTXO, RoundKeys, SigEntry, SnowballOutput,
    SuperTransaction, TxinEntry, Validation, Verdict,
};
use vstd::prelude::*;

verus! {

/// One participant's session.
pub struct Snowball {
    signing_skey: [u8; 32],
    facilitator: NetworkKey,
    future_facilitator: Option<NetworkKey>,
    poll_state: PoolState,
    participant_key: ParticipantID,
    participants: Vec<ParticipantID>,
    pending_participants: Vec<ParticipantID>,
    my_txins: Vec<Digest>,
    my_txouts: Vec<ProposedUTXO>,
    my_fee: i64,
    txin_gamma_sum: Scalar,
    msg_queue: Vec<Envelope>,
    session_round: u16,
    session_id: Digest,
    round_size: usize,
    first_count: usize,
    my_round_k: Scalar,
    sess_skey: [u8; 32],
    sig_k_vals: Vec<KeyEntry>,
    sess_pkeys: Vec<KeyEntry>,
    commits: Vec<KeyEntry>,
    sess_skeys: Vec<KeyEntry>,
    all_txins: Vec<TxinEntry>,
    serialized_utxo_size: Option<usize>,
    dicemix_nbr_utxo_chunks: Option<usize>,
    k_cloaks: Vec<Cloak>,
    my_utxos: Vec<Vec<u8>>,
    contributions: Vec<Contribution>,
    commit_phase_participants: Vec<ParticipantID>,
    excl_participants: Vec<ParticipantID>,
    excl_cloaks: Vec<Cloak>,
    trans: SuperTransaction,
    signatures: Vec<SigEntry>,
    msg_state: MessageState,
    phase: MessageState,
    awaiting: Awaiting,
    cancel_deferred: bool,
    outbox: Vec<Action>,
}

impl View for Snowball {
    type V = State;

    closed spec fn view(&self) -> State {
        State {
            signing_skey: self.signing_skey,
            facilitator: self.facilitator,
            future_facilitator: self.future_facilitator,
            poll_state: self.poll_state,
            me: self.participant_key,
            participants: self.participants@,
            pending: self.pending_participants@,
            my_txins: self.my_txins@,
            my_txouts: self.my_txouts@,
            my_fee: self.my_fee,
            txin_gamma_sum: self.txin_gamma_sum,
            queue: envelope_views(self.msg_queue@),
            round: self.session_round,
            session_id: self.session_id,
            round_size: self.round_size as nat,
            first_count: self.first_count as nat,
            round_k: self.my_round_k,
            sess_skey: self.sess_skey,
            sig_k_vals: self.sig_k_vals@,
            sess_pkeys: self.sess_pkeys@,
            commits: self.commits@,
            sess_skeys: self.sess_skeys@,
            all_txins: txin_views(self.all_txins@),
            utxo_size: self.serialized_utxo_size,
            n_chunks: self.dicemix_nbr_utxo_chunks,
            k_cloaks: self.k_cloaks@,
            my_utxos: rows_of(self.my_utxos@),
            contributions: contribution_views(self.contributions@),
            commit_phase: self.commit_phase_participants@,
            excl_participants: self.excl_participants@,
            excl_cloaks: self.excl_cloaks@,
            trans: self.trans@,
            signatures: self.signatures@,
            msg_state: self.msg_state,
            phase: self.phase,
            awaiting: self.awaiting,
            cancel_deferred: self.cancel_deferred,
            outbox: action_views(self.outbox@),
        }
    }
}

/// How a step ended, as the model tells it.
pub open spec fn outcome_of(r: Result<Progress, SnowballError>) -> Outcome {
    match r {
        Ok(Progress::NotReady) => Outcome::NotReady,
        Ok(Progress::Ready(out)) => Outcome::Ready(out@),
        Err(e) => Outcome::Failed(e),
    }
}

/// A step as the model tells it: the state after it and how it ended.
pub open spec fn step_of(s: State, r: Result<Progress, SnowballError>) -> Step {
    Step { state: s, outcome: outcome_of(r) }
}

/// Whether the two network keys are the same.
pub fn same_key(a: &NetworkKey, b: &NetworkKey) -> (r: bool)
    ensures
        r == (*a == *b),
{
    match compare_bytes(a, b) {
        Position::Same => {
            assert(*a =~= *b);
            true
        },
        _ => false,
    }
}

/// `rand::Rng::gen` on `rand::thread_rng()`: 32 bytes from the
/// generator of the thread. Nothing is claimed of them.
#[verifier::external_body]
fn random_bytes() -> (out: [u8; 32]) {
    rand::Rng::gen::<[u8; 32]>(&mut rand::thread_rng())
}

/// Whether a participant may bring these inputs, outputs and fee to a
/// session.
pub fn check_balance(inputs: &Vec<OwnedInput>, outputs: &Vec<ProposedUTXO>, fee: i64) -> (ok: bool)
    ensures
        ok == model::funds_balance(inputs@, outputs@, fee),
{
    if outputs.len() > crate::dicemix::MAX_UTXOS || fee < 0 {
        return false;
    }
    let mut g: usize = 0;
    while g < inputs.len()
        invariant
            g <= inputs.len(),
            forall|j: int| 0 <= j < g ==> crate::scalar::residue((#[trigger] inputs@[j]).gamma) != 0,
        decreases inputs.len() - g,
    {
        if crate::scalar::is_zero(&inputs[g].gamma) {
            return false;
        }
        g += 1;
    }
    let mut total_in: i64 = 0;
    let mut i: usize = 0;
    assert(inputs@.take(0) =~= Seq::<OwnedInput>::empty());
    while i < inputs.len()
        invariant
            i <= inputs.len(),
            total_in == model::input_total(inputs@.take(i as int)),
            forall|j: int|
                0 <= j <= i ==> i64::MIN <= #[trigger] model::input_total(inputs@.take(j))
                    <= i64::MAX,
        decreases inputs.len() - i,
    {
        proof {
            assert(inputs@.take(i + 1).drop_last() =~= inputs@.take(i as int));
            assert(inputs@.take(i + 1).last() == inputs@[i as int]);
        }
        match total_in.checked_add(inputs[i].amount) {
            Some(t) => {
                total_in = t;
            },
            None => {
                assert(!(i64::MIN <= model::input_total(inputs@.take(i + 1)) <= i64::MAX));
                return false;
            },
        }
        i += 1;
    }
    let mut total_out: i64 = 0;
    let mut k: usize = 0;
    assert(outputs@.take(0) =~= Seq::<ProposedUTXO>::empty());
    while k < outputs.len()
        invariant
            k <= outputs.len(),
            total_out == model::output_total(outputs@.take(k as int)),
            forall|j: int|
                0 <= j <= k ==> i64::MIN <= #[trigger] model::output_total(outputs@.take(j))
                    <= i64::MAX,
        decreases outputs.len() - k,
    {
        proof {
            assert(outputs@.take(k + 1).drop_last() =~= outputs@.take(k as int));
            assert(outputs@.take(k + 1).last() == outputs@[k as int]);
        }
        match total_out.checked_add(outputs[k].amount) {
            Some(t) => {
                total_out = t;
            },
            None => {
                assert(!(i64::MIN <= model::output_total(outputs@.take(k + 1)) <= i64::MAX));
                return false;
            },
        }
        k += 1;
    }
    proof {
        assert(inputs@.take(inputs@.len() as int) =~= inputs@);
        assert(outputs@.take(outputs@.len() as int) =~= outputs@);
    }
    match total_out.checked_add(fee) {
        Some(due) => total_in == due,
        None => false,
    }
}

impl Snowball {
    /// A session that takes part under a seed drawn at random, with a
    /// first session id drawn at random; it has asked the facilitator to
    /// join the pool.
    pub fn new(
        signing_skey: [u8; 32],
        participant_pkey: NetworkKey,
        facilitator: NetworkKey,
        my_txins: Vec<OwnedInput>,
        my_txouts: Vec<ProposedUTXO>,
        my_fee: i64,
    ) -> (sb: Snowball)
        requires
            model::funds_balance(my_txins@, my_txouts@, my_fee),
        ensures
            sb@ == model::initial(
                signing_skey,
                participant_pkey,
                facilitator,
                my_txins@,
                my_txouts@,
                my_fee,
                sb@.me.seed,
                sb@.session_id,
            ),
            inv(sb@),
    {
        let seed = random_bytes();
        let session_id = random_bytes();
        Snowball::with_seed(
            signing_skey,
            participant_pkey,
            facilitator,
            my_txins,
            my_txouts,
            my_fee,
            seed,
            session_id,
        )
    }

    /// A session that takes part under `seed`, with `session_id` as its
    /// first session id; it has asked the facilitator to join the pool.
    #[verifier::rlimit(40)]
    pub fn with_seed(
        signing_skey: [u8; 32],
        participant_pkey: NetworkKey,
        facilitator: NetworkKey,
        my_txins: Vec<OwnedInput>,
        my_txouts: Vec<ProposedUTXO>,
        my_fee: i64,
        seed: [u8; 32],
        session_id: Digest,
    ) -> (sb: Snowball)
        requires
            model::funds_balance(my_txins@, my_txouts@, my_fee),
        ensures
            sb@ == model::initial(
                signing_skey,
                participant_pkey,
                facilitator,
                my_txins@,
                my_txouts@,
                my_fee,
                seed,
                session_id,
            ),
            inv(sb@),
    {
        let mut hashes: Vec<Digest> = Vec::new();
        let mut gammas: Vec<Scalar> = Vec::new();
        let mut i: usize = 0;
        while i < my_txins.len()
            invariant
                i <= my_txins.len(),
                hashes@.len() == i,
                gammas@.len() == i,
                forall|j: int| 0 <= j < i ==> hashes@[j] == my_txins@[j].hash,
                forall|j: int| 0 <= j < i ==> gammas@[j] == my_txins@[j].gamma,
            decreases my_txins.len() - i,
        {
            hashes.push(my_txins[i].hash);
            gammas.push(my_txins[i].gamma);
            i += 1;
        }
        proof {
            assert(hashes@ =~= model::input_hashes(my_txins@));
            assert(gammas@ =~= model::input_gammas(my_txins@));
        }
        let zero = crate::scalar::zero();
        let mut sb = Snowball {
            signing_skey,
            facilitator,
            future_facilitator: None,
            poll_state: PoolState::PoolWait,
            participant_key: ParticipantID::new(participant_pkey, seed),
            participants: Vec::new(),
            pending_participants: Vec::new(),
            my_txins: hashes,
            my_txouts,
            my_fee,
            txin_gamma_sum: sum_scalars(&gammas),
            msg_queue: Vec::new(),
            session_round: 0,
            session_id,
            round_size: 0,
            my_round_k: zero,
            sess_skey: zero,
            sig_k_vals: Vec::new(),
            sess_pkeys: Vec::new(),
            commits: Vec::new(),
            sess_skeys: Vec::new(),
            all_txins: Vec::new(),
            first_count: 0,
            serialized_utxo_size: None,
            dicemix_nbr_utxo_chunks: None,
            k_cloaks: Vec::new(),
            my_utxos: Vec::new(),
            contributions: Vec::new(),
            commit_phase_participants: Vec::new(),
            excl_participants: Vec::new(),
            excl_cloaks: Vec::new(),
            trans: SuperTransaction {
                txins: Vec::new(),
                outputs: Vec::new(),
                gamma_adj: zero,
                fee: 0,
                sig: SchnorrSig { u: zero, k: zero },
            },
            signatures: Vec::new(),
            msg_state: MessageState::Idle,
            phase: MessageState::Idle,
            awaiting: Awaiting::Nothing,
            cancel_deferred: false,
            outbox: Vec::new(),
        };
        proof {
            assert(rows_of(sb.my_utxos@) =~= Seq::<Seq<u8>>::empty());
            assert(sb.trans@ =~= model::empty_transaction());
            assert(envelope_views(sb.msg_queue@) =~= Seq::<EnvelopeView>::empty());
            assert(txin_views(sb.all_txins@) =~= Seq::<crate::types::TxinView>::empty());
            assert(contribution_views(sb.contributions@) =~= Seq::<
                crate::dicemix::ContributionView,
            >::empty());
            assert(action_views(sb.outbox@) =~= Seq::<ActionView>::empty());
            assert(sb.participant_key =~= ParticipantID { pkey: participant_pkey, seed });
        }
        sb.send_pool_join();
        proof {
            sound::lemma_initial_inv(
                signing_skey,
                participant_pkey,
                facilitator,
                my_txins@,
                my_txouts@,
                my_fee,
                seed,
                session_id,
            );
        }
        sb
    }

    /// This participant.
    pub fn participant_key(&self) -> (id: ParticipantID)
        ensures
            id == self@.me,
    {
        self.participant_key
    }

    /// The session id of the round.
    pub fn session_id(&self) -> (sid: Digest)
        ensures
            sid == self@.session_id,
    {
        self.session_id
    }

    /// The round, counted from one; zero before the first.
    pub fn session_round(&self) -> (round: u16)
        ensures
            round == self@.round,
    {
        self.session_round
    }

    /// Where the session stands with its pool.
    pub fn poll_state(&self) -> (state: PoolState)
        ensures
            state == self@.poll_state,
    {
        self.poll_state
    }

    /// The kind of payload that is collected now.
    pub fn msg_state(&self) -> (state: MessageState)
        ensures
            state == self@.msg_state,
    {
        self.msg_state
    }

    /// The outside work whose result is waited for.
    pub fn awaiting(&self) -> (work: Awaiting)
        ensures
            work == self@.awaiting,
    {
        self.awaiting
    }

    /// How many messages wait for their phase.
    pub fn queued(&self) -> (count: usize)
        ensures
            count == self@.queue.len(),
    {
        self.msg_queue.len()
    }

    /// Whether the pool was canceled while rounds were running.
    pub fn cancel_deferred(&self) -> (deferred: bool)
        ensures
            deferred == self@.cancel_deferred,
    {
        self.cancel_deferred
    }

    /// The cells in a row of the matrix, once they are set.
    pub fn dicemix_nbr_utxo_chunks(&self) -> (chunks: Option<usize>)
        ensures
            chunks == self@.n_chunks,
    {
        self.dicemix_nbr_utxo_chunks
    }

    /// The facilitator.
    pub fn facilitator(&self) -> (key: NetworkKey)
        ensures
            key == self@.facilitator,
    {
        self.facilitator
    }

    /// Who takes part.
    pub fn participants(&self) -> (list: &Vec<ParticipantID>)
        ensures
            list@ == self@.participants,
    {
        &self.participants
    }

    /// Who takes part and has not answered yet.
    pub fn pending_participants(&self) -> (list: &Vec<ParticipantID>)
        ensures
            list@ == self@.pending,
    {
        &self.pending_participants
    }

    /// Who took part when the matrix was made.
    pub fn commit_phase_participants(&self) -> (list: &Vec<ParticipantID>)
        ensures
            list@ == self@.commit_phase,
    {
        &self.commit_phase_participants
    }

    /// The outputs that this participant proposes.
    pub fn my_txouts(&self) -> (list: &Vec<ProposedUTXO>)
        ensures
            list@ == self@.my_txouts,
    {
        &self.my_txouts
    }

    /// The inputs that each participant claims.
    pub fn all_txins(&self) -> (list: &Vec<TxinEntry>)
        ensures
            txin_views(list@) == self@.all_txins,
    {
        &self.all_txins
    }

    /// The session public key of each participant.
    pub fn sess_pkeys(&self) -> (list: &Vec<KeyEntry>)
        ensures
            list@ == self@.sess_pkeys,
    {
        &self.sess_pkeys
    }

    /// What each participant has opened.
    pub fn contributions(&self) -> (list: &Vec<Contribution>)
        ensures
            contribution_views(list@) == self@.contributions,
    {
        &self.contributions
    }

    /// The part of the signature of each participant.
    pub fn signatures(&self) -> (list: &Vec<SigEntry>)
        ensures
            list@ == self@.signatures,
    {
        &self.signatures
    }

    /// The joint transaction as far as it is made.
    pub fn transaction(&self) -> (tx: &SuperTransaction)
        ensures
            tx@ == self@.trans,
    {
        &self.trans
    }

    /// The width of a serialized output, once it is set.
    pub fn serialized_utxo_size(&self) -> (size: Option<usize>)
        ensures
            size == self@.utxo_size,
    {
        self.serialized_utxo_size
    }

    /// Asks the caller for one more action.
    fn push_action(&mut self, action: Action)
        ensures
            final(self)@ == model::push_action(old(self)@, action@),
    {
        self.outbox.push(action);
        proof {
            assert(action_views(self.outbox@) =~= action_views(old(self).outbox@).push(action@));
            assert(self@ =~= model::push_action(old(self)@, action@));
        }
    }

    /// The list that holds this participant alone.
    fn only_me(&self) -> (me: Vec<ParticipantID>)
        ensures
            me@ == seq![self@.me],
    {
        let mut me: Vec<ParticipantID> = Vec::new();
        me.push(self.participant_key);
        assert(me@ =~= seq![self.participant_key]);
        me
    }

    /// Sends the payload to every other participant.
    fn send_signed_message(&mut self, payload: SnowballPayload)
        ensures
            final(self)@ == model::broadcast(old(self)@, payload@),
    {
        let me = self.only_me();
        let recipients = exclude(&self.participants, &me);
        self.push_action(Action::Broadcast { sid: self.session_id, recipients, payload });
    }

    /// Sends the session public key and the point of the nonce.
    fn send_session_pkey(&mut self, sess_pkey: [u8; 32], sess_ksig: [u8; 32])
        ensures
            final(self)@ == model::broadcast(
                old(self)@,
                PayloadView::SharedKeying { pkey: sess_pkey, ksig: sess_ksig },
            ),
    {
        self.send_signed_message(SnowballPayload::SharedKeying { pkey: sess_pkey, ksig: sess_ksig });
    }

    /// Sends the commitment.
    fn send_commitment(&mut self, commit: Digest)
        ensures
            final(self)@ == model::broadcast(old(self)@, PayloadView::Commitment { cmt: commit }),
    {
        self.send_signed_message(SnowballPayload::Commitment { cmt: commit });
    }

    /// Sends this participant's part of the signature.
    fn send_signature(&mut self, sig: SchnorrSig)
        ensures
            final(self)@ == model::broadcast(old(self)@, PayloadView::Signature { sig }),
    {
        self.send_signed_message(SnowballPayload::Signature { sig });
    }

    /// Sends the session secret key.
    fn send_session_skey(&mut self, skey: [u8; 32])
        ensures
            final(self)@ == model::broadcast(old(self)@, PayloadView::SecretKeying { skey }),
    {
        self.send_signed_message(SnowballPayload::SecretKeying { skey });
    }

    /// Sends what was committed to, with the cloaks for those who have
    /// left.
    fn send_cloaked_data(&mut self, mine: &Contribution)
        ensures
            final(self)@ == model::broadcast(
                old(self)@,
                PayloadView::CloakedVals {
                    matrix: mine@.matrix,
                    gamma_sum: mine@.gamma_sum,
                    fee_sum: mine@.fee_sum,
                    cloaks: mine@.cloaks,
                },
            ),
    {
        let payload = SnowballPayload::CloakedVals {
            matrix: copy_vec(&mine.matrix),
            gamma_sum: mine.gamma_sum,
            fee_sum: mine.fee_sum,
            cloaks: copy_vec(&mine.cloaks),
        };
        assert(payload@ =~= PayloadView::CloakedVals {
            matrix: mine@.matrix,
            gamma_sum: mine@.gamma_sum,
            fee_sum: mine@.fee_sum,
            cloaks: mine@.cloaks,
        });
        self.send_signed_message(payload);
    }

    /// Sends a request to join the pool.
    fn send_pool_join(&mut self)
        ensures
            final(self)@ == model::send_pool_join(old(self)@),
    {
        let mut all: Vec<TxinEntry> = Vec::new();
        all.push(TxinEntry { id: self.participant_key, txins: copy_vec(&self.my_txins) });
        self.all_txins = all;
        let action = Action::SendPoolJoin {
            facilitator: self.facilitator,
            seed: self.participant_key.seed,
            txins: copy_vec(&self.my_txins),
        };
        proof {
            let want = seq![
                crate::types::TxinView { id: old(self)@.me, txins: old(self)@.my_txins },
            ];
            assert(txin_views(self.all_txins@) =~= want);
        }
        self.outbox.push(action);
        proof {
            assert(action_views(self.outbox@) =~= action_views(old(self).outbox@).push(action@));
            assert(self@ =~= model::send_pool_join(old(self)@));
        }
    }

    /// Forgets the secrets of the round.
    fn forget_round(&mut self)
        ensures
            final(self)@ == model::forget_round(old(self)@),
    {
        let zero = crate::scalar::zero();
        self.my_round_k = zero;
        self.sess_skey = zero;
        self.k_cloaks = Vec::new();
        self.excl_cloaks = Vec::new();
        self.sess_skeys = Vec::new();
        proof {
            assert(self@ =~= model::forget_round(old(self)@));
        }
    }

    /// Forgets every secret that the session holds. To be called when the
    /// session is given up.
    pub fn wipe(&mut self)
        ensures
            final(self)@ == model::wiped(old(self)@),
            inv(old(self)@) ==> inv(final(self)@),
    {
        self.forget_round();
        self.signing_skey = crate::scalar::zero();
    }

    /// Ends the session.
    #[verifier::rlimit(40)]
    fn reset_state(&mut self)
        ensures
            final(self)@ == model::reset_state(old(self)@),
    {
        self.forget_round();
        self.poll_state = PoolState::PoolFinished;
        self.msg_state = MessageState::Idle;
        self.phase = MessageState::Idle;
        self.msg_queue = Vec::new();
        self.pending_participants = Vec::new();
        self.session_round = 0;
        self.awaiting = Awaiting::Nothing;
        self.cancel_deferred = false;
        self.try_update_facilitator();
        self.outbox.push(Action::StopTimer);
        proof {
            assert(action_views(self.outbox@) =~= action_views(old(self).outbox@).push(
                ActionView::StopTimer,
            ));
            assert(envelope_views(self.msg_queue@) =~= Seq::<EnvelopeView>::empty());
            assert(self@ =~= model::reset_state(old(self)@));
        }
    }

    /// Lets a facilitator that was learned meanwhile take over.
    fn try_update_facilitator(&mut self)
        ensures
            *final(self) == (Snowball {
                facilitator: match old(self).future_facilitator {
                    Some(f) => f,
                    None => old(self).facilitator,
                },
                future_facilitator: None,
                ..*old(self)
            }),
    {
        match self.future_facilitator {
            Some(facilitator) => {
                self.facilitator = facilitator;
            },
            None => {},
        }
        self.future_facilitator = None;
    }

    /// Called when the facilitator has changed.
    pub fn change_facilitator(&mut self, facilitator: NetworkKey)
        requires
            inv(old(self)@),
        ensures
            final(self)@ == model::change_facilitator(old(self)@, facilitator),
            inv(final(self)@),
    {
        proof {
            sound::lemma_change_facilitator_inv(self@, facilitator);
        }
        match self.poll_state {
            PoolState::PoolFormed => {
                self.future_facilitator = Some(facilitator);
            },
            PoolState::PoolFinished => {
                self.facilitator = facilitator;
                self.future_facilitator = None;
            },
            _ => {
                self.facilitator = facilitator;
                self.future_facilitator = None;
                self.poll_state = PoolState::PoolWait;
                self.send_pool_join();
            },
        }
    }

    /// Begins a round.
    #[verifier::rlimit(40)]
    fn start(&mut self) -> (r: Result<Progress, SnowballError>)
        requires
            inv(old(self)@),
            sound::running(old(self)@),
            old(self)@.msg_state == MessageState::Idle,
            sound::may_begin(old(self)@),
        ensures
            step_of(final(self)@, r) == model::start(old(self)@),
            inv(final(self)@),
    {
        proof {
            sound::lemma_start_inv(self@);
        }
        if self.participants.len() < 3 {
            return Err(SnowballError::TooFewParticipants(self.participants.len()));
        }
        let sorted = sort_dedup(&self.participants);
        let round: u16 = if self.session_round < u16::MAX {
            self.session_round + 1
        } else {
            self.session_round
        };
        let sid = session_id(&self.session_id, round, &sorted);
        let round_k = crate::scalar::from_digest(&nonce_seed(&sid, &self.signing_skey));
        let action = Action::DeriveRoundKeys {
            round_k,
            key_seed: session_key_seed(&sid, &self.signing_skey),
        };
        self.forget_round();
        self.my_round_k = round_k;
        self.round_size = sorted.len();
        self.participants = sorted;
        self.pending_participants = Vec::new();
        self.session_round = round;
        self.session_id = sid;
        self.msg_queue = Vec::new();
        self.msg_state = MessageState::Idle;
        self.phase = MessageState::Idle;
        self.awaiting = Awaiting::RoundKeys;
        self.outbox.push(action);
        proof {
            assert(action_views(self.outbox@) =~= action_views(old(self).outbox@).push(action@));
            assert(envelope_views(self.msg_queue@) =~= Seq::<EnvelopeView>::empty());
            assert(self@ =~= model::start(old(self)@).state);
        }
        Ok(Progress::NotReady)
    }

    /// Begins to collect payloads of one kind from every other
    /// participant.
    fn prep_rx(&mut self, msgtype: MessageState)
        ensures
            final(self)@ == model::enter_phase(old(self)@, msgtype),
    {
        let me = self.only_me();
        self.pending_participants = exclude(&self.participants, &me);
        self.participants = me;
        self.msg_state = msgtype;
        self.phase = msgtype;
        self.outbox.push(Action::StartTimer);
        proof {
            assert(action_views(self.outbox@) =~= action_views(old(self).outbox@).push(
                ActionView::StartTimer,
            ));
            assert(self@ =~= model::enter_phase(old(self)@, msgtype));
        }
    }

    /// Fixes whom the matrix is laid out for and asks for the material of
    /// the commitment.
    fn commit(&mut self) -> (r: Result<Progress, SnowballError>)
        requires
            sound::between(old(self)@),
            old(self)@.phase == MessageState::SharedKeying,
        ensures
            step_of(final(self)@, r) == model::commit(old(self)@),
            inv(final(self)@),
    {
        proof {
            sound::lemma_commit_inv(self@);
        }
        if self.participants.len() < 3 {
            return Err(SnowballError::TooFewParticipants(self.participants.len()));
        }
        self.commit_phase_participants = sort_dedup(&self.participants);
        self.awaiting = Awaiting::CommitMaterial;
        let action = Action::PrepareCommit {
            sess_skey: self.sess_skey,
            peers: copy_vec(&self.sess_pkeys),
        };
        self.outbox.push(action);
        proof {
            assert(action_views(self.outbox@) =~= action_views(old(self).outbox@).push(action@));
            assert(self@ =~= model::commit(old(self)@).state);
        }
        Ok(Progress::NotReady)
    }

    /// This participant's own contribution, taken out of what is kept,
    /// with the cloaks it reveals.
    #[verifier::rlimit(40)]
    fn take_own_contribution(&mut self, cloaks: Vec<Cloak>) -> (mine: Contribution)
        ensures
            mine@ == model::own_contribution(old(self)@, cloaks@),
            *final(self) == (Snowball { contributions: final(self).contributions, ..*old(self) }),
    {
        if self.contributions.len() > 0 {
            let first = self.contributions.remove(0);
            assert(contribution_views(old(self).contributions@)[0] == first@);
            let mine = Contribution {
                id: first.id,
                matrix: first.matrix,
                gamma_sum: first.gamma_sum,
                fee_sum: first.fee_sum,
                cloaks,
            };
            assert(mine@ =~= model::own_contribution(old(self)@, cloaks@));
            mine
        } else {
            let mine = Contribution {
                id: self.participant_key,
                matrix: Vec::new(),
                gamma_sum: crate::scalar::zero(),
                fee_sum: crate::scalar::zero(),
                cloaks,
            };
            assert(mine@ =~= model::own_contribution(old(self)@, cloaks@));
            mine
        }
    }

    /// Opens what was committed to, with the cloaks shared with those who
    /// sent no commitment.
    #[verifier::rlimit(40)]
    fn share_cloaked_data(&mut self) -> (r: Result<Progress, SnowballError>)
        requires
            sound::between(old(self)@),
            old(self)@.phase == MessageState::Commitment,
        ensures
            step_of(final(self)@, r) == model::share_cloaked_data(old(self)@),
            inv(final(self)@),
    {
        proof {
            sound::lemma_share_inv(self@);
        }
        if self.participants.len() < 3 {
            return Err(SnowballError::TooFewParticipants(self.participants.len()));
        }
        let excl = exclude(&self.commit_phase_participants, &self.participants);
        let excl_cloaks = select_cloaks(&self.k_cloaks, &excl);
        let mine = self.take_own_contribution(copy_vec(&excl_cloaks));
        let ghost mine_view = mine@;
        self.excl_participants = excl;
        self.excl_cloaks = excl_cloaks;
        self.send_cloaked_data(&mine);
        let mut all: Vec<Contribution> = Vec::new();
        all.push(mine);
        self.contributions = all;
        proof {
            assert(contribution_views(self.contributions@) =~= seq![mine_view]);
        }
        self.prep_rx(MessageState::CloakedVals);
        proof {
            assert(self@ =~= model::share_cloaked_data(old(self)@).state);
        }
        Ok(Progress::NotReady)
    }

    /// Whether anyone has left since the matrix was made.
    fn had_dropouts(&self) -> (r: bool)
        ensures
            r == !crate::participant::same_members(self@.participants, self@.commit_phase),
    {
        !same_set(&self.participants, &self.commit_phase_participants)
    }

    /// Sums what all have opened and hands the joint transaction over to
    /// be signed.
    #[verifier::rlimit(40)]
    fn make_supertransaction(&mut self) -> (r: Result<Progress, SnowballError>)
        requires
            sound::between(old(self)@),
            old(self)@.phase == MessageState::CloakedVals,
        ensures
            step_of(final(self)@, r) == model::make_supertransaction(old(self)@),
            inv(final(self)@),
    {
        proof {
            sound::lemma_make_inv(self@);
        }
        if self.participants.len() < 3 {
            return Err(SnowballError::TooFewParticipants(self.participants.len()));
        }
        if self.had_dropouts() {
            proof {
                sound::lemma_dropout_shrinks(self@);
            }
            return self.start();
        }
        let sorted = sort_dedup(&self.commit_phase_participants);
        let txins = gather_txins(&sorted, &self.all_txins);
        let n_chunks: usize = match self.dicemix_nbr_utxo_chunks {
            Some(c) => c,
            None => 0,
        };
        let size: usize = match self.serialized_utxo_size {
            Some(c) => c,
            None => 0,
        };
        let matrix = dc_decode(
            &self.participants,
            &self.contributions,
            &self.excl_participants,
            self.commit_phase_participants.len(),
            n_chunks,
        );
        let rows: Vec<Vec<u8>> = if n_chunks == 0 {
            Vec::new()
        } else {
            proof {
                crate::dicemix::lemma_matrix_sizes(
                    self@.commit_phase.len() as int,
                    n_chunks as int,
                );
            }
            split_rows(&matrix, n_chunks, size)
        };
        proof {
            assert(rows_of(rows@) =~= model::rows_cut(matrix@, n_chunks as int, size as int));
        }
        let gamma_adj = dc_scalar_open(
            &self.participants,
            &self.contributions,
            &self.excl_participants,
            false,
        );
        let fee_scalar = dc_scalar_open(
            &self.participants,
            &self.contributions,
            &self.excl_participants,
            true,
        );
        let fee: i64 = match crate::scalar::to_i64(&fee_scalar) {
            Some(v) => v,
            None => 0,
        };
        let k_vals = gather_keys(&sorted, &self.sig_k_vals);
        let place = crate::dicemix::position(&self.commit_phase_participants, &self.participant_key);
        proof {
            crate::dicemix::lemma_position_of(self@.commit_phase, self@.me);
        }
        let own_intact = crate::lists::came_out(&rows, place, &self.my_utxos, size);
        self.trans = SuperTransaction {
            txins: copy_vec(&txins),
            outputs: copy_rows(&rows),
            gamma_adj,
            fee,
            sig: self.trans.sig,
        };
        self.awaiting = Awaiting::SuperTransaction;
        let action = Action::BuildSuperTransaction {
            txins,
            rows,
            gamma_adj,
            fee,
            k_vals,
            round_k: self.my_round_k,
            signing_skey: self.signing_skey,
            own_intact,
        };
        self.outbox.push(action);
        proof {
            assert(action_views(self.outbox@) =~= action_views(old(self).outbox@).push(action@));
            assert(self@ =~= model::make_supertransaction(old(self)@).state);
        }
        Ok(Progress::NotReady)
    }

    /// Hands the joint transaction over to be validated, if every part of
    /// the signature is there.
    fn sign_supertransaction(&mut self) -> (r: Result<Progress, SnowballError>)
        requires
            sound::between(old(self)@),
            old(self)@.phase == MessageState::Signature,
        ensures
            step_of(final(self)@, r) == model::sign_supertransaction(old(self)@),
            inv(final(self)@),
    {
        proof {
            sound::lemma_sign_inv(self@);
        }
        if !have_all_signed(&self.commit_phase_participants, &self.signatures) {
            proof {
                sound::lemma_unsigned_shrinks(self@);
            }
            return self.start();
        }
        self.awaiting = Awaiting::Validation;
        let signatures = gather_sigs(&self.commit_phase_participants, &self.signatures);
        let u_sum = sum_sig_scalars(&signatures);
        self.trans.sig = SchnorrSig { u: u_sum, k: self.trans.sig.k };
        let action = Action::ValidateTransaction { signatures, u_sum };
        self.outbox.push(action);
        proof {
            assert(action_views(self.outbox@) =~= action_views(old(self).outbox@).push(action@));
            assert(self@ =~= model::sign_supertransaction(old(self)@).state);
        }
        Ok(Progress::NotReady)
    }

    /// Hands the contributions over to be checked, if every session
    /// secret is there.
    fn blame_discovery(&mut self) -> (r: Result<Progress, SnowballError>)
        requires
            sound::between(old(self)@),
            old(self)@.phase == MessageState::SecretKeying,
        ensures
            step_of(final(self)@, r) == model::blame_discovery(old(self)@),
            inv(final(self)@),
    {
        proof {
            sound::lemma_blame_inv(self@);
        }
        if self.had_dropouts() {
            proof {
                sound::lemma_dropout_shrinks(self@);
            }
            return self.start();
        }
        self.awaiting = Awaiting::Blame;
        let action = Action::AssignBlame { skeys: copy_vec(&self.sess_skeys) };
        self.outbox.push(action);
        proof {
            assert(action_views(self.outbox@) =~= action_views(old(self).outbox@).push(action@));
            assert(self@ =~= model::blame_discovery(old(self)@).state);
        }
        Ok(Progress::NotReady)
    }

    /// What follows when the payloads of `kind` are in.
    fn maybe_do(&mut self, kind: MessageState) -> (r: Result<Progress, SnowballError>)
        requires
            sound::between(old(self)@),
            old(self)@.phase == kind,
        ensures
            step_of(final(self)@, r) == model::advance(old(self)@, kind),
            inv(final(self)@),
    {
        match kind {
            MessageState::Idle => Ok(Progress::NotReady),
            MessageState::SharedKeying => self.commit(),
            MessageState::Commitment => self.share_cloaked_data(),
            MessageState::CloakedVals => self.make_supertransaction(),
            MessageState::Signature => self.sign_supertransaction(),
            MessageState::SecretKeying => self.blame_discovery(),
        }
    }

    /// Keeps the session public key and the point of the nonce of `from`.
    fn handle_shared_keying(&mut self, from: ParticipantID, pkey: [u8; 32], ksig: [u8; 32])
        ensures
            Some(final(self)@) == model::record(
                old(self)@,
                from,
                PayloadView::SharedKeying { pkey, ksig },
            ),
    {
        self.sig_k_vals.push(KeyEntry { id: from, value: ksig });
        self.sess_pkeys.push(KeyEntry { id: from, value: pkey });
        proof {
            assert(self@ =~= model::record(
                old(self)@,
                from,
                PayloadView::SharedKeying { pkey, ksig },
            )->Some_0);
        }
    }

    /// Keeps the commitment of `from`.
    fn handle_commitment(&mut self, from: ParticipantID, cmt: Digest)
        ensures
            Some(final(self)@) == model::record(old(self)@, from, PayloadView::Commitment { cmt }),
    {
        self.commits.push(KeyEntry { id: from, value: cmt });
        proof {
            assert(self@ =~= model::record(
                old(self)@,
                from,
                PayloadView::Commitment { cmt },
            )->Some_0);
        }
    }

    /// Whether what `from` opens is what it committed to, with the cloaks
    /// for exactly those whom this participant has left out.
    fn validate_cloaked_vals(
        &self,
        from: &ParticipantID,
        matrix: &Vec<u8>,
        gamma_sum: &Scalar,
        fee_sum: &Scalar,
        cloaks: &Vec<Cloak>,
    ) -> (r: bool)
        ensures
            r == model::cloaked_vals_valid(self@, *from, matrix@, *gamma_sum, *fee_sum, cloaks@),
    {
        match find_key(&self.commits, from) {
            None => {
                return false;
            },
            Some(cmt) => {
                if !same_hash(&cmt, &hash_data(matrix, gamma_sum, fee_sum)) {
                    return false;
                }
            },
        }
        let mut i: usize = 0;
        while i < self.excl_participants.len()
            invariant
                i <= self.excl_participants.len(),
                forall|j: int|
                    0 <= j < i ==> crate::dicemix::cloak_for(
                        cloaks@,
                        #[trigger] self.excl_participants@[j],
                    ) is Some,
            decreases self.excl_participants.len() - i,
        {
            if find_cloak(cloaks, &self.excl_participants[i]).is_none() {
                return false;
            }
            i += 1;
        }
        let mut k: usize = 0;
        while k < cloaks.len()
            invariant
                k <= cloaks.len(),
                forall|j: int|
                    0 <= j < k ==> self.excl_participants@.contains(#[trigger] cloaks@[j].id),
            decreases cloaks.len() - k,
        {
            if !contains(&self.excl_participants, &cloaks[k].id) {
                return false;
            }
            k += 1;
        }
        true
    }

    /// Keeps what `from` opens, if it is what it committed to.
    #[verifier::rlimit(40)]
    fn handle_cloaked_vals(
        &mut self,
        from: ParticipantID,
        matrix: Vec<u8>,
        gamma_sum: Scalar,
        fee_sum: Scalar,
        cloaks: Vec<Cloak>,
    ) -> (kept: bool)
        ensures
            kept == model::record(
                old(self)@,
                from,
                PayloadView::CloakedVals { matrix: matrix@, gamma_sum, fee_sum, cloaks: cloaks@ },
            ) is Some,
            kept ==> Some(final(self)@) == model::record(
                old(self)@,
                from,
                PayloadView::CloakedVals { matrix: matrix@, gamma_sum, fee_sum, cloaks: cloaks@ },
            ),
            !kept ==> final(self)@ == old(self)@,
    {
        if self.validate_cloaked_vals(&from, &matrix, &gamma_sum, &fee_sum, &cloaks) {
            let c = Contribution { id: from, matrix, gamma_sum, fee_sum, cloaks };
            let ghost view = c@;
            self.contributions.push(c);
            proof {
                assert(contribution_views(self.contributions@) =~= contribution_views(
                    old(self).contributions@,
                ).push(view));
                assert(self@ =~= model::record(
                    old(self)@,
                    from,
                    PayloadView::CloakedVals {
                        matrix: matrix@,
                        gamma_sum,
                        fee_sum,
                        cloaks: cloaks@,
                    },
                )->Some_0);
            }
            true
        } else {
            false
        }
    }

    /// Keeps the part of the signature of `from`.
    fn handle_signature(&mut self, from: ParticipantID, sig: SchnorrSig)
        ensures
            Some(final(self)@) == model::record(old(self)@, from, PayloadView::Signature { sig }),
    {
        self.signatures.push(SigEntry { id: from, sig });
        proof {
            assert(self@ =~= model::record(
                old(self)@,
                from,
                PayloadView::Signature { sig },
            )->Some_0);
        }
    }

    /// Keeps the session secret of `from`.
    fn handle_secret_keying(&mut self, from: ParticipantID, skey: [u8; 32])
        ensures
            Some(final(self)@) == model::record(
                old(self)@,
                from,
                PayloadView::SecretKeying { skey },
            ),
    {
        self.sess_skeys.push(KeyEntry { id: from, value: skey });
        proof {
            assert(self@ =~= model::record(
                old(self)@,
                from,
                PayloadView::SecretKeying { skey },
            )->Some_0);
        }
    }

    /// Keeps what `from` sent, if it is valid.
    fn record(&mut self, from: ParticipantID, payload: SnowballPayload) -> (kept: bool)
        ensures
            kept == model::record(old(self)@, from, payload@) is Some,
            kept ==> Some(final(self)@) == model::record(old(self)@, from, payload@),
            !kept ==> final(self)@ == old(self)@,
    {
        match payload {
            SnowballPayload::SharedKeying { pkey, ksig } => {
                self.handle_shared_keying(from, pkey, ksig);
                true
            },
            SnowballPayload::Commitment { cmt } => {
                self.handle_commitment(from, cmt);
                true
            },
            SnowballPayload::CloakedVals {
                matrix,
                gamma_sum,
                fee_sum,
                cloaks,
            } => self.handle_cloaked_vals(from, matrix, gamma_sum, fee_sum, cloaks),
            SnowballPayload::Signature { sig } => {
                self.handle_signature(from, sig);
                true
            },
            SnowballPayload::SecretKeying { skey } => {
                self.handle_secret_keying(from, skey);
                true
            },
        }
    }

    /// Whether a payload of `kind` from `from` can be accepted now.
    fn is_acceptable_message(&self, from: &ParticipantID, kind: MessageState) -> (r: bool)
        ensures
            r == (self@.msg_state != MessageState::Idle && kind == self@.msg_state
                && self@.pending.contains(*from)),
    {
        match self.msg_state {
            MessageState::Idle => false,
            _ => kind.same(&self.msg_state) && contains(&self.pending_participants, from),
        }
    }

    /// Accepts a payload of the kind that is collected from a participant
    /// who has not answered yet.
    #[verifier::rlimit(40)]
    fn handle_message(
        &mut self,
        from: ParticipantID,
        payload: SnowballPayload,
        points_valid: bool,
    ) -> (r: Result<Progress, SnowballError>)
        requires
            inv(old(self)@),
            model::acceptable(
                old(self)@,
                EnvelopeView { from, payload: payload@, points_valid },
            ),
        ensures
            step_of(final(self)@, r) == model::accept(old(self)@, from, payload@, points_valid),
            inv(final(self)@),
    {
        proof {
            sound::lemma_recorded_inv(self@, from, payload@, points_valid);
            sound::lemma_accept_inv(self@, from, payload@, points_valid);
        }
        let kind = self.msg_state;
        let mut one: Vec<ParticipantID> = Vec::new();
        one.push(from);
        assert(one@ =~= seq![from]);
        self.pending_participants = exclude(&self.pending_participants, &one);
        let ghost s0 = self@;
        let ghost view = payload@;
        assert(s0 =~= State {
            pending: crate::participant::without(old(self)@.pending, seq![from]),
            ..old(self)@
        });
        let points_ok = match payload {
            SnowballPayload::SharedKeying { .. } => points_valid,
            _ => true,
        };
        let kept = points_ok && self.record(from, payload);
        if kept {
            self.participants.push(from);
        }
        assert(kept == model::keeps(old(self)@, from, view, points_valid));
        assert(self@ =~= model::recorded(old(self)@, from, view, points_valid));
        if kept && self.pending_participants.len() == 0 {
            self.msg_state = MessageState::Idle;
            self.pending_participants = Vec::new();
            assert(self@ =~= model::idle(
                model::recorded(old(self)@, from, view, points_valid),
            ));
            self.maybe_do(kind)
        } else {
            Ok(Progress::NotReady)
        }
    }

    /// The place of the first waiting message that can be accepted now,
    /// or the length of the queue.
    fn find_acceptable(&self) -> (i: usize)
        ensures
            i == model::first_acceptable(self@, self@.queue),
            i <= self.msg_queue@.len(),
    {
        let ghost queue = self@.queue;
        let mut i: usize = 0;
        assert(queue.skip(0) =~= queue);
        while i < self.msg_queue.len()
            invariant
                i <= self.msg_queue.len(),
                queue == self@.queue,
                queue.len() == self.msg_queue@.len(),
                model::first_acceptable(self@, queue) == i + model::first_acceptable(
                    self@,
                    queue.skip(i as int),
                ),
            decreases self.msg_queue.len() - i,
        {
            assert(queue.skip(i as int)[0] == self.msg_queue@[i as int]@);
            if self.is_acceptable_message(&self.msg_queue[i].from, self.msg_queue[i].payload.kind()) {
                return i;
            }
            assert(queue.skip(i as int).skip(1) =~= queue.skip(i + 1));
            i += 1;
        }
        i
    }

    /// Discards the waiting messages of the phase that has come and of
    /// phases before it.
    fn prune_queue(&mut self)
        ensures
            final(self)@ == model::pruned(old(self)@),
    {
        let mut waiting: Vec<Envelope> = Vec::new();
        std::mem::swap(&mut waiting, &mut self.msg_queue);
        let ghost all = envelope_views(old(self).msg_queue@);
        let phase = self.phase.order();
        assert(envelope_views(self.msg_queue@) =~= Seq::<EnvelopeView>::empty());
        while waiting.len() > 0
            invariant
                phase == self.phase.rank(),
                *self == (Snowball { msg_queue: self.msg_queue, ..*old(self) }),
                envelope_views(self.msg_queue@) + model::keep_ahead(
                    envelope_views(waiting@),
                    self.phase,
                ) == model::keep_ahead(all, self.phase),
            decreases waiting.len(),
        {
            let ghost before = envelope_views(waiting@);
            let ghost kept = envelope_views(self.msg_queue@);
            let e = waiting.remove(0);
            proof {
                assert(envelope_views(waiting@) =~= before.skip(1));
                assert(before[0] == e@);
            }
            if e.payload.kind().order() > phase {
                self.msg_queue.push(e);
                proof {
                    assert(envelope_views(self.msg_queue@) =~= kept.push(before[0]));
                    assert(kept.push(before[0]) + model::keep_ahead(before.skip(1), self.phase)
                        =~= kept + (seq![before[0]] + model::keep_ahead(
                        before.skip(1),
                        self.phase,
                    )));
                }
            }
        }
        proof {
            assert(envelope_views(self.msg_queue@) =~= model::keep_ahead(all, self.phase));
            assert(self@ =~= model::pruned(old(self)@));
        }
    }

    /// Takes the first waiting message that can be accepted now out of
    /// the queue.
    fn take_acceptable(&mut self) -> (next: Option<Envelope>)
        ensures
            next is None ==> final(self)@ == old(self)@ && model::first_acceptable(
                old(self)@,
                old(self)@.queue,
            ) >= old(self)@.queue.len(),
            next is Some ==> {
                let i = model::first_acceptable(old(self)@, old(self)@.queue);
                &&& 0 <= i < old(self)@.queue.len()
                &&& next->Some_0@ == old(self)@.queue[i]
                &&& final(self)@ == (State { queue: old(self)@.queue.remove(i), ..old(self)@ })
                &&& model::acceptable(final(self)@, next->Some_0@)
            },
    {
        let i = self.find_acceptable();
        if i >= self.msg_queue.len() {
            return None;
        }
        proof {
            sound::lemma_first_acceptable(self@, self@.queue);
        }
        let e = self.msg_queue.remove(i);
        proof {
            assert(envelope_views(self.msg_queue@) =~= old(self)@.queue.remove(i as int));
            assert(self@ =~= State { queue: old(self)@.queue.remove(i as int), ..old(self)@ });
            assert(old(self)@.queue[i as int] == e@);
        }
        Some(e)
    }

    /// Goes through the waiting messages until none can be accepted, and
    /// discards those whose phase has come or is over.
    #[verifier::rlimit(80)]
    fn handle_enqueued_messages(&mut self) -> (r: Result<Progress, SnowballError>)
        requires
            inv(old(self)@),
        ensures
            step_of(final(self)@, r) == model::drain(old(self)@),
            inv(final(self)@),
    {
        let mut fuel: usize = self.msg_queue.len();
        loop
            invariant
                inv(self@),
                model::run_queue(self@, fuel as nat) == model::drain(old(self)@),
            decreases fuel,
        {
            let ghost before = self@;
            let next = if fuel == 0 {
                None
            } else {
                self.take_acceptable()
            };
            match next {
                None => {
                    proof {
                        sound::lemma_pruned_inv(before);
                    }
                    self.prune_queue();
                    return Ok(Progress::NotReady);
                },
                Some(e) => {
                    let ghost view = e@;
                    assert(view == EnvelopeView {
                        from: view.from,
                        payload: view.payload,
                        points_valid: view.points_valid,
                    });
                    let r = self.handle_message(e.from, e.payload, e.points_valid);
                    assert(step_of(self@, r) == model::accept(
                        State { queue: before.queue.remove(
                            model::first_acceptable(before, before.queue),
                        ), ..before },
                        view.from,
                        view.payload,
                        view.points_valid,
                    ));
                    match r {
                        Ok(Progress::NotReady) => {
                            fuel = fuel - 1;
                        },
                        other => {
                            return other;
                        },
                    }
                },
            }
        }
    }

    /// Goes on with the waiting messages where the step left the session
    /// going.
    fn then_drain(&mut self, r: Result<Progress, SnowballError>, Ghost(st): Ghost<Step>) -> (out:
        Result<Progress, SnowballError>)
        requires
            inv(old(self)@),
            step_of(old(self)@, r) == st,
        ensures
            step_of(final(self)@, out) == model::then_drain(st),
            inv(final(self)@),
    {
        match r {
            Ok(Progress::NotReady) => self.handle_enqueued_messages(),
            other => other,
        }
    }

    /// Called when the timer runs out.
    #[verifier::rlimit(40)]
    pub fn handle_timer(&mut self) -> (r: Result<Progress, SnowballError>)
        requires
            inv(old(self)@),
        ensures
            step_of(final(self)@, r) == model::handle_timer(old(self)@),
            inv(final(self)@),
    {
        proof {
            sound::lemma_handle_timer_inv(self@);
        }
        let kind = self.msg_state;
        match kind {
            MessageState::Idle => Ok(Progress::NotReady),
            _ => {
                self.msg_state = MessageState::Idle;
                self.pending_participants = Vec::new();
                assert(self@ =~= model::idle(old(self)@));
                let r = self.maybe_do(kind);
                self.then_drain(r, Ghost(model::advance(model::idle(old(self)@), kind)))
            },
        }
    }

    /// Called when a message has come from the network key `from`;
    /// `points_valid` tells whether the curve points that it holds were
    /// found valid.
    #[verifier::rlimit(40)]
    pub fn on_message_received(
        &mut self,
        from: &NetworkKey,
        msg: SnowballMessage,
        points_valid: bool,
    ) -> (r: Result<Progress, SnowballError>)
        requires
            inv(old(self)@),
        ensures
            step_of(final(self)@, r) == model::on_message_received(
                old(self)@,
                *from,
                msg@,
                points_valid,
            ),
            inv(final(self)@),
    {
        proof {
            sound::lemma_on_message_received_inv(self@, *from, msg@, points_valid);
        }
        let running = match self.poll_state {
            PoolState::PoolFormed => true,
            _ => false,
        };
        if !running || !same_key(&msg.source.pkey, from) || !msg.destination.same(
            &self.participant_key,
        ) || !same_hash(&msg.sid, &self.session_id) {
            return Ok(Progress::NotReady);
        }
        let kind = msg.payload.kind();
        let ghost view = msg@;
        if self.is_acceptable_message(&msg.source, kind) {
            let r = self.handle_message(msg.source, msg.payload, points_valid);
            self.then_drain(
                r,
                Ghost(model::accept(old(self)@, view.source, view.payload, points_valid)),
            )
        } else if kind.order() > self.phase.order() {
            let e = Envelope { from: msg.source, payload: msg.payload, points_valid };
            let ghost ev = e@;
            self.msg_queue.push(e);
            proof {
                assert(envelope_views(self.msg_queue@) =~= old(self)@.queue.push(ev));
                assert(self@ =~= State { queue: old(self)@.queue.push(ev), ..old(self)@ });
            }
            Ok(Progress::NotReady)
        } else {
            Ok(Progress::NotReady)
        }
    }

    /// Called with the keys of the round.
    #[verifier::rlimit(40)]
    pub fn on_round_keys(&mut self, keys: RoundKeys) -> (r: Result<Progress, SnowballError>)
        requires
            inv(old(self)@),
        ensures
            step_of(final(self)@, r) == model::on_round_keys(old(self)@, keys),
            inv(final(self)@),
    {
        proof {
            sound::lemma_on_round_keys_inv(self@, keys);
        }
        match self.awaiting {
            Awaiting::RoundKeys => {},
            _ => {
                return Ok(Progress::NotReady);
            },
        }
        self.sess_skey = keys.sess_skey;
        let mut ks: Vec<KeyEntry> = Vec::new();
        ks.push(KeyEntry { id: self.participant_key, value: keys.sig_k });
        let mut pks: Vec<KeyEntry> = Vec::new();
        pks.push(KeyEntry { id: self.participant_key, value: keys.sess_pkey });
        self.sig_k_vals = ks;
        self.sess_pkeys = pks;
        self.awaiting = Awaiting::Nothing;
        proof {
            assert(self.sig_k_vals@ =~= seq![KeyEntry { id: self@.me, value: keys.sig_k }]);
            assert(self.sess_pkeys@ =~= seq![KeyEntry { id: self@.me, value: keys.sess_pkey }]);
        }
        self.send_session_pkey(keys.sess_pkey, keys.sig_k);
        proof {
            assert(self@ =~= model::keys_opened(old(self)@, keys));
        }
        self.prep_rx(MessageState::SharedKeying);
        proof {
            sound::lemma_keys_entered_inv(old(self)@, keys);
        }
        self.handle_enqueued_messages()
    }

    /// The width of serialized outputs, and the cells in a row, once the
    /// outputs of a round are known.
    fn settle_sizes(&self, utxos: &Vec<Vec<u8>>) -> (out: (usize, usize))
        requires
            inv(self@),
        ensures
            out.0 == model::settled_size(self@, rows_of(utxos@)),
            out.1 == model::settled_chunks(self@, rows_of(utxos@)),
            out.0 <= out.1 * 32,
    {
        let first: usize = if utxos.len() == 0 {
            0
        } else {
            utxos[0].len()
        };
        proof {
            if utxos@.len() > 0 {
                assert(rows_of(utxos@)[0] == utxos@[0]@);
            }
            assert(first == model::first_size(rows_of(utxos@)));
            sound::lemma_settled_sizes(self@, rows_of(utxos@));
        }
        match (self.serialized_utxo_size, self.dicemix_nbr_utxo_chunks) {
            (Some(size), Some(chunks)) => (size, chunks),
            _ => {
                let size: usize = first;
                let chunks: usize = if size % 32 == 0 {
                    size / 32
                } else {
                    size / 32 + 1
                };
                (size, chunks)
            },
        }
    }

    /// What this participant commits to in this round.
    #[verifier::rlimit(40)]
    fn make_contribution(
        &self,
        k_cloaks: &Vec<Cloak>,
        material: &CommitMaterial,
        n_chunks: usize,
    ) -> (mine: Contribution)
        requires
            inv(self@),
            matrix_fits(self@.commit_phase.len() as int, n_chunks as int),
        ensures
            mine@ == model::made_contribution(
                self@,
                k_cloaks@,
                rows_of(material.utxos@),
                material.gammas@,
                n_chunks as int,
            ),
    {
        let me = self.participant_key;
        let gamma_adj = crate::scalar::sub(&self.txin_gamma_sum, &sum_scalars(&material.gammas));
        let matrix = encode_matrix(
            &self.commit_phase_participants,
            &material.utxos,
            &me,
            k_cloaks,
            n_chunks,
        );
        let gamma_sum = dc_encode_scalar(
            &gamma_adj,
            &self.commit_phase_participants,
            &me,
            k_cloaks,
            false,
        );
        let fee_scalar = crate::scalar::from_u64(self.my_fee as u64);
        let fee_sum = dc_encode_scalar(
            &fee_scalar,
            &self.commit_phase_participants,
            &me,
            k_cloaks,
            true,
        );
        let mine = Contribution { id: me, matrix, gamma_sum, fee_sum, cloaks: Vec::new() };
        assert(mine@ =~= model::made_contribution(
            self@,
            k_cloaks@,
            rows_of(material.utxos@),
            material.gammas@,
            n_chunks as int,
        ));
        mine
    }

    /// Keeps what this participant commits to, and sends the commitment.
    #[verifier::rlimit(40)]
    fn open_commitment(
        &mut self,
        k_cloaks: Vec<Cloak>,
        utxos: Vec<Vec<u8>>,
        size: usize,
        n_chunks: usize,
        mine: Contribution,
    )
        ensures
            final(self)@ == model::broadcast(
                State {
                    k_cloaks: k_cloaks@,
                    my_utxos: rows_of(utxos@),
                    utxo_size: Some(size),
                    n_chunks: Some(n_chunks),
                    contributions: seq![mine@],
                    commits: seq![
                        KeyEntry {
                            id: old(self)@.me,
                            value: crate::hashing::commitment_of(
                                mine@.matrix,
                                mine@.gamma_sum,
                                mine@.fee_sum,
                            ),
                        },
                    ],
                    awaiting: Awaiting::Nothing,
                    ..old(self)@
                },
                PayloadView::Commitment {
                    cmt: crate::hashing::commitment_of(
                        mine@.matrix,
                        mine@.gamma_sum,
                        mine@.fee_sum,
                    ),
                },
            ),
    {
        let cmt = hash_data(&mine.matrix, &mine.gamma_sum, &mine.fee_sum);
        let ghost mine_view = mine@;
        let mut all: Vec<Contribution> = Vec::new();
        all.push(mine);
        let mut commits: Vec<KeyEntry> = Vec::new();
        commits.push(KeyEntry { id: self.participant_key, value: cmt });
        self.k_cloaks = k_cloaks;
        self.my_utxos = utxos;
        self.serialized_utxo_size = Some(size);
        self.dicemix_nbr_utxo_chunks = Some(n_chunks);
        self.contributions = all;
        self.commits = commits;
        self.awaiting = Awaiting::Nothing;
        proof {
            assert(contribution_views(self.contributions@) =~= seq![mine_view]);
            assert(self.commits@ =~= seq![KeyEntry { id: old(self)@.me, value: cmt }]);
        }
        self.send_commitment(cmt);
    }

    /// Makes and sends the commitment, and begins to collect those of the
    /// others.
    #[verifier::rlimit(40)]
    fn enter_commitment(&mut self, material: CommitMaterial, size: usize, n_chunks: usize)
        requires
            inv(old(self)@),
            old(self)@.awaiting == Awaiting::CommitMaterial,
            size == model::settled_size(old(self)@, rows_of(material.utxos@)),
            n_chunks == model::settled_chunks(old(self)@, rows_of(material.utxos@)),
            matrix_fits(old(self)@.commit_phase.len() as int, n_chunks as int),
        ensures
            final(self)@ == model::commit_entered(
                old(self)@,
                material.shared@,
                rows_of(material.utxos@),
                material.gammas@,
            ),
    {
        let k_cloaks = derive_cloaks(&material.shared, &self.session_id);
        let mine = self.make_contribution(&k_cloaks, &material, n_chunks);
        self.open_commitment(k_cloaks, material.utxos, size, n_chunks, mine);
        self.prep_rx(MessageState::Commitment);
    }

    /// Called with the material of the commitment. The session fails
    /// where the matrix of the round is longer than this machine can
    /// hold.
    #[verifier::rlimit(40)]
    pub fn on_commit_material(&mut self, material: CommitMaterial) -> (r: Result<
        Progress,
        SnowballError,
    >)
        requires
            inv(old(self)@),
        ensures
            step_of(final(self)@, r) == model::on_commit_material(
                old(self)@,
                material.shared@,
                rows_of(material.utxos@),
                material.gammas@,
            ),
            inv(final(self)@),
    {
        match self.awaiting {
            Awaiting::CommitMaterial => {},
            _ => {
                return Ok(Progress::NotReady);
            },
        }
        let (size, n_chunks) = self.settle_sizes(&material.utxos);
        if matrix_size(self.commit_phase_participants.len(), n_chunks).is_none() {
            return Err(SnowballError::MatrixTooLarge);
        }
        let ghost utxos = rows_of(material.utxos@);
        let ghost shared = material.shared@;
        let ghost gammas = material.gammas@;
        let first: usize = if material.utxos.len() == 0 {
            0
        } else {
            material.utxos[0].len()
        };
        proof {
            if material.utxos@.len() > 0 {
                assert(utxos[0] == material.utxos@[0]@);
            }
            assert(first == model::first_size(utxos));
            sound::lemma_commit_entered_inv(self@, shared, utxos, gammas);
        }
        self.enter_commitment(material, size, n_chunks);
        self.handle_enqueued_messages()
    }

    /// Called with the outcome of building the joint transaction.
    #[verifier::rlimit(40)]
    pub fn on_supertransaction(&mut self, built: BuiltTransaction) -> (r: Result<
        Progress,
        SnowballError,
    >)
        requires
            inv(old(self)@),
        ensures
            step_of(final(self)@, r) == model::on_supertransaction(
                old(self)@,
                built.parsed@,
                built.sig,
            ),
            inv(final(self)@),
    {
        proof {
            sound::lemma_on_supertransaction_inv(self@, built.parsed@, built.sig);
        }
        match self.awaiting {
            Awaiting::SuperTransaction => {},
            _ => {
                return Ok(Progress::NotReady);
            },
        }
        let outputs = select_parsed(&self.trans.outputs, &built.parsed);
        self.trans.outputs = outputs;
        self.trans.sig = built.sig;
        let mut sigs: Vec<SigEntry> = Vec::new();
        sigs.push(SigEntry { id: self.participant_key, sig: built.sig });
        self.signatures = sigs;
        self.awaiting = Awaiting::Nothing;
        proof {
            assert(self.signatures@ =~= seq![SigEntry { id: self@.me, sig: built.sig }]);
        }
        self.send_signature(built.sig);
        proof {
            assert(self@ =~= model::signature_opened(old(self)@, built.parsed@, built.sig));
        }
        self.prep_rx(MessageState::Signature);
        proof {
            sound::lemma_signature_entered_inv(old(self)@, built.parsed@, built.sig);
        }
        self.handle_enqueued_messages()
    }

    /// Called with the outcome of validating the joint transaction.
    #[verifier::rlimit(40)]
    pub fn on_validation(&mut self, v: Validation) -> (r: Result<Progress, SnowballError>)
        requires
            inv(old(self)@),
        ensures
            step_of(final(self)@, r) == model::on_validation(old(self)@, v),
            inv(final(self)@),
    {
        proof {
            sound::lemma_on_validation_inv(self@, v);
        }
        match self.awaiting {
            Awaiting::Validation => {},
            _ => {
                return Ok(Progress::NotReady);
            },
        }
        if v.valid {
            self.trans.sig = SchnorrSig { u: self.trans.sig.u, k: v.k_sum };
            let is_leader = match leader_id(&self.participants) {
                Some(l) => {
                    proof {
                        crate::leader::lemma_leader_unique(l, self@.me, self@.participants);
                    }
                    l.same(&self.participant_key)
                },
                None => false,
            };
            let tx = SuperTransaction {
                txins: copy_vec(&self.trans.txins),
                outputs: copy_rows(&self.trans.outputs),
                gamma_adj: self.trans.gamma_adj,
                fee: self.trans.fee,
                sig: self.trans.sig,
            };
            proof {
                let ghost sig = SchnorrSig { u: old(self)@.trans.sig.u, k: v.k_sum };
                assert(tx@ =~= crate::types::TransactionView { sig, ..old(self)@.trans });
                assert(self@ =~= State {
                    trans: crate::types::TransactionView { sig, ..old(self)@.trans },
                    ..old(self)@
                });
            }
            self.reset_state();
            Ok(Progress::Ready(SnowballOutput { tx, is_leader }))
        } else {
            let mut skeys: Vec<KeyEntry> = Vec::new();
            skeys.push(KeyEntry { id: self.participant_key, value: self.sess_skey });
            self.sess_skeys = skeys;
            self.awaiting = Awaiting::Nothing;
            proof {
                assert(self.sess_skeys@ =~= seq![
                    KeyEntry { id: self@.me, value: self@.sess_skey },
                ]);
            }
            self.send_session_skey(self.sess_skey);
            proof {
                assert(self@ =~= model::secrets_opened(old(self)@));
            }
            self.prep_rx(MessageState::SecretKeying);
            proof {
                sound::lemma_secrets_entered_inv(old(self)@);
            }
            self.handle_enqueued_messages()
        }
    }

    /// Called with what the checks of the contributions found. The
    /// session fails where a fault was found in this participant's own
    /// contribution, and where nobody is left out, so that no smaller
    /// round can begin.
    #[verifier::rlimit(40)]
    pub fn on_blame(&mut self, verdicts: &Vec<Verdict>) -> (r: Result<Progress, SnowballError>)
        requires
            inv(old(self)@),
        ensures
            step_of(final(self)@, r) == model::on_blame(old(self)@, verdicts@),
            inv(final(self)@),
    {
        proof {
            sound::lemma_on_blame_inv(self@, verdicts@);
        }
        match self.awaiting {
            Awaiting::Blame => {},
            _ => {
                return Ok(Progress::NotReady);
            },
        }
        let excl = list_convicted(verdicts);
        if crate::participant::contains(&excl, &self.participant_key) {
            self.awaiting = Awaiting::Nothing;
            return Err(SnowballError::NotInParticipantList);
        }
        self.exclude_participants(&excl);
        self.awaiting = Awaiting::Nothing;
        proof {
            sound::lemma_blame_excluded_inv(old(self)@, verdicts@);
            assert(self@ =~= model::blamed(old(self)@, verdicts@));
        }
        if self.participants.len() >= self.round_size {
            return Err(SnowballError::NobodyToBlame);
        }
        self.start()
    }

    /// Leaves the participants of `p_excl` out.
    fn exclude_participants(&mut self, p_excl: &Vec<ParticipantID>)
        ensures
            final(self)@ == (State {
                participants: crate::participant::without(old(self)@.participants, p_excl@),
                ..old(self)@
            }),
    {
        self.participants = exclude(&self.participants, p_excl);
    }

    /// Whether `from` is the facilitator.
    fn ensure_facilitator(&self, from: &NetworkKey) -> (r: Result<(), SnowballError>)
        ensures
            r is Ok <==> *from == self@.facilitator,
            r is Err ==> r == Err::<(), SnowballError>(SnowballError::BadFacilitator),
    {
        if same_key(from, &self.facilitator) {
            Ok(())
        } else {
            Err(SnowballError::BadFacilitator)
        }
    }

    /// Called when the facilitator tells about the pool.
    #[verifier::rlimit(40)]
    pub fn on_pool_notification(&mut self, from: &NetworkKey, pool_info: PoolNotification) -> (r:
        Result<Progress, SnowballError>)
        requires
            inv(old(self)@),
        ensures
            step_of(final(self)@, r) == model::on_pool_notification(old(self)@, *from, pool_info@),
            inv(final(self)@),
    {
        proof {
            sound::lemma_on_pool_notification_inv(self@, *from, pool_info@);
        }
        match self.ensure_facilitator(from) {
            Err(e) => {
                return Err(e);
            },
            Ok(_) => {},
        }
        match pool_info {
            PoolNotification::Canceled => {
                match self.poll_state {
                    PoolState::PoolWait | PoolState::PoolRestart => {
                        self.poll_state = PoolState::PoolRestart;
                    },
                    PoolState::PoolFormed => {
                        self.cancel_deferred = true;
                    },
                    PoolState::PoolFinished => {},
                }
                Ok(Progress::NotReady)
            },
            PoolNotification::Started { session_id, participants } => {
                if !is_listed(&participants, &self.participant_key) {
                    return Err(SnowballError::NotInParticipantList);
                }
                let (ids, txins) = keep_members(&participants, &self.participant_key);
                let sorted = sort_dedup(&ids);
                self.session_id = session_id;
                self.session_round = 0;
                self.round_size = sorted.len();
                self.first_count = sorted.len();
                self.participants = sorted;
                self.pending_participants = Vec::new();
                self.all_txins = txins;
                self.poll_state = PoolState::PoolFormed;
                self.msg_queue = Vec::new();
                self.msg_state = MessageState::Idle;
                self.phase = MessageState::Idle;
                self.awaiting = Awaiting::Nothing;
                self.cancel_deferred = false;
                proof {
                    assert(envelope_views(self.msg_queue@) =~= Seq::<EnvelopeView>::empty());
                    assert(self@ =~= model::pool_taken(
                        old(self)@,
                        session_id,
                        member_views(participants@),
                    ));
                    sound::lemma_pool_formed_inv(
                        old(self)@,
                        session_id,
                        member_views(participants@),
                    );
                }
                self.start()
            },
        }
    }

    /// Hands the actions asked for so far to the caller.
    pub fn take_actions(&mut self) -> (actions: Vec<Action>)
        requires
            inv(old(self)@),
        ensures
            action_views(actions@) == old(self)@.outbox,
            final(self)@ == model::take_actions(old(self)@),
            inv(final(self)@),
    {
        let mut actions: Vec<Action> = Vec::new();
        std::mem::swap(&mut actions, &mut self.outbox);
        proof {
            assert(action_views(self.outbox@) =~= Seq::<ActionView>::empty());
            assert(self@ =~= model::take_actions(old(self)@));
            sound::lemma_take_actions_inv(old(self)@);
        }
        actions
    }
}

} // verus!
