//! What the session is given, what it keeps, and what it asks for.

use crate::dicemix::{rows_of};
use crate::hashing::Digest;
use crate::message::{PayloadView, SchnorrSig, SnowballPayload};
use crate::participant::{ParticipantID, NETWORK_PKEY_SIZE};
use crate::scalar::Scalar;
use vstd::prelude::*;

verus! {

/// A network public key.
pub type NetworkKey = [u8; NETWORK_PKEY_SIZE];

/// An output that a participant proposes: who is paid, how much, a note,
/// and the time before which the output cannot be spent.
#[derive(Clone, Debug)]
pub struct ProposedUTXO {
    pub recip: [u8; 32],
    pub amount: i64,
    pub data: String,
    pub locked_timestamp: Option<u64>,
}

/// Where the session stands with its pool.
#[derive(Debug, Copy, Clone, PartialEq, Eq)]
pub enum PoolState {
    /// Asked to join, waiting for the pool to be announced.
    PoolWait,
    /// A pool was announced; rounds are running.
    PoolFormed,
    /// The session has produced its transaction.
    PoolFinished,
    /// The pool was canceled; waiting for a new facilitator.
    PoolRestart,
}

/// The outside work whose result the session waits for.
#[derive(Debug, Copy, Clone, PartialEq, Eq)]
pub enum Awaiting {
    Nothing,
    RoundKeys,
    CommitMaterial,
    SuperTransaction,
    Validation,
    Blame,
}

/// 32 bytes kept for a participant: a key, a point or a commitment.
#[derive(Debug, Copy, Clone, PartialEq, Eq)]
pub struct KeyEntry {
    pub id: ParticipantID,
    pub value: [u8; 32],
}

/// The part of the signature that a participant sent.
#[derive(Debug, Copy, Clone, PartialEq, Eq)]
pub struct SigEntry {
    pub id: ParticipantID,
    pub sig: SchnorrSig,
}

/// The inputs that a participant claims, by their hashes.
#[derive(Debug, Clone, PartialEq, Eq)]
pub struct TxinEntry {
    pub id: ParticipantID,
    pub txins: Vec<Digest>,
}

/// The inputs of a participant as plain values.
#[verifier::ext_equal]
pub struct TxinView {
    pub id: ParticipantID,
    pub txins: Seq<Digest>,
}

impl View for TxinEntry {
    type V = TxinView;

    open spec fn view(&self) -> TxinView {
        TxinView { id: self.id, txins: self.txins@ }
    }
}

/// The entries as plain values.
pub open spec fn txin_views(all: Seq<TxinEntry>) -> Seq<TxinView> {
    Seq::new(all.len(), |i: int| all[i]@)
}

/// The joint transaction: the inputs of all participants, the outputs that
/// came out of the matrix, the fee, the adjustment and the signature.
#[derive(Debug, Clone, PartialEq, Eq)]
pub struct SuperTransaction {
    pub txins: Vec<Digest>,
    pub outputs: Vec<Vec<u8>>,
    pub gamma_adj: Scalar,
    pub fee: i64,
    pub sig: SchnorrSig,
}

/// The joint transaction as plain values.
#[verifier::ext_equal]
pub struct TransactionView {
    pub txins: Seq<Digest>,
    pub outputs: Seq<Seq<u8>>,
    pub gamma_adj: Scalar,
    pub fee: i64,
    pub sig: SchnorrSig,
}

impl View for SuperTransaction {
    type V = TransactionView;

    open spec fn view(&self) -> TransactionView {
        TransactionView {
            txins: self.txins@,
            outputs: rows_of(self.outputs@),
            gamma_adj: self.gamma_adj,
            fee: self.fee,
            sig: self.sig,
        }
    }
}

/// What a session that succeeded hands out.
#[derive(Debug, Clone, PartialEq, Eq)]
pub struct SnowballOutput {
    pub tx: SuperTransaction,
    pub is_leader: bool,
}

/// The result of a session as plain values.
#[verifier::ext_equal]
pub struct OutputView {
    pub tx: TransactionView,
    pub is_leader: bool,
}

impl View for SnowballOutput {
    type V = OutputView;

    open spec fn view(&self) -> OutputView {
        OutputView { tx: self.tx@, is_leader: self.is_leader }
    }
}

/// How far a step has brought the session.
#[derive(Debug, Clone, PartialEq, Eq)]
pub enum Progress {
    /// The session goes on.
    NotReady,
    /// The session has produced its transaction.
    Ready(SnowballOutput),
}

/// One member of an announced pool: who it is, the inputs it claims, and
/// whether its ownership signature over them was found valid.
#[derive(Debug, Clone, PartialEq, Eq)]
pub struct PoolMember {
    pub id: ParticipantID,
    pub txins: Vec<Digest>,
    pub ownership_valid: bool,
}

/// A pool member as plain values.
#[verifier::ext_equal]
pub struct MemberView {
    pub id: ParticipantID,
    pub txins: Seq<Digest>,
    pub ownership_valid: bool,
}

impl View for PoolMember {
    type V = MemberView;

    open spec fn view(&self) -> MemberView {
        MemberView { id: self.id, txins: self.txins@, ownership_valid: self.ownership_valid }
    }
}

/// The members as plain values.
pub open spec fn member_views(all: Seq<PoolMember>) -> Seq<MemberView> {
    Seq::new(all.len(), |i: int| all[i]@)
}

/// What the facilitator tells about the pool.
#[derive(Debug, Clone, PartialEq, Eq)]
pub enum PoolNotification {
    /// The pool will not be formed.
    Canceled,
    /// The pool is formed: the first session id and the members.
    Started { session_id: Digest, participants: Vec<PoolMember> },
}

/// A notice of the facilitator as plain values.
#[verifier::ext_equal]
pub enum NotificationView {
    Canceled,
    Started { session_id: Digest, participants: Seq<MemberView> },
}

impl View for PoolNotification {
    type V = NotificationView;

    open spec fn view(&self) -> NotificationView {
        match *self {
            PoolNotification::Canceled => NotificationView::Canceled,
            PoolNotification::Started { session_id, participants } => NotificationView::Started {
                session_id,
                participants: member_views(participants@),
            },
        }
    }
}

/// An input of this participant: the hash of the output that it spends,
/// the amount of that output and its blinding factor.
#[derive(Debug, Copy, Clone, PartialEq, Eq)]
pub struct OwnedInput {
    pub hash: Digest,
    pub amount: i64,
    pub gamma: Scalar,
}

/// The keys of one round: the point of the nonce, and the session key
/// pair.
#[derive(Debug, Copy, Clone, PartialEq, Eq)]
pub struct RoundKeys {
    pub sig_k: [u8; 32],
    pub sess_skey: [u8; 32],
    pub sess_pkey: [u8; 32],
}

/// What the commitment of a round is made of: the secret shared with each
/// other participant, the fresh outputs in serialized form, and the
/// blinding factor of each.
#[derive(Debug, Clone, PartialEq, Eq)]
pub struct CommitMaterial {
    pub shared: Vec<KeyEntry>,
    pub utxos: Vec<Vec<u8>>,
    pub gammas: Vec<Scalar>,
}

/// What comes back for the rows of the summed matrix: which of them are
/// outputs, and this participant's part of the signature.
#[derive(Debug, Clone, PartialEq, Eq)]
pub struct BuiltTransaction {
    pub parsed: Vec<bool>,
    pub sig: SchnorrSig,
}

/// Whether the joint transaction is valid under the summed signature,
/// and the sum of the points of all parts of the signature.
#[derive(Debug, Copy, Clone, PartialEq, Eq)]
pub struct Validation {
    pub valid: bool,
    pub k_sum: [u8; 32],
}

/// What the checks of one participant's contribution found, with its
/// secret revealed: whether inputs and outputs balance, whether every
/// output has a valid range proof, whether its part of the signature is
/// valid. A row of the participant that does not parse as an output
/// clears `range_ok`: what cannot be read has no proof that verifies. A
/// contribution that cannot be read at all clears all three.
#[derive(Debug, Copy, Clone, PartialEq, Eq)]
pub struct Verdict {
    pub id: ParticipantID,
    pub balance_ok: bool,
    pub range_ok: bool,
    pub signature_ok: bool,
}

/// What the session asks its caller to do.
#[derive(Debug, Clone, PartialEq, Eq)]
pub enum Action {
    /// Send a request to join the pool: the seed and the input hashes go
    /// with the input bodies and the ownership signature.
    SendPoolJoin { facilitator: NetworkKey, seed: [u8; 32], txins: Vec<Digest> },
    /// Send the payload to each recipient, under the session id.
    Broadcast { sid: Digest, recipients: Vec<ParticipantID>, payload: SnowballPayload },
    /// Start the timer anew.
    StartTimer,
    /// Stop the timer.
    StopTimer,
    /// Make the point of the nonce of the round, and the session key pair
    /// from the seed.
    DeriveRoundKeys { round_k: Scalar, key_seed: Digest },
    /// Make fresh outputs, and the secret shared with each peer from the
    /// session secret key and the peer's session public key.
    PrepareCommit { sess_skey: [u8; 32], peers: Vec<KeyEntry> },
    /// Tell which rows are outputs, and sign the joint transaction with
    /// the signing secret and the nonce of the round under the sum of the
    /// points.
    BuildSuperTransaction {
        txins: Vec<Digest>,
        rows: Vec<Vec<u8>>,
        gamma_adj: Scalar,
        fee: i64,
        k_vals: Vec<[u8; 32]>,
        round_k: Scalar,
        signing_skey: [u8; 32],
        /// Whether this participant's own outputs came out of the matrix.
        own_intact: bool,
    },
    /// Sum the points of the parts of the signature, and validate the
    /// joint transaction under that sum and the sum of the scalars.
    ValidateTransaction { signatures: Vec<SchnorrSig>, u_sum: Scalar },
    /// Check each participant's contribution with the secrets revealed.
    AssignBlame { skeys: Vec<KeyEntry> },
}

/// An action as plain values.
#[verifier::ext_equal]
pub enum ActionView {
    SendPoolJoin { facilitator: NetworkKey, seed: [u8; 32], txins: Seq<Digest> },
    Broadcast { sid: Digest, recipients: Seq<ParticipantID>, payload: PayloadView },
    StartTimer,
    StopTimer,
    DeriveRoundKeys { round_k: Scalar, key_seed: Digest },
    PrepareCommit { sess_skey: [u8; 32], peers: Seq<KeyEntry> },
    BuildSuperTransaction {
        txins: Seq<Digest>,
        rows: Seq<Seq<u8>>,
        gamma_adj: Scalar,
        fee: i64,
        k_vals: Seq<[u8; 32]>,
        round_k: Scalar,
        signing_skey: [u8; 32],
        own_intact: bool,
    },
    ValidateTransaction { signatures: Seq<SchnorrSig>, u_sum: Scalar },
    AssignBlame { skeys: Seq<KeyEntry> },
}

impl View for Action {
    type V = ActionView;

    open spec fn view(&self) -> ActionView {
        match *self {
            Action::SendPoolJoin { facilitator, seed, txins } => ActionView::SendPoolJoin {
                facilitator,
                seed,
                txins: txins@,
            },
            Action::Broadcast { sid, recipients, payload } => ActionView::Broadcast {
                sid,
                recipients: recipients@,
                payload: payload@,
            },
            Action::StartTimer => ActionView::StartTimer,
            Action::StopTimer => ActionView::StopTimer,
            Action::DeriveRoundKeys { round_k, key_seed } => ActionView::DeriveRoundKeys {
                round_k,
                key_seed,
            },
            Action::PrepareCommit { sess_skey, peers } => ActionView::PrepareCommit {
                sess_skey,
                peers: peers@,
            },
            Action::BuildSuperTransaction {
                txins,
                rows,
                gamma_adj,
                fee,
                k_vals,
                round_k,
                signing_skey,
                own_intact,
            } => ActionView::BuildSuperTransaction {
                txins: txins@,
                rows: rows_of(rows@),
                gamma_adj,
                fee,
                k_vals: k_vals@,
                round_k,
                signing_skey,
                own_intact,
            },
            Action::ValidateTransaction { signatures, u_sum } => ActionView::ValidateTransaction {
                signatures: signatures@,
                u_sum,
            },
            Action::AssignBlame { skeys } => ActionView::AssignBlame { skeys: skeys@ },
        }
    }
}

/// The actions as plain values.
pub open spec fn action_views(all: Seq<Action>) -> Seq<ActionView> {
    Seq::new(all.len(), |i: int| all[i]@)
}

/// A message that waits for its phase.
#[derive(Debug, Clone, PartialEq, Eq)]
pub struct Envelope {
    pub from: ParticipantID,
    pub payload: SnowballPayload,
    /// Whether the curve points that the payload holds were found valid.
    pub points_valid: bool,
}

/// A waiting message as plain values.
#[verifier::ext_equal]
pub struct EnvelopeView {
    pub from: ParticipantID,
    pub payload: PayloadView,
    pub points_valid: bool,
}

impl View for Envelope {
    type V = EnvelopeView;

    open spec fn view(&self) -> EnvelopeView {
        EnvelopeView {
            from: self.from,
            payload: self.payload@,
            points_valid: self.points_valid,
        }
    }
}

/// The waiting messages as plain values.
pub open spec fn envelope_views(all: Seq<Envelope>) -> Seq<EnvelopeView> {
    Seq::new(all.len(), |i: int| all[i]@)
}

} // verus!
