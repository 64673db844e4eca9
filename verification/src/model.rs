//! The session as a function from state and event to state: what each
//! step of the state machine does, in plain values.

use crate::dicemix::{
    cloak_for, decoded, encoded, encoded_scalar, matrix_fits, opened_scalar, row_of, Cloak,
    ContributionView,
};
use crate::error::SnowballError;
use crate::hashing::{
    shared_cloak_of, commitment_of, nonce_seed_of, session_id_of, session_key_seed_of, Digest,
};
use crate::leader::leads;
use crate::message::{MessageState, MessageView, PayloadView, SchnorrSig};
use crate::participant::{canonical, same_members, without, ParticipantID};
use crate::scalar::{
    difference_of, digest_scalar, scalar_value, scalar_with_value, sum_of, Scalar,
};
use crate::types::{
    ActionView, Awaiting, EnvelopeView, KeyEntry, MemberView, NetworkKey, NotificationView,
    OutputView, OwnedInput, PoolState, ProposedUTXO, RoundKeys, SigEntry, TransactionView,
    TxinView, Validation, Verdict,
};
use vstd::prelude::*;

verus! {

/// All that a session holds.
#[verifier::ext_equal]
pub struct State {
    /// The secret that signs for the inputs.
    pub signing_skey: [u8; 32],
    pub facilitator: NetworkKey,
    /// A facilitator learned while rounds were running.
    pub future_facilitator: Option<NetworkKey>,
    pub poll_state: PoolState,
    /// This participant.
    pub me: ParticipantID,
    /// Who takes part: while a kind of payload is collected, those who
    /// have answered, and this participant.
    pub participants: Seq<ParticipantID>,
    /// Who has not answered yet.
    pub pending: Seq<ParticipantID>,
    pub my_txins: Seq<Digest>,
    pub my_txouts: Seq<ProposedUTXO>,
    pub my_fee: i64,
    /// The sum of the blinding factors of the inputs.
    pub txin_gamma_sum: Scalar,
    /// Messages that came before their phase.
    pub queue: Seq<EnvelopeView>,
    pub round: u16,
    pub session_id: Digest,
    /// How many took part when the round began.
    pub round_size: nat,
    /// How many took part when the first round of the pool began.
    pub first_count: nat,
    pub round_k: Scalar,
    pub sess_skey: [u8; 32],
    pub sig_k_vals: Seq<KeyEntry>,
    pub sess_pkeys: Seq<KeyEntry>,
    pub commits: Seq<KeyEntry>,
    pub sess_skeys: Seq<KeyEntry>,
    pub all_txins: Seq<TxinView>,
    pub utxo_size: Option<usize>,
    pub n_chunks: Option<usize>,
    pub k_cloaks: Seq<Cloak>,
    /// The fresh outputs of this participant in this round.
    pub my_utxos: Seq<Seq<u8>>,
    pub contributions: Seq<ContributionView>,
    /// Who took part when the matrix was made.
    pub commit_phase: Seq<ParticipantID>,
    pub excl_participants: Seq<ParticipantID>,
    pub excl_cloaks: Seq<Cloak>,
    pub trans: TransactionView,
    pub signatures: Seq<SigEntry>,
    /// The kind of payload that is collected now.
    pub msg_state: MessageState,
    /// The kind of payload that was collected last in this round.
    pub phase: MessageState,
    pub awaiting: Awaiting,
    /// The pool was canceled while rounds were running.
    pub cancel_deferred: bool,
    /// What the caller has been asked to do and has not taken yet.
    pub outbox: Seq<ActionView>,
}

/// How a step ended.
#[verifier::ext_equal]
pub enum Outcome {
    NotReady,
    Ready(OutputView),
    Failed(SnowballError),
}

/// A step: the state after it and how it ended.
#[verifier::ext_equal]
pub struct Step {
    pub state: State,
    pub outcome: Outcome,
}

/// The step that leaves the session going in state `s`.
pub open spec fn going(s: State) -> Step {
    Step { state: s, outcome: Outcome::NotReady }
}

/// The step that fails because too few participants are left.
pub open spec fn too_few(s: State) -> Step {
    Step {
        state: s,
        outcome: Outcome::Failed(SnowballError::TooFewParticipants(s.participants.len() as usize)),
    }
}

// ---------------------------------------------------------------------
// What is kept for each participant.

/// The 32 bytes kept for `p`: those of the first entry for it.
pub open spec fn key_for(entries: Seq<KeyEntry>, p: ParticipantID) -> Option<[u8; 32]>
    decreases entries.len(),
{
    if entries.len() == 0 {
        None
    } else if entries[0].id == p {
        Some(entries[0].value)
    } else {
        key_for(entries.skip(1), p)
    }
}

/// The part of the signature kept for `p`.
pub open spec fn sig_for(entries: Seq<SigEntry>, p: ParticipantID) -> Option<SchnorrSig>
    decreases entries.len(),
{
    if entries.len() == 0 {
        None
    } else if entries[0].id == p {
        Some(entries[0].sig)
    } else {
        sig_for(entries.skip(1), p)
    }
}

/// Whose entries these are, in their order.
pub open spec fn key_ids(entries: Seq<KeyEntry>) -> Seq<ParticipantID> {
    Seq::new(entries.len(), |i: int| entries[i].id)
}

/// Whose parts of the signature these are, in their order.
pub open spec fn sig_ids(entries: Seq<SigEntry>) -> Seq<ParticipantID> {
    Seq::new(entries.len(), |i: int| entries[i].id)
}

/// Whose contributions these are, in their order.
pub open spec fn contribution_ids(all: Seq<ContributionView>) -> Seq<ParticipantID> {
    Seq::new(all.len(), |i: int| all[i].id)
}

/// The inputs kept for `p`; none where there is no entry.
pub open spec fn txins_for(all: Seq<TxinView>, p: ParticipantID) -> Seq<Digest>
    decreases all.len(),
{
    if all.len() == 0 {
        Seq::empty()
    } else if all[0].id == p {
        all[0].txins
    } else {
        txins_for(all.skip(1), p)
    }
}

/// The inputs of the participants of `list`, in that order.
pub open spec fn collect_txins(list: Seq<ParticipantID>, all: Seq<TxinView>) -> Seq<Digest>
    decreases list.len(),
{
    if list.len() == 0 {
        Seq::empty()
    } else {
        collect_txins(list.drop_last(), all) + txins_for(all, list.last())
    }
}

/// What is kept for the participants of `list`, in that order; a
/// participant without an entry is passed over.
pub open spec fn collect_keys(list: Seq<ParticipantID>, entries: Seq<KeyEntry>) -> Seq<[u8; 32]>
    decreases list.len(),
{
    if list.len() == 0 {
        Seq::empty()
    } else {
        let rest = collect_keys(list.drop_last(), entries);
        match key_for(entries, list.last()) {
            Some(v) => rest.push(v),
            None => rest,
        }
    }
}

/// The parts of the signature of the participants of `list`, in that
/// order.
pub open spec fn collect_sigs(list: Seq<ParticipantID>, entries: Seq<SigEntry>) -> Seq<SchnorrSig>
    decreases list.len(),
{
    if list.len() == 0 {
        Seq::empty()
    } else {
        let rest = collect_sigs(list.drop_last(), entries);
        match sig_for(entries, list.last()) {
            Some(v) => rest.push(v),
            None => rest,
        }
    }
}

/// Every participant of `list` has sent its part of the signature.
pub open spec fn all_signed(list: Seq<ParticipantID>, entries: Seq<SigEntry>) -> bool {
    forall|i: int| 0 <= i < list.len() ==> sig_for(entries, #[trigger] list[i]) is Some
}

/// The cloak shared with each peer: the hash of the shared secret and the
/// session id.
pub open spec fn cloaks_from(shared: Seq<KeyEntry>, sid: Digest) -> Seq<Cloak> {
    Seq::new(
        shared.len(),
        |i: int| Cloak { id: shared[i].id, key: shared_cloak_of(shared[i].value, sid) },
    )
}

/// The cloaks shared with the participants of `excl`, in that order; a
/// participant without a cloak is passed over.
pub open spec fn cloaks_toward(cloaks: Seq<Cloak>, excl: Seq<ParticipantID>) -> Seq<Cloak>
    decreases excl.len(),
{
    if excl.len() == 0 {
        Seq::empty()
    } else {
        let rest = cloaks_toward(cloaks, excl.drop_last());
        match cloak_for(cloaks, excl.last()) {
            Some(key) => rest.push(Cloak { id: excl.last(), key }),
            None => rest,
        }
    }
}

/// The sum of the scalars in the field.
pub open spec fn scalar_sum(all: Seq<Scalar>) -> Scalar
    decreases all.len(),
{
    if all.len() == 0 {
        scalar_with_value(0)
    } else {
        sum_of(scalar_sum(all.drop_last()), all.last())
    }
}

/// The width that serialized outputs are cut to: that of the first output.
pub open spec fn first_size(utxos: Seq<Seq<u8>>) -> int {
    if utxos.len() == 0 {
        0
    } else {
        utxos[0].len() as int
    }
}

/// The cells that a row needs to hold `size` bytes.
pub open spec fn chunks_for(size: int) -> int {
    (size + 31) / 32
}

/// The rows of a matrix, each cut to `size` bytes.
pub open spec fn rows_cut(matrix: Seq<u8>, n_chunks: int, size: int) -> Seq<Seq<u8>> {
    if n_chunks <= 0 {
        Seq::empty()
    } else {
        Seq::new(
            matrix.len() / (n_chunks as nat * 32),
            |r: int| row_of(matrix, n_chunks, size, r),
        )
    }
}

/// The rows that are outputs: row `i` stays where it is not all zero and
/// `parsed` says at `i` that it is an output. A row of zeros is the
/// padding of a participant with fewer than five outputs, whatever is
/// told of it.
pub open spec fn keep_parsed(rows: Seq<Seq<u8>>, parsed: Seq<bool>) -> Seq<Seq<u8>>
    decreases rows.len(),
{
    if rows.len() == 0 {
        Seq::empty()
    } else {
        let rest = keep_parsed(rows.drop_last(), parsed);
        let i = rows.len() - 1;
        if i < parsed.len() && parsed[i] && !crate::blame::is_zero_row(rows.last()) {
            rest.push(rows.last())
        } else {
            rest
        }
    }
}

/// The fee that the opened scalar stands for; zero where it is no fee.
pub open spec fn fee_of(opened: Scalar) -> i64 {
    if scalar_value(opened) % crate::scalar::group_order() <= i64::MAX {
        (scalar_value(opened) % crate::scalar::group_order()) as i64
    } else {
        0
    }
}

/// Whether the checks found a fault in the contribution.
pub open spec fn at_fault(v: Verdict) -> bool {
    !(v.balance_ok && v.range_ok && v.signature_ok)
}

/// The participants in whose contribution a fault was found.
pub open spec fn convicted(verdicts: Seq<Verdict>) -> Seq<ParticipantID>
    decreases verdicts.len(),
{
    if verdicts.len() == 0 {
        Seq::empty()
    } else {
        let rest = convicted(verdicts.drop_last());
        if at_fault(verdicts.last()) {
            rest.push(verdicts.last().id)
        } else {
            rest
        }
    }
}

/// Whether `me` is among the announced members.
pub open spec fn listed(members: Seq<MemberView>, me: ParticipantID) -> bool {
    exists|i: int| 0 <= i < members.len() && members[i].id == me
}

/// The members that stay: `me`, and every other whose ownership signature
/// is valid.
pub open spec fn kept_members(members: Seq<MemberView>, me: ParticipantID) -> Seq<MemberView>
    decreases members.len(),
{
    if members.len() == 0 {
        Seq::empty()
    } else {
        let rest = kept_members(members.drop_last(), me);
        if members.last().id == me || members.last().ownership_valid {
            rest.push(members.last())
        } else {
            rest
        }
    }
}

/// The identities of the members.
pub open spec fn member_ids(members: Seq<MemberView>) -> Seq<ParticipantID> {
    Seq::new(members.len(), |i: int| members[i].id)
}

/// The inputs of the members.
pub open spec fn member_txins(members: Seq<MemberView>) -> Seq<TxinView> {
    Seq::new(members.len(), |i: int| TxinView { id: members[i].id, txins: members[i].txins })
}

// ---------------------------------------------------------------------
// The steps.

/// `s` with one more action asked of the caller.
pub open spec fn push_action(s: State, a: ActionView) -> State {
    State { outbox: s.outbox.push(a), ..s }
}

/// `s` with the payload sent to every other participant.
pub open spec fn broadcast(s: State, payload: PayloadView) -> State {
    push_action(
        s,
        ActionView::Broadcast {
            sid: s.session_id,
            recipients: without(s.participants, seq![s.me]),
            payload,
        },
    )
}

/// `s` after asking the facilitator to join the pool.
pub open spec fn send_pool_join(s: State) -> State {
    State {
        all_txins: seq![TxinView { id: s.me, txins: s.my_txins }],
        outbox: s.outbox.push(
            ActionView::SendPoolJoin {
                facilitator: s.facilitator,
                seed: s.me.seed,
                txins: s.my_txins,
            },
        ),
        ..s
    }
}

/// 32 zero bytes.
pub open spec fn zero_bytes() -> [u8; 32] {
    scalar_with_value(0)
}

/// `s` without the secrets of a round: the nonce, the session secret, the
/// cloaks, and the session secrets that others revealed.
pub open spec fn forget_round(s: State) -> State {
    State {
        round_k: zero_bytes(),
        sess_skey: zero_bytes(),
        k_cloaks: Seq::empty(),
        excl_cloaks: Seq::empty(),
        sess_skeys: Seq::empty(),
        ..s
    }
}

/// `s` without any secret: those of the round, and the secret that signs
/// for the inputs.
pub open spec fn wiped(s: State) -> State {
    State { signing_skey: zero_bytes(), ..forget_round(s) }
}

/// `s` with the session over: nothing is collected, nothing waits, the
/// secrets of the round are gone, and a facilitator learned meanwhile
/// takes over. A cancel that was put off while rounds were running is
/// forgotten: the transaction is made, and nothing is left to join for.
pub open spec fn reset_state(s: State) -> State {
    let s = forget_round(s);
    State {
        poll_state: PoolState::PoolFinished,
        msg_state: MessageState::Idle,
        phase: MessageState::Idle,
        queue: Seq::empty(),
        pending: Seq::empty(),
        round: 0,
        awaiting: Awaiting::Nothing,
        cancel_deferred: false,
        facilitator: match s.future_facilitator {
            Some(f) => f,
            None => s.facilitator,
        },
        future_facilitator: None,
        outbox: s.outbox.push(ActionView::StopTimer),
        ..s
    }
}

/// A new facilitator is learned. While rounds are running it is kept for
/// later; otherwise it takes over at once, and a session that waits for
/// its pool asks the new facilitator to join.
pub open spec fn change_facilitator(s: State, facilitator: NetworkKey) -> State {
    match s.poll_state {
        PoolState::PoolFormed => State { future_facilitator: Some(facilitator), ..s },
        PoolState::PoolFinished => State { facilitator, future_facilitator: None, ..s },
        _ => send_pool_join(
            State { facilitator, future_facilitator: None, poll_state: PoolState::PoolWait, ..s },
        ),
    }
}

/// The round counter after one more round.
pub open spec fn next_round(round: u16) -> u16 {
    if round < u16::MAX {
        (round + 1) as u16
    } else {
        round
    }
}

/// The nonce of a round: the scalar that the hash of the tag `kVal`, the
/// session id and the signing secret stands for. It changes with the
/// session id, so that no nonce signs in two rounds.
pub open spec fn nonce_of(sid: Digest, skey: [u8; 32]) -> Scalar {
    digest_scalar(nonce_seed_of(sid, skey))
}

/// A round begins: with fewer than three participants the session fails;
/// otherwise the secrets of the round before are forgotten, the
/// participants are put in order, the session id and the nonce are
/// derived, and the keys of the round are asked for.
pub open spec fn start(s: State) -> Step {
    if s.participants.len() < 3 {
        too_few(s)
    } else {
        let sorted = canonical(s.participants);
        let round = next_round(s.round);
        let sid = session_id_of(s.session_id, round, sorted);
        let s = forget_round(s);
        going(
            State {
                round_k: nonce_of(sid, s.signing_skey),
                participants: sorted,
                pending: Seq::empty(),
                round,
                session_id: sid,
                round_size: sorted.len(),
                queue: Seq::empty(),
                msg_state: MessageState::Idle,
                phase: MessageState::Idle,
                awaiting: Awaiting::RoundKeys,
                outbox: s.outbox.push(
                    ActionView::DeriveRoundKeys {
                        round_k: nonce_of(sid, s.signing_skey),
                        key_seed: session_key_seed_of(sid, s.signing_skey),
                    },
                ),
                ..s
            },
        )
    }
}

/// The session begins to collect payloads of `kind` from every other
/// participant, and the timer starts anew.
pub open spec fn enter_phase(s: State, kind: MessageState) -> State {
    State {
        pending: without(s.participants, seq![s.me]),
        participants: seq![s.me],
        msg_state: kind,
        phase: kind,
        outbox: s.outbox.push(ActionView::StartTimer),
        ..s
    }
}

/// With the session keys of all who answered: the matrix will be laid out
/// for them, in their order, and the material of the commitment is asked
/// for.
pub open spec fn commit(s: State) -> Step {
    if s.participants.len() < 3 {
        too_few(s)
    } else {
        going(
            State {
                commit_phase: canonical(s.participants),
                awaiting: Awaiting::CommitMaterial,
                outbox: s.outbox.push(
                    ActionView::PrepareCommit { sess_skey: s.sess_skey, peers: s.sess_pkeys },
                ),
                ..s
            },
        )
    }
}

/// This participant's own contribution, with the cloaks it reveals.
pub open spec fn own_contribution(s: State, cloaks: Seq<Cloak>) -> ContributionView {
    if s.contributions.len() > 0 {
        ContributionView { cloaks, ..s.contributions[0] }
    } else {
        ContributionView {
            id: s.me,
            matrix: Seq::empty(),
            gamma_sum: scalar_with_value(0),
            fee_sum: scalar_with_value(0),
            cloaks,
        }
    }
}

/// With the commitments of all who answered: those who did not are left
/// out, the cloaks shared with them are revealed, and what was committed
/// to is opened.
pub open spec fn share_cloaked_data(s: State) -> Step {
    if s.participants.len() < 3 {
        too_few(s)
    } else {
        let excl = without(s.commit_phase, s.participants);
        let excl_cloaks = cloaks_toward(s.k_cloaks, excl);
        let mine = own_contribution(s, excl_cloaks);
        let s1 = State {
            excl_participants: excl,
            excl_cloaks,
            contributions: seq![mine],
            ..s
        };
        let s2 = broadcast(
            s1,
            PayloadView::CloakedVals {
                matrix: mine.matrix,
                gamma_sum: mine.gamma_sum,
                fee_sum: mine.fee_sum,
                cloaks: excl_cloaks,
            },
        );
        going(enter_phase(s2, MessageState::CloakedVals))
    }
}

/// The cells in a row; none before the width is set.
pub open spec fn chunks_of(s: State) -> int {
    match s.n_chunks {
        Some(c) => c as int,
        None => 0,
    }
}

/// The width of a serialized output; none before it is set.
pub open spec fn size_of(s: State) -> int {
    match s.utxo_size {
        Some(c) => c as int,
        None => 0,
    }
}

/// An output as it stands in a row: cut to `size` bytes, or filled with
/// zeros up to them.
pub open spec fn fitted(utxo: Seq<u8>, size: int) -> Seq<u8> {
    Seq::new(
        size as nat,
        |j: int|
            if j < utxo.len() {
                utxo[j]
            } else {
                0u8
            },
    )
}

/// Whether the output `slot` of the participant at `place`, if it has
/// one, stands in its row.
pub open spec fn came_out_at(
    rows: Seq<Seq<u8>>,
    place: int,
    mine: Seq<Seq<u8>>,
    size: int,
    slot: int,
) -> bool {
    slot < mine.len() ==> place * 5 + slot < rows.len() && rows[place * 5 + slot] == fitted(
        mine[slot],
        size,
    )
}

/// Whether the outputs of the participant at `place` came out of the
/// matrix: each of its first five stands in its row.
pub open spec fn own_came_out(
    rows: Seq<Seq<u8>>,
    place: int,
    mine: Seq<Seq<u8>>,
    size: int,
) -> bool {
    forall|slot: int| 0 <= slot < 5 ==> #[trigger] came_out_at(rows, place, mine, size, slot)
}

/// With what all have opened: if anyone has left since the matrix was
/// made, the round begins anew with those who are left; otherwise the
/// matrices are summed, the rows and the two scalars come out, and the
/// joint transaction is handed over to be signed, with whether this
/// participant's own outputs came out of the matrix.
pub open spec fn make_supertransaction(s: State) -> Step {
    if s.participants.len() < 3 {
        too_few(s)
    } else if !same_members(s.participants, s.commit_phase) {
        start(s)
    } else {
        let sorted = canonical(s.commit_phase);
        let txins = collect_txins(sorted, s.all_txins);
        let matrix = decoded(
            s.participants,
            s.contributions,
            s.excl_participants,
            s.commit_phase.len() as int,
            chunks_of(s),
        );
        let rows = rows_cut(matrix, chunks_of(s), size_of(s));
        let gamma_adj = opened_scalar(s.participants, s.contributions, s.excl_participants, false);
        let fee = fee_of(
            opened_scalar(s.participants, s.contributions, s.excl_participants, true),
        );
        let k_vals = collect_keys(sorted, s.sig_k_vals);
        let trans = TransactionView { txins, outputs: rows, gamma_adj, fee, sig: s.trans.sig };
        going(
            State {
                trans,
                awaiting: Awaiting::SuperTransaction,
                outbox: s.outbox.push(
                    ActionView::BuildSuperTransaction {
                        txins,
                        rows,
                        gamma_adj,
                        fee,
                        k_vals,
                        round_k: s.round_k,
                        signing_skey: s.signing_skey,
                        own_intact: own_came_out(
                            rows,
                            crate::dicemix::position_of(s.commit_phase, s.me),
                            s.my_utxos,
                            size_of(s),
                        ),
                    },
                ),
                ..s
            },
        )
    }
}

/// The scalars of the parts of a signature.
pub open spec fn sig_scalars(sigs: Seq<SchnorrSig>) -> Seq<Scalar> {
    Seq::new(sigs.len(), |i: int| sigs[i].u)
}

/// With the parts of the signature of all who answered: if one is
/// missing, the round begins anew with those who are left; otherwise the
/// scalars of the parts are summed, and the joint transaction is handed
/// over to be validated under the sum.
pub open spec fn sign_supertransaction(s: State) -> Step {
    if !all_signed(s.commit_phase, s.signatures) {
        start(s)
    } else {
        let signatures = collect_sigs(s.commit_phase, s.signatures);
        let u_sum = scalar_sum(sig_scalars(signatures));
        going(
            State {
                trans: TransactionView {
                    sig: SchnorrSig { u: u_sum, k: s.trans.sig.k },
                    ..s.trans
                },
                awaiting: Awaiting::Validation,
                outbox: s.outbox.push(ActionView::ValidateTransaction { signatures, u_sum }),
                ..s
            },
        )
    }
}

/// With the session secrets of all who answered: if anyone has left, no
/// blame can be assigned and the round begins anew with those who are
/// left; otherwise the contributions are handed over to be checked.
pub open spec fn blame_discovery(s: State) -> Step {
    if !same_members(s.participants, s.commit_phase) {
        start(s)
    } else {
        going(
            State {
                awaiting: Awaiting::Blame,
                outbox: s.outbox.push(ActionView::AssignBlame { skeys: s.sess_skeys }),
                ..s
            },
        )
    }
}

/// What follows when the payloads of `kind` are in.
pub open spec fn advance(s: State, kind: MessageState) -> Step {
    match kind {
        MessageState::Idle => going(s),
        MessageState::SharedKeying => commit(s),
        MessageState::Commitment => share_cloaked_data(s),
        MessageState::CloakedVals => make_supertransaction(s),
        MessageState::Signature => sign_supertransaction(s),
        MessageState::SecretKeying => blame_discovery(s),
    }
}

/// Whether what `from` opens is what it committed to, with the cloaks for
/// exactly those whom this participant has left out.
pub open spec fn cloaked_vals_valid(
    s: State,
    from: ParticipantID,
    matrix: Seq<u8>,
    gamma_sum: Scalar,
    fee_sum: Scalar,
    cloaks: Seq<Cloak>,
) -> bool {
    &&& key_for(s.commits, from) == Some(commitment_of(matrix, gamma_sum, fee_sum))
    &&& forall|i: int|
        0 <= i < s.excl_participants.len() ==> cloak_for(
            cloaks,
            #[trigger] s.excl_participants[i],
        ) is Some
    &&& forall|i: int| 0 <= i < cloaks.len() ==> s.excl_participants.contains(#[trigger] cloaks[i].id)
}

/// `s` with what `from` sent kept, or nothing where the payload is not
/// valid.
pub open spec fn record(s: State, from: ParticipantID, payload: PayloadView) -> Option<State> {
    match payload {
        PayloadView::SharedKeying { pkey, ksig } => Some(
            State {
                sig_k_vals: s.sig_k_vals.push(KeyEntry { id: from, value: ksig }),
                sess_pkeys: s.sess_pkeys.push(KeyEntry { id: from, value: pkey }),
                ..s
            },
        ),
        PayloadView::Commitment { cmt } => Some(
            State { commits: s.commits.push(KeyEntry { id: from, value: cmt }), ..s },
        ),
        PayloadView::CloakedVals { matrix, gamma_sum, fee_sum, cloaks } => {
            if cloaked_vals_valid(s, from, matrix, gamma_sum, fee_sum, cloaks) {
                Some(
                    State {
                        contributions: s.contributions.push(
                            ContributionView { id: from, matrix, gamma_sum, fee_sum, cloaks },
                        ),
                        ..s
                    },
                )
            } else {
                None
            }
        },
        PayloadView::Signature { sig } => Some(
            State { signatures: s.signatures.push(SigEntry { id: from, sig }), ..s },
        ),
        PayloadView::SecretKeying { skey } => Some(
            State { sess_skeys: s.sess_skeys.push(KeyEntry { id: from, value: skey }), ..s },
        ),
    }
}

/// Whether the payload of `from` is kept: session keys only with a valid
/// point of the nonce, and what is opened only if it is what was
/// committed to.
pub open spec fn keeps(s: State, from: ParticipantID, payload: PayloadView, valid: bool) -> bool {
    &&& payload is SharedKeying ==> valid
    &&& record(State { pending: without(s.pending, seq![from]), ..s }, from, payload) is Some
}

/// `s` after `from` has answered: it is waited for no longer, and where
/// its payload is kept, `from` takes part.
pub open spec fn recorded(s: State, from: ParticipantID, payload: PayloadView, valid: bool) -> State {
    let s0 = State { pending: without(s.pending, seq![from]), ..s };
    if keeps(s, from, payload, valid) {
        let r = record(s0, from, payload)->Some_0;
        State { participants: r.participants.push(from), ..r }
    } else {
        s0
    }
}

/// `s` with nothing collected and nobody waited for.
pub open spec fn idle(s: State) -> State {
    State { msg_state: MessageState::Idle, pending: Seq::empty(), ..s }
}

/// A payload of the kind that is collected arrives from a participant who
/// has not answered yet. A valid one is kept and its sender takes part
/// again; when nobody is left to answer, the next part of the round
/// follows. The sender of an invalid one is left out and waited for no
/// longer; the round goes on when the others have answered or the timer
/// runs out.
pub open spec fn accept(s: State, from: ParticipantID, payload: PayloadView, valid: bool) -> Step {
    let s1 = recorded(s, from, payload, valid);
    if keeps(s, from, payload, valid) && s1.pending.len() == 0 {
        advance(idle(s1), s.msg_state)
    } else {
        going(s1)
    }
}

/// Whether the message is of the kind that is collected and comes from a
/// participant who has not answered yet.
pub open spec fn acceptable(s: State, e: EnvelopeView) -> bool {
    &&& s.msg_state != MessageState::Idle
    &&& e.payload.kind() == s.msg_state
    &&& s.pending.contains(e.from)
}

/// The place of the first waiting message that can be accepted now, or
/// the length of the queue.
pub open spec fn first_acceptable(s: State, queue: Seq<EnvelopeView>) -> int
    decreases queue.len(),
{
    if queue.len() == 0 {
        0
    } else if acceptable(s, queue[0]) {
        0
    } else {
        1 + first_acceptable(s, queue.skip(1))
    }
}

/// Whether a message is of a kind that comes after `phase` in a round.
pub open spec fn is_ahead(e: EnvelopeView, phase: MessageState) -> bool {
    e.payload.kind().rank() > phase.rank()
}

/// The messages of kinds that come after `phase`, in their order.
pub open spec fn keep_ahead(queue: Seq<EnvelopeView>, phase: MessageState) -> Seq<EnvelopeView>
    decreases queue.len(),
{
    if queue.len() == 0 {
        Seq::empty()
    } else if is_ahead(queue[0], phase) {
        seq![queue[0]] + keep_ahead(queue.skip(1), phase)
    } else {
        keep_ahead(queue.skip(1), phase)
    }
}

/// `s` without the waiting messages whose phase is over or has come.
pub open spec fn pruned(s: State) -> State {
    State { queue: keep_ahead(s.queue, s.phase), ..s }
}

/// The waiting messages are gone through: the first that can be accepted
/// is accepted, and so on, at most `fuel` times, until none can be or the
/// session ends. Then the messages of the phase that has come, and of
/// phases before it, are discarded.
pub open spec fn run_queue(s: State, fuel: nat) -> Step
    decreases fuel,
{
    if fuel == 0 {
        going(pruned(s))
    } else {
        let i = first_acceptable(s, s.queue);
        if i >= s.queue.len() {
            going(pruned(s))
        } else {
            let e = s.queue[i];
            let st = accept(
                State { queue: s.queue.remove(i), ..s },
                e.from,
                e.payload,
                e.points_valid,
            );
            if st.outcome is NotReady {
                run_queue(st.state, (fuel - 1) as nat)
            } else {
                st
            }
        }
    }
}

/// The waiting messages are gone through until none can be accepted.
pub open spec fn drain(s: State) -> Step {
    run_queue(s, s.queue.len())
}

/// A step, and then the waiting messages where the session goes on.
pub open spec fn then_drain(st: Step) -> Step {
    if st.outcome is NotReady {
        drain(st.state)
    } else {
        st
    }
}

/// The timer runs out: whoever has not answered is left out, and the
/// next part of the round follows. Nothing happens where nothing is
/// collected.
pub open spec fn handle_timer(s: State) -> Step {
    if s.msg_state == MessageState::Idle {
        going(s)
    } else {
        then_drain(advance(idle(s), s.msg_state))
    }
}

/// A message arrives from the network key `from`; `valid` tells whether
/// the curve points that it holds were found valid. It is dropped unless
/// rounds are running, it comes from the key of its source, it is for
/// this participant and it bears the session id of the round. One of the
/// kind that is collected, from a participant who has not answered, is
/// accepted; one of a later kind waits; any other is dropped.
pub open spec fn on_message_received(
    s: State,
    from: NetworkKey,
    msg: MessageView,
    valid: bool,
) -> Step {
    let e = EnvelopeView { from: msg.source, payload: msg.payload, points_valid: valid };
    if s.poll_state != PoolState::PoolFormed || msg.source.pkey != from || msg.destination != s.me
        || msg.sid != s.session_id {
        going(s)
    } else if acceptable(s, e) {
        then_drain(accept(s, msg.source, msg.payload, valid))
    } else if msg.payload.kind().rank() > s.phase.rank() {
        going(State { queue: s.queue.push(e), ..s })
    } else {
        going(s)
    }
}

/// The keys of the round arrive: they are kept, the session public key
/// and the point of the nonce are sent to every other participant, and
/// theirs are collected.
pub open spec fn on_round_keys(s: State, keys: RoundKeys) -> Step {
    if s.awaiting != Awaiting::RoundKeys {
        going(s)
    } else {
        drain(keys_entered(s, keys))
    }
}

/// The session as the session keys begin to be collected.
pub open spec fn keys_entered(s: State, keys: RoundKeys) -> State {
    enter_phase(keys_opened(s, keys), MessageState::SharedKeying)
}

/// The session with its own keys kept and sent.
pub open spec fn keys_opened(s: State, keys: RoundKeys) -> State {
    let s1 = State {
        sess_skey: keys.sess_skey,
        sig_k_vals: seq![KeyEntry { id: s.me, value: keys.sig_k }],
        sess_pkeys: seq![KeyEntry { id: s.me, value: keys.sess_pkey }],
        awaiting: Awaiting::Nothing,
        ..s
    };
    broadcast(s1, PayloadView::SharedKeying { pkey: keys.sess_pkey, ksig: keys.sig_k })
}

/// The width of serialized outputs after the material of a commitment has
/// arrived: as it was set, or that of the first output.
pub open spec fn settled_size(s: State, utxos: Seq<Seq<u8>>) -> usize {
    match s.utxo_size {
        Some(size) => size,
        None => first_size(utxos) as usize,
    }
}

/// The cells in a row after the material of a commitment has arrived.
pub open spec fn settled_chunks(s: State, utxos: Seq<Seq<u8>>) -> usize {
    match s.n_chunks {
        Some(c) => c,
        None => chunks_for(first_size(utxos)) as usize,
    }
}

/// The material of the commitment arrives: the cloaks are derived, the
/// outputs go into the matrix under them, adjustment and fee are cloaked,
/// and the commitment to all three is sent to every other participant.
/// The first output of the first round sets the width of all outputs for
/// the session, and of more than five outputs the first five go in. Where
/// a matrix for the participants, with rows of that width, is longer than
/// this machine can hold, the session fails.
pub open spec fn on_commit_material(
    s: State,
    shared: Seq<KeyEntry>,
    utxos: Seq<Seq<u8>>,
    gammas: Seq<Scalar>,
) -> Step {
    if s.awaiting != Awaiting::CommitMaterial {
        going(s)
    } else if !matrix_fits(s.commit_phase.len() as int, settled_chunks(s, utxos) as int) {
        Step { state: s, outcome: Outcome::Failed(SnowballError::MatrixTooLarge) }
    } else {
        drain(commit_entered(s, shared, utxos, gammas))
    }
}

/// The session as the commitments begin to be collected.
pub open spec fn commit_entered(
    s: State,
    shared: Seq<KeyEntry>,
    utxos: Seq<Seq<u8>>,
    gammas: Seq<Scalar>,
) -> State {
    enter_phase(commit_opened(s, shared, utxos, gammas), MessageState::Commitment)
}

/// What this participant commits to: its outputs in the matrix under its
/// cloaks, and adjustment and fee under them.
pub open spec fn made_contribution(
    s: State,
    k_cloaks: Seq<Cloak>,
    utxos: Seq<Seq<u8>>,
    gammas: Seq<Scalar>,
    n_chunks: int,
) -> ContributionView {
    let gamma_adj = difference_of(s.txin_gamma_sum, scalar_sum(gammas));
    ContributionView {
        id: s.me,
        matrix: encoded(s.commit_phase, utxos, s.me, k_cloaks, n_chunks),
        gamma_sum: encoded_scalar(gamma_adj, s.commit_phase, s.me, k_cloaks, false),
        fee_sum: encoded_scalar(
            scalar_with_value(s.my_fee as nat),
            s.commit_phase,
            s.me,
            k_cloaks,
            true,
        ),
        cloaks: Seq::empty(),
    }
}

/// The session with its own commitment made and sent.
pub open spec fn commit_opened(
    s: State,
    shared: Seq<KeyEntry>,
    utxos: Seq<Seq<u8>>,
    gammas: Seq<Scalar>,
) -> State {
    let k_cloaks = cloaks_from(shared, s.session_id);
    let size = settled_size(s, utxos);
    let n_chunks = settled_chunks(s, utxos);
    let mine = made_contribution(s, k_cloaks, utxos, gammas, n_chunks as int);
    let cmt = commitment_of(mine.matrix, mine.gamma_sum, mine.fee_sum);
    let s1 = State {
        k_cloaks,
        my_utxos: utxos,
        utxo_size: Some(size),
        n_chunks: Some(n_chunks),
        contributions: seq![mine],
        commits: seq![KeyEntry { id: s.me, value: cmt }],
        awaiting: Awaiting::Nothing,
        ..s
    };
    broadcast(s1, PayloadView::Commitment { cmt })
}

/// The rows are told apart and the joint transaction is signed: the rows
/// that are outputs stay, and the others are dropped without blame; this
/// participant's part of the signature is sent to every other
/// participant, and theirs are collected.
pub open spec fn on_supertransaction(s: State, parsed: Seq<bool>, sig: SchnorrSig) -> Step {
    if s.awaiting != Awaiting::SuperTransaction {
        going(s)
    } else {
        drain(signature_entered(s, parsed, sig))
    }
}

/// The session as the parts of the signature begin to be collected.
pub open spec fn signature_entered(s: State, parsed: Seq<bool>, sig: SchnorrSig) -> State {
    enter_phase(signature_opened(s, parsed, sig), MessageState::Signature)
}

/// The session with its own part of the signature kept and sent.
pub open spec fn signature_opened(s: State, parsed: Seq<bool>, sig: SchnorrSig) -> State {
    {
        let trans = TransactionView {
            outputs: keep_parsed(s.trans.outputs, parsed),
            sig,
            ..s.trans
        };
        let s1 = State {
            trans,
            signatures: seq![SigEntry { id: s.me, sig }],
            awaiting: Awaiting::Nothing,
            ..s
        };
        broadcast(s1, PayloadView::Signature { sig })
    }
}

/// The joint transaction has been validated. A valid one ends the
/// session: it is handed out under the sum of the scalars and the sum of
/// the points of all parts of the signature, and with whether this
/// participant leads. Otherwise the session secret is revealed to every
/// other participant, and theirs are collected.
pub open spec fn on_validation(s: State, v: Validation) -> Step {
    if s.awaiting != Awaiting::Validation {
        going(s)
    } else if v.valid {
        let tx = TransactionView {
            sig: SchnorrSig { u: s.trans.sig.u, k: v.k_sum },
            ..s.trans
        };
        Step {
            state: reset_state(State { trans: tx, ..s }),
            outcome: Outcome::Ready(OutputView { tx, is_leader: leads(s.me, s.participants) }),
        }
    } else {
        drain(secrets_entered(s))
    }
}

/// The session as the session secrets begin to be collected.
pub open spec fn secrets_entered(s: State) -> State {
    enter_phase(secrets_opened(s), MessageState::SecretKeying)
}

/// The session with its own session secret sent.
pub open spec fn secrets_opened(s: State) -> State {
    let s1 = State {
        sess_skeys: seq![KeyEntry { id: s.me, value: s.sess_skey }],
        awaiting: Awaiting::Nothing,
        ..s
    };
    broadcast(s1, PayloadView::SecretKeying { skey: s.sess_skey })
}

/// The session after the contributions have been checked: every
/// participant in whose contribution a fault was found is left out.
pub open spec fn blamed(s: State, verdicts: Seq<Verdict>) -> State {
    State {
        participants: without(s.participants, convicted(verdicts)),
        awaiting: Awaiting::Nothing,
        ..s
    }
}

/// The contributions have been checked. Where a fault was found in this
/// participant's own, it is not among those who go on, and the session
/// fails. Otherwise every participant in whose contribution a fault was
/// found is left out, and the round begins anew with fewer participants
/// than the last one began with. Where nobody is left out, so that as
/// many would take part again, no round begins and the session fails.
pub open spec fn on_blame(s: State, verdicts: Seq<Verdict>) -> Step {
    if s.awaiting != Awaiting::Blame {
        going(s)
    } else if convicted(verdicts).contains(s.me) {
        Step {
            state: State { awaiting: Awaiting::Nothing, ..s },
            outcome: Outcome::Failed(SnowballError::NotInParticipantList),
        }
    } else if blamed(s, verdicts).participants.len() >= s.round_size {
        Step {
            state: blamed(s, verdicts),
            outcome: Outcome::Failed(SnowballError::NobodyToBlame),
        }
    } else {
        start(blamed(s, verdicts))
    }
}

/// The pool is canceled. A session that waits for its pool waits for a
/// new facilitator from now on. While rounds are running the cancel is
/// put off: the rounds go on, and the session remembers it until it ends
/// or takes another pool. A session that is over goes on as it is.
pub open spec fn on_pool_canceled(s: State) -> Step {
    match s.poll_state {
        PoolState::PoolWait | PoolState::PoolRestart => going(
            State { poll_state: PoolState::PoolRestart, ..s },
        ),
        PoolState::PoolFormed => going(State { cancel_deferred: true, ..s }),
        PoolState::PoolFinished => going(s),
    }
}

/// The session with the announced pool taken: whatever round was running
/// is given up, the rounds are counted anew, and the members that stay
/// take part, in order.
pub open spec fn pool_taken(s: State, session_id: Digest, members: Seq<MemberView>) -> State {
    let kept = kept_members(members, s.me);
    State {
        session_id,
        participants: canonical(member_ids(kept)),
        pending: Seq::empty(),
        round: 0,
        round_size: canonical(member_ids(kept)).len(),
        first_count: canonical(member_ids(kept)).len(),
        all_txins: member_txins(kept),
        poll_state: PoolState::PoolFormed,
        queue: Seq::empty(),
        msg_state: MessageState::Idle,
        phase: MessageState::Idle,
        awaiting: Awaiting::Nothing,
        cancel_deferred: false,
        ..s
    }
}

/// The pool is announced. Without this participant among the members the
/// session fails. Otherwise the pool is taken, wherever the session
/// stands and however many the members are: every other member whose
/// ownership signature is not valid is left out, and with the others the
/// first round begins.
pub open spec fn on_pool_started(s: State, session_id: Digest, members: Seq<MemberView>) -> Step {
    if !listed(members, s.me) {
        Step { state: s, outcome: Outcome::Failed(SnowballError::NotInParticipantList) }
    } else {
        start(pool_taken(s, session_id, members))
    }
}

/// A notice of the facilitator arrives from the network key `from`. From
/// anyone but the facilitator it fails the step and changes nothing.
pub open spec fn on_pool_notification(s: State, from: NetworkKey, note: NotificationView) -> Step {
    if from != s.facilitator {
        Step { state: s, outcome: Outcome::Failed(SnowballError::BadFacilitator) }
    } else {
        match note {
            NotificationView::Canceled => on_pool_canceled(s),
            NotificationView::Started { session_id, participants } => on_pool_started(
                s,
                session_id,
                participants,
            ),
        }
    }
}

/// The hashes of the inputs.
pub open spec fn input_hashes(inputs: Seq<OwnedInput>) -> Seq<Digest> {
    Seq::new(inputs.len(), |i: int| inputs[i].hash)
}

/// The blinding factors of the inputs.
pub open spec fn input_gammas(inputs: Seq<OwnedInput>) -> Seq<Scalar> {
    Seq::new(inputs.len(), |i: int| inputs[i].gamma)
}

/// The amounts of the inputs, summed.
pub open spec fn input_total(inputs: Seq<OwnedInput>) -> int
    decreases inputs.len(),
{
    if inputs.len() == 0 {
        0
    } else {
        input_total(inputs.drop_last()) + inputs.last().amount
    }
}

/// The amounts of the proposed outputs, summed.
pub open spec fn output_total(outputs: Seq<ProposedUTXO>) -> int
    decreases outputs.len(),
{
    if outputs.len() == 0 {
        0
    } else {
        output_total(outputs.drop_last()) + outputs.last().amount
    }
}

/// What a participant may bring to a session: at most five outputs, a fee
/// that is no debt, inputs whose blinding factors are not zero, sums that
/// fit, and inputs that pay for the outputs and the fee exactly.
pub open spec fn funds_balance(inputs: Seq<OwnedInput>, outputs: Seq<ProposedUTXO>, fee: i64) -> bool {
    &&& outputs.len() <= crate::dicemix::MAX_UTXOS
    &&& fee >= 0
    &&& forall|i: int|
        0 <= i < inputs.len() ==> crate::scalar::residue((#[trigger] inputs[i]).gamma) != 0
    &&& forall|i: int| 0 <= i <= inputs.len() ==> i64::MIN <= #[trigger] input_total(inputs.take(i)) <= i64::MAX
    &&& forall|i: int| 0 <= i <= outputs.len() ==> i64::MIN <= #[trigger] output_total(outputs.take(i)) <= i64::MAX
    &&& output_total(outputs) + fee <= i64::MAX
    &&& input_total(inputs) == output_total(outputs) + fee
}

/// The transaction before anything is known of it.
pub open spec fn empty_transaction() -> TransactionView {
    TransactionView {
        txins: Seq::empty(),
        outputs: Seq::empty(),
        gamma_adj: scalar_with_value(0),
        fee: 0,
        sig: SchnorrSig { u: zero_bytes(), k: zero_bytes() },
    }
}

/// A session as it begins: it holds its inputs and proposals, takes part
/// under `seed`, and has asked the facilitator to join the pool.
pub open spec fn initial(
    signing_skey: [u8; 32],
    participant_pkey: NetworkKey,
    facilitator: NetworkKey,
    inputs: Seq<OwnedInput>,
    my_txouts: Seq<ProposedUTXO>,
    my_fee: i64,
    seed: [u8; 32],
    session_id: Digest,
) -> State {
    send_pool_join(
        State {
            signing_skey,
            facilitator,
            future_facilitator: None,
            poll_state: PoolState::PoolWait,
            me: ParticipantID { pkey: participant_pkey, seed },
            participants: Seq::empty(),
            pending: Seq::empty(),
            my_txins: input_hashes(inputs),
            my_txouts,
            my_fee,
            txin_gamma_sum: scalar_sum(input_gammas(inputs)),
            queue: Seq::empty(),
            round: 0,
            first_count: 0,
            session_id,
            round_size: 0,
            round_k: zero_bytes(),
            sess_skey: zero_bytes(),
            sig_k_vals: Seq::empty(),
            sess_pkeys: Seq::empty(),
            commits: Seq::empty(),
            sess_skeys: Seq::empty(),
            all_txins: Seq::empty(),
            utxo_size: None,
            n_chunks: None,
            k_cloaks: Seq::empty(),
            my_utxos: Seq::empty(),
            contributions: Seq::empty(),
            commit_phase: Seq::empty(),
            excl_participants: Seq::empty(),
            excl_cloaks: Seq::empty(),
            trans: empty_transaction(),
            signatures: Seq::empty(),
            msg_state: MessageState::Idle,
            phase: MessageState::Idle,
            awaiting: Awaiting::Nothing,
            cancel_deferred: false,
            outbox: Seq::empty(),
        },
    )
}

/// `s` with the actions handed to the caller.
pub open spec fn take_actions(s: State) -> State {
    State { outbox: Seq::empty(), ..s }
}

} // verus!
