//! What holds of a session at every step.

use crate::dicemix::matrix_fits;
use crate::hashing::Digest;
use crate::message::{MessageState, MessageView, PayloadView, SchnorrSig};
use crate::model::{
    accept, acceptable, advance, all_signed, blame_discovery, blamed, broadcast,
    change_facilitator, chunks_for, chunks_of, commit, convicted, drain, enter_phase, first_acceptable, first_size, going, handle_timer,
    idle, kept_members, listed, make_supertransaction, member_ids, on_blame,
    on_message_received, on_pool_canceled, on_pool_started, on_round_keys,
    on_supertransaction, on_validation, recorded, reset_state, run_queue, share_cloaked_data,
    sig_for, sign_supertransaction, start, take_actions, then_drain, State, Step,
};
use crate::model::{contribution_ids, key_ids, sig_ids};
use crate::participant::{
    canonical, lemma_canonical_exists, lemma_sorted_no_duplicates, not_in, same_members,
    strictly_sorted, subset_of, without, ParticipantID,
};
use crate::scalar::Scalar;
use crate::types::{
    Awaiting, EnvelopeView, KeyEntry, MemberView, NetworkKey, PoolState, RoundKeys, SigEntry,
    Validation, Verdict,
};
use vstd::prelude::*;

verus! {

/// No identity is in both lists.
pub open spec fn disjoint(a: Seq<ParticipantID>, b: Seq<ParticipantID>) -> bool {
    forall|p: ParticipantID| !(a.contains(p) && b.contains(p))
}

/// The width of an output and the cells of a row are set together, and a
/// row holds an output.
pub open spec fn sizes_ok(s: State) -> bool {
    match (s.utxo_size, s.n_chunks) {
        (Some(size), Some(c)) => size <= c * 32,
        (None, None) => true,
        _ => false,
    }
}

/// What each kind of outside work is waited for after.
pub open spec fn awaiting_fits(s: State) -> bool {
    match s.awaiting {
        Awaiting::Nothing => true,
        Awaiting::RoundKeys => s.phase == MessageState::Idle,
        Awaiting::CommitMaterial => s.phase == MessageState::SharedKeying && s.commit_phase
            == canonical(s.participants),
        Awaiting::SuperTransaction => s.phase == MessageState::CloakedVals,
        Awaiting::Validation => s.phase == MessageState::Signature,
        Awaiting::Blame => s.phase == MessageState::SecretKeying,
    }
}

/// Every participant has sent its part of the signature.
pub open spec fn participants_signed(s: State) -> bool {
    forall|i: int|
        0 <= i < s.participants.len() ==> sig_for(s.signatures, #[trigger] s.participants[i])
            is Some
}

/// Nothing is kept twice for one participant.
pub open spec fn kept_once(s: State) -> bool {
    &&& key_ids(s.sig_k_vals).no_duplicates()
    &&& key_ids(s.sess_pkeys).no_duplicates()
    &&& key_ids(s.commits).no_duplicates()
    &&& key_ids(s.sess_skeys).no_duplicates()
    &&& sig_ids(s.signatures).no_duplicates()
    &&& contribution_ids(s.contributions).no_duplicates()
}

/// What is collected is kept for those who take part.
pub open spec fn kept_of_participants(s: State) -> bool {
    match s.msg_state {
        MessageState::Idle => true,
        MessageState::SharedKeying => subset_of(key_ids(s.sig_k_vals), s.participants)
            && subset_of(key_ids(s.sess_pkeys), s.participants),
        MessageState::Commitment => subset_of(key_ids(s.commits), s.participants),
        MessageState::CloakedVals => subset_of(contribution_ids(s.contributions), s.participants),
        MessageState::Signature => subset_of(sig_ids(s.signatures), s.participants),
        MessageState::SecretKeying => subset_of(key_ids(s.sess_skeys), s.participants),
    }
}

/// From the commitment on, the first contribution is this participant's
/// own.
pub open spec fn own_first(s: State) -> bool {
    s.phase.rank() >= 2 ==> s.contributions.len() > 0 && s.contributions[0].id == s.me
}

/// The rounds of one pool are bounded by the count that the first began
/// with: no round begins with more than the first, the rounds begun and
/// the count of the last are together no more than the first count and
/// one, and a round begins with three participants at least. (The
/// counter has 16 bits: of a pool of 65535 or more the second part is
/// not kept.)
pub open spec fn rounds_bounded(s: State) -> bool {
    &&& s.round_size <= s.first_count
    &&& (s.first_count < u16::MAX ==> s.round + s.round_size <= s.first_count + 1)
    &&& (s.round >= 1 ==> s.round_size >= 3)
}

/// A round may begin: it is the first of its pool, or fewer take part
/// than the last round began with.
pub open spec fn may_begin(s: State) -> bool {
    s.round == 0 || s.participants.len() < s.round_size
}

/// What holds of a session at every step: the fee is no debt; the rounds
/// are bounded by the first count; from the commitment on, this machine
/// can hold the matrix; nobody takes part twice, or
/// both has and has not answered; those who take part or may still answer
/// are no more than when the round began, and from the commitment on they
/// are among those for whom the matrix was made; the matrix is made for
/// participants in order, and a round begins with participants in order;
/// this participant takes part while rounds are running; nothing is
/// collected while outside work is waited for; nothing is kept twice for
/// one participant.
pub open spec fn inv(s: State) -> bool {
    &&& s.my_fee >= 0
    &&& rounds_bounded(s)
    &&& (s.phase.rank() >= 2 ==> matrix_fits(s.commit_phase.len() as int, chunks_of(s)))
    &&& sizes_ok(s)
    &&& s.participants.no_duplicates()
    &&& s.pending.no_duplicates()
    &&& disjoint(s.participants, s.pending)
    &&& s.participants.len() + s.pending.len() <= s.round_size
    &&& (s.poll_state == PoolState::PoolFormed ==> s.participants.contains(s.me))
    &&& (s.poll_state != PoolState::PoolFormed ==> s.msg_state == MessageState::Idle && s.awaiting
        == Awaiting::Nothing && s.phase == MessageState::Idle)
    &&& (s.msg_state == MessageState::Idle ==> s.pending.len() == 0)
    &&& (s.msg_state != MessageState::Idle ==> s.msg_state == s.phase && s.awaiting
        == Awaiting::Nothing)
    &&& (s.phase.rank() >= 2 ==> subset_of(s.participants, s.commit_phase) && subset_of(
        s.pending,
        s.commit_phase,
    ) && s.commit_phase.len() <= s.round_size)
    &&& awaiting_fits(s)
    &&& (s.phase == MessageState::Signature ==> participants_signed(s))
    &&& kept_once(s)
    &&& kept_of_participants(s)
    &&& own_first(s)
    &&& (s.phase.rank() >= 2 || s.awaiting == Awaiting::CommitMaterial ==> strictly_sorted(
        s.commit_phase,
    ))
    &&& (s.awaiting == Awaiting::RoundKeys ==> strictly_sorted(s.participants))
}

// ---------------------------------------------------------------------
// Lists without some of their identities.

/// What is in a list without `excl`: what was in it and is not in `excl`.
#[verifier::rlimit(40)]
pub proof fn lemma_without_contains(list: Seq<ParticipantID>, excl: Seq<ParticipantID>)
    ensures
        forall|p: ParticipantID|
            without(list, excl).contains(p) <==> (list.contains(p) && !excl.contains(p)),
        without(list, excl).len() <= list.len(),
        list.no_duplicates() ==> without(list, excl).no_duplicates(),
    decreases list.len(),
{
    let f = not_in(excl);
    reveal(Seq::filter);
    if list.len() == 0 {
    } else {
        let rest = list.drop_last();
        let x = list.last();
        lemma_without_contains(rest, excl);
        assert(list =~= rest.push(x));
        let wr = without(rest, excl);
        let w = without(list, excl);
        assert(w == if f(x) {
            wr.push(x)
        } else {
            wr
        });
        assert forall|p: ParticipantID| w.contains(p) <==> (list.contains(p) && !excl.contains(
            p,
        )) by {
            if w.contains(p) {
                let k = choose|k: int| 0 <= k < w.len() && w[k] == p;
                if f(x) && k == wr.len() {
                    assert(list[list.len() - 1] == p);
                } else {
                    assert(wr[k] == p);
                    assert(wr.contains(p));
                    let j = choose|j: int| 0 <= j < rest.len() && rest[j] == p;
                    assert(list[j] == p);
                }
            }
            if list.contains(p) && !excl.contains(p) {
                let j = choose|j: int| 0 <= j < list.len() && list[j] == p;
                if j == list.len() - 1 {
                    assert(w[wr.len() as int] == p);
                } else {
                    assert(rest[j] == p);
                    assert(wr.contains(p));
                    let k = choose|k: int| 0 <= k < wr.len() && wr[k] == p;
                    assert(w[k] == p);
                }
            }
        }
        if list.no_duplicates() {
            assert(rest.no_duplicates());
            if f(x) {
                assert forall|i: int, j: int| 0 <= i < w.len() && 0 <= j < w.len() && i != j implies w[i] != w[j] by {
                    if i == wr.len() || j == wr.len() {
                        let other = if i == wr.len() { j } else { i };
                        assert(wr[other] == w[other]);
                        assert(wr.contains(wr[other]));
                        assert(rest.contains(wr[other]));
                        let m = choose|m: int| 0 <= m < rest.len() && rest[m] == wr[other];
                        assert(list[m] == wr[other]);
                    } else {
                        assert(wr[i] == w[i]);
                        assert(wr[j] == w[j]);
                    }
                }
            }
        }
    }
}

/// A list without one of its identities is one shorter.
pub proof fn lemma_without_one(list: Seq<ParticipantID>, x: ParticipantID)
    requires
        list.no_duplicates(),
        list.contains(x),
    ensures
        without(list, seq![x]).len() == list.len() - 1,
    decreases list.len(),
{
    let f = not_in(seq![x]);
    reveal(Seq::filter);
    assert(seq![x].contains(x)) by {
        assert(seq![x][0] == x);
    }
    let rest = list.drop_last();
    let last = list.last();
    assert(list =~= rest.push(last));
    assert(without(list, seq![x]) == if f(last) {
        without(rest, seq![x]).push(last)
    } else {
        without(rest, seq![x])
    });
    if last == x {
        // the rest holds no `x`, so nothing of it is taken off
        assert(!rest.contains(x)) by {
            if rest.contains(x) {
                let j = choose|j: int| 0 <= j < rest.len() && rest[j] == x;
                assert(list[j] == list[list.len() - 1]);
            }
        }
        lemma_without_none(rest, seq![x]);
    } else {
        assert(f(last)) by {
            if seq![x].contains(last) {
                let j = choose|j: int| 0 <= j < 1 && seq![x][j] == last;
            }
        }
        let j = choose|j: int| 0 <= j < list.len() && list[j] == x;
        assert(rest[j] == x);
        assert(rest.no_duplicates());
        lemma_without_one(rest, x);
    }
}

/// Taking off what is not there leaves the list as it is.
pub proof fn lemma_without_none(list: Seq<ParticipantID>, excl: Seq<ParticipantID>)
    requires
        forall|p: ParticipantID| !(list.contains(p) && excl.contains(p)),
    ensures
        without(list, excl) == list,
    decreases list.len(),
{
    reveal(Seq::filter);
    if list.len() == 0 {
        assert(without(list, excl) =~= list);
    } else {
        let rest = list.drop_last();
        let last = list.last();
        assert(list =~= rest.push(last));
        assert forall|p: ParticipantID| !(rest.contains(p) && excl.contains(p)) by {
            if rest.contains(p) {
                let j = choose|j: int| 0 <= j < rest.len() && rest[j] == p;
                assert(list[j] == p);
            }
        }
        lemma_without_none(rest, excl);
        assert(list.contains(last)) by {
            assert(list[list.len() - 1] == last);
        }
        assert(not_in(excl)(last));
        assert(without(list, excl) =~= list);
    }
}

/// A list without duplicates that is within another, and misses one of
/// its identities, is shorter.
pub proof fn lemma_proper_subset_shorter(a: Seq<ParticipantID>, b: Seq<ParticipantID>, x: ParticipantID)
    requires
        a.no_duplicates(),
        subset_of(a, b),
        b.contains(x),
        !a.contains(x),
    ensures
        a.len() < b.len(),
{
    a.unique_seq_to_set();
    b.lemma_cardinality_of_set();
    let sa = a.to_set();
    let sb = b.to_set();
    assert(sa.subset_of(sb.remove(x))) by {
        assert forall|p: ParticipantID| sa.contains(p) implies sb.remove(x).contains(p) by {
            assert(a.contains(p));
            assert(b.contains(p));
        }
    }
    assert(sb.contains(x));
    vstd::set_lib::lemma_len_subset(sa, sb.remove(x));
}


/// A list without duplicates that is within another is no longer.
pub proof fn lemma_subset_no_longer(a: Seq<ParticipantID>, b: Seq<ParticipantID>)
    requires
        a.no_duplicates(),
        forall|p: ParticipantID| a.contains(p) ==> b.contains(p),
    ensures
        a.len() <= b.len(),
{
    a.unique_seq_to_set();
    b.lemma_cardinality_of_set();
    let sa = a.to_set();
    let sb = b.to_set();
    assert(sa.subset_of(sb)) by {
        assert forall|p: ParticipantID| sa.contains(p) implies sb.contains(p) by {
            assert(a.contains(p));
            assert(b.contains(p));
        }
    }
    vstd::set_lib::lemma_len_subset(sa, sb);
}

// ---------------------------------------------------------------------
// Every step keeps what holds.

/// Rounds are running.
pub open spec fn running(s: State) -> bool {
    s.poll_state == PoolState::PoolFormed
}

/// Rounds are running and the session stands between two exchanges:
/// nothing is collected and no outside work is waited for.
pub open spec fn between(s: State) -> bool {
    &&& inv(s)
    &&& running(s)
    &&& s.msg_state == MessageState::Idle
    &&& s.awaiting == Awaiting::Nothing
}

/// Where somebody has left since the matrix was made, fewer participants
/// are left than the round began with.
pub proof fn lemma_dropout_shrinks(s: State)
    requires
        inv(s),
        s.phase.rank() >= 2,
        !same_members(s.participants, s.commit_phase),
    ensures
        s.participants.len() < s.round_size,
        may_begin(s),
{
    let x = choose|x: ParticipantID| s.participants.contains(x) != s.commit_phase.contains(x);
    assert(s.commit_phase.contains(x) && !s.participants.contains(x));
    lemma_proper_subset_shorter(s.participants, s.commit_phase, x);
}

/// Where a part of the signature is missing, somebody has left since the
/// matrix was made.
pub proof fn lemma_unsigned_shrinks(s: State)
    requires
        inv(s),
        s.phase == MessageState::Signature,
        !all_signed(s.commit_phase, s.signatures),
    ensures
        !same_members(s.participants, s.commit_phase),
        s.participants.len() < s.round_size,
        may_begin(s),
{
    let i = choose|i: int|
        0 <= i < s.commit_phase.len() && !(sig_for(s.signatures, #[trigger] s.commit_phase[i])
            is Some);
    let x = s.commit_phase[i];
    assert(s.commit_phase.contains(x));
    assert(!s.participants.contains(x)) by {
        if s.participants.contains(x) {
            let j = choose|j: int| 0 <= j < s.participants.len() && s.participants[j] == x;
            assert(sig_for(s.signatures, s.participants[j]) is Some);
        }
    }
    lemma_dropout_shrinks(s);
}

#[verifier::rlimit(40)]
pub proof fn lemma_start_inv(s: State)
    requires
        inv(s),
        running(s),
        s.msg_state == MessageState::Idle,
        may_begin(s),
    ensures
        inv(start(s).state),
{
    if s.participants.len() >= 3 {
        lemma_canonical_exists(s.participants);
        let sorted = canonical(s.participants);
        lemma_sorted_no_duplicates(sorted);
        lemma_subset_no_longer(s.participants, sorted);
        let t = start(s).state;
        assert(t.pending =~= Seq::<ParticipantID>::empty());
        assert(disjoint(t.participants, t.pending)) by {
            assert forall|p: ParticipantID| !(t.participants.contains(p) && t.pending.contains(
                p,
            )) by {
                if t.pending.contains(p) {
                    let j = choose|j: int| 0 <= j < t.pending.len() && t.pending[j] == p;
                }
            }
        }
    }
}

#[verifier::rlimit(40)]
/// What will be collected holds nothing yet but what is this
/// participant's own.
pub open spec fn own_only(s: State, kind: MessageState) -> bool {
    match kind {
        MessageState::Idle => true,
        MessageState::SharedKeying => subset_of(key_ids(s.sig_k_vals), seq![s.me]) && subset_of(
            key_ids(s.sess_pkeys),
            seq![s.me],
        ),
        MessageState::Commitment => subset_of(key_ids(s.commits), seq![s.me]),
        MessageState::CloakedVals => subset_of(contribution_ids(s.contributions), seq![s.me]),
        MessageState::Signature => subset_of(sig_ids(s.signatures), seq![s.me]),
        MessageState::SecretKeying => subset_of(key_ids(s.sess_skeys), seq![s.me]),
    }
}

/// A list of one entry is kept for its participant alone, once.
pub proof fn lemma_single(id: ParticipantID)
    ensures
        seq![id].no_duplicates(),
        subset_of(seq![id], seq![id]),
        seq![id].contains(id),
{
    assert(seq![id][0] == id);
}

pub proof fn lemma_enter_phase_inv(s: State, kind: MessageState)
    requires
        between(s),
        kind != MessageState::Idle,
        kind.rank() >= 2 ==> subset_of(s.participants, s.commit_phase) && s.commit_phase.len()
            <= s.round_size,
        kind.rank() >= 2 ==> strictly_sorted(s.commit_phase) && s.contributions.len() > 0
            && s.contributions[0].id == s.me,
        kind == MessageState::Signature ==> sig_for(s.signatures, s.me) is Some,
        kind.rank() >= 2 ==> matrix_fits(s.commit_phase.len() as int, chunks_of(s)),
        own_only(s, kind),
    ensures
        inv(enter_phase(s, kind)),
        running(enter_phase(s, kind)),
{
    let t = enter_phase(s, kind);
    let me = seq![s.me];
    assert(kept_of_participants(t)) by {
        assert(t.participants =~= me);
    }
    lemma_without_contains(s.participants, me);
    lemma_without_one(s.participants, s.me);
    assert(me.contains(s.me)) by {
        assert(me[0] == s.me);
    }
    assert forall|p: ParticipantID| t.participants.contains(p) implies p == s.me by {
        let j = choose|j: int| 0 <= j < t.participants.len() && t.participants[j] == p;
    }
    assert(t.participants.contains(s.me)) by {
        assert(t.participants[0] == s.me);
    }
    assert(s.participants.contains(s.me));
    if kind == MessageState::Signature {
        assert forall|i: int| 0 <= i < t.participants.len() implies sig_for(
            t.signatures,
            #[trigger] t.participants[i],
        ) is Some by {
            assert(t.participants[i] == s.me);
        }
    }
}

pub proof fn lemma_commit_inv(s: State)
    requires
        between(s),
        s.phase == MessageState::SharedKeying,
    ensures
        inv(commit(s).state),
{
    lemma_canonical_exists(s.participants);
}

#[verifier::rlimit(40)]
pub proof fn lemma_share_inv(s: State)
    requires
        between(s),
        s.phase == MessageState::Commitment,
    ensures
        inv(share_cloaked_data(s).state),
{
    if s.participants.len() >= 3 {
        let excl = without(s.commit_phase, s.participants);
        let excl_cloaks = crate::model::cloaks_toward(s.k_cloaks, excl);
        let mine = crate::model::own_contribution(s, excl_cloaks);
        let s1 = State {
            excl_participants: excl,
            excl_cloaks,
            contributions: seq![mine],
            ..s
        };
        let s2 = broadcast(
            s1,
            PayloadView::CloakedVals {
                matrix: mine.matrix,
                gamma_sum: mine.gamma_sum,
                fee_sum: mine.fee_sum,
                cloaks: excl_cloaks,
            },
        );
        lemma_single(s.me);
        assert(mine.id == s.me);
        assert(contribution_ids(s2.contributions) =~= seq![s.me]);
        assert(kept_once(s2));
        assert(between(s2));
        lemma_enter_phase_inv(s2, MessageState::CloakedVals);
    }
}

pub proof fn lemma_make_inv(s: State)
    requires
        between(s),
        s.phase == MessageState::CloakedVals,
    ensures
        inv(make_supertransaction(s).state),
{
    if s.participants.len() >= 3 && !same_members(s.participants, s.commit_phase) {
        lemma_dropout_shrinks(s);
        lemma_start_inv(s);
    }
}

pub proof fn lemma_sign_inv(s: State)
    requires
        between(s),
        s.phase == MessageState::Signature,
    ensures
        inv(sign_supertransaction(s).state),
{
    if !all_signed(s.commit_phase, s.signatures) {
        lemma_unsigned_shrinks(s);
        lemma_start_inv(s);
    }
}

pub proof fn lemma_blame_inv(s: State)
    requires
        between(s),
        s.phase == MessageState::SecretKeying,
    ensures
        inv(blame_discovery(s).state),
{
    if !same_members(s.participants, s.commit_phase) {
        lemma_dropout_shrinks(s);
        lemma_start_inv(s);
    }
}

pub proof fn lemma_advance_inv(s: State, kind: MessageState)
    requires
        between(s),
        s.phase == kind,
    ensures
        inv(advance(s, kind).state),
{
    match kind {
        MessageState::Idle => {},
        MessageState::SharedKeying => lemma_commit_inv(s),
        MessageState::Commitment => lemma_share_inv(s),
        MessageState::CloakedVals => lemma_make_inv(s),
        MessageState::Signature => lemma_sign_inv(s),
        MessageState::SecretKeying => lemma_blame_inv(s),
    }
}

/// One more entry at the end changes no answer that was there, and
/// answers for its own participant where there was none.
pub proof fn lemma_sig_for_push(entries: Seq<SigEntry>, e: SigEntry, p: ParticipantID)
    ensures
        sig_for(entries, p) is Some ==> sig_for(entries.push(e), p) == sig_for(entries, p),
        e.id == p ==> sig_for(entries.push(e), p) is Some,
    decreases entries.len(),
{
    if entries.len() == 0 {
        assert(entries.push(e).skip(1) =~= entries);
    } else {
        assert(entries.push(e).skip(1) =~= entries.skip(1).push(e));
        lemma_sig_for_push(entries.skip(1), e, p);
    }
}

#[verifier::rlimit(40)]
/// One more entry, for a participant who takes part from now on, keeps
/// every entry single and for a participant.
pub proof fn lemma_ids_push(
    ids: Seq<ParticipantID>,
    x: ParticipantID,
    participants: Seq<ParticipantID>,
)
    requires
        ids.no_duplicates(),
        subset_of(ids, participants),
        !participants.contains(x),
    ensures
        ids.push(x).no_duplicates(),
        subset_of(ids.push(x), participants.push(x)),
        subset_of(ids, participants.push(x)),
{
    let grown = ids.push(x);
    let wider = participants.push(x);
    assert forall|i: int, j: int| 0 <= i < grown.len() && 0 <= j < grown.len() && i
        != j implies grown[i] != grown[j] by {
        if i == ids.len() {
            assert(ids.contains(ids[j]));
        } else if j == ids.len() {
            assert(ids.contains(ids[i]));
        }
    }
    assert forall|p: ParticipantID| grown.contains(p) implies wider.contains(p) by {
        let j = choose|j: int| 0 <= j < grown.len() && grown[j] == p;
        if j < ids.len() {
            assert(ids.contains(p));
            let k = choose|k: int| 0 <= k < participants.len() && participants[k] == p;
            assert(wider[k] == p);
        } else {
            assert(wider[participants.len() as int] == x);
        }
    }
    assert forall|p: ParticipantID| ids.contains(p) implies wider.contains(p) by {
        let j = choose|j: int| 0 <= j < ids.len() && ids[j] == p;
        assert(grown[j] == p);
    }
}

pub proof fn lemma_recorded_inv(s: State, from: ParticipantID, payload: PayloadView, valid: bool)
    requires
        inv(s),
        acceptable(s, EnvelopeView { from, payload, points_valid: valid }),
    ensures
        inv(recorded(s, from, payload, valid)),
        running(recorded(s, from, payload, valid)),
        recorded(s, from, payload, valid).phase == s.msg_state,
        recorded(s, from, payload, valid).msg_state == s.msg_state,
        recorded(s, from, payload, valid).awaiting == Awaiting::Nothing,
        recorded(s, from, payload, valid).queue == s.queue,
        recorded(s, from, payload, valid).pending.len() == 0 ==> between(
            idle(recorded(s, from, payload, valid)),
        ),
{
    let one = seq![from];
    let s0 = State { pending: without(s.pending, one), ..s };
    lemma_without_contains(s.pending, one);
    lemma_without_one(s.pending, from);
    assert(one.contains(from)) by {
        assert(one[0] == from);
    }
    let t = recorded(s, from, payload, valid);
    assert(t.pending == s0.pending);
    assert(!s.participants.contains(from));
    let grown = s.participants.push(from);
    assert(t.participants == s.participants || t.participants == grown);
    assert forall|p: ParticipantID| grown.contains(p) <==> (s.participants.contains(p) || p
        == from) by {
        if grown.contains(p) {
            let j = choose|j: int| 0 <= j < grown.len() && grown[j] == p;
            if j < s.participants.len() {
                assert(s.participants[j] == p);
            }
        }
        if s.participants.contains(p) {
            let j = choose|j: int| 0 <= j < s.participants.len() && s.participants[j] == p;
            assert(grown[j] == p);
        }
        assert(grown[s.participants.len() as int] == from);
    }
    assert(grown.no_duplicates()) by {
        assert forall|i: int, j: int| 0 <= i < grown.len() && 0 <= j < grown.len() && i
            != j implies grown[i] != grown[j] by {
            if i == s.participants.len() {
                assert(s.participants.contains(grown[j]));
            } else if j == s.participants.len() {
                assert(s.participants.contains(grown[i]));
            }
        }
    }
    if s.msg_state == MessageState::Signature && t.participants == grown {
        match payload {
            PayloadView::Signature { sig } => {
                let e = SigEntry { id: from, sig };
                assert(t.signatures == s.signatures.push(e));
                assert forall|i: int| 0 <= i < t.participants.len() implies sig_for(
                    t.signatures,
                    #[trigger] t.participants[i],
                ) is Some by {
                    lemma_sig_for_push(s.signatures, e, t.participants[i]);
                    if i < s.participants.len() {
                        assert(t.participants[i] == s.participants[i]);
                    }
                }
            },
            _ => {},
        }
    }
    if s.msg_state == MessageState::Signature && t.participants == s.participants {
        assert(t.signatures == s.signatures);
    }
    if crate::model::keeps(s, from, payload, valid) {
    match payload {
        PayloadView::SharedKeying { pkey, ksig } => {
            assert(key_ids(t.sig_k_vals) =~= key_ids(s.sig_k_vals).push(from));
            assert(key_ids(t.sess_pkeys) =~= key_ids(s.sess_pkeys).push(from));
            lemma_ids_push(key_ids(s.sig_k_vals), from, s.participants);
            lemma_ids_push(key_ids(s.sess_pkeys), from, s.participants);
        },
        PayloadView::Commitment { cmt } => {
            assert(key_ids(t.commits) =~= key_ids(s.commits).push(from));
            lemma_ids_push(key_ids(s.commits), from, s.participants);
        },
        PayloadView::CloakedVals { matrix, gamma_sum, fee_sum, cloaks } => {
            if t.participants == grown && t.contributions != s.contributions {
                assert(contribution_ids(t.contributions) =~= contribution_ids(
                    s.contributions,
                ).push(from));
                lemma_ids_push(contribution_ids(s.contributions), from, s.participants);
                assert(t.contributions[0] == s.contributions[0]);
            }
        },
        PayloadView::Signature { sig } => {
            assert(sig_ids(t.signatures) =~= sig_ids(s.signatures).push(from));
            lemma_ids_push(sig_ids(s.signatures), from, s.participants);
        },
        PayloadView::SecretKeying { skey } => {
            assert(key_ids(t.sess_skeys) =~= key_ids(s.sess_skeys).push(from));
            lemma_ids_push(key_ids(s.sess_skeys), from, s.participants);
        },
    }
    }
    assert(kept_once(t));
    assert(kept_of_participants(t));
    assert(inv(t));
    if t.pending.len() == 0 {
        let u = idle(t);
        assert(u.pending =~= t.pending);
        assert(inv(u));
    }
}

pub proof fn lemma_accept_inv(s: State, from: ParticipantID, payload: PayloadView, valid: bool)
    requires
        inv(s),
        acceptable(s, EnvelopeView { from, payload, points_valid: valid }),
    ensures
        inv(accept(s, from, payload, valid).state),
{
    lemma_recorded_inv(s, from, payload, valid);
    let t = recorded(s, from, payload, valid);
    if crate::model::keeps(s, from, payload, valid) && t.pending.len() == 0 {
        lemma_advance_inv(idle(t), s.msg_state);
    }
}

/// What `first_acceptable` finds can be accepted, and nothing before it.
pub proof fn lemma_first_acceptable(s: State, queue: Seq<EnvelopeView>)
    ensures
        0 <= first_acceptable(s, queue) <= queue.len(),
        first_acceptable(s, queue) < queue.len() ==> acceptable(
            s,
            queue[first_acceptable(s, queue)],
        ),
        forall|j: int| 0 <= j < first_acceptable(s, queue) ==> !acceptable(s, queue[j]),
    decreases queue.len(),
{
    if queue.len() == 0 {
    } else if acceptable(s, queue[0]) {
    } else {
        let rest = queue.skip(1);
        lemma_first_acceptable(s, rest);
        assert forall|j: int| 0 <= j < first_acceptable(s, queue) implies !acceptable(
            s,
            queue[j],
        ) by {
            if j > 0 {
                assert(queue[j] == rest[j - 1]);
            }
        }
    }
}

pub proof fn lemma_pruned_inv(s: State)
    requires
        inv(s),
    ensures
        inv(crate::model::pruned(s)),
{
}

pub proof fn lemma_run_queue_inv(s: State, fuel: nat)
    requires
        inv(s),
    ensures
        inv(run_queue(s, fuel).state),
    decreases fuel,
{
    lemma_pruned_inv(s);
    if fuel > 0 {
        lemma_first_acceptable(s, s.queue);
        let i = first_acceptable(s, s.queue);
        if i < s.queue.len() {
            let e = s.queue[i];
            let s1 = State { queue: s.queue.remove(i), ..s };
            assert(inv(s1));
            assert(acceptable(s1, e));
            lemma_accept_inv(s1, e.from, e.payload, e.points_valid);
            let st = accept(s1, e.from, e.payload, e.points_valid);
            if st.outcome is NotReady {
                lemma_run_queue_inv(st.state, (fuel - 1) as nat);
            }
        }
    }
}

pub proof fn lemma_drain_inv(s: State)
    requires
        inv(s),
    ensures
        inv(drain(s).state),
        inv(then_drain(going(s)).state),
{
    lemma_run_queue_inv(s, s.queue.len());
}

pub proof fn lemma_then_drain_inv(st: Step)
    requires
        inv(st.state),
    ensures
        inv(then_drain(st).state),
{
    lemma_drain_inv(st.state);
}

pub proof fn lemma_handle_timer_inv(s: State)
    requires
        inv(s),
    ensures
        inv(handle_timer(s).state),
{
    if s.msg_state != MessageState::Idle {
        let u = idle(s);
        assert(between(u));
        lemma_advance_inv(u, s.msg_state);
        lemma_then_drain_inv(advance(u, s.msg_state));
    }
}

/// The waiting messages have no part in what holds of a session.
pub proof fn lemma_queue_inv(s: State, queue: Seq<EnvelopeView>)
    requires
        inv(s),
    ensures
        inv(State { queue, ..s }),
{
}

#[verifier::rlimit(40)]
pub proof fn lemma_on_message_received_inv(
    s: State,
    from: NetworkKey,
    msg: MessageView,
    valid: bool,
)
    requires
        inv(s),
    ensures
        inv(on_message_received(s, from, msg, valid).state),
{
    let e = EnvelopeView { from: msg.source, payload: msg.payload, points_valid: valid };
    let st = on_message_received(s, from, msg, valid);
    if s.poll_state != PoolState::PoolFormed || msg.source.pkey != from || msg.destination != s.me
        || msg.sid != s.session_id {
        assert(st.state == s);
    } else if acceptable(s, e) {
        lemma_accept_inv(s, msg.source, msg.payload, valid);
        lemma_then_drain_inv(accept(s, msg.source, msg.payload, valid));
    } else if msg.payload.kind().rank() > s.phase.rank() {
        lemma_queue_inv(s, s.queue.push(e));
        assert(st.state == State { queue: s.queue.push(e), ..s });
    } else {
        assert(st.state == s);
    }
}

pub proof fn lemma_keys_entered_inv(s: State, keys: RoundKeys)
    requires
        inv(s),
        s.awaiting == Awaiting::RoundKeys,
    ensures
        inv(crate::model::keys_entered(s, keys)),
{
    let s2 = crate::model::keys_opened(s, keys);
    lemma_single(s.me);
    assert(key_ids(s2.sig_k_vals) =~= seq![s.me]);
    assert(key_ids(s2.sess_pkeys) =~= seq![s.me]);
    assert(kept_once(s2));
    assert(between(s2));
    lemma_enter_phase_inv(s2, MessageState::SharedKeying);
}

pub proof fn lemma_on_round_keys_inv(s: State, keys: RoundKeys)
    requires
        inv(s),
    ensures
        inv(on_round_keys(s, keys).state),
{
    if s.awaiting == Awaiting::RoundKeys {
        lemma_keys_entered_inv(s, keys);
        lemma_drain_inv(crate::model::keys_entered(s, keys));
    }
}

pub proof fn lemma_settled_sizes(s: State, utxos: Seq<Seq<u8>>)
    requires
        sizes_ok(s),
        first_size(utxos) <= usize::MAX,
    ensures
        crate::model::settled_size(s, utxos) <= crate::model::settled_chunks(s, utxos) * 32,
        s.utxo_size is None ==> crate::model::settled_size(s, utxos) == first_size(utxos),
        s.utxo_size is None ==> crate::model::settled_chunks(s, utxos) == chunks_for(
            first_size(utxos),
        ),
{
}

#[verifier::rlimit(40)]
pub proof fn lemma_commit_entered_inv(
    s: State,
    shared: Seq<KeyEntry>,
    utxos: Seq<Seq<u8>>,
    gammas: Seq<Scalar>,
)
    requires
        inv(s),
        s.awaiting == Awaiting::CommitMaterial,
        first_size(utxos) <= usize::MAX,
        matrix_fits(s.commit_phase.len() as int, crate::model::settled_chunks(s, utxos) as int),
    ensures
        inv(crate::model::commit_entered(s, shared, utxos, gammas)),
{
    lemma_settled_sizes(s, utxos);
    lemma_canonical_exists(s.participants);
    let s2 = crate::model::commit_opened(s, shared, utxos, gammas);
    lemma_single(s.me);
    assert(s2.contributions.len() == 1 && s2.contributions[0].id == s.me);
    assert(contribution_ids(s2.contributions) =~= seq![s.me]);
    assert(key_ids(s2.commits) =~= seq![s.me]);
    assert(sizes_ok(s2));
    assert(kept_once(s2));
    assert(s2.participants == s.participants && s2.pending == s.pending && s2.commit_phase
        == s.commit_phase && s2.phase == s.phase && s2.msg_state == s.msg_state
        && s2.poll_state == s.poll_state && s2.round_size == s.round_size && s2.my_fee
        == s.my_fee && s2.signatures == s.signatures && s2.me == s.me);
    assert(between(s2));
    lemma_enter_phase_inv(s2, MessageState::Commitment);
}

pub proof fn lemma_signature_entered_inv(s: State, parsed: Seq<bool>, sig: SchnorrSig)
    requires
        inv(s),
        s.awaiting == Awaiting::SuperTransaction,
    ensures
        inv(crate::model::signature_entered(s, parsed, sig)),
{
    let s2 = crate::model::signature_opened(s, parsed, sig);
    lemma_single(s.me);
    assert(sig_ids(s2.signatures) =~= seq![s.me]);
    assert(kept_once(s2));
    assert(between(s2));
    lemma_enter_phase_inv(s2, MessageState::Signature);
}

pub proof fn lemma_on_supertransaction_inv(s: State, parsed: Seq<bool>, sig: SchnorrSig)
    requires
        inv(s),
    ensures
        inv(on_supertransaction(s, parsed, sig).state),
{
    if s.awaiting == Awaiting::SuperTransaction {
        lemma_signature_entered_inv(s, parsed, sig);
        lemma_drain_inv(crate::model::signature_entered(s, parsed, sig));
    }
}

pub proof fn lemma_reset_inv(s: State)
    requires
        inv(s),
    ensures
        inv(reset_state(s)),
{
    let t = reset_state(s);
    assert(t.pending =~= Seq::<ParticipantID>::empty());
    assert forall|p: ParticipantID| !(t.participants.contains(p) && t.pending.contains(p)) by {
        if t.pending.contains(p) {
            let j = choose|j: int| 0 <= j < t.pending.len() && t.pending[j] == p;
        }
    }
}

pub proof fn lemma_secrets_entered_inv(s: State)
    requires
        inv(s),
        s.awaiting == Awaiting::Validation,
    ensures
        inv(crate::model::secrets_entered(s)),
{
    let s2 = crate::model::secrets_opened(s);
    lemma_single(s.me);
    assert(key_ids(s2.sess_skeys) =~= seq![s.me]);
    assert(kept_once(s2));
    assert(between(s2));
    lemma_enter_phase_inv(s2, MessageState::SecretKeying);
}

pub proof fn lemma_on_validation_inv(s: State, v: Validation)
    requires
        inv(s),
    ensures
        inv(on_validation(s, v).state),
{
    if s.awaiting == Awaiting::Validation {
        if v.valid {
            let tx = crate::types::TransactionView {
                sig: SchnorrSig { u: s.trans.sig.u, k: v.k_sum },
                ..s.trans
            };
            lemma_reset_inv(State { trans: tx, ..s });
        } else {
            lemma_secrets_entered_inv(s);
            lemma_drain_inv(crate::model::secrets_entered(s));
        }
    }
}

pub proof fn lemma_on_blame_inv(s: State, verdicts: Seq<Verdict>)
    requires
        inv(s),
    ensures
        inv(on_blame(s, verdicts).state),
{
    if s.awaiting == Awaiting::Blame && !convicted(verdicts).contains(s.me) {
        lemma_blame_excluded_inv(s, verdicts);
        if blamed(s, verdicts).participants.len() < s.round_size {
            lemma_start_inv(blamed(s, verdicts));
        }
    }
}

/// The session with the convicted left out can begin a round.
pub proof fn lemma_blame_excluded_inv(s: State, verdicts: Seq<Verdict>)
    requires
        inv(s),
        s.awaiting == Awaiting::Blame,
        !convicted(verdicts).contains(s.me),
    ensures
        inv(blamed(s, verdicts)),
        running(s),
        s.msg_state == MessageState::Idle,
{
    let excl = convicted(verdicts);
    lemma_without_contains(s.participants, excl);
    let s1 = State { participants: without(s.participants, excl), awaiting: Awaiting::Nothing, ..s };
    assert forall|p: ParticipantID| !(s1.participants.contains(p) && s1.pending.contains(p)) by {
        if s1.pending.contains(p) {
            let j = choose|j: int| 0 <= j < s1.pending.len() && s1.pending[j] == p;
        }
    }
    assert(subset_of(s1.participants, s.participants));
}

/// The session with the announced pool taken can begin a round.
pub proof fn lemma_pool_formed_inv(s: State, session_id: Digest, members: Seq<MemberView>)
    requires
        inv(s),
        listed(members, s.me),
    ensures
        inv(crate::model::pool_taken(s, session_id, members)),
        may_begin(crate::model::pool_taken(s, session_id, members)),
{
    let kept = kept_members(members, s.me);
    lemma_kept_members(members, s.me);
    lemma_canonical_exists(member_ids(kept));
    let sorted = canonical(member_ids(kept));
    lemma_sorted_no_duplicates(sorted);
    let s1 = crate::model::pool_taken(s, session_id, members);
    assert forall|p: ParticipantID| !(s1.participants.contains(p) && s1.pending.contains(p)) by {
        if s1.pending.contains(p) {
            let j = choose|j: int| 0 <= j < s1.pending.len() && s1.pending[j] == p;
        }
    }
}

pub proof fn lemma_on_pool_canceled_inv(s: State)
    requires
        inv(s),
    ensures
        inv(on_pool_canceled(s).state),
{
}

/// This participant stays among the members where it is listed.
pub proof fn lemma_kept_members(members: Seq<MemberView>, me: ParticipantID)
    ensures
        kept_members(members, me).len() <= members.len(),
        listed(members, me) ==> member_ids(kept_members(members, me)).contains(me),
    decreases members.len(),
{
    if members.len() > 0 {
        let head = members.drop_last();
        lemma_kept_members(head, me);
        let kept = kept_members(members, me);
        let kept_head = kept_members(head, me);
        if listed(members, me) {
            let i = choose|i: int| 0 <= i < members.len() && members[i].id == me;
            if i == members.len() - 1 {
                assert(kept == kept_head.push(members.last()));
                assert(member_ids(kept)[kept_head.len() as int] == me);
            } else {
                assert(head[i].id == me);
                assert(listed(head, me));
                let j = choose|j: int|
                    0 <= j < member_ids(kept_head).len() && member_ids(kept_head)[j] == me;
                assert(kept[j] == kept_head[j]);
                assert(member_ids(kept)[j] == me);
            }
        }
    }
}

pub proof fn lemma_on_pool_started_inv(s: State, session_id: Digest, members: Seq<MemberView>)
    requires
        inv(s),
    ensures
        inv(on_pool_started(s, session_id, members).state),
{
    if listed(members, s.me) {
        lemma_pool_formed_inv(s, session_id, members);
        lemma_start_inv(crate::model::pool_taken(s, session_id, members));
    }
}

pub proof fn lemma_on_pool_notification_inv(
    s: State,
    from: NetworkKey,
    note: crate::types::NotificationView,
)
    requires
        inv(s),
    ensures
        inv(crate::model::on_pool_notification(s, from, note).state),
{
    if from == s.facilitator {
        match note {
            crate::types::NotificationView::Canceled => lemma_on_pool_canceled_inv(s),
            crate::types::NotificationView::Started {
                session_id,
                participants,
            } => lemma_on_pool_started_inv(s, session_id, participants),
        }
    }
}

/// A session holds what holds of every session as soon as it begins.
pub proof fn lemma_initial_inv(
    signing_skey: [u8; 32],
    participant_pkey: NetworkKey,
    facilitator: NetworkKey,
    inputs: Seq<crate::types::OwnedInput>,
    my_txouts: Seq<crate::types::ProposedUTXO>,
    my_fee: i64,
    seed: [u8; 32],
    session_id: Digest,
)
    requires
        my_fee >= 0,
    ensures
        inv(
            crate::model::initial(
                signing_skey,
                participant_pkey,
                facilitator,
                inputs,
                my_txouts,
                my_fee,
                seed,
                session_id,
            ),
        ),
{
    let s = crate::model::initial(
        signing_skey,
        participant_pkey,
        facilitator,
        inputs,
        my_txouts,
        my_fee,
        seed,
        session_id,
    );
    assert forall|p: ParticipantID| !(s.participants.contains(p) && s.pending.contains(p)) by {
        if s.pending.contains(p) {
            let j = choose|j: int| 0 <= j < s.pending.len() && s.pending[j] == p;
        }
    }
    assert(subset_of(s.participants, s.commit_phase));
}

pub proof fn lemma_change_facilitator_inv(s: State, facilitator: NetworkKey)
    requires
        inv(s),
    ensures
        inv(change_facilitator(s, facilitator)),
{
}

pub proof fn lemma_take_actions_inv(s: State)
    requires
        inv(s),
    ensures
        inv(take_actions(s)),
{
}

} // verus!
