//! What holds of the protocol as a whole.

use crate::dicemix::{
    byte_or_zero, cloak_for, contribution_index, decoded, decoded_at, encoded, encoded_at,
    encoded_scalar, excl_pad_at, excl_scalar_sum, lemma_position_of, matrix_len, opened_scalar,
    opened_sum, pad_at, pad_sum_at, plain_at, position_of, row_of, scalar_of, scalar_pad_sum,
    signed_pad, Cloak, ContributionView,
};
use crate::blame::is_zero_row;
use crate::hashing::{session_id_of, Digest};
use crate::message::{MessageState, MessageView};
use crate::dicemix::matrix_fits;
use crate::error::SnowballError;
use crate::message::{PayloadView, SchnorrSig};
use crate::model::{
    accept, acceptable, advance, all_signed, at_fault, blamed, chunks_of, commit_entered,
    convicted, drain, first_acceptable, first_size, going, handle_timer, idle, is_ahead,
    keep_ahead, keep_parsed, keeps, keys_entered, on_blame, on_commit_material,
    on_message_received, on_round_keys, on_supertransaction, on_validation, recorded, rows_cut,
    run_queue, secrets_entered, settled_chunks, sig_for, sign_supertransaction,
    signature_entered, size_of, start, then_drain, make_supertransaction, Outcome, State, Step,
};
use crate::model::{kept_members, listed, member_ids, on_pool_started, pool_taken};
use crate::types::{
    EnvelopeView, KeyEntry, MemberView, NetworkKey, PoolState, RoundKeys, Validation,
};
use crate::participant::{
    canonical, lemma_canonical_exists, lemma_canonical_same_members, same_members, without,
    ParticipantID,
};
use crate::scalar::{group_order, scalar_value, Scalar};
use crate::sound::{
    between, inv, lemma_accept_inv, lemma_advance_inv, lemma_blame_excluded_inv,
    lemma_commit_entered_inv, lemma_dropout_shrinks, lemma_first_acceptable,
    lemma_keys_entered_inv, lemma_queue_inv, lemma_recorded_inv, lemma_secrets_entered_inv,
    lemma_signature_entered_inv, lemma_unsigned_shrinks, lemma_without_contains, may_begin,
};
use crate::types::{Awaiting, Verdict};
use vstd::prelude::*;

verus! {

// ---------------------------------------------------------------------
// The cloaks cancel.

/// One round of honest participants: who they are, the outputs of each,
/// and the cloaks of each.
pub struct HonestRound {
    pub participants: Seq<ParticipantID>,
    pub utxos: Seq<Seq<Seq<u8>>>,
    pub cloaks: Seq<Seq<Cloak>>,
    pub n_chunks: int,
}

impl HonestRound {
    /// Nobody takes part twice, each participant has its outputs and its
    /// cloaks, and any two participants hold the same cloak for each
    /// other.
    pub open spec fn well_formed(self) -> bool {
        &&& cloaks_agree(self.participants, self.cloaks)
        &&& self.utxos.len() == self.participants.len()
        &&& self.n_chunks > 0
    }

    /// Each participant has opened the matrix that it makes of its
    /// outputs under its cloaks.
    pub open spec fn opened_by(self, all: Seq<ContributionView>) -> bool {
        forall|i: int|
            0 <= i < self.participants.len() ==> {
                &&& (#[trigger] contribution_index(all, self.participants[i])) < all.len()
                &&& all[contribution_index(all, self.participants[i])].matrix == encoded(
                    self.participants,
                    self.utxos[i],
                    self.participants[i],
                    self.cloaks[i],
                    self.n_chunks,
                )
            }
    }

    /// What the cloak between the participants at `i` and `j` lays over
    /// byte `idx`.
    pub open spec fn pad(self, i: int, j: int, idx: int) -> u8 {
        pad_at(cloak_for(self.cloaks[i], self.participants[j])->Some_0, self.n_chunks, idx)
    }

    /// The plain bytes at `idx` of the first `m` participants, added.
    pub open spec fn plain_total(self, m: nat, idx: int) -> u8
        decreases m,
    {
        if m == 0 {
            0
        } else {
            self.plain_total((m - 1) as nat, idx) ^ plain_at(
                self.utxos[m - 1],
                m - 1,
                self.n_chunks,
                idx,
            )
        }
    }

    /// What the first `m` participants lay over byte `idx` for the cloaks
    /// they share with the first `l`, added.
    pub open spec fn pad_total(self, m: nat, l: nat, idx: int) -> u8
        decreases m,
    {
        if m == 0 {
            0
        } else {
            self.pad_total((m - 1) as nat, l, idx) ^ pad_sum_at(
                self.participants.take(l as int),
                self.participants[m - 1],
                self.cloaks[m - 1],
                self.n_chunks,
                idx,
            )
        }
    }

    /// What the first `m` participants lay over byte `idx` for the cloak
    /// that each shares with the participant at `l`, added.
    pub open spec fn column(self, m: nat, l: int, idx: int) -> u8
        decreases m,
    {
        if m == 0 {
            0
        } else {
            self.column((m - 1) as nat, l, idx) ^ self.pad(m - 1, l, idx)
        }
    }

    /// The participant whose rows hold byte `idx`.
    pub open spec fn owner(self, idx: int) -> int {
        (idx / (self.n_chunks * 32)) / 5
    }
}

proof fn lemma_xor_facts()
    ensures
        forall|a: u8| #![auto] a ^ a == 0,
        forall|a: u8| #![auto] a ^ 0 == a,
        forall|a: u8| #![auto] 0 ^ a == a,
        forall|a: u8, b: u8| #![auto] a ^ b == b ^ a,
        forall|a: u8, b: u8, c: u8| #![auto] (a ^ b) ^ c == a ^ (b ^ c),
{
    assert forall|a: u8| #![auto] a ^ a == 0 by {
        assert(a ^ a == 0) by (bit_vector);
    }
    assert forall|a: u8| #![auto] a ^ 0 == a by {
        assert(a ^ 0 == a) by (bit_vector);
    }
    assert forall|a: u8| #![auto] 0 ^ a == a by {
        assert(0 ^ a == a) by (bit_vector);
    }
    assert forall|a: u8, b: u8| #![auto] a ^ b == b ^ a by {
        assert(a ^ b == b ^ a) by (bit_vector);
    }
    assert forall|a: u8, b: u8, c: u8| #![auto] (a ^ b) ^ c == a ^ (b ^ c) by {
        assert((a ^ b) ^ c == a ^ (b ^ c)) by (bit_vector);
    }
}

/// The pad sum of a participant toward the first `m` others, none of whom
/// it is, is the sum of its pads toward each.
proof fn lemma_row(r: HonestRound, l: int, m: nat, idx: int)
    requires
        r.well_formed(),
        0 <= l < r.participants.len(),
        m <= l,
    ensures
        pad_sum_at(
            r.participants.take(m as int),
            r.participants[l],
            r.cloaks[l],
            r.n_chunks,
            idx,
        ) == r.column(m, l, idx),
    decreases m,
{
    if m > 0 {
        lemma_row(r, l, (m - 1) as nat, idx);
        let list = r.participants.take(m as int);
        assert(list.drop_last() =~= r.participants.take(m - 1));
        assert(list.last() == r.participants[m - 1]);
        assert(cloak_for(r.cloaks[l], r.participants[m - 1]) is Some);
        assert(cloak_for(r.cloaks[l], r.participants[m - 1]) == cloak_for(
            r.cloaks[m - 1],
            r.participants[l],
        ));
    }
}

/// One more participant to share cloaks with adds its column to the
/// total of those before it.
proof fn lemma_grow(r: HonestRound, l: int, m: nat, idx: int)
    requires
        r.well_formed(),
        0 <= l < r.participants.len(),
        m <= l,
    ensures
        r.pad_total(m, (l + 1) as nat, idx) == r.pad_total(m, l as nat, idx) ^ r.column(m, l, idx),
    decreases m,
{
    lemma_xor_facts();
    if m > 0 {
        lemma_grow(r, l, (m - 1) as nat, idx);
        let wide = r.participants.take(l + 1);
        assert(wide.drop_last() =~= r.participants.take(l));
        assert(wide.last() == r.participants[l]);
        assert(cloak_for(r.cloaks[m - 1], r.participants[l]) is Some);
        let a = r.pad_total((m - 1) as nat, l as nat, idx);
        let b = r.column((m - 1) as nat, l, idx);
        let c = pad_sum_at(
            r.participants.take(l),
            r.participants[m - 1],
            r.cloaks[m - 1],
            r.n_chunks,
            idx,
        );
        let d = r.pad(m - 1, l, idx);
        assert((a ^ b) ^ (c ^ d) == (a ^ c) ^ (b ^ d)) by (bit_vector);
    }
}

/// Among participants who hold the same cloak pair by pair, all pads
/// together are nothing.
proof fn lemma_pads_cancel(r: HonestRound, k: nat, idx: int)
    requires
        r.well_formed(),
        k <= r.participants.len(),
    ensures
        r.pad_total(k, k, idx) == 0,
    decreases k,
{
    lemma_xor_facts();
    if k > 0 {
        let l = (k - 1) as int;
        lemma_pads_cancel(r, l as nat, idx);
        lemma_grow(r, l, l as nat, idx);
        lemma_row(r, l, l as nat, idx);
        let wide = r.participants.take(k as int);
        assert(wide.drop_last() =~= r.participants.take(l));
        assert(wide.last() == r.participants[l]);
        let x = r.column(l as nat, l, idx);
        assert((0u8 ^ x) ^ x == 0) by (bit_vector);
    }
}

/// Of the plain bytes at `idx`, only the owner's is not zero.
proof fn lemma_plain_total(r: HonestRound, m: nat, idx: int)
    requires
        r.well_formed(),
        m <= r.participants.len(),
        0 <= idx,
    ensures
        r.plain_total(m, idx) == (if r.owner(idx) < m {
            plain_at(r.utxos[r.owner(idx)], r.owner(idx), r.n_chunks, idx)
        } else {
            0
        }),
    decreases m,
{
    lemma_xor_facts();
    if m > 0 {
        lemma_plain_total(r, (m - 1) as nat, idx);
        if r.owner(idx) != m - 1 {
            assert(plain_at(r.utxos[m - 1], m - 1, r.n_chunks, idx) == 0);
        }
    }
}

/// The sum of what the first `m` participants have opened is the plain
/// bytes under the pads.
#[verifier::rlimit(40)]
proof fn lemma_decoded_prefix(r: HonestRound, all: Seq<ContributionView>, m: nat, idx: int)
    requires
        r.well_formed(),
        r.opened_by(all),
        m <= r.participants.len(),
        0 <= idx < matrix_len(r.participants.len() as int, r.n_chunks),
    ensures
        decoded_at(r.participants.take(m as int), all, Seq::empty(), r.n_chunks, idx)
            == r.plain_total(m, idx) ^ r.pad_total(m, r.participants.len(), idx),
    decreases m,
{
    lemma_xor_facts();
    if m > 0 {
        lemma_decoded_prefix(r, all, (m - 1) as nat, idx);
        let list = r.participants.take(m as int);
        assert(list.drop_last() =~= r.participants.take(m - 1));
        assert(list.last() == r.participants[m - 1]);
        let p = r.participants[m - 1];
        let k = contribution_index(all, p);
        assert(k < all.len());
        let matrix = all[k].matrix;
        assert(matrix == encoded(r.participants, r.utxos[m - 1], p, r.cloaks[m - 1], r.n_chunks));
        assert(byte_or_zero(matrix, idx) == encoded_at(
            r.participants,
            r.utxos[m - 1],
            p,
            r.cloaks[m - 1],
            r.n_chunks,
            idx,
        ));
        lemma_position_of(r.participants, p);
        assert(position_of(r.participants, p) == m - 1);
        assert(r.participants.take(r.participants.len() as int) =~= r.participants);
        assert(excl_pad_at(all[k].cloaks, Seq::<ParticipantID>::empty(), r.n_chunks, idx) == 0);
        let a = r.plain_total((m - 1) as nat, idx);
        let b = r.pad_total((m - 1) as nat, r.participants.len(), idx);
        let x = plain_at(r.utxos[m - 1], m - 1, r.n_chunks, idx);
        let y = pad_sum_at(r.participants, p, r.cloaks[m - 1], r.n_chunks, idx);
        assert(((a ^ b) ^ (x ^ y)) ^ 0u8 == (a ^ x) ^ (b ^ y)) by (bit_vector);
    }
}

/// Cloak cancellation. Let the participants of a round, none of them
/// twice, each make its matrix for the same list of participants, with
/// cloaks that any two of them hold alike for each other, and let nobody
/// be left out. Then the sum of their matrices shows, at every byte, the
/// plain byte of the participant in whose rows it lies: the rows of all
/// participants one after the other, in the order of the list.
#[verifier::rlimit(40)]
pub proof fn law_cloak_cancellation(r: HonestRound, all: Seq<ContributionView>, idx: int)
    requires
        r.well_formed(),
        r.opened_by(all),
        0 <= idx < matrix_len(r.participants.len() as int, r.n_chunks),
    ensures
        r.owner(idx) < r.participants.len(),
        decoded(
            r.participants,
            all,
            Seq::empty(),
            r.participants.len() as int,
            r.n_chunks,
        )[idx] == plain_at(r.utxos[r.owner(idx)], r.owner(idx), r.n_chunks, idx),
{
    lemma_xor_facts();
    let n = r.participants.len();
    lemma_decoded_prefix(r, all, n, idx);
    lemma_pads_cancel(r, n, idx);
    lemma_plain_total(r, n, idx);
    assert(r.participants.take(n as int) =~= r.participants);
    let row = idx / (r.n_chunks * 32);
    assert(row < n * 5) by (nonlinear_arith)
        requires
            row == idx / (r.n_chunks * 32),
            0 <= idx < n * 5 * r.n_chunks * 32,
            r.n_chunks > 0,
    ;
}

/// The rows come out whole. With the participants of
/// `law_cloak_cancellation`, whose outputs all have the width `size` that
/// rows are cut to: the row of the participant at `i` for its output
/// `slot` is that output, byte for byte.
#[verifier::rlimit(40)]
pub proof fn law_rows_recovered(
    r: HonestRound,
    all: Seq<ContributionView>,
    size: int,
    i: int,
    slot: int,
)
    requires
        r.well_formed(),
        r.opened_by(all),
        0 <= size <= r.n_chunks * 32,
        0 <= i < r.participants.len(),
        0 <= slot < 5,
        slot < r.utxos[i].len(),
        r.utxos[i][slot].len() == size,
    ensures
        rows_cut(
            decoded(
                r.participants,
                all,
                Seq::empty(),
                r.participants.len() as int,
                r.n_chunks,
            ),
            r.n_chunks,
            size,
        )[i * 5 + slot] == r.utxos[i][slot],
        i * 5 + slot < rows_cut(
            decoded(
                r.participants,
                all,
                Seq::empty(),
                r.participants.len() as int,
                r.n_chunks,
            ),
            r.n_chunks,
            size,
        ).len(),
{
    let n = r.participants.len() as int;
    let row_len = r.n_chunks * 32;
    let matrix = decoded(r.participants, all, Seq::empty(), n, r.n_chunks);
    let rows = rows_cut(matrix, r.n_chunks, size);
    let row = i * 5 + slot;
    assert(matrix.len() == (n * 5) * row_len) by (nonlinear_arith)
        requires
            matrix.len() == n * 5 * r.n_chunks * 32,
            row_len == r.n_chunks * 32,
    ;
    assert(matrix.len() / (row_len as nat) == n * 5) by {
        vstd::arithmetic::div_mod::lemma_div_multiples_vanish(n * 5, row_len);
        assert(row_len * (n * 5) == (n * 5) * row_len) by (nonlinear_arith);
    }
    assert(rows.len() == n * 5);
    assert(rows[row] == row_of(matrix, r.n_chunks, size, row));
    assert forall|j: int| 0 <= j < size implies rows[row][j] == r.utxos[i][slot][j] by {
        let idx = row * row_len + j;
        assert(0 <= idx < n * 5 * r.n_chunks * 32) by (nonlinear_arith)
            requires
                idx == row * row_len + j,
                0 <= row < n * 5,
                0 <= j < row_len,
                row_len == r.n_chunks * 32,
        ;
        law_cloak_cancellation(r, all, idx);
        vstd::arithmetic::div_mod::lemma_fundamental_div_mod_converse(idx, row_len, row, j);
        assert(idx / row_len == row);
        assert(idx % row_len == j);
        assert(r.owner(idx) == i);
    }
    assert(rows[row] =~= r.utxos[i][slot]);
}


// ---------------------------------------------------------------------
// The order in which contributions are summed makes no difference.

/// What the participant `p` has opened adds to byte `idx` of the sum.
pub open spec fn opened_byte(
    all: Seq<ContributionView>,
    excl: Seq<ParticipantID>,
    n_chunks: int,
    idx: int,
    p: ParticipantID,
) -> u8 {
    let k = contribution_index(all, p);
    if k < all.len() {
        byte_or_zero(all[k].matrix, idx) ^ excl_pad_at(all[k].cloaks, excl, n_chunks, idx)
    } else {
        0
    }
}

proof fn lemma_decoded_step(
    list: Seq<ParticipantID>,
    all: Seq<ContributionView>,
    excl: Seq<ParticipantID>,
    n_chunks: int,
    idx: int,
)
    requires
        list.len() > 0,
    ensures
        decoded_at(list, all, excl, n_chunks, idx) == decoded_at(
            list.drop_last(),
            all,
            excl,
            n_chunks,
            idx,
        ) ^ opened_byte(all, excl, n_chunks, idx, list.last()),
{
    let rest = decoded_at(list.drop_last(), all, excl, n_chunks, idx);
    let k = contribution_index(all, list.last());
    if k < all.len() {
        let x = byte_or_zero(all[k].matrix, idx);
        let y = excl_pad_at(all[k].cloaks, excl, n_chunks, idx);
        assert((rest ^ x) ^ y == rest ^ (x ^ y)) by (bit_vector);
    } else {
        assert(rest == rest ^ 0u8) by (bit_vector);
    }
}

#[verifier::rlimit(40)]
proof fn lemma_decoded_remove(
    list: Seq<ParticipantID>,
    all: Seq<ContributionView>,
    excl: Seq<ParticipantID>,
    n_chunks: int,
    idx: int,
    k: int,
)
    requires
        0 <= k < list.len(),
    ensures
        decoded_at(list, all, excl, n_chunks, idx) == decoded_at(
            list.remove(k),
            all,
            excl,
            n_chunks,
            idx,
        ) ^ opened_byte(all, excl, n_chunks, idx, list[k]),
    decreases list.len(),
{
    lemma_decoded_step(list, all, excl, n_chunks, idx);
    if k == list.len() - 1 {
        assert(list.remove(k) =~= list.drop_last());
    } else {
        let head = list.drop_last();
        lemma_decoded_remove(head, all, excl, n_chunks, idx, k);
        let shorter = list.remove(k);
        assert(shorter.drop_last() =~= head.remove(k));
        assert(shorter.last() == list.last());
        lemma_decoded_step(shorter, all, excl, n_chunks, idx);
        let a = decoded_at(head.remove(k), all, excl, n_chunks, idx);
        let b = opened_byte(all, excl, n_chunks, idx, list[k]);
        let c = opened_byte(all, excl, n_chunks, idx, list.last());
        assert((a ^ b) ^ c == (a ^ c) ^ b) by (bit_vector);
    }
}

/// The sum of what participants have opened is the same in whatever order
/// they are gone through.
pub proof fn lemma_decoded_any_order(
    a: Seq<ParticipantID>,
    b: Seq<ParticipantID>,
    all: Seq<ContributionView>,
    excl: Seq<ParticipantID>,
    n_chunks: int,
    idx: int,
)
    requires
        a.no_duplicates(),
        b.no_duplicates(),
        same_members(a, b),
    ensures
        decoded_at(a, all, excl, n_chunks, idx) == decoded_at(b, all, excl, n_chunks, idx),
    decreases a.len(),
{
    if a.len() == 0 {
        if b.len() > 0 {
            assert(b.contains(b[0]));
            assert(a.contains(b[0]));
        }
        assert(a =~= b);
    } else {
        let x = a.last();
        assert(a.contains(x)) by {
            assert(a[a.len() - 1] == x);
        }
        assert(b.contains(x));
        let k = choose|k: int| 0 <= k < b.len() && b[k] == x;
        let head = a.drop_last();
        let rest = b.remove(k);
        lemma_drop_one(a, b, k);
        lemma_decoded_any_order(head, rest, all, excl, n_chunks, idx);
        lemma_decoded_step(a, all, excl, n_chunks, idx);
        lemma_decoded_remove(b, all, excl, n_chunks, idx, k);
    }
}

/// Cloak cancellation in a session. Let the session stand where all have
/// opened and nobody has left since the matrix was made, and let the
/// participants for whom the matrix was made be honest: each has opened
/// the matrix that it makes of its outputs, all of the width that rows
/// are cut to. Then the rows of the joint transaction are those outputs:
/// the row of the participant at `i` for its output `slot` is that
/// output, byte for byte.
pub proof fn law_session_rows(s: State, r: HonestRound, i: int, slot: int)
    requires
        inv(s),
        s.phase == MessageState::CloakedVals,
        s.participants.len() >= 3,
        same_members(s.participants, s.commit_phase),
        s.excl_participants.len() == 0,
        r.well_formed(),
        r.participants == s.commit_phase,
        r.n_chunks == chunks_of(s),
        r.opened_by(s.contributions),
        0 <= i < r.participants.len(),
        0 <= slot < 5,
        slot < r.utxos[i].len(),
        r.utxos[i][slot].len() == size_of(s),
    ensures
        i * 5 + slot < make_supertransaction(s).state.trans.outputs.len(),
        make_supertransaction(s).state.trans.outputs[i * 5 + slot] == r.utxos[i][slot],
{
    let n = s.commit_phase.len() as int;
    let n_chunks = chunks_of(s);
    let size = size_of(s);
    let ours = decoded(s.participants, s.contributions, s.excl_participants, n, n_chunks);
    let theirs = decoded(r.participants, s.contributions, Seq::empty(), n, n_chunks);
    assert(s.excl_participants =~= Seq::<ParticipantID>::empty());
    assert(ours =~= theirs) by {
        assert forall|idx: int| 0 <= idx < ours.len() implies ours[idx] == theirs[idx] by {
            lemma_decoded_any_order(
                s.participants,
                r.participants,
                s.contributions,
                s.excl_participants,
                n_chunks,
                idx,
            );
        }
    }
    law_rows_recovered(r, s.contributions, size, i, slot);
}

/// A row for which a participant has no output comes out empty.
pub proof fn law_rows_empty(
    r: HonestRound,
    all: Seq<ContributionView>,
    size: int,
    i: int,
    slot: int,
)
    requires
        r.well_formed(),
        r.opened_by(all),
        0 <= size <= r.n_chunks * 32,
        0 <= i < r.participants.len(),
        0 <= slot < 5,
        slot >= r.utxos[i].len(),
    ensures
        is_zero_row(
            rows_cut(
                decoded(
                    r.participants,
                    all,
                    Seq::empty(),
                    r.participants.len() as int,
                    r.n_chunks,
                ),
                r.n_chunks,
                size,
            )[i * 5 + slot],
        ),
{
    let n = r.participants.len() as int;
    let row_len = r.n_chunks * 32;
    let matrix = decoded(r.participants, all, Seq::empty(), n, r.n_chunks);
    let rows = rows_cut(matrix, r.n_chunks, size);
    let row = i * 5 + slot;
    assert(matrix.len() == (n * 5) * row_len) by (nonlinear_arith)
        requires
            matrix.len() == n * 5 * r.n_chunks * 32,
            row_len == r.n_chunks * 32,
    ;
    assert(matrix.len() / (row_len as nat) == n * 5) by {
        vstd::arithmetic::div_mod::lemma_div_multiples_vanish(n * 5, row_len);
        assert(row_len * (n * 5) == (n * 5) * row_len) by (nonlinear_arith);
    }
    assert(rows[row] == row_of(matrix, r.n_chunks, size, row));
    assert forall|j: int| 0 <= j < rows[row].len() implies rows[row][j] == 0 by {
        let idx = row * row_len + j;
        assert(0 <= idx < n * 5 * r.n_chunks * 32) by (nonlinear_arith)
            requires
                idx == row * row_len + j,
                0 <= row < n * 5,
                0 <= j < row_len,
                row_len == r.n_chunks * 32,
        ;
        law_cloak_cancellation(r, all, idx);
        vstd::arithmetic::div_mod::lemma_fundamental_div_mod_converse(idx, row_len, row, j);
        assert(r.owner(idx) == i);
    }
}

/// The outputs of all participants among the first `m` rows, participant
/// by participant, each participant's in their order.
pub open spec fn outputs_in_order(utxos: Seq<Seq<Seq<u8>>>, m: nat) -> Seq<Seq<u8>>
    decreases m,
{
    if m == 0 {
        Seq::empty()
    } else {
        let k = (m - 1) as int;
        let rest = outputs_in_order(utxos, (m - 1) as nat);
        if k % 5 < utxos[k / 5].len() {
            rest.push(utxos[k / 5][k % 5])
        } else {
            rest
        }
    }
}

proof fn lemma_kept_rows(
    rows: Seq<Seq<u8>>,
    parsed: Seq<bool>,
    utxos: Seq<Seq<Seq<u8>>>,
    m: nat,
)
    requires
        m <= rows.len(),
        parsed.len() == rows.len(),
        forall|k: int| 0 <= k < rows.len() && !is_zero_row(rows[k]) ==> #[trigger] parsed[k],
        forall|k: int|
            0 <= k < rows.len() ==> (if k % 5 < utxos[k / 5].len() {
                #[trigger] rows[k] == utxos[k / 5][k % 5] && !is_zero_row(rows[k])
            } else {
                is_zero_row(rows[k])
            }),
    ensures
        keep_parsed(rows.take(m as int), parsed) == outputs_in_order(utxos, m),
    decreases m,
{
    if m == 0 {
        assert(rows.take(0) =~= Seq::<Seq<u8>>::empty());
    } else {
        lemma_kept_rows(rows, parsed, utxos, (m - 1) as nat);
        let head = rows.take(m as int);
        assert(head.drop_last() =~= rows.take(m - 1));
        assert(head.last() == rows[m - 1]);
        assert(!is_zero_row(rows[m - 1]) ==> parsed[m - 1]);
    }
}

/// The joint transaction of an honest round holds the outputs of all, and
/// nothing else. Let the session stand where all have opened and nobody
/// has left since the matrix was made; let each participant for whom the
/// matrix was made have opened the matrix that it makes of its outputs,
/// each of the width that rows are cut to and none of them all zero; and
/// let every row that is not all zero be told to be an output, whatever
/// is told of the others. Then the outputs that stay are the outputs of
/// all participants, participant by participant in order, each once: no
/// row of padding gives an output, and nothing else appears.
pub proof fn law_session_outputs(s: State, r: HonestRound, parsed: Seq<bool>)
    requires
        inv(s),
        s.phase == MessageState::CloakedVals,
        s.participants.len() >= 3,
        same_members(s.participants, s.commit_phase),
        s.excl_participants.len() == 0,
        r.well_formed(),
        r.participants == s.commit_phase,
        r.n_chunks == chunks_of(s),
        r.opened_by(s.contributions),
        forall|i: int, slot: int|
            0 <= i < r.participants.len() && 0 <= slot < 5 && slot < r.utxos[i].len() ==> (
            #[trigger] r.utxos[i][slot]).len() == size_of(s) && !is_zero_row(r.utxos[i][slot]),
        parsed.len() == make_supertransaction(s).state.trans.outputs.len(),
        forall|k: int|
            0 <= k < parsed.len() && !is_zero_row(
                make_supertransaction(s).state.trans.outputs[k],
            ) ==> #[trigger] parsed[k],
    ensures
        make_supertransaction(s).state.trans.outputs.len() == 5 * r.participants.len(),
        keep_parsed(make_supertransaction(s).state.trans.outputs, parsed) == outputs_in_order(
            r.utxos,
            5 * r.participants.len(),
        ),
{
    let n = s.commit_phase.len() as int;
    let n_chunks = chunks_of(s);
    let size = size_of(s);
    let row_len = n_chunks * 32;
    let ours = decoded(s.participants, s.contributions, s.excl_participants, n, n_chunks);
    let theirs = decoded(r.participants, s.contributions, Seq::empty(), n, n_chunks);
    assert(s.excl_participants =~= Seq::<ParticipantID>::empty());
    assert(ours =~= theirs) by {
        assert forall|idx: int| 0 <= idx < ours.len() implies ours[idx] == theirs[idx] by {
            lemma_decoded_any_order(
                s.participants,
                r.participants,
                s.contributions,
                s.excl_participants,
                n_chunks,
                idx,
            );
        }
    }
    let rows = rows_cut(theirs, n_chunks, size);
    assert(make_supertransaction(s).state.trans.outputs == rows);
    assert(theirs.len() == (n * 5) * row_len) by (nonlinear_arith)
        requires
            theirs.len() == n * 5 * n_chunks * 32,
            row_len == n_chunks * 32,
    ;
    assert(theirs.len() / (row_len as nat) == n * 5) by {
        vstd::arithmetic::div_mod::lemma_div_multiples_vanish(n * 5, row_len);
        assert(row_len * (n * 5) == (n * 5) * row_len) by (nonlinear_arith);
    }
    assert(rows.len() == 5 * n);
    assert forall|k: int| 0 <= k < rows.len() implies (if k % 5 < r.utxos[k / 5].len() {
        #[trigger] rows[k] == r.utxos[k / 5][k % 5] && !is_zero_row(rows[k])
    } else {
        is_zero_row(rows[k])
    }) by {
        let i = k / 5;
        let slot = k % 5;
        assert(k == i * 5 + slot);
        if slot < r.utxos[i].len() {
            assert(r.utxos[i][slot].len() == size);
            law_rows_recovered(r, s.contributions, size, i, slot);
        } else {
            law_rows_empty(r, s.contributions, size, i, slot);
        }
    }
    lemma_kept_rows(rows, parsed, r.utxos, rows.len());
    assert(rows.take(rows.len() as int) =~= rows);
}

// ---------------------------------------------------------------------
// The cloaks cancel over scalars too.

/// Participants who each have their cloaks, any two of them the same
/// cloak for each other.
pub open spec fn cloaks_agree(participants: Seq<ParticipantID>, cloaks: Seq<Seq<Cloak>>) -> bool {
    &&& participants.no_duplicates()
    &&& cloaks.len() == participants.len()
    &&& forall|i: int, j: int|
        0 <= i < participants.len() && 0 <= j < participants.len() && i != j ==> {
            &&& (#[trigger] cloak_for(cloaks[i], participants[j])) is Some
            &&& cloak_for(cloaks[i], participants[j]) == cloak_for(cloaks[j], participants[i])
        }
}

/// What the participant at `i` adds for the cloak that it shares with the
/// participant at `j`.
pub open spec fn pair_pad(
    participants: Seq<ParticipantID>,
    cloaks: Seq<Seq<Cloak>>,
    fee: bool,
    i: int,
    j: int,
) -> int {
    signed_pad(
        participants[i],
        participants[j],
        cloak_for(cloaks[i], participants[j])->Some_0,
        fee,
    )
}

/// What the first `m` participants add for the cloaks that they share
/// with the first `l`, all together.
pub open spec fn scalar_pad_total(
    participants: Seq<ParticipantID>,
    cloaks: Seq<Seq<Cloak>>,
    fee: bool,
    m: nat,
    l: nat,
) -> int
    decreases m,
{
    if m == 0 {
        0
    } else {
        scalar_pad_total(participants, cloaks, fee, (m - 1) as nat, l) + scalar_pad_sum(
            participants.take(l as int),
            participants[m - 1],
            cloaks[m - 1],
            fee,
        )
    }
}

/// What the first `m` participants add for the cloak that each shares
/// with the participant at `l`, all together.
pub open spec fn scalar_column(
    participants: Seq<ParticipantID>,
    cloaks: Seq<Seq<Cloak>>,
    fee: bool,
    m: nat,
    l: int,
) -> int
    decreases m,
{
    if m == 0 {
        0
    } else {
        scalar_column(participants, cloaks, fee, (m - 1) as nat, l) + pair_pad(
            participants,
            cloaks,
            fee,
            m - 1,
            l,
        )
    }
}

/// What two participants add for the cloak between them is nothing.
proof fn lemma_pair_cancels(
    participants: Seq<ParticipantID>,
    cloaks: Seq<Seq<Cloak>>,
    fee: bool,
    i: int,
    j: int,
)
    requires
        cloaks_agree(participants, cloaks),
        0 <= i < participants.len(),
        0 <= j < participants.len(),
        i != j,
    ensures
        pair_pad(participants, cloaks, fee, i, j) + pair_pad(participants, cloaks, fee, j, i) == 0,
{
    crate::participant::lemma_rank_injective(participants[i], participants[j]);
    assert(cloak_for(cloaks[i], participants[j]) is Some);
    assert(cloak_for(cloaks[i], participants[j]) == cloak_for(cloaks[j], participants[i]));
}

proof fn lemma_scalar_row(
    participants: Seq<ParticipantID>,
    cloaks: Seq<Seq<Cloak>>,
    fee: bool,
    l: int,
    m: nat,
)
    requires
        cloaks_agree(participants, cloaks),
        0 <= l < participants.len(),
        m <= l,
    ensures
        scalar_pad_sum(participants.take(m as int), participants[l], cloaks[l], fee)
            + scalar_column(participants, cloaks, fee, m, l) == 0,
    decreases m,
{
    if m > 0 {
        lemma_scalar_row(participants, cloaks, fee, l, (m - 1) as nat);
        let list = participants.take(m as int);
        assert(list.drop_last() =~= participants.take(m - 1));
        assert(list.last() == participants[m - 1]);
        assert(cloak_for(cloaks[l], participants[m - 1]) is Some);
        lemma_pair_cancels(participants, cloaks, fee, l, m - 1);
    }
}

proof fn lemma_scalar_grow(
    participants: Seq<ParticipantID>,
    cloaks: Seq<Seq<Cloak>>,
    fee: bool,
    l: int,
    m: nat,
)
    requires
        cloaks_agree(participants, cloaks),
        0 <= l < participants.len(),
        m <= l,
    ensures
        scalar_pad_total(participants, cloaks, fee, m, (l + 1) as nat) == scalar_pad_total(
            participants,
            cloaks,
            fee,
            m,
            l as nat,
        ) + scalar_column(participants, cloaks, fee, m, l),
    decreases m,
{
    if m > 0 {
        lemma_scalar_grow(participants, cloaks, fee, l, (m - 1) as nat);
        let wide = participants.take(l + 1);
        assert(wide.drop_last() =~= participants.take(l));
        assert(wide.last() == participants[l]);
        assert(cloak_for(cloaks[m - 1], participants[l]) is Some);
    }
}

/// Among participants who hold the same cloak pair by pair, what all add
/// for their cloaks is nothing.
proof fn lemma_scalar_pads_cancel(
    participants: Seq<ParticipantID>,
    cloaks: Seq<Seq<Cloak>>,
    fee: bool,
    k: nat,
)
    requires
        cloaks_agree(participants, cloaks),
        k <= participants.len(),
    ensures
        scalar_pad_total(participants, cloaks, fee, k, k) == 0,
    decreases k,
{
    if k > 0 {
        let l = (k - 1) as int;
        lemma_scalar_pads_cancel(participants, cloaks, fee, l as nat);
        lemma_scalar_grow(participants, cloaks, fee, l, l as nat);
        lemma_scalar_row(participants, cloaks, fee, l, l as nat);
        let wide = participants.take(k as int);
        assert(wide.drop_last() =~= participants.take(l));
        assert(wide.last() == participants[l]);
    }
}

/// The scalars of the first `m`, summed.
pub open spec fn plain_sum(plain: Seq<Scalar>, m: nat) -> int
    decreases m,
{
    if m == 0 {
        0
    } else {
        plain_sum(plain, (m - 1) as nat) + scalar_value(plain[m - 1])
    }
}

/// Each participant has opened its scalar under its cloaks.
pub open spec fn scalars_opened_by(
    participants: Seq<ParticipantID>,
    cloaks: Seq<Seq<Cloak>>,
    plain: Seq<Scalar>,
    all: Seq<ContributionView>,
    fee: bool,
) -> bool {
    &&& plain.len() == participants.len()
    &&& forall|i: int|
        0 <= i < participants.len() ==> {
            &&& (#[trigger] contribution_index(all, participants[i])) < all.len()
            &&& scalar_value(scalar_of(all[contribution_index(all, participants[i])], fee)) == (
            scalar_value(plain[i]) + scalar_pad_sum(
                participants,
                participants[i],
                cloaks[i],
                fee,
            )) % (group_order() as int)
        }
}

/// Sums that stand for the same stay so when each takes one more that
/// stands for the same.
proof fn lemma_mod_step(a: int, v: int, b: int, w: int, q: int)
    requires
        q > 0,
        a % q == b % q,
        v == w % q,
    ensures
        (a + v) % q == (b + w) % q,
{
    vstd::arithmetic::div_mod::lemma_add_mod_noop(a, v, q);
    vstd::arithmetic::div_mod::lemma_add_mod_noop(b, w, q);
    vstd::arithmetic::div_mod::lemma_mod_twice(w, q);
}

proof fn lemma_opened_prefix(
    participants: Seq<ParticipantID>,
    cloaks: Seq<Seq<Cloak>>,
    plain: Seq<Scalar>,
    all: Seq<ContributionView>,
    fee: bool,
    m: nat,
)
    requires
        cloaks_agree(participants, cloaks),
        scalars_opened_by(participants, cloaks, plain, all, fee),
        m <= participants.len(),
    ensures
        opened_sum(participants.take(m as int), all, Seq::empty(), fee) % (group_order() as int)
            == (plain_sum(plain, m) + scalar_pad_total(
            participants,
            cloaks,
            fee,
            m,
            participants.len(),
        )) % (group_order() as int),
    decreases m,
{
    let q = group_order() as int;
    if m > 0 {
        lemma_opened_prefix(participants, cloaks, plain, all, fee, (m - 1) as nat);
        let list = participants.take(m as int);
        assert(list.drop_last() =~= participants.take(m - 1));
        assert(list.last() == participants[m - 1]);
        assert(participants.take(participants.len() as int) =~= participants);
        let p = participants[m - 1];
        let k = contribution_index(all, p);
        assert(k < all.len());
        let a = opened_sum(participants.take(m - 1), all, Seq::empty(), fee);
        let v = scalar_value(scalar_of(all[k], fee)) as int;
        let b = plain_sum(plain, (m - 1) as nat) + scalar_pad_total(
            participants,
            cloaks,
            fee,
            (m - 1) as nat,
            participants.len(),
        );
        let w = scalar_value(plain[m - 1]) + scalar_pad_sum(participants, p, cloaks[m - 1], fee);
        assert(excl_scalar_sum(p, all[k].cloaks, Seq::<ParticipantID>::empty(), fee) == 0);
        assert(opened_sum(list, all, Seq::empty(), fee) == a + v);
        assert(v == w % q);
        assert(plain_sum(plain, m) + scalar_pad_total(
            participants,
            cloaks,
            fee,
            m,
            participants.len(),
        ) == b + w);
        lemma_mod_step(a, v, b, w, q);
    }
}

/// The cloaks cancel over scalars. Let the participants of a round, none
/// of them twice, each open its scalar under cloaks that any two of them
/// hold alike for each other, and let nobody be left out. Then the sum of
/// what they opened stands for the sum of their scalars.
pub proof fn law_scalars_cancel(
    participants: Seq<ParticipantID>,
    cloaks: Seq<Seq<Cloak>>,
    plain: Seq<Scalar>,
    all: Seq<ContributionView>,
    fee: bool,
)
    requires
        cloaks_agree(participants, cloaks),
        scalars_opened_by(participants, cloaks, plain, all, fee),
    ensures
        opened_sum(participants, all, Seq::empty(), fee) % (group_order() as int) == plain_sum(
            plain,
            participants.len(),
        ) % (group_order() as int),
{
    let n = participants.len();
    lemma_opened_prefix(participants, cloaks, plain, all, fee, n);
    lemma_scalar_pads_cancel(participants, cloaks, fee, n);
    assert(participants.take(n as int) =~= participants);
}

/// The cloaks cancel over scalars, in the terms of a session. With the
/// participants of `law_scalars_cancel`, each of whom has opened its
/// scalar as a session cloaks it: what a session opens of their sum is
/// the member of the field that the sum of their scalars stands for.
pub proof fn law_opened_scalar_is_sum(
    participants: Seq<ParticipantID>,
    cloaks: Seq<Seq<Cloak>>,
    plain: Seq<Scalar>,
    all: Seq<ContributionView>,
    fee: bool,
)
    requires
        cloaks_agree(participants, cloaks),
        plain.len() == participants.len(),
        forall|i: int|
            0 <= i < participants.len() ==> {
                &&& (#[trigger] contribution_index(all, participants[i])) < all.len()
                &&& scalar_of(all[contribution_index(all, participants[i])], fee)
                    == encoded_scalar(plain[i], participants, participants[i], cloaks[i], fee)
            },
    ensures
        scalar_value(opened_scalar(participants, all, Seq::empty(), fee)) == plain_sum(
            plain,
            participants.len(),
        ) % (group_order() as int),
{
    let q = group_order() as int;
    assert forall|i: int| 0 <= i < participants.len() implies scalar_value(
        scalar_of(all[contribution_index(all, participants[i])], fee),
    ) == (scalar_value(plain[i]) + scalar_pad_sum(participants, participants[i], cloaks[i], fee))
        % q by {
        let v = (scalar_value(plain[i]) + scalar_pad_sum(
            participants,
            participants[i],
            cloaks[i],
            fee,
        )) % q;
        assert(0 <= v < q);
        crate::scalar::lemma_scalar_with_value(v as nat);
        assert(contribution_index(all, participants[i]) < all.len());
    }
    law_scalars_cancel(participants, cloaks, plain, all, fee);
    let w = opened_sum(participants, all, Seq::empty(), fee) % q;
    assert(0 <= w < q);
    crate::scalar::lemma_scalar_with_value(w as nat);
}

/// What the participant `p` has opened adds to the sum of scalars.
pub open spec fn opened_term(
    all: Seq<ContributionView>,
    excl: Seq<ParticipantID>,
    fee: bool,
    p: ParticipantID,
) -> int {
    let k = contribution_index(all, p);
    if k < all.len() {
        scalar_value(scalar_of(all[k], fee)) - excl_scalar_sum(p, all[k].cloaks, excl, fee)
    } else {
        0
    }
}

proof fn lemma_opened_remove(
    list: Seq<ParticipantID>,
    all: Seq<ContributionView>,
    excl: Seq<ParticipantID>,
    fee: bool,
    k: int,
)
    requires
        0 <= k < list.len(),
    ensures
        opened_sum(list, all, excl, fee) == opened_sum(list.remove(k), all, excl, fee)
            + opened_term(all, excl, fee, list[k]),
    decreases list.len(),
{
    if k == list.len() - 1 {
        assert(list.remove(k) =~= list.drop_last());
    } else {
        let head = list.drop_last();
        lemma_opened_remove(head, all, excl, fee, k);
        let shorter = list.remove(k);
        assert(shorter.drop_last() =~= head.remove(k));
        assert(shorter.last() == list.last());
    }
}

/// The sum of the scalars that participants have opened is the same in
/// whatever order they are gone through.
pub proof fn lemma_opened_any_order(
    a: Seq<ParticipantID>,
    b: Seq<ParticipantID>,
    all: Seq<ContributionView>,
    excl: Seq<ParticipantID>,
    fee: bool,
)
    requires
        a.no_duplicates(),
        b.no_duplicates(),
        same_members(a, b),
    ensures
        opened_sum(a, all, excl, fee) == opened_sum(b, all, excl, fee),
    decreases a.len(),
{
    if a.len() == 0 {
        if b.len() > 0 {
            assert(b.contains(b[0]));
            assert(a.contains(b[0]));
        }
        assert(a =~= b);
    } else {
        let x = a.last();
        assert(a.contains(x)) by {
            assert(a[a.len() - 1] == x);
        }
        assert(b.contains(x));
        let k = choose|k: int| 0 <= k < b.len() && b[k] == x;
        let head = a.drop_last();
        let rest = b.remove(k);
        lemma_drop_one(a, b, k);
        lemma_opened_any_order(head, rest, all, excl, fee);
        lemma_opened_remove(b, all, excl, fee, k);
    }
}

/// Two lists of the same participants, none twice, are so still without
/// the last of the one, taken out of both.
proof fn lemma_drop_one(a: Seq<ParticipantID>, b: Seq<ParticipantID>, k: int)
    requires
        a.no_duplicates(),
        b.no_duplicates(),
        same_members(a, b),
        a.len() > 0,
        0 <= k < b.len(),
        b[k] == a.last(),
    ensures
        a.drop_last().no_duplicates(),
        b.remove(k).no_duplicates(),
        same_members(a.drop_last(), b.remove(k)),
{
    let x = a.last();
    let head = a.drop_last();
    let rest = b.remove(k);
    assert forall|p: ParticipantID| head.contains(p) <==> rest.contains(p) by {
        if head.contains(p) {
            let i = choose|i: int| 0 <= i < head.len() && head[i] == p;
            assert(a[i] == p);
            assert(p != x);
            assert(a.contains(p));
            assert(b.contains(p));
            let j = choose|j: int| 0 <= j < b.len() && b[j] == p;
            if j < k {
                assert(rest[j] == p);
            } else {
                assert(rest[j - 1] == p);
            }
        }
        if rest.contains(p) {
            let j = choose|j: int| 0 <= j < rest.len() && rest[j] == p;
            if j < k {
                assert(b[j] == p);
            } else {
                assert(b[j + 1] == p);
            }
            assert(p != x);
            assert(b.contains(p));
            assert(a.contains(p));
            let i = choose|i: int| 0 <= i < a.len() && a[i] == p;
            assert(head[i] == p);
        }
    }
    assert forall|i: int, j: int| 0 <= i < rest.len() && 0 <= j < rest.len() && i
        != j implies rest[i] != rest[j] by {
        let bi = if i < k {
            i
        } else {
            i + 1
        };
        let bj = if j < k {
            j
        } else {
            j + 1
        };
        assert(rest[i] == b[bi] && rest[j] == b[bj]);
    }
}

/// The scalars of an honest round in a session. Let the session stand
/// where all have opened and nobody has left since the matrix was made,
/// and let each participant for whom the matrix was made have opened its
/// adjustment and its fee as a session cloaks them. Then the adjustment
/// of the joint transaction stands for the sum of their adjustments, and
/// its fee is the sum of their fees, where that sum is a fee.
pub proof fn law_session_scalars(
    s: State,
    cloaks: Seq<Seq<Cloak>>,
    adjustments: Seq<Scalar>,
    fees: Seq<Scalar>,
)
    requires
        inv(s),
        s.phase == MessageState::CloakedVals,
        s.participants.len() >= 3,
        same_members(s.participants, s.commit_phase),
        s.excl_participants.len() == 0,
        cloaks_agree(s.commit_phase, cloaks),
        adjustments.len() == s.commit_phase.len(),
        fees.len() == s.commit_phase.len(),
        forall|i: int|
            0 <= i < s.commit_phase.len() ==> {
                let k = #[trigger] contribution_index(s.contributions, s.commit_phase[i]);
                &&& k < s.contributions.len()
                &&& s.contributions[k].gamma_sum == encoded_scalar(
                    adjustments[i],
                    s.commit_phase,
                    s.commit_phase[i],
                    cloaks[i],
                    false,
                )
                &&& s.contributions[k].fee_sum == encoded_scalar(
                    fees[i],
                    s.commit_phase,
                    s.commit_phase[i],
                    cloaks[i],
                    true,
                )
            },
    ensures
        scalar_value(make_supertransaction(s).state.trans.gamma_adj) == plain_sum(
            adjustments,
            s.commit_phase.len(),
        ) % (group_order() as int),
        0 <= plain_sum(fees, s.commit_phase.len()) <= i64::MAX ==> make_supertransaction(
            s,
        ).state.trans.fee == plain_sum(fees, s.commit_phase.len()),
{
    let list = s.commit_phase;
    let none = Seq::<ParticipantID>::empty();
    assert(s.excl_participants =~= none);
    lemma_opened_any_order(s.participants, list, s.contributions, none, false);
    lemma_opened_any_order(s.participants, list, s.contributions, none, true);
    assert forall|i: int| 0 <= i < list.len() implies {
        &&& (#[trigger] contribution_index(s.contributions, list[i])) < s.contributions.len()
        &&& scalar_of(s.contributions[contribution_index(s.contributions, list[i])], false)
            == encoded_scalar(adjustments[i], list, list[i], cloaks[i], false)
    } by {}
    assert forall|i: int| 0 <= i < list.len() implies {
        &&& (#[trigger] contribution_index(s.contributions, list[i])) < s.contributions.len()
        &&& scalar_of(s.contributions[contribution_index(s.contributions, list[i])], true)
            == encoded_scalar(fees[i], list, list[i], cloaks[i], true)
    } by {}
    law_opened_scalar_is_sum(list, cloaks, adjustments, s.contributions, false);
    law_opened_scalar_is_sum(list, cloaks, fees, s.contributions, true);
    let total = plain_sum(fees, list.len());
    if 0 <= total <= i64::MAX {
        vstd::arithmetic::div_mod::lemma_small_mod(total as nat, group_order());
        let opened = opened_scalar(s.participants, s.contributions, s.excl_participants, true);
        assert(scalar_value(opened) == total);
        vstd::arithmetic::div_mod::lemma_small_mod(scalar_value(opened), group_order());
    }
}

// ---------------------------------------------------------------------
// Sums of scalars: the signature and the adjustment.

/// What the scalars stand for, summed.
pub open spec fn value_sum(all: Seq<Scalar>) -> int
    decreases all.len(),
{
    if all.len() == 0 {
        0
    } else {
        value_sum(all.drop_last()) + scalar_value(all.last())
    }
}

/// The sum of scalars in the field stands for the sum of what they stand
/// for.
pub proof fn lemma_scalar_sum_value(all: Seq<Scalar>)
    ensures
        scalar_value(crate::model::scalar_sum(all)) == value_sum(all) % (group_order() as int),
    decreases all.len(),
{
    if all.len() == 0 {
        crate::scalar::lemma_scalar_with_value(0);
    } else {
        lemma_scalar_sum_value(all.drop_last());
        crate::scalar::lemma_sum_of(crate::model::scalar_sum(all.drop_last()), all.last());
        lemma_mod_back(
            value_sum(all.drop_last()),
            scalar_value(all.last()) as int,
            group_order() as int,
        );
    }
}

/// Signature additivity, for the scalars. Where every participant for
/// whom the matrix was made has sent its part of the signature, the
/// scalar of the signature that the joint transaction is validated under
/// stands for the sum of the scalars of the parts.
pub proof fn law_signature_scalars_add(s: State)
    requires
        all_signed(s.commit_phase, s.signatures),
    ensures
        scalar_value(sign_supertransaction(s).state.trans.sig.u) == value_sum(
            crate::model::sig_scalars(crate::model::collect_sigs(s.commit_phase, s.signatures)),
        ) % (group_order() as int),
{
    lemma_scalar_sum_value(
        crate::model::sig_scalars(crate::model::collect_sigs(s.commit_phase, s.signatures)),
    );
}

/// The adjustment of a session balances the blinding factors: what a
/// session commits to as its adjustment, added to the blinding factors of
/// its fresh outputs, stands for the blinding factors of its inputs.
pub proof fn law_session_adjustment(inputs: Seq<Scalar>, outputs: Seq<Scalar>)
    ensures
        (scalar_value(
            crate::scalar::difference_of(
                crate::model::scalar_sum(inputs),
                crate::model::scalar_sum(outputs),
            ),
        ) + value_sum(outputs)) % (group_order() as int) == value_sum(inputs) % (
        group_order() as int),
{
    let q = group_order() as int;
    let a = crate::model::scalar_sum(inputs);
    let b = crate::model::scalar_sum(outputs);
    lemma_scalar_sum_value(inputs);
    lemma_scalar_sum_value(outputs);
    crate::scalar::lemma_difference_of(a, b);
    let d = scalar_value(crate::scalar::difference_of(a, b)) as int;
    let vi = value_sum(inputs);
    let vo = value_sum(outputs);
    // d stands for vi - vo, so d + vo stands for vi
    lemma_mod_difference(vi, vo, q);
    assert(d == (vi - vo) % q);
    lemma_mod_back(vi - vo, vo, q);
}

/// The difference of what stands for two numbers stands for their
/// difference.
proof fn lemma_mod_difference(a: int, b: int, q: int)
    requires
        q > 0,
    ensures
        ((a % q) - (b % q)) % q == (a - b) % q,
{
    vstd::arithmetic::div_mod::lemma_sub_mod_noop(a, b, q);
}

/// What stands for a difference, with what was taken off added, stands
/// for what it was taken from.
proof fn lemma_mod_back(a: int, b: int, q: int)
    requires
        q > 0,
    ensures
        ((a % q) + b) % q == (a + b) % q,
{
    vstd::arithmetic::div_mod::lemma_add_mod_noop(a, b, q);
    vstd::arithmetic::div_mod::lemma_mod_twice(a, q);
    vstd::arithmetic::div_mod::lemma_add_mod_noop(a % q, b, q);
}

// ---------------------------------------------------------------------
// The session id.

/// Session id agreement. Participants who start from the same session id,
/// in the same round, among the same participants, derive the same
/// session id, in whatever order each of them holds the participants and
/// however often it holds one.
pub proof fn law_session_id_agreement(
    prev: Digest,
    round: u16,
    a: Seq<ParticipantID>,
    b: Seq<ParticipantID>,
)
    requires
        same_members(a, b),
    ensures
        session_id_of(prev, round, a) == session_id_of(prev, round, b),
{
    lemma_canonical_same_members(a, b);
}

/// Two sessions that begin a round from the same session id and the same
/// round counter, among the same participants, begin it under the same
/// session id, and hold the participants in the same order.
pub proof fn law_rounds_agree(s1: State, s2: State)
    requires
        s1.session_id == s2.session_id,
        s1.round == s2.round,
        same_members(s1.participants, s2.participants),
        s1.participants.len() >= 3,
        s2.participants.len() >= 3,
    ensures
        start(s1).state.session_id == start(s2).state.session_id,
        start(s1).state.participants == start(s2).state.participants,
{
    lemma_canonical_same_members(s1.participants, s2.participants);
    lemma_canonical_exists(s1.participants);
    lemma_canonical_same_members(canonical(s1.participants), s1.participants);
}

// ---------------------------------------------------------------------
// The waiting messages.

/// Whether every waiting message is of a kind that comes after the phase.
pub open spec fn waits_for_later(s: State) -> bool {
    forall|i: int| 0 <= i < s.queue.len() ==> is_ahead(#[trigger] s.queue[i], s.phase)
}

proof fn lemma_keep_ahead(queue: Seq<EnvelopeView>, phase: MessageState)
    ensures
        forall|i: int|
            0 <= i < keep_ahead(queue, phase).len() ==> is_ahead(
                #[trigger] keep_ahead(queue, phase)[i],
                phase,
            ),
    decreases queue.len(),
{
    if queue.len() > 0 {
        lemma_keep_ahead(queue.skip(1), phase);
        let rest = keep_ahead(queue.skip(1), phase);
        let all = keep_ahead(queue, phase);
        assert forall|i: int| 0 <= i < all.len() implies is_ahead(#[trigger] all[i], phase) by {
            if is_ahead(queue[0], phase) {
                if i > 0 {
                    assert(all[i] == rest[i - 1]);
                }
            } else {
                assert(all[i] == rest[i]);
            }
        }
    }
}

proof fn lemma_run_queue_waits(s: State, fuel: nat)
    ensures
        run_queue(s, fuel).outcome is NotReady ==> waits_for_later(run_queue(s, fuel).state),
    decreases fuel,
{
    lemma_keep_ahead(s.queue, s.phase);
    if fuel > 0 {
        let i = first_acceptable(s, s.queue);
        if i < s.queue.len() {
            let e = s.queue[i];
            let st = accept(
                State { queue: s.queue.remove(i), ..s },
                e.from,
                e.payload,
                e.points_valid,
            );
            if st.outcome is NotReady {
                lemma_run_queue_waits(st.state, (fuel - 1) as nat);
            }
        }
    }
}

/// Past messages are discarded. When the waiting messages have been gone
/// through and the session goes on, no message is left that is of the
/// kind of the phase that has come or of a kind before it: every message
/// that still waits is for a phase to come.
pub proof fn law_drained_queue_waits_for_later(s: State)
    ensures
        drain(s).outcome is NotReady ==> waits_for_later(drain(s).state),
{
    lemma_run_queue_waits(s, s.queue.len());
}

/// A message that arrives keeps the queue so: where every waiting message
/// was for a phase to come, and the session goes on, every waiting
/// message is for a phase to come.
pub proof fn law_arrival_keeps_queue(
    s: State,
    from: crate::types::NetworkKey,
    msg: MessageView,
    valid: bool,
)
    requires
        waits_for_later(s),
    ensures
        on_message_received(s, from, msg, valid).outcome is NotReady ==> waits_for_later(
            on_message_received(s, from, msg, valid).state,
        ),
{
    let e = EnvelopeView { from: msg.source, payload: msg.payload, points_valid: valid };
    let st = accept(s, msg.source, msg.payload, valid);
    if st.outcome is NotReady {
        law_drained_queue_waits_for_later(st.state);
    }
    let grown = s.queue.push(e);
    assert forall|i: int| 0 <= i < grown.len() && is_ahead(e, s.phase) implies is_ahead(
        #[trigger] grown[i],
        s.phase,
    ) by {
        if i < s.queue.len() {
            assert(grown[i] == s.queue[i]);
        }
    }
}

// ---------------------------------------------------------------------
// Retries.

/// From `s` to `t` the pool is the same, and no round has begun or one
/// with fewer participants than the round of `s` began with.
pub open spec fn no_larger_round(s: State, t: State) -> bool {
    &&& t.first_count == s.first_count
    &&& ((t.round == s.round && t.round_size == s.round_size) || t.round_size < s.round_size)
}

/// A round that begins after another begins with fewer participants.
proof fn lemma_start_smaller(s: State)
    requires
        inv(s),
        s.participants.len() < s.round_size,
    ensures
        no_larger_round(s, start(s).state),
        start(s).outcome is NotReady ==> start(s).state.round_size < s.round_size,
{
    lemma_canonical_exists(s.participants);
}

proof fn lemma_advance_smaller(s: State, kind: MessageState)
    requires
        between(s),
        s.phase == kind,
    ensures
        no_larger_round(s, advance(s, kind).state),
        !(advance(s, kind).outcome is Ready),
{
    match kind {
        MessageState::CloakedVals => {
            if s.participants.len() >= 3 && !same_members(s.participants, s.commit_phase) {
                lemma_dropout_shrinks(s);
                lemma_start_smaller(s);
            }
        },
        MessageState::Signature => {
            if !all_signed(s.commit_phase, s.signatures) {
                lemma_unsigned_shrinks(s);
                lemma_start_smaller(s);
            }
        },
        MessageState::SecretKeying => {
            if !same_members(s.participants, s.commit_phase) {
                lemma_dropout_shrinks(s);
                lemma_start_smaller(s);
            }
        },
        _ => {},
    }
}

proof fn lemma_accept_smaller(s: State, from: ParticipantID, payload: PayloadView, valid: bool)
    requires
        inv(s),
        acceptable(s, EnvelopeView { from, payload, points_valid: valid }),
    ensures
        no_larger_round(s, accept(s, from, payload, valid).state),
        !(accept(s, from, payload, valid).outcome is Ready),
{
    lemma_recorded_inv(s, from, payload, valid);
    let t = recorded(s, from, payload, valid);
    assert(t.round == s.round && t.round_size == s.round_size && t.first_count == s.first_count);
    if keeps(s, from, payload, valid) && t.pending.len() == 0 {
        lemma_advance_smaller(idle(t), s.msg_state);
    }
}

proof fn lemma_run_queue_smaller(s: State, fuel: nat)
    requires
        inv(s),
    ensures
        no_larger_round(s, run_queue(s, fuel).state),
        !(run_queue(s, fuel).outcome is Ready),
    decreases fuel,
{
    if fuel > 0 {
        lemma_first_acceptable(s, s.queue);
        let i = first_acceptable(s, s.queue);
        if i < s.queue.len() {
            let e = s.queue[i];
            let s1 = State { queue: s.queue.remove(i), ..s };
            lemma_queue_inv(s, s.queue.remove(i));
            assert(acceptable(s1, e));
            lemma_accept_inv(s1, e.from, e.payload, e.points_valid);
            lemma_accept_smaller(s1, e.from, e.payload, e.points_valid);
            let st = accept(s1, e.from, e.payload, e.points_valid);
            if st.outcome is NotReady {
                lemma_run_queue_smaller(st.state, (fuel - 1) as nat);
            }
        }
    }
}

proof fn lemma_then_drain_smaller(s: State, st: Step)
    requires
        inv(st.state),
        no_larger_round(s, st.state),
        !(st.outcome is Ready),
    ensures
        no_larger_round(s, then_drain(st).state),
        !(then_drain(st).outcome is Ready),
{
    lemma_run_queue_smaller(st.state, st.state.queue.len());
}

/// Monotone retry, when the timer runs out: whatever follows, the round
/// goes on, or one begins with fewer participants than it began with.
pub proof fn law_retry_on_timer(s: State)
    requires
        inv(s),
    ensures
        no_larger_round(s, handle_timer(s).state),
{
    if s.msg_state != MessageState::Idle {
        let u = idle(s);
        assert(between(u));
        lemma_advance_inv(u, s.msg_state);
        lemma_advance_smaller(u, s.msg_state);
        lemma_then_drain_smaller(s, advance(u, s.msg_state));
    }
}

/// Monotone retry, when a message arrives: whatever follows, the round
/// goes on, or one begins with fewer participants than it began with.
pub proof fn law_retry_on_message(s: State, from: NetworkKey, msg: MessageView, valid: bool)
    requires
        inv(s),
    ensures
        no_larger_round(s, on_message_received(s, from, msg, valid).state),
{
    let e = EnvelopeView { from: msg.source, payload: msg.payload, points_valid: valid };
    if s.poll_state != PoolState::PoolFormed || msg.source.pkey != from || msg.destination != s.me
        || msg.sid != s.session_id {
    } else if acceptable(s, e) {
        lemma_accept_inv(s, msg.source, msg.payload, valid);
        lemma_accept_smaller(s, msg.source, msg.payload, valid);
        lemma_then_drain_smaller(s, accept(s, msg.source, msg.payload, valid));
    } else {
    }
}

/// Monotone retry, when outside work is done: after the keys of the
/// round, the material of the commitment, the signed transaction, or a
/// validation that failed, the round goes on, or one begins with fewer
/// participants than it began with.
pub proof fn law_retry_on_outside_work(
    s: State,
    keys: RoundKeys,
    shared: Seq<KeyEntry>,
    utxos: Seq<Seq<u8>>,
    gammas: Seq<Scalar>,
    parsed: Seq<bool>,
    sig: SchnorrSig,
    v: Validation,
)
    requires
        inv(s),
        first_size(utxos) <= usize::MAX,
    ensures
        no_larger_round(s, on_round_keys(s, keys).state),
        no_larger_round(s, on_commit_material(s, shared, utxos, gammas).state),
        no_larger_round(s, on_supertransaction(s, parsed, sig).state),
        !v.valid ==> no_larger_round(s, on_validation(s, v).state),
{
    if s.awaiting == Awaiting::RoundKeys {
        let t = keys_entered(s, keys);
        lemma_keys_entered_inv(s, keys);
        lemma_then_drain_smaller(s, going(t));
    }
    if s.awaiting == Awaiting::CommitMaterial && matrix_fits(
        s.commit_phase.len() as int,
        settled_chunks(s, utxos) as int,
    ) {
        let t = commit_entered(s, shared, utxos, gammas);
        lemma_commit_entered_inv(s, shared, utxos, gammas);
        lemma_then_drain_smaller(s, going(t));
    }
    if s.awaiting == Awaiting::SuperTransaction {
        let t = signature_entered(s, parsed, sig);
        lemma_signature_entered_inv(s, parsed, sig);
        lemma_then_drain_smaller(s, going(t));
    }
    if s.awaiting == Awaiting::Validation && !v.valid {
        let t = secrets_entered(s);
        lemma_secrets_entered_inv(s);
        lemma_then_drain_smaller(s, going(t));
    }
}

/// Monotone retry, after blame, whatever the checks found: a round that
/// begins anew begins with fewer participants than the last one began
/// with; and where as many would take part again, none begins and the
/// session fails.
pub proof fn law_retry_after_blame(s: State, verdicts: Seq<Verdict>)
    requires
        inv(s),
        s.awaiting == Awaiting::Blame,
    ensures
        on_blame(s, verdicts).outcome is NotReady ==> on_blame(s, verdicts).state.round_size
            < s.round_size,
        on_blame(s, verdicts).outcome == Outcome::Failed(SnowballError::NobodyToBlame) <==> (
        !convicted(verdicts).contains(s.me) && blamed(s, verdicts).participants.len()
            >= s.round_size),
        no_larger_round(s, on_blame(s, verdicts).state),
{
    if !convicted(verdicts).contains(s.me) {
        lemma_blame_excluded_inv(s, verdicts);
        let t = blamed(s, verdicts);
        if t.participants.len() < s.round_size {
            lemma_start_smaller(t);
        }
    }
}

/// The rounds of one pool are bounded by the count that the first began
/// with: no round begins with more participants, and the rounds begun
/// so far and the count that the last began with are together no more
/// than the first count and one. A round begins with three at least, so
/// fewer rounds begin than the first count: a pool of fewer than 65535
/// never brings the counter of rounds to its end.
pub proof fn law_rounds_bounded(s: State)
    requires
        inv(s),
    ensures
        s.round_size <= s.first_count,
        s.first_count < u16::MAX ==> s.round + s.round_size <= s.first_count + 1,
        s.first_count < u16::MAX ==> s.round <= s.first_count && s.round < u16::MAX,
        s.first_count < u16::MAX && s.round >= 1 ==> s.round + 2 <= s.first_count,
{
}

/// The first round of a pool is round one, and the count that it begins
/// with is the first count of the pool.
pub proof fn law_first_round(s: State, session_id: Digest, members: Seq<MemberView>)
    requires
        inv(s),
    ensures
        on_pool_started(s, session_id, members).outcome is NotReady ==> {
            let t = on_pool_started(s, session_id, members).state;
            t.round == 1 && t.round_size == t.first_count && t.first_count
                == t.participants.len()
        },
{
    if listed(members, s.me) {
        let taken = pool_taken(s, session_id, members);
        lemma_canonical_exists(member_ids(kept_members(members, s.me)));
        lemma_canonical_exists(taken.participants);
        crate::participant::lemma_sorted_unique(canonical(taken.participants), taken.participants);
    }
}

/// With each round that begins in a pool of fewer than 65535, the
/// counter of rounds goes up by one.
pub proof fn law_round_is_counted(s: State)
    requires
        inv(s),
        may_begin(s),
        s.first_count < u16::MAX,
    ensures
        start(s).outcome is NotReady ==> start(s).state.round == s.round + 1,
{
    lemma_canonical_exists(s.participants);
}

/// A fault was found in the contribution of `p`.
pub open spec fn faulted(verdicts: Seq<Verdict>, p: ParticipantID) -> bool {
    exists|i: int| 0 <= i < verdicts.len() && (#[trigger] verdicts[i]).id == p && at_fault(verdicts[i])
}

/// Who is convicted: every participant in whose contribution a fault
/// was found.
pub proof fn lemma_convicted(verdicts: Seq<Verdict>, p: ParticipantID)
    ensures
        convicted(verdicts).contains(p) <==> faulted(verdicts, p),
    decreases verdicts.len(),
{
    let all = convicted(verdicts);
    if verdicts.len() == 0 {
        if all.contains(p) {
            let j = choose|j: int| 0 <= j < all.len() && all[j] == p;
        }
    } else {
        let head = verdicts.drop_last();
        let v = verdicts.last();
        let rest = convicted(head);
        lemma_convicted(head, p);
        if all.contains(p) {
            let j = choose|j: int| 0 <= j < all.len() && all[j] == p;
            if j < rest.len() {
                assert(rest[j] == p);
                assert(rest.contains(p));
                let i = choose|i: int|
                    0 <= i < head.len() && (#[trigger] head[i]).id == p && at_fault(head[i]);
                assert(verdicts[i] == head[i]);
            } else {
                assert(verdicts[verdicts.len() - 1] == v);
            }
        }
        if faulted(verdicts, p) {
            let i = choose|i: int|
                0 <= i < verdicts.len() && (#[trigger] verdicts[i]).id == p && at_fault(
                    verdicts[i],
                );
            if i == verdicts.len() - 1 {
                assert(all == rest.push(p));
                assert(all[rest.len() as int] == p);
            } else {
                assert(head[i] == verdicts[i]);
                assert(faulted(head, p));
                let j = choose|j: int| 0 <= j < rest.len() && rest[j] == p;
                assert(all[j] == p);
            }
        }
    }
}

// ---------------------------------------------------------------------
// Blame.

/// Blame soundness. Those who are left out are those in whose
/// contribution a fault was found, all of them and nobody else. Where
/// this participant is one of them the session fails, and only then for
/// that reason; and in the round that begins after blame a participant
/// takes part if and only if it took part before and no fault was found
/// in its contribution.
pub proof fn law_blame_soundness(s: State, verdicts: Seq<Verdict>, p: ParticipantID)
    requires
        inv(s),
        s.awaiting == Awaiting::Blame,
    ensures
        convicted(verdicts).contains(p) <==> faulted(verdicts, p),
        blamed(s, verdicts).participants.contains(p) <==> (s.participants.contains(p) && !faulted(
            verdicts,
            p,
        )),
        on_blame(s, verdicts).outcome == Outcome::Failed(SnowballError::NotInParticipantList)
            <==> faulted(verdicts, s.me),
        on_blame(s, verdicts).outcome is NotReady ==> (on_blame(
            s,
            verdicts,
        ).state.participants.contains(p) <==> (s.participants.contains(p) && !faulted(
            verdicts,
            p,
        ))),
{
    let excl = convicted(verdicts);
    lemma_convicted(verdicts, p);
    lemma_convicted(verdicts, s.me);
    lemma_without_contains(s.participants, excl);
    let left = without(s.participants, excl);
    lemma_canonical_exists(left);
}

} // verus!
