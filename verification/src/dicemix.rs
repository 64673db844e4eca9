//! The cloaked exchange: how a participant hides its rows and scalars
//! under the cloaks it shares with each other participant, and how the
//! sum of all contributions shows them again.

use crate::hashing::{pad_block, pad_block_of, Digest};
use crate::participant::{ParticipantID};
use crate::bytes::Position;
use crate::scalar::{
    digest_scalar_value, from_digest, group_order, scalar_value, zero, Scalar,
};
use vstd::prelude::*;

verus! {

/// Output rows that each participant has in the matrix.
pub const MAX_UTXOS: usize = 5;

/// Bytes in one cell of the matrix.
pub const CHUNK_SIZE: usize = 32;

/// The cloak that a participant shares with `id`.
#[derive(Clone, Copy, Debug, PartialEq, Eq)]
pub struct Cloak {
    pub id: ParticipantID,
    pub key: Digest,
}

/// The cloak kept for `q`: that of the first entry for it.
pub open spec fn cloak_for(cloaks: Seq<Cloak>, q: ParticipantID) -> Option<Digest>
    decreases cloaks.len(),
{
    if cloaks.len() == 0 {
        None
    } else if cloaks[0].id == q {
        Some(cloaks[0].key)
    } else {
        cloak_for(cloaks.skip(1), q)
    }
}

/// The cloak kept for `q`, if there is one.
pub fn find_cloak(cloaks: &Vec<Cloak>, q: &ParticipantID) -> (r: Option<Digest>)
    ensures
        r == cloak_for(cloaks@, *q),
{
    let mut i: usize = 0;
    assert(cloaks@.skip(0) =~= cloaks@);
    while i < cloaks.len()
        invariant
            i <= cloaks.len(),
            cloak_for(cloaks@, *q) == cloak_for(cloaks@.skip(i as int), *q),
        decreases cloaks.len() - i,
    {
        if cloaks[i].id.same(q) {
            return Some(cloaks[i].key);
        }
        assert(cloaks@.skip(i as int).skip(1) =~= cloaks@.skip(i + 1));
        i += 1;
    }
    None
}

/// The byte that the cloak `key` lays over byte `idx` of a matrix whose
/// rows have `n_chunks` cells: byte `idx % 32` of the block of the cell's
/// row and chunk.
pub open spec fn pad_at(key: Digest, n_chunks: int, idx: int) -> u8 {
    pad_block_of(key, ((idx / 32) / n_chunks) as u64, ((idx / 32) % n_chunks) as u64)[idx % 32]
}

/// Bytes in a matrix of `n` participants with `n_chunks` cells in a row.
pub open spec fn matrix_len(n: int, n_chunks: int) -> int {
    n * 5 * n_chunks * 32
}

/// Lays one block over the 32 bytes from `offset` on.
fn xor_block(cells: &mut Vec<u8>, offset: usize, block: &Digest)
    requires
        offset + 32 <= old(cells)@.len(),
    ensures
        final(cells)@.len() == old(cells)@.len(),
        forall|i: int|
            0 <= i < old(cells)@.len() ==> final(cells)@[i] == (if offset <= i < offset + 32 {
                old(cells)@[i] ^ block@[i - offset]
            } else {
                old(cells)@[i]
            }),
{
    let n = cells.len();
    let mut k: usize = 0;
    while k < 32
        invariant
            k <= 32,
            n == cells@.len(),
            offset + 32 <= cells@.len(),
            cells@.len() == old(cells)@.len(),
            forall|i: int|
                0 <= i < cells@.len() ==> cells@[i] == (if offset <= i < offset + k {
                    old(cells)@[i] ^ block@[i - offset]
                } else {
                    old(cells)@[i]
                }),
        decreases 32 - k,
    {
        let b = cells[offset + k] ^ block[k];
        cells.set(offset + k, b);
        k += 1;
    }
}

/// Lays the cloak `key` over the whole matrix.
#[verifier::rlimit(40)]
pub fn xor_pad(cells: &mut Vec<u8>, key: &Digest, n_chunks: usize)
    requires
        0 < n_chunks,
        n_chunks * 32 <= usize::MAX,
        (old(cells)@.len() as int) % (n_chunks * 32) == 0,
    ensures
        final(cells)@.len() == old(cells)@.len(),
        forall|i: int|
            0 <= i < old(cells)@.len() ==> final(cells)@[i] == old(cells)@[i] ^ pad_at(
                *key,
                n_chunks as int,
                i,
            ),
{
    let n = cells.len();
    let blocks = n / 32;
    let mut b: usize = 0;
    assert(cells@.len() % 32 == 0) by {
        vstd::arithmetic::div_mod::lemma_mod_breakdown(cells@.len() as int, 32, n_chunks as int);
    }
    while b < blocks
        invariant
            0 < n_chunks,
            b <= blocks,
            n == cells@.len(),
            blocks * 32 == cells@.len(),
            cells@.len() == old(cells)@.len(),
            forall|i: int|
                0 <= i < cells@.len() ==> cells@[i] == (if i < b * 32 {
                    old(cells)@[i] ^ pad_at(*key, n_chunks as int, i)
                } else {
                    old(cells)@[i]
                }),
        decreases blocks - b,
    {
        let row = b / n_chunks;
        let chunk = b % n_chunks;
        let block = pad_block(key, row as u64, chunk as u64);
        xor_block(cells, b * 32, &block);
        proof {
            assert forall|i: int| 0 <= i < cells@.len() implies cells@[i] == (if i < (b + 1) * 32 {
                old(cells)@[i] ^ pad_at(*key, n_chunks as int, i)
            } else {
                old(cells)@[i]
            }) by {
                if b * 32 <= i < b * 32 + 32 {
                    assert(i / 32 == b);
                    assert(i % 32 == i - b * 32);
                }
            }
        }
        b += 1;
    }
}

/// That a matrix of `n` participants with `n_chunks` cells in a row has a
/// length that this machine can hold.
pub open spec fn matrix_fits(n: int, n_chunks: int) -> bool {
    matrix_len(n, n_chunks) <= usize::MAX
}

/// The sizes of a matrix that has a byte in it: each is within its length.
pub proof fn lemma_matrix_sizes(n: int, n_chunks: int)
    requires
        0 < n,
        0 < n_chunks,
    ensures
        n * 5 <= matrix_len(n, n_chunks),
        n_chunks * 32 <= matrix_len(n, n_chunks),
        matrix_len(n, n_chunks) == (n * 5) * (n_chunks * 32),
{
    assert(n * 5 * n_chunks * 32 == (n * 5) * (n_chunks * 32)) by (nonlinear_arith);
    assert((n * 5) * (n_chunks * 32) >= n * 5) by (nonlinear_arith)
        requires
            0 < n,
            0 < n_chunks,
    ;
    assert((n * 5) * (n_chunks * 32) >= n_chunks * 32) by (nonlinear_arith)
        requires
            0 < n,
            0 < n_chunks,
    ;
}

/// The length of a matrix of `n` participants with `n_chunks` cells in a
/// row, where this machine can hold it.
pub fn matrix_size(n: usize, n_chunks: usize) -> (len: Option<usize>)
    ensures
        len is Some <==> matrix_fits(n as int, n_chunks as int),
        len is Some ==> len->Some_0 == matrix_len(n as int, n_chunks as int),
{
    if n == 0 || n_chunks == 0 {
        assert(matrix_len(n as int, n_chunks as int) == 0) by (nonlinear_arith)
            requires
                n == 0 || n_chunks == 0,
                matrix_len(n as int, n_chunks as int) == n * 5 * n_chunks * 32,
        ;
        return Some(0);
    }
    proof {
        lemma_matrix_sizes(n as int, n_chunks as int);
    }
    match n.checked_mul(5) {
        None => None,
        Some(n_rows) => match n_chunks.checked_mul(32) {
            None => None,
            Some(row_len) => n_rows.checked_mul(row_len),
        },
    }
}

/// The place of the first `p` in `list`, or the length of `list` where
/// there is none.
pub open spec fn position_of(list: Seq<ParticipantID>, p: ParticipantID) -> int
    decreases list.len(),
{
    if list.len() == 0 {
        0
    } else if list[0] == p {
        0
    } else {
        1 + position_of(list.skip(1), p)
    }
}

pub proof fn lemma_position_of(list: Seq<ParticipantID>, p: ParticipantID)
    ensures
        0 <= position_of(list, p) <= list.len(),
        position_of(list, p) < list.len() <==> list.contains(p),
        position_of(list, p) < list.len() ==> list[position_of(list, p)] == p,
        forall|j: int| 0 <= j < position_of(list, p) ==> list[j] != p,
    decreases list.len(),
{
    if list.len() == 0 {
    } else if list[0] == p {
    } else {
        let rest = list.skip(1);
        lemma_position_of(rest, p);
        if rest.contains(p) {
            let k = choose|k: int| 0 <= k < rest.len() && rest[k] == p;
            assert(list[k + 1] == p);
        }
        if list.contains(p) {
            let k = choose|k: int| 0 <= k < list.len() && list[k] == p;
            assert(rest[k - 1] == p);
        }
        assert forall|j: int| 0 <= j < position_of(list, p) implies list[j] != p by {
            if j > 0 {
                assert(list[j] == rest[j - 1]);
            }
        }
    }
}

/// The place of the first `p` in `list`, or the length of `list`.
pub fn position(list: &Vec<ParticipantID>, p: &ParticipantID) -> (i: usize)
    ensures
        i == position_of(list@, *p),
{
    let mut i: usize = 0;
    assert(list@.skip(0) =~= list@);
    while i < list.len()
        invariant
            i <= list.len(),
            position_of(list@, *p) == i + position_of(list@.skip(i as int), *p),
        decreases list.len() - i,
    {
        if list[i].same(p) {
            return i;
        }
        assert(list@.skip(i as int).skip(1) =~= list@.skip(i + 1));
        i += 1;
    }
    i
}

/// The rows as byte strings.
pub open spec fn rows_of(rows: Seq<Vec<u8>>) -> Seq<Seq<u8>> {
    Seq::new(rows.len(), |i: int| rows[i]@)
}

/// Byte `idx` of the matrix before it is cloaked. The participant at place
/// `stripe` has the rows from `stripe * 5` on, one for each of its outputs,
/// each cut or filled with zeros to the width of a row. Every other byte is
/// zero.
pub open spec fn plain_at(utxos: Seq<Seq<u8>>, stripe: int, n_chunks: int, idx: int) -> u8 {
    let row = idx / (n_chunks * 32);
    let col = idx % (n_chunks * 32);
    let slot = row - stripe * 5;
    if 0 <= slot < 5 && slot < utxos.len() && col < utxos[slot].len() {
        utxos[slot][col]
    } else {
        0
    }
}

/// What the cloaks that `me` shares with each other participant lay over
/// byte `idx`, all together.
pub open spec fn pad_sum_at(
    others: Seq<ParticipantID>,
    me: ParticipantID,
    cloaks: Seq<Cloak>,
    n_chunks: int,
    idx: int,
) -> u8
    decreases others.len(),
{
    if others.len() == 0 {
        0
    } else {
        let rest = pad_sum_at(others.drop_last(), me, cloaks, n_chunks, idx);
        let q = others.last();
        if q != me && cloak_for(cloaks, q) is Some {
            rest ^ pad_at(cloak_for(cloaks, q)->Some_0, n_chunks, idx)
        } else {
            rest
        }
    }
}

/// Byte `idx` of the matrix that `me` sends.
pub open spec fn encoded_at(
    participants: Seq<ParticipantID>,
    utxos: Seq<Seq<u8>>,
    me: ParticipantID,
    cloaks: Seq<Cloak>,
    n_chunks: int,
    idx: int,
) -> u8 {
    plain_at(utxos, position_of(participants, me), n_chunks, idx) ^ pad_sum_at(
        participants,
        me,
        cloaks,
        n_chunks,
        idx,
    )
}

/// The matrix that `me` sends: its outputs in its own rows, zeros in all
/// other rows, and over every byte the cloak that it shares with each other
/// participant.
pub open spec fn encoded(
    participants: Seq<ParticipantID>,
    utxos: Seq<Seq<u8>>,
    me: ParticipantID,
    cloaks: Seq<Cloak>,
    n_chunks: int,
) -> Seq<u8> {
    Seq::new(
        matrix_len(participants.len() as int, n_chunks) as nat,
        |idx: int| encoded_at(participants, utxos, me, cloaks, n_chunks, idx),
    )
}

/// The matrix before it is cloaked.
#[verifier::rlimit(40)]
fn plain_matrix(n: usize, stripe: usize, my_utxos: &Vec<Vec<u8>>, n_chunks: usize) -> (cells: Vec<u8>)
    requires
        matrix_fits(n as int, n_chunks as int),
        stripe <= n,
    ensures
        cells@.len() == matrix_len(n as int, n_chunks as int),
        forall|idx: int|
            0 <= idx < cells@.len() ==> cells@[idx] == plain_at(
                rows_of(my_utxos@),
                stripe as int,
                n_chunks as int,
                idx,
            ),
{
    let mut cells: Vec<u8> = Vec::new();
    if n == 0 || n_chunks == 0 {
        assert(matrix_len(n as int, n_chunks as int) == 0) by (nonlinear_arith)
            requires
                n == 0 || n_chunks == 0,
                matrix_len(n as int, n_chunks as int) == n * 5 * n_chunks * 32,
        ;
        return cells;
    }
    proof {
        lemma_matrix_sizes(n as int, n_chunks as int);
    }
    let row_len: usize = n_chunks * 32;
    let n_rows: usize = n * 5;
    let total: usize = n_rows * row_len;
    assert(total == n * 5 * row_len);
    cells.resize(total, 0u8);
    if stripe >= n {
        proof {
            assert forall|idx: int| 0 <= idx < cells@.len() implies cells@[idx] == plain_at(
                rows_of(my_utxos@),
                stripe as int,
                n_chunks as int,
                idx,
            ) by {
                if row_len > 0 {
                    let row = idx / (row_len as int);
                    assert(row < n * 5) by (nonlinear_arith)
                        requires
                            row == idx / (row_len as int),
                            0 <= idx < n * 5 * row_len,
                            row_len > 0,
                    ;
                }
            }
        }
        return cells;
    }
    let mut slot: usize = 0;
    while slot < 5 && slot < my_utxos.len()
        invariant
            slot <= 5,
            slot <= my_utxos.len(),
            stripe < n,
            n * 5 <= usize::MAX,
            0 < row_len == n_chunks * 32,
            total == n * 5 * row_len,
            cells@.len() == total,
            forall|idx: int|
                0 <= idx < cells@.len() ==> cells@[idx] == (if idx / (row_len as int) < stripe * 5
                    + slot {
                    plain_at(rows_of(my_utxos@), stripe as int, n_chunks as int, idx)
                } else {
                    0
                }),
        decreases 5 - slot,
    {
        assert(stripe * 5 + slot < n * 5);
        let row: usize = stripe * 5 + slot;
        assert((row + 1) * row_len <= total) by (nonlinear_arith)
            requires
                row < n * 5,
                total == n * 5 * row_len,
        ;
        assert(row * row_len + row_len == (row + 1) * row_len) by (nonlinear_arith);
        let base: usize = row * row_len;
        let utxo = &my_utxos[slot];
        let ghost entry = cells@;
        let mut j: usize = 0;
        while j < row_len && j < utxo.len()
            invariant
                j <= row_len,
                j <= utxo@.len(),
                base == row * row_len,
                base + row_len <= total,
                cells@.len() == total,
                forall|idx: int|
                    0 <= idx < cells@.len() ==> cells@[idx] == (if base <= idx < base + j {
                        utxo@[idx - base]
                    } else {
                        entry[idx]
                    }),
            decreases row_len - j,
        {
            cells.set(base + j, utxo[j]);
            j += 1;
        }
        proof {
            assert(rows_of(my_utxos@)[slot as int] == utxo@);
            assert forall|idx: int| 0 <= idx < cells@.len() implies cells@[idx] == (if idx / (
            row_len as int) < stripe * 5 + slot + 1 {
                plain_at(rows_of(my_utxos@), stripe as int, n_chunks as int, idx)
            } else {
                0
            }) by {
                let r = idx / (row_len as int);
                let c = idx % (row_len as int);
                vstd::arithmetic::div_mod::lemma_fundamental_div_mod(idx, row_len as int);
                if base <= idx < base + row_len {
                    vstd::arithmetic::div_mod::lemma_fundamental_div_mod_converse(
                        idx,
                        row_len as int,
                        row as int,
                        idx - base,
                    );
                } else if idx < base {
                    assert(r < row) by (nonlinear_arith)
                        requires
                            idx < row * row_len,
                            idx == row_len * r + c,
                            0 <= c,
                            row_len > 0,
                    ;
                } else {
                    assert(r > row) by (nonlinear_arith)
                        requires
                            idx >= row * row_len + row_len,
                            idx == row_len * r + c,
                            c < row_len,
                            row_len > 0,
                    ;
                }
            }
        }
        slot += 1;
    }
    cells
}

/// Lays over a matrix the cloak that `my_id` shares with each other
/// participant. Laid a second time, they are gone.
#[verifier::rlimit(40)]
pub fn lay_pads(
    cells: &mut Vec<u8>,
    participants: &Vec<ParticipantID>,
    my_id: &ParticipantID,
    k_cloaks: &Vec<Cloak>,
    n_chunks: usize,
)
    requires
        0 < n_chunks,
        old(cells)@.len() == matrix_len(participants@.len() as int, n_chunks as int),
    ensures
        final(cells)@.len() == old(cells)@.len(),
        forall|idx: int|
            0 <= idx < old(cells)@.len() ==> final(cells)@[idx] == old(cells)@[idx] ^ pad_sum_at(
                participants@,
                *my_id,
                k_cloaks@,
                n_chunks as int,
                idx,
            ),
{
    let n = participants.len();
    let total = cells.len();
    let ghost plain = cells@;
    let mut i: usize = 0;
    if n == 0 {
        assert forall|idx: int| 0 <= idx < cells@.len() implies cells@[idx] == cells@[idx] ^ 0u8 by {
            let b = cells@[idx];
            assert(b == b ^ 0u8) by (bit_vector);
        }
        return ;
    }
    proof {
        lemma_matrix_sizes(n as int, n_chunks as int);
    }
    assert(participants@.take(0) =~= Seq::<ParticipantID>::empty());
    assert forall|idx: int| 0 <= idx < cells@.len() implies cells@[idx] == plain[idx] ^ 0u8 by {
        let b = plain[idx];
        assert(b == b ^ 0u8) by (bit_vector);
    }
    assert((cells@.len() as int) % (n_chunks * 32) == 0) by {
        vstd::arithmetic::div_mod::lemma_mod_multiples_basic(
            (n * 5) as int,
            (n_chunks * 32) as int,
        );
    }
    while i < n
        invariant
            n == participants@.len(),
            i <= n,
            0 < n_chunks,
            n_chunks * 32 <= usize::MAX,
            cells@.len() == plain.len(),
            (cells@.len() as int) % (n_chunks * 32) == 0,
            forall|idx: int|
                0 <= idx < cells@.len() ==> cells@[idx] == plain[idx] ^ pad_sum_at(
                    participants@.take(i as int),
                    *my_id,
                    k_cloaks@,
                    n_chunks as int,
                    idx,
                ),
        decreases n - i,
    {
        let q = participants[i];
        proof {
            assert(participants@.take(i + 1).drop_last() =~= participants@.take(i as int));
            assert(participants@.take(i + 1).last() == q);
        }
        if !q.same(my_id) {
            match find_cloak(k_cloaks, &q) {
                Some(key) => {
                    xor_pad(cells, &key, n_chunks);
                    proof {
                        assert forall|idx: int| 0 <= idx < cells@.len() implies cells@[idx]
                            == plain[idx] ^ pad_sum_at(
                            participants@.take(i + 1),
                            *my_id,
                            k_cloaks@,
                            n_chunks as int,
                            idx,
                        ) by {
                            let a = plain[idx];
                            let b = pad_sum_at(
                                participants@.take(i as int),
                                *my_id,
                                k_cloaks@,
                                n_chunks as int,
                                idx,
                            );
                            let c = pad_at(key, n_chunks as int, idx);
                            assert((a ^ b) ^ c == a ^ (b ^ c)) by (bit_vector);
                        }
                    }
                },
                None => {},
            }
        }
        i += 1;
    }
    assert(participants@.take(n as int) =~= participants@);
}

/// The matrix that `my_id` sends in a round among `participants`, whose
/// rows have `n_chunks` cells.
#[verifier::rlimit(40)]
pub fn encode_matrix(
    participants: &Vec<ParticipantID>,
    my_utxos: &Vec<Vec<u8>>,
    my_id: &ParticipantID,
    k_cloaks: &Vec<Cloak>,
    n_chunks: usize,
) -> (matrix: Vec<u8>)
    requires
        matrix_fits(participants@.len() as int, n_chunks as int),
    ensures
        matrix@ == encoded(
            participants@,
            rows_of(my_utxos@),
            *my_id,
            k_cloaks@,
            n_chunks as int,
        ),
{
    let n = participants.len();
    let stripe = position(participants, my_id);
    proof {
        lemma_position_of(participants@, *my_id);
    }
    let mut cells = plain_matrix(n, stripe, my_utxos, n_chunks);
    if n_chunks > 0 {
        lay_pads(&mut cells, participants, my_id, k_cloaks, n_chunks);
    }
    proof {
        let want = encoded(participants@, rows_of(my_utxos@), *my_id, k_cloaks@, n_chunks as int);
        assert(cells@.len() == want.len());
        assert forall|idx: int| 0 <= idx < cells@.len() implies cells@[idx] == want[idx] by {
            if n_chunks == 0 {
                assert(cells@.len() == 0) by (nonlinear_arith)
                    requires
                        cells@.len() == n * 5 * n_chunks * 32,
                        n_chunks == 0,
                ;
            }
        }
        assert(cells@ =~= want);
    }
    cells
}


/// What one participant opens after the commitments: its cloaked matrix,
/// its cloaked adjustment, its cloaked fee, and the cloaks that it shared
/// with the participants who have left.
#[derive(Clone, Debug)]
pub struct Contribution {
    pub id: ParticipantID,
    pub matrix: Vec<u8>,
    pub gamma_sum: Scalar,
    pub fee_sum: Scalar,
    pub cloaks: Vec<Cloak>,
}

/// A contribution as plain values.
#[verifier::ext_equal]
pub struct ContributionView {
    pub id: ParticipantID,
    pub matrix: Seq<u8>,
    pub gamma_sum: Scalar,
    pub fee_sum: Scalar,
    pub cloaks: Seq<Cloak>,
}

impl View for Contribution {
    type V = ContributionView;

    open spec fn view(&self) -> ContributionView {
        ContributionView {
            id: self.id,
            matrix: self.matrix@,
            gamma_sum: self.gamma_sum,
            fee_sum: self.fee_sum,
            cloaks: self.cloaks@,
        }
    }
}

/// The contributions as plain values.
pub open spec fn contribution_views(all: Seq<Contribution>) -> Seq<ContributionView> {
    Seq::new(all.len(), |i: int| all[i]@)
}

/// The place of the first contribution of `p`, or the length of `all`.
pub open spec fn contribution_index(all: Seq<ContributionView>, p: ParticipantID) -> int
    decreases all.len(),
{
    if all.len() == 0 {
        0
    } else if all[0].id == p {
        0
    } else {
        1 + contribution_index(all.skip(1), p)
    }
}

pub proof fn lemma_contribution_index(all: Seq<ContributionView>, p: ParticipantID)
    ensures
        0 <= contribution_index(all, p) <= all.len(),
        contribution_index(all, p) < all.len() ==> all[contribution_index(all, p)].id == p,
        forall|j: int| 0 <= j < contribution_index(all, p) ==> all[j].id != p,
    decreases all.len(),
{
    if all.len() == 0 {
    } else if all[0].id == p {
    } else {
        let rest = all.skip(1);
        lemma_contribution_index(rest, p);
        assert forall|j: int| 0 <= j < contribution_index(all, p) implies all[j].id != p by {
            if j > 0 {
                assert(all[j] == rest[j - 1]);
            }
        }
    }
}

/// The place of the first contribution of `p`, or the length of `all`.
pub fn find_contribution(all: &Vec<Contribution>, p: &ParticipantID) -> (i: usize)
    ensures
        i == contribution_index(contribution_views(all@), *p),
        i <= all@.len(),
{
    let ghost views = contribution_views(all@);
    let mut i: usize = 0;
    assert(views.skip(0) =~= views);
    while i < all.len()
        invariant
            i <= all.len(),
            views == contribution_views(all@),
            contribution_index(views, *p) == i + contribution_index(views.skip(i as int), *p),
        decreases all.len() - i,
    {
        if all[i].id.same(p) {
            return i;
        }
        assert(views.skip(i as int).skip(1) =~= views.skip(i + 1));
        i += 1;
    }
    i
}

/// Byte `idx` of `m`, or zero past its end.
pub open spec fn byte_or_zero(m: Seq<u8>, idx: int) -> u8 {
    if 0 <= idx < m.len() {
        m[idx]
    } else {
        0
    }
}

/// What the cloaks of `cloaks` toward the participants of `excl` lay over
/// byte `idx`, all together.
pub open spec fn excl_pad_at(cloaks: Seq<Cloak>, excl: Seq<ParticipantID>, n_chunks: int, idx: int) -> u8
    decreases excl.len(),
{
    if excl.len() == 0 {
        0
    } else {
        let rest = excl_pad_at(cloaks, excl.drop_last(), n_chunks, idx);
        if cloak_for(cloaks, excl.last()) is Some {
            rest ^ pad_at(cloak_for(cloaks, excl.last())->Some_0, n_chunks, idx)
        } else {
            rest
        }
    }
}

/// Byte `idx` of what the participants of `list` have contributed, summed,
/// with the cloaks toward the participants of `excl` taken off.
pub open spec fn decoded_at(
    list: Seq<ParticipantID>,
    all: Seq<ContributionView>,
    excl: Seq<ParticipantID>,
    n_chunks: int,
    idx: int,
) -> u8
    decreases list.len(),
{
    if list.len() == 0 {
        0
    } else {
        let rest = decoded_at(list.drop_last(), all, excl, n_chunks, idx);
        let k = contribution_index(all, list.last());
        if k < all.len() {
            rest ^ byte_or_zero(all[k].matrix, idx) ^ excl_pad_at(
                all[k].cloaks,
                excl,
                n_chunks,
                idx,
            )
        } else {
            rest
        }
    }
}

/// The sum of the matrices of `participants`, with the cloaks toward the
/// participants of `excl` taken off: a matrix laid out for `n`
/// participants.
pub open spec fn decoded(
    participants: Seq<ParticipantID>,
    all: Seq<ContributionView>,
    excl: Seq<ParticipantID>,
    n: int,
    n_chunks: int,
) -> Seq<u8> {
    Seq::new(
        matrix_len(n, n_chunks) as nat,
        |idx: int| decoded_at(participants, all, excl, n_chunks, idx),
    )
}

/// Adds the bytes of `m` to those of `acc`, as far as `m` goes.
fn xor_into(acc: &mut Vec<u8>, m: &Vec<u8>)
    ensures
        final(acc)@.len() == old(acc)@.len(),
        forall|i: int|
            0 <= i < old(acc)@.len() ==> final(acc)@[i] == old(acc)@[i] ^ byte_or_zero(m@, i),
{
    let n = acc.len();
    let mut i: usize = 0;
    while i < n
        invariant
            i <= n,
            n == acc@.len(),
            n == old(acc)@.len(),
            forall|j: int|
                0 <= j < n ==> acc@[j] == (if j < i {
                    old(acc)@[j] ^ byte_or_zero(m@, j)
                } else {
                    old(acc)@[j]
                }),
        decreases n - i,
    {
        let a = acc[i];
        if i < m.len() {
            acc.set(i, a ^ m[i]);
        } else {
            assert(a == a ^ 0u8) by (bit_vector);
        }
        i += 1;
    }
}

/// The sum of the matrices that `participants` have opened, with the cloaks
/// toward the participants of `excl` taken off. The matrix is laid out for
/// `n` participants and `n_chunks` cells in a row.
#[verifier::rlimit(40)]
pub fn dc_decode(
    participants: &Vec<ParticipantID>,
    all: &Vec<Contribution>,
    excl: &Vec<ParticipantID>,
    n: usize,
    n_chunks: usize,
) -> (out: Vec<u8>)
    requires
        matrix_fits(n as int, n_chunks as int),
    ensures
        out@ == decoded(
            participants@,
            contribution_views(all@),
            excl@,
            n as int,
            n_chunks as int,
        ),
{
    let ghost views = contribution_views(all@);
    let mut acc: Vec<u8> = Vec::new();
    if n == 0 || n_chunks == 0 {
        assert(matrix_len(n as int, n_chunks as int) == 0) by (nonlinear_arith)
            requires
                n == 0 || n_chunks == 0,
                matrix_len(n as int, n_chunks as int) == n * 5 * n_chunks * 32,
        ;
        assert(acc@ =~= decoded(participants@, views, excl@, n as int, n_chunks as int));
        return acc;
    }
    proof {
        lemma_matrix_sizes(n as int, n_chunks as int);
    }
    let row_len: usize = n_chunks * 32;
    let n_rows: usize = n * 5;
    let total: usize = n_rows * row_len;
    acc.resize(total, 0u8);
    proof {
        vstd::arithmetic::div_mod::lemma_mod_multiples_basic(
            (n * 5) as int,
            (n_chunks * 32) as int,
        );
        assert(participants@.take(0) =~= Seq::<ParticipantID>::empty());
    }
    let mut i: usize = 0;
    while i < participants.len()
        invariant
            i <= participants.len(),
            0 < n_chunks,
            n_chunks * 32 <= usize::MAX,
            acc@.len() == total,
            total == matrix_len(n as int, n_chunks as int),
            (acc@.len() as int) % (n_chunks * 32) == 0,
            views == contribution_views(all@),
            forall|idx: int|
                0 <= idx < total ==> acc@[idx] == decoded_at(
                    participants@.take(i as int),
                    views,
                    excl@,
                    n_chunks as int,
                    idx,
                ),
        decreases participants.len() - i,
    {
        let p = participants[i];
        let k = find_contribution(all, &p);
        proof {
            assert(participants@.take(i + 1).drop_last() =~= participants@.take(i as int));
            assert(participants@.take(i + 1).last() == p);
        }
        if k < all.len() {
            let ghost entry = acc@;
            xor_into(&mut acc, &all[k].matrix);
            let ghost mid = acc@;
            let cloaks = &all[k].cloaks;
            let mut j: usize = 0;
            proof {
                assert(excl@.take(0) =~= Seq::<ParticipantID>::empty());
                assert forall|idx: int| 0 <= idx < total implies acc@[idx] == mid[idx] ^ 0u8 by {
                    let b = mid[idx];
                    assert(b == b ^ 0u8) by (bit_vector);
                }
            }
            while j < excl.len()
                invariant
                    j <= excl.len(),
                    0 < n_chunks,
                    n_chunks * 32 <= usize::MAX,
                    acc@.len() == total,
                    mid.len() == total,
                    (acc@.len() as int) % (n_chunks * 32) == 0,
                    forall|idx: int|
                        0 <= idx < total ==> acc@[idx] == mid[idx] ^ excl_pad_at(
                            cloaks@,
                            excl@.take(j as int),
                            n_chunks as int,
                            idx,
                        ),
                decreases excl.len() - j,
            {
                let q = excl[j];
                proof {
                    assert(excl@.take(j + 1).drop_last() =~= excl@.take(j as int));
                    assert(excl@.take(j + 1).last() == q);
                }
                match find_cloak(cloaks, &q) {
                    Some(key) => {
                        xor_pad(&mut acc, &key, n_chunks);
                        proof {
                            assert forall|idx: int| 0 <= idx < total implies acc@[idx] == mid[idx]
                                ^ excl_pad_at(cloaks@, excl@.take(j + 1), n_chunks as int, idx) by {
                                let a = mid[idx];
                                let b = excl_pad_at(
                                    cloaks@,
                                    excl@.take(j as int),
                                    n_chunks as int,
                                    idx,
                                );
                                let c = pad_at(key, n_chunks as int, idx);
                                assert((a ^ b) ^ c == a ^ (b ^ c)) by (bit_vector);
                            }
                        }
                    },
                    None => {},
                }
                j += 1;
            }
            proof {
                assert(excl@.take(excl@.len() as int) =~= excl@);
                assert(views[k as int] == all@[k as int]@);
                assert forall|idx: int| 0 <= idx < total implies acc@[idx] == decoded_at(
                    participants@.take(i + 1),
                    views,
                    excl@,
                    n_chunks as int,
                    idx,
                ) by {
                    let a = entry[idx];
                    let b = byte_or_zero(all@[k as int].matrix@, idx);
                    let c = excl_pad_at(cloaks@, excl@, n_chunks as int, idx);
                    assert((a ^ b) ^ c == a ^ b ^ c) by (bit_vector);
                }
            }
        }
        i += 1;
    }
    proof {
        assert(participants@.take(participants@.len() as int) =~= participants@);
        assert(acc@ =~= decoded(participants@, views, excl@, n as int, n_chunks as int));
    }
    acc
}

/// Row `row` of a matrix whose rows have `n_chunks` cells, cut to `size`
/// bytes.
pub open spec fn row_of(matrix: Seq<u8>, n_chunks: int, size: int, row: int) -> Seq<u8> {
    Seq::new(size as nat, |j: int| matrix[row * (n_chunks * 32) + j])
}

/// The rows of a matrix, each cut to `size` bytes.
pub fn split_rows(matrix: &Vec<u8>, n_chunks: usize, size: usize) -> (rows: Vec<Vec<u8>>)
    requires
        0 < n_chunks,
        size <= n_chunks * 32 <= usize::MAX,
    ensures
        rows@.len() == matrix@.len() / (n_chunks as nat * 32),
        forall|r: int|
            0 <= r < rows@.len() ==> rows@[r]@ == row_of(
                matrix@,
                n_chunks as int,
                size as int,
                r,
            ),
{
    let row_len: usize = n_chunks * 32;
    let total: usize = matrix.len();
    let count: usize = total / row_len;
    let mut rows: Vec<Vec<u8>> = Vec::new();
    let mut r: usize = 0;
    while r < count
        invariant
            r <= count,
            total == matrix@.len(),
            0 < row_len == n_chunks * 32,
            size <= row_len,
            count == matrix@.len() / (row_len as nat),
            rows@.len() == r,
            forall|k: int|
                0 <= k < r ==> rows@[k]@ == row_of(matrix@, n_chunks as int, size as int, k),
        decreases count - r,
    {
        assert((r + 1) * row_len <= matrix@.len()) by (nonlinear_arith)
            requires
                r < count,
                count == matrix@.len() / (row_len as nat),
                row_len > 0,
        {
            vstd::arithmetic::div_mod::lemma_fundamental_div_mod(
                matrix@.len() as int,
                row_len as int,
            );
            assert(row_len * count <= matrix@.len());
        }
        assert(r * row_len + row_len == (r + 1) * row_len) by (nonlinear_arith);
        let base: usize = r * row_len;
        let mut row: Vec<u8> = Vec::new();
        let mut j: usize = 0;
        while j < size
            invariant
                j <= size,
                size <= row_len,
                total == matrix@.len(),
                base == r * row_len,
                row_len == n_chunks * 32,
                base + row_len <= matrix@.len(),
                row@.len() == j,
                forall|k: int| 0 <= k < j ==> row@[k] == matrix@[r * (n_chunks * 32) + k],
            decreases size - j,
        {
            row.push(matrix[base + j]);
            j += 1;
        }
        assert(row@ =~= row_of(matrix@, n_chunks as int, size as int, r as int));
        rows.push(row);
        r += 1;
    }
    rows
}


/// The row whose blocks cloak the two scalars: no row of a matrix.
pub const SCALAR_ROW: u64 = 0xffff_ffff_ffff_ffff;

/// The chunk of the block that cloaks the adjustment (`false`) or the fee
/// (`true`).
pub open spec fn scalar_chunk(fee: bool) -> u64 {
    if fee {
        1
    } else {
        0
    }
}

/// The scalar that the cloak `key` lays over the adjustment or the fee.
pub open spec fn scalar_pad(key: Digest, fee: bool) -> nat {
    digest_scalar_value(pad_block_of(key, SCALAR_ROW, scalar_chunk(fee))@)
}

/// The scalar that the cloak `key` lays over the adjustment or the fee.
fn scalar_pad_of(key: &Digest, fee: bool) -> (pad: Scalar)
    ensures
        scalar_value(pad) == scalar_pad(*key, fee),
{
    let chunk: u64 = if fee {
        1
    } else {
        0
    };
    let block = pad_block(key, SCALAR_ROW, chunk);
    from_digest(&block)
}

/// What `me` adds for the cloak that it shares with `q`: the pad where
/// `me` comes before `q`, its negative where it comes after.
pub open spec fn signed_pad(me: ParticipantID, q: ParticipantID, key: Digest, fee: bool) -> int {
    if me.rank() < q.rank() {
        scalar_pad(key, fee) as int
    } else {
        -(scalar_pad(key, fee) as int)
    }
}

/// What `me` adds to a scalar for the cloaks that it shares with the
/// participants of `others`, all together.
pub open spec fn scalar_pad_sum(
    others: Seq<ParticipantID>,
    me: ParticipantID,
    cloaks: Seq<Cloak>,
    fee: bool,
) -> int
    decreases others.len(),
{
    if others.len() == 0 {
        0
    } else {
        let rest = scalar_pad_sum(others.drop_last(), me, cloaks, fee);
        let q = others.last();
        if q != me && cloak_for(cloaks, q) is Some {
            rest + signed_pad(me, q, cloak_for(cloaks, q)->Some_0, fee)
        } else {
            rest
        }
    }
}

/// `acc` with the pad of `key` added where `me` comes before `q`, and
/// taken off where it comes after.
fn apply_signed_pad(acc: &Scalar, me: &ParticipantID, q: &ParticipantID, key: &Digest, fee: bool, Ghost(v): Ghost<int>) -> (out: Scalar)
    requires
        scalar_value(*acc) == v % (group_order() as int),
    ensures
        scalar_value(out) == (v + signed_pad(*me, *q, *key, fee)) % (group_order() as int),
{
    let pad = scalar_pad_of(key, fee);
    let m = Ghost(group_order() as int);
    match me.compare(q) {
        Position::Before => {
            proof {
                vstd::arithmetic::div_mod::lemma_add_mod_noop_right(
                    scalar_value(pad) as int,
                    v,
                    m@,
                );
            }
            crate::scalar::add(acc, &pad)
        },
        _ => {
            proof {
                vstd::arithmetic::div_mod::lemma_sub_mod_noop(v, scalar_value(pad) as int, m@);
                vstd::arithmetic::div_mod::lemma_sub_mod_noop_right(
                    v % m@,
                    scalar_value(pad) as int,
                    m@,
                );
            }
            crate::scalar::sub(acc, &pad)
        },
    }
}

/// The scalar `x` under the cloaks that `me` shares with each other
/// participant.
pub open spec fn encoded_scalar(
    x: Scalar,
    participants: Seq<ParticipantID>,
    me: ParticipantID,
    cloaks: Seq<Cloak>,
    fee: bool,
) -> Scalar {
    crate::scalar::scalar_with_value(
        ((scalar_value(x) + scalar_pad_sum(participants, me, cloaks, fee)) % (
        group_order() as int)) as nat,
    )
}

/// A scalar under the cloaks that `my_id` shares with each other
/// participant: added where `my_id` comes first, taken off where it comes
/// second, so that the two of a pair cancel.
#[verifier::rlimit(40)]
pub fn dc_encode_scalar(
    x: &Scalar,
    participants: &Vec<ParticipantID>,
    my_id: &ParticipantID,
    k_cloaks: &Vec<Cloak>,
    fee: bool,
) -> (out: Scalar)
    ensures
        scalar_value(out) == (scalar_value(*x) + scalar_pad_sum(
            participants@,
            *my_id,
            k_cloaks@,
            fee,
        )) % (group_order() as int),
        out == encoded_scalar(*x, participants@, *my_id, k_cloaks@, fee),
{
    let mut acc = crate::scalar::reduce(x);
    let mut i: usize = 0;
    assert(participants@.take(0) =~= Seq::<ParticipantID>::empty());
    while i < participants.len()
        invariant
            i <= participants.len(),
            scalar_value(acc) == (scalar_value(*x) + scalar_pad_sum(
                participants@.take(i as int),
                *my_id,
                k_cloaks@,
                fee,
            )) % (group_order() as int),
        decreases participants.len() - i,
    {
        let q = participants[i];
        proof {
            assert(participants@.take(i + 1).drop_last() =~= participants@.take(i as int));
            assert(participants@.take(i + 1).last() == q);
        }
        if !q.same(my_id) {
            match find_cloak(k_cloaks, &q) {
                Some(key) => {
                    let ghost v = scalar_value(*x) + scalar_pad_sum(
                        participants@.take(i as int),
                        *my_id,
                        k_cloaks@,
                        fee,
                    );
                    acc = apply_signed_pad(&acc, my_id, &q, &key, fee, Ghost(v));
                },
                None => {},
            }
        }
        i += 1;
    }
    assert(participants@.take(participants@.len() as int) =~= participants@);
    proof {
        crate::scalar::lemma_scalar_is(acc);
    }
    acc
}

/// What `me` added for the cloaks that it shared with the participants of
/// `excl`, all together.
pub open spec fn excl_scalar_sum(
    me: ParticipantID,
    cloaks: Seq<Cloak>,
    excl: Seq<ParticipantID>,
    fee: bool,
) -> int
    decreases excl.len(),
{
    if excl.len() == 0 {
        0
    } else {
        let rest = excl_scalar_sum(me, cloaks, excl.drop_last(), fee);
        let q = excl.last();
        if cloak_for(cloaks, q) is Some {
            rest + signed_pad(me, q, cloak_for(cloaks, q)->Some_0, fee)
        } else {
            rest
        }
    }
}

/// The cloaked adjustment or the cloaked fee of a contribution.
pub open spec fn scalar_of(c: ContributionView, fee: bool) -> Scalar {
    if fee {
        c.fee_sum
    } else {
        c.gamma_sum
    }
}

/// The cloaked scalars of the participants of `list`, summed, with what
/// each added for the participants of `excl` taken off.
pub open spec fn opened_sum(
    list: Seq<ParticipantID>,
    all: Seq<ContributionView>,
    excl: Seq<ParticipantID>,
    fee: bool,
) -> int
    decreases list.len(),
{
    if list.len() == 0 {
        0
    } else {
        let rest = opened_sum(list.drop_last(), all, excl, fee);
        let k = contribution_index(all, list.last());
        if k < all.len() {
            rest + scalar_value(scalar_of(all[k], fee)) - excl_scalar_sum(
                list.last(),
                all[k].cloaks,
                excl,
                fee,
            )
        } else {
            rest
        }
    }
}

/// The scalar `x` with what `me` added for the cloaks that it shares with
/// each other participant taken off again.
pub open spec fn scalar_without_pads(
    x: Scalar,
    participants: Seq<ParticipantID>,
    me: ParticipantID,
    cloaks: Seq<Cloak>,
    fee: bool,
) -> Scalar {
    crate::scalar::scalar_with_value(
        ((scalar_value(x) - scalar_pad_sum(participants, me, cloaks, fee)) % (
        group_order() as int)) as nat,
    )
}

/// The sum of the cloaked scalars of `participants`, with what each added
/// for the participants of `excl` taken off.
pub open spec fn opened_scalar(
    participants: Seq<ParticipantID>,
    all: Seq<ContributionView>,
    excl: Seq<ParticipantID>,
    fee: bool,
) -> Scalar {
    crate::scalar::scalar_with_value(
        (opened_sum(participants, all, excl, fee) % (group_order() as int)) as nat,
    )
}

/// `acc` with the signed pad of `key` taken off.
fn remove_signed_pad(acc: &Scalar, me: &ParticipantID, q: &ParticipantID, key: &Digest, fee: bool, Ghost(v): Ghost<int>) -> (out: Scalar)
    requires
        scalar_value(*acc) == v % (group_order() as int),
    ensures
        scalar_value(out) == (v - signed_pad(*me, *q, *key, fee)) % (group_order() as int),
{
    let pad = scalar_pad_of(key, fee);
    let m = Ghost(group_order() as int);
    match me.compare(q) {
        Position::Before => {
            proof {
                vstd::arithmetic::div_mod::lemma_sub_mod_noop(v, scalar_value(pad) as int, m@);
                vstd::arithmetic::div_mod::lemma_sub_mod_noop_right(
                    v % m@,
                    scalar_value(pad) as int,
                    m@,
                );
            }
            crate::scalar::sub(acc, &pad)
        },
        _ => {
            proof {
                vstd::arithmetic::div_mod::lemma_add_mod_noop_right(
                    scalar_value(pad) as int,
                    v,
                    m@,
                );
            }
            crate::scalar::add(acc, &pad)
        },
    }
}

/// A cloaked scalar of `my_id` without its cloaks: what `dc_encode_scalar`
/// added is taken off.
pub fn dc_decode_scalar(
    x: &Scalar,
    participants: &Vec<ParticipantID>,
    my_id: &ParticipantID,
    k_cloaks: &Vec<Cloak>,
    fee: bool,
) -> (out: Scalar)
    ensures
        scalar_value(out) == (scalar_value(*x) - scalar_pad_sum(
            participants@,
            *my_id,
            k_cloaks@,
            fee,
        )) % (group_order() as int),
        out == scalar_without_pads(*x, participants@, *my_id, k_cloaks@, fee),
{
    let mut acc = crate::scalar::reduce(x);
    let mut i: usize = 0;
    assert(participants@.take(0) =~= Seq::<ParticipantID>::empty());
    while i < participants.len()
        invariant
            i <= participants.len(),
            scalar_value(acc) == (scalar_value(*x) - scalar_pad_sum(
                participants@.take(i as int),
                *my_id,
                k_cloaks@,
                fee,
            )) % (group_order() as int),
        decreases participants.len() - i,
    {
        let q = participants[i];
        proof {
            assert(participants@.take(i + 1).drop_last() =~= participants@.take(i as int));
            assert(participants@.take(i + 1).last() == q);
        }
        if !q.same(my_id) {
            match find_cloak(k_cloaks, &q) {
                Some(key) => {
                    let ghost v = scalar_value(*x) - scalar_pad_sum(
                        participants@.take(i as int),
                        *my_id,
                        k_cloaks@,
                        fee,
                    );
                    acc = remove_signed_pad(&acc, my_id, &q, &key, fee, Ghost(v));
                },
                None => {},
            }
        }
        i += 1;
    }
    assert(participants@.take(participants@.len() as int) =~= participants@);
    proof {
        crate::scalar::lemma_scalar_is(acc);
    }
    acc
}

/// The sum of the cloaked adjustments, or of the cloaked fees, that
/// `participants` have opened, with what each added for the participants
/// of `excl` taken off. Among participants who hold the same cloaks pair
/// by pair, the cloaks cancel and the sum of the plain scalars is left.
#[verifier::rlimit(40)]
pub fn dc_scalar_open(
    participants: &Vec<ParticipantID>,
    all: &Vec<Contribution>,
    excl: &Vec<ParticipantID>,
    fee: bool,
) -> (out: Scalar)
    ensures
        scalar_value(out) == opened_sum(participants@, contribution_views(all@), excl@, fee) % (
        group_order() as int),
        out == opened_scalar(participants@, contribution_views(all@), excl@, fee),
{
    let ghost views = contribution_views(all@);
    let mut acc = zero();
    let m = Ghost(group_order() as int);
    let mut i: usize = 0;
    proof {
        assert(participants@.take(0) =~= Seq::<ParticipantID>::empty());
        vstd::arithmetic::div_mod::lemma_small_mod(0, group_order());
    }
    while i < participants.len()
        invariant
            i <= participants.len(),
            m@ == group_order() as int,
            views == contribution_views(all@),
            scalar_value(acc) == opened_sum(participants@.take(i as int), views, excl@, fee) % m@,
        decreases participants.len() - i,
    {
        let p = participants[i];
        let k = find_contribution(all, &p);
        proof {
            assert(participants@.take(i + 1).drop_last() =~= participants@.take(i as int));
            assert(participants@.take(i + 1).last() == p);
        }
        if k < all.len() {
            let ghost base = opened_sum(participants@.take(i as int), views, excl@, fee);
            assert(views[k as int] == all@[k as int]@);
            let x = if fee {
                all[k].fee_sum
            } else {
                all[k].gamma_sum
            };
            proof {
                vstd::arithmetic::div_mod::lemma_add_mod_noop_right(
                    scalar_value(x) as int,
                    base,
                    m@,
                );
            }
            acc = crate::scalar::add(&acc, &x);
            let ghost with_x = base + scalar_value(x);
            let cloaks = &all[k].cloaks;
            let mut j: usize = 0;
            assert(excl@.take(0) =~= Seq::<ParticipantID>::empty());
            while j < excl.len()
                invariant
                    j <= excl.len(),
                    m@ == group_order() as int,
                    scalar_value(acc) == (with_x - excl_scalar_sum(
                        p,
                        cloaks@,
                        excl@.take(j as int),
                        fee,
                    )) % m@,
                decreases excl.len() - j,
            {
                let q = excl[j];
                proof {
                    assert(excl@.take(j + 1).drop_last() =~= excl@.take(j as int));
                    assert(excl@.take(j + 1).last() == q);
                }
                match find_cloak(cloaks, &q) {
                    Some(key) => {
                        let ghost v = with_x - excl_scalar_sum(
                            p,
                            cloaks@,
                            excl@.take(j as int),
                            fee,
                        );
                        acc = remove_signed_pad(&acc, &p, &q, &key, fee, Ghost(v));
                    },
                    None => {},
                }
                j += 1;
            }
            assert(excl@.take(excl@.len() as int) =~= excl@);
        }
        i += 1;
    }
    assert(participants@.take(participants@.len() as int) =~= participants@);
    proof {
        crate::scalar::lemma_scalar_is(acc);
    }
    acc
}

} // verus!
