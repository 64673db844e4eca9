//! Blame: what one participant contributed, read with its secret
//! revealed.
//!
//! With the session secret of a participant, the secret that it shares
//! with each other participant can be made again, and with these its
//! cloaks. Taken off its matrix and its two scalars, they leave what the
//! participant put in: its own rows, its adjustment and its fee.

use crate::dicemix::{
    contribution_index, contribution_views, find_contribution, lemma_contribution_index,
    ContributionView, dc_decode_scalar, encoded, encoded_at, encoded_scalar, lay_pads, lemma_position_of,
    matrix_len, pad_sum_at, plain_at, position, position_of, row_of, rows_of,
    scalar_pad_sum, scalar_without_pads, Cloak, Contribution, matrix_size, lemma_matrix_sizes,
};
use crate::hashing::Digest;
use crate::lists::{copy_vec, derive_cloaks};
use crate::model::cloaks_from;
use crate::participant::ParticipantID;
use crate::scalar::{group_order, scalar_value, Scalar};
use crate::types::{KeyEntry, Verdict};
use vstd::prelude::*;

verus! {

/// A matrix with the cloaks of `me` taken off.
pub open spec fn uncloaked(
    matrix: Seq<u8>,
    list: Seq<ParticipantID>,
    me: ParticipantID,
    cloaks: Seq<Cloak>,
    n_chunks: int,
) -> Seq<u8> {
    Seq::new(matrix.len(), |idx: int| matrix[idx] ^ pad_sum_at(list, me, cloaks, n_chunks, idx))
}

/// Whether every byte of the row is zero.
pub open spec fn is_zero_row(row: Seq<u8>) -> bool {
    forall|j: int| 0 <= j < row.len() ==> row[j] == 0
}

/// The rows that are not all zero, in their order.
pub open spec fn without_zero_rows(rows: Seq<Seq<u8>>) -> Seq<Seq<u8>>
    decreases rows.len(),
{
    if rows.len() == 0 {
        Seq::empty()
    } else if is_zero_row(rows.last()) {
        without_zero_rows(rows.drop_last())
    } else {
        without_zero_rows(rows.drop_last()).push(rows.last())
    }
}

/// The five rows of the participant at `place`, each cut to `size` bytes.
pub open spec fn stripe_rows(plain: Seq<u8>, place: int, n_chunks: int, size: int) -> Seq<
    Seq<u8>,
> {
    Seq::new(5, |slot: int| row_of(plain, n_chunks, size, place * 5 + slot))
}

/// The rows that `me` put into its matrix: its own five rows with its
/// cloaks taken off, cut to `size` bytes, without those that are all
/// zero.
pub open spec fn own_rows(
    matrix: Seq<u8>,
    list: Seq<ParticipantID>,
    me: ParticipantID,
    cloaks: Seq<Cloak>,
    n_chunks: int,
    size: int,
) -> Seq<Seq<u8>> {
    without_zero_rows(
        stripe_rows(uncloaked(matrix, list, me, cloaks, n_chunks), position_of(list, me), n_chunks, size),
    )
}

/// Whether any byte of the row is not zero.
pub fn has_content(row: &Vec<u8>) -> (r: bool)
    ensures
        r == !is_zero_row(row@),
{
    let mut j: usize = 0;
    while j < row.len()
        invariant
            j <= row.len(),
            forall|k: int| 0 <= k < j ==> row@[k] == 0,
        decreases row.len() - j,
    {
        if row[j] != 0 {
            return true;
        }
        j += 1;
    }
    false
}

/// The own rows of the participant at `place` in a matrix without cloaks.
fn pick_rows(plain: &Vec<u8>, place: usize, n: usize, n_chunks: usize, size: usize) -> (out: Vec<
    Vec<u8>,
>)
    requires
        place < n,
        0 < n_chunks,
        size <= n_chunks * 32,
        plain@.len() == matrix_len(n as int, n_chunks as int),
    ensures
        rows_of(out@) == without_zero_rows(
            stripe_rows(plain@, place as int, n_chunks as int, size as int),
        ),
{
    let total = plain.len();
    proof {
        lemma_matrix_sizes(n as int, n_chunks as int);
    }
    let row_len: usize = n_chunks * 32;
    let ghost stripe = stripe_rows(plain@, place as int, n_chunks as int, size as int);
    let mut out: Vec<Vec<u8>> = Vec::new();
    let mut slot: usize = 0;
    proof {
        assert(stripe.take(0) =~= Seq::<Seq<u8>>::empty());
        assert(rows_of(out@) =~= Seq::<Seq<u8>>::empty());
    }
    while slot < 5
        invariant
            slot <= 5,
            place < n,
            0 < n_chunks,
            n * 5 <= usize::MAX,
            total == plain@.len(),
            row_len == n_chunks * 32,
            size <= row_len,
            plain@.len() == matrix_len(n as int, n_chunks as int),
            stripe == stripe_rows(plain@, place as int, n_chunks as int, size as int),
            rows_of(out@) == without_zero_rows(stripe.take(slot as int)),
        decreases 5 - slot,
    {
        assert(place * 5 + slot < n * 5);
        let r: usize = place * 5 + slot;
        assert((r + 1) * row_len <= plain@.len()) by (nonlinear_arith)
            requires
                r < n * 5,
                plain@.len() == n * 5 * n_chunks * 32,
                row_len == n_chunks * 32,
        ;
        assert(r * row_len + row_len == (r + 1) * row_len) by (nonlinear_arith);
        let base: usize = r * row_len;
        let mut row: Vec<u8> = Vec::new();
        let mut j: usize = 0;
        while j < size
            invariant
                j <= size,
                size <= row_len,
                total == plain@.len(),
                base == r * row_len,
                row_len == n_chunks * 32,
                base + row_len <= plain@.len(),
                row@.len() == j,
                forall|k: int| 0 <= k < j ==> row@[k] == plain@[r * (n_chunks * 32) + k],
            decreases size - j,
        {
            row.push(plain[base + j]);
            j += 1;
        }
        proof {
            assert(row@ =~= row_of(plain@, n_chunks as int, size as int, r as int));
            assert(stripe[slot as int] == row@);
            assert(stripe.take(slot + 1).drop_last() =~= stripe.take(slot as int));
            assert(stripe.take(slot + 1).last() == row@);
        }
        if has_content(&row) {
            let ghost before = rows_of(out@);
            out.push(row);
            assert(rows_of(out@) =~= before.push(stripe[slot as int]));
        }
        slot += 1;
    }
    assert(stripe.take(5) =~= stripe);
    out
}

/// What the participant of the contribution `c` put in, read with the
/// secret that it shares with each other participant of `list`: its own
/// rows, its adjustment and its fee. There is nothing to read where the
/// participant is not in the list, or its matrix is not of the size of a
/// matrix for the list.
pub fn uncloak(
    list: &Vec<ParticipantID>,
    c: &Contribution,
    shared: &Vec<KeyEntry>,
    sid: &Digest,
    size: usize,
    n_chunks: usize,
) -> (out: Option<(Vec<Vec<u8>>, Scalar, Scalar)>)
    requires
        0 < n_chunks,
        size <= n_chunks * 32,
    ensures
        out is Some <==> list@.contains(c.id) && c.matrix@.len() == matrix_len(
            list@.len() as int,
            n_chunks as int,
        ),
        out is Some ==> rows_of(out->Some_0.0@) == own_rows(
            c@.matrix,
            list@,
            c.id,
            cloaks_from(shared@, *sid),
            n_chunks as int,
            size as int,
        ) && out->Some_0.1 == scalar_without_pads(
            c@.gamma_sum,
            list@,
            c.id,
            cloaks_from(shared@, *sid),
            false,
        ) && out->Some_0.2 == scalar_without_pads(
            c@.fee_sum,
            list@,
            c.id,
            cloaks_from(shared@, *sid),
            true,
        ),
{
    let n = list.len();
    let place = position(list, &c.id);
    proof {
        lemma_position_of(list@, c.id);
    }
    if place >= n {
        return None;
    }
    let have = c.matrix.len();
    match matrix_size(n, n_chunks) {
        None => {
            return None;
        },
        Some(total) => {
            if have != total {
                return None;
            }
        },
    }
    let cloaks = derive_cloaks(shared, sid);
    let mut cells = copy_vec(&c.matrix);
    lay_pads(&mut cells, list, &c.id, &cloaks, n_chunks);
    proof {
        assert(cells@ =~= uncloaked(c@.matrix, list@, c.id, cloaks@, n_chunks as int));
    }
    let rows = pick_rows(&cells, place, n, n_chunks, size);
    let gamma = dc_decode_scalar(&c.gamma_sum, list, &c.id, &cloaks, false);
    let fee = dc_decode_scalar(&c.fee_sum, list, &c.id, &cloaks, true);
    Some((rows, gamma, fee))
}

/// The verdict on a contribution that cannot be read: it fails every
/// check.
pub open spec fn unread(id: ParticipantID) -> Verdict {
    Verdict { id, balance_ok: false, range_ok: false, signature_ok: false }
}

/// Whether what `p` put in can be read: `p` is in the list and has
/// opened a contribution, its session secret is known, the width of the
/// outputs and the cells of a row are set and a row holds an output, and
/// its matrix is of the size of a matrix for the list.
pub open spec fn readable(
    list: Seq<ParticipantID>,
    all: Seq<ContributionView>,
    p: ParticipantID,
    secret_known: bool,
    size: Option<usize>,
    n_chunks: Option<usize>,
) -> bool {
    &&& list.contains(p)
    &&& contribution_index(all, p) < all.len()
    &&& secret_known
    &&& size is Some
    &&& n_chunks is Some
    &&& 0 < n_chunks->Some_0
    &&& size->Some_0 <= n_chunks->Some_0 * 32
    &&& all[contribution_index(all, p)].matrix.len() == matrix_len(
        list.len() as int,
        n_chunks->Some_0 as int,
    )
}

/// What `p` put into the round, read with the secret that it shares with
/// each other participant of `list`, which its revealed session secret
/// gives; `shared` is `None` where that secret is not known. Where it
/// cannot be read, the verdict on `p` comes back in its place: every
/// check has failed.
pub fn read_contribution(
    list: &Vec<ParticipantID>,
    all: &Vec<Contribution>,
    p: &ParticipantID,
    shared: &Option<Vec<KeyEntry>>,
    sid: &Digest,
    size: Option<usize>,
    n_chunks: Option<usize>,
) -> (out: Result<(Vec<Vec<u8>>, Scalar, Scalar), Verdict>)
    ensures
        out is Ok <==> readable(
            list@,
            contribution_views(all@),
            *p,
            shared is Some,
            size,
            n_chunks,
        ),
        out is Err ==> out->Err_0 == unread(*p),
        out is Ok ==> ({
            let c = contribution_views(all@)[contribution_index(contribution_views(all@), *p)];
            let cloaks = cloaks_from(shared->Some_0@, *sid);
            &&& rows_of(out->Ok_0.0@) == own_rows(
                c.matrix,
                list@,
                *p,
                cloaks,
                n_chunks->Some_0 as int,
                size->Some_0 as int,
            )
            &&& out->Ok_0.1 == scalar_without_pads(c.gamma_sum, list@, *p, cloaks, false)
            &&& out->Ok_0.2 == scalar_without_pads(c.fee_sum, list@, *p, cloaks, true)
        }),
{
    let failed = Verdict { id: *p, balance_ok: false, range_ok: false, signature_ok: false };
    let i = find_contribution(all, p);
    proof {
        lemma_contribution_index(contribution_views(all@), *p);
    }
    if i >= all.len() {
        return Err(failed);
    }
    let c = &all[i];
    assert(contribution_views(all@)[i as int] == c@);
    match (shared, size, n_chunks) {
        (Some(secrets), Some(width), Some(cells)) => {
            if cells == 0 {
                return Err(failed);
            }
            let holds: bool = match cells.checked_mul(32) {
                Some(row_len) => width <= row_len,
                None => true,
            };
            if !holds {
                return Err(failed);
            }
            match uncloak(list, c, secrets, sid, width, cells) {
                Some(read) => Ok(read),
                None => Err(failed),
            }
        },
        _ => Err(failed),
    }
}

/// Whether every flag is set.
pub open spec fn all_set(flags: Seq<bool>) -> bool {
    forall|i: int| 0 <= i < flags.len() ==> flags[i]
}

/// The verdict that the checks of what a participant put in come to:
/// each check as it was found, but that a row which does not parse as an
/// output fails the check of the range proofs, since what cannot be read
/// has no proof that verifies.
pub open spec fn judged(
    id: ParticipantID,
    parsed: Seq<bool>,
    balance_ok: bool,
    ranges_ok: bool,
    signature_ok: bool,
) -> Verdict {
    Verdict { id, balance_ok, range_ok: ranges_ok && all_set(parsed), signature_ok }
}

/// The verdict on the participant `id`: `parsed` tells of each row that it
/// put in whether it parses as an output, and the three flags what the
/// checks found.
pub fn judge(
    id: &ParticipantID,
    parsed: &Vec<bool>,
    balance_ok: bool,
    ranges_ok: bool,
    signature_ok: bool,
) -> (v: Verdict)
    ensures
        v == judged(*id, parsed@, balance_ok, ranges_ok, signature_ok),
{
    let mut all: bool = true;
    let mut i: usize = 0;
    while i < parsed.len()
        invariant
            i <= parsed.len(),
            all == all_set(parsed@.take(i as int)),
        decreases parsed.len() - i,
    {
        if !parsed[i] {
            all = false;
        }
        proof {
            let head = parsed@.take(i as int);
            let next = parsed@.take(i + 1);
            assert(forall|k: int| 0 <= k < head.len() ==> head[k] == next[k]);
            assert(next[i as int] == parsed@[i as int]);
            if all_set(next) {
                assert forall|k: int| 0 <= k < head.len() implies head[k] by {
                    assert(next[k]);
                }
            }
        }
        i += 1;
    }
    assert(parsed@.take(parsed@.len() as int) =~= parsed@);
    Verdict { id: *id, balance_ok, range_ok: ranges_ok && all, signature_ok }
}

// ---------------------------------------------------------------------
// What is read is what was put in.

proof fn lemma_xor_back(a: u8, p: u8)
    ensures
        (a ^ p) ^ p == a,
{
    assert((a ^ p) ^ p == a) by (bit_vector);
}

/// Rows of which the first are not zero and the others are: without the
/// zero rows, the first are left.
proof fn lemma_without_zero_rows(rows: Seq<Seq<u8>>, utxos: Seq<Seq<u8>>, t: int)
    requires
        0 <= t <= rows.len(),
        utxos.len() <= rows.len(),
        forall|k: int| 0 <= k < utxos.len() ==> rows[k] == utxos[k] && !is_zero_row(#[trigger] utxos[k]),
        forall|k: int| utxos.len() <= k < rows.len() ==> is_zero_row(#[trigger] rows[k]),
    ensures
        without_zero_rows(rows.take(t)) == utxos.take(if t < utxos.len() {
            t
        } else {
            utxos.len() as int
        }),
    decreases t,
{
    if t == 0 {
        assert(rows.take(0) =~= Seq::<Seq<u8>>::empty());
        assert(utxos.take(0) =~= Seq::<Seq<u8>>::empty());
    } else {
        lemma_without_zero_rows(rows, utxos, t - 1);
        assert(rows.take(t).drop_last() =~= rows.take(t - 1));
        assert(rows.take(t).last() == rows[t - 1]);
        if t - 1 < utxos.len() {
            assert(utxos.take(t) =~= utxos.take(t - 1).push(utxos[t - 1]));
        }
    }
}

/// Blame reads what was put in. Let a participant of the list make its
/// matrix of at most five outputs, each of the width that rows are cut to
/// and none of them all zero, under its cloaks. Then its own rows, read
/// with the same cloaks, are those outputs.
pub proof fn law_own_rows_are_the_outputs(
    list: Seq<ParticipantID>,
    utxos: Seq<Seq<u8>>,
    me: ParticipantID,
    cloaks: Seq<Cloak>,
    n_chunks: int,
    size: int,
)
    requires
        list.contains(me),
        n_chunks > 0,
        0 <= size <= n_chunks * 32,
        utxos.len() <= 5,
        forall|k: int|
            0 <= k < utxos.len() ==> (#[trigger] utxos[k]).len() == size && !is_zero_row(utxos[k]),
    ensures
        own_rows(encoded(list, utxos, me, cloaks, n_chunks), list, me, cloaks, n_chunks, size)
            == utxos,
{
    let matrix = encoded(list, utxos, me, cloaks, n_chunks);
    let plain = uncloaked(matrix, list, me, cloaks, n_chunks);
    let place = position_of(list, me);
    lemma_position_of(list, me);
    let n = list.len() as int;
    let row_len = n_chunks * 32;
    let rows = stripe_rows(plain, place, n_chunks, size);
    assert forall|slot: int, j: int| 0 <= slot < 5 && 0 <= j < size implies #[trigger] rows[slot][j]
        == plain_at(utxos, place, n_chunks, (place * 5 + slot) * row_len + j) by {
        let r = place * 5 + slot;
        let idx = r * row_len + j;
        assert(0 <= idx < n * 5 * n_chunks * 32) by (nonlinear_arith)
            requires
                idx == r * row_len + j,
                0 <= r < n * 5,
                0 <= j < row_len,
                row_len == n_chunks * 32,
        ;
        assert(rows[slot] == row_of(plain, n_chunks, size, r));
        assert(matrix[idx] == encoded_at(list, utxos, me, cloaks, n_chunks, idx));
        lemma_xor_back(
            plain_at(utxos, place, n_chunks, idx),
            pad_sum_at(list, me, cloaks, n_chunks, idx),
        );
    }
    assert forall|slot: int| 0 <= slot < 5 implies (if slot < utxos.len() {
        #[trigger] rows[slot] == utxos[slot]
    } else {
        is_zero_row(rows[slot])
    }) by {
        let r = place * 5 + slot;
        assert forall|j: int| 0 <= j < size implies rows[slot][j] == (if slot < utxos.len() {
            utxos[slot][j]
        } else {
            0u8
        }) by {
            let idx = r * row_len + j;
            vstd::arithmetic::div_mod::lemma_fundamental_div_mod_converse(idx, row_len, r, j);
            assert(rows[slot][j] == plain_at(utxos, place, n_chunks, idx));
        }
        if slot < utxos.len() {
            assert(rows[slot] =~= utxos[slot]);
        }
    }
    lemma_without_zero_rows(rows, utxos, 5);
    assert(rows.take(5) =~= rows);
    assert(utxos.take(utxos.len() as int) =~= utxos);
}

/// Blame reads the scalar that was put in. What a participant opens of a
/// scalar under its cloaks, read with the same cloaks, stands for that
/// scalar; and it is that scalar, where the scalar is below the order of
/// the group.
pub proof fn law_scalar_is_read_back(
    x: Scalar,
    list: Seq<ParticipantID>,
    me: ParticipantID,
    cloaks: Seq<Cloak>,
    fee: bool,
)
    ensures
        scalar_value(
            scalar_without_pads(encoded_scalar(x, list, me, cloaks, fee), list, me, cloaks, fee),
        ) == scalar_value(x) % group_order(),
        scalar_value(x) < group_order() ==> scalar_without_pads(
            encoded_scalar(x, list, me, cloaks, fee),
            list,
            me,
            cloaks,
            fee,
        ) == x,
{
    let q = group_order() as int;
    let pads = scalar_pad_sum(list, me, cloaks, fee);
    let v = (scalar_value(x) + pads) % q;
    assert(0 <= v < q);
    crate::scalar::lemma_scalar_with_value(v as nat);
    let w = (v - pads) % q;
    assert(0 <= w < q);
    crate::scalar::lemma_scalar_with_value(w as nat);
    vstd::arithmetic::div_mod::lemma_sub_mod_noop(scalar_value(x) + pads, pads, q);
    vstd::arithmetic::div_mod::lemma_sub_mod_noop_right(v, pads, q);
    assert(w == (scalar_value(x) as int) % q);
    if scalar_value(x) < group_order() {
        vstd::arithmetic::div_mod::lemma_small_mod(scalar_value(x), group_order());
        crate::scalar::lemma_scalar_value_injective(
            scalar_without_pads(encoded_scalar(x, list, me, cloaks, fee), list, me, cloaks, fee),
            x,
        );
    }
}

} // verus!
