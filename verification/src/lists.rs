//! Looking up and gathering what the session keeps for each participant.

use crate::dicemix::{find_cloak, rows_of, Cloak};
use crate::hashing::{shared_cloak, Digest};
use crate::model::{
    all_signed, cloaks_from, cloaks_toward, collect_keys, collect_sigs, collect_txins, convicted,
    keep_parsed, kept_members, key_for, listed, member_ids, member_txins, scalar_sum,
    sig_for, txins_for,
};
use crate::message::SchnorrSig;
use crate::participant::ParticipantID;
use crate::scalar::{zero, Scalar};
use crate::types::{
    member_views, txin_views, KeyEntry, PoolMember, SigEntry, TxinEntry, Verdict,
};
use vstd::prelude::*;

verus! {

/// A copy of the list.
pub fn copy_vec<T: Copy>(v: &Vec<T>) -> (out: Vec<T>)
    ensures
        out@ == v@,
{
    let mut out: Vec<T> = Vec::new();
    let mut i: usize = 0;
    while i < v.len()
        invariant
            i <= v.len(),
            out@ == v@.take(i as int),
        decreases v.len() - i,
    {
        out.push(v[i]);
        assert(v@.take(i + 1) =~= v@.take(i as int).push(v@[i as int]));
        i += 1;
    }
    assert(v@.take(v@.len() as int) =~= v@);
    out
}

/// A copy of the rows.
pub fn copy_rows(rows: &Vec<Vec<u8>>) -> (out: Vec<Vec<u8>>)
    ensures
        rows_of(out@) == rows_of(rows@),
{
    let mut out: Vec<Vec<u8>> = Vec::new();
    let mut i: usize = 0;
    while i < rows.len()
        invariant
            i <= rows.len(),
            out@.len() == i,
            forall|j: int| 0 <= j < i ==> out@[j]@ == rows@[j]@,
        decreases rows.len() - i,
    {
        out.push(copy_vec(&rows[i]));
        i += 1;
    }
    assert(rows_of(out@) =~= rows_of(rows@));
    out
}

/// The 32 bytes kept for `p`, if there are any.
pub fn find_key(entries: &Vec<KeyEntry>, p: &ParticipantID) -> (r: Option<[u8; 32]>)
    ensures
        r == key_for(entries@, *p),
{
    let mut i: usize = 0;
    assert(entries@.skip(0) =~= entries@);
    while i < entries.len()
        invariant
            i <= entries.len(),
            key_for(entries@, *p) == key_for(entries@.skip(i as int), *p),
        decreases entries.len() - i,
    {
        if entries[i].id.same(p) {
            return Some(entries[i].value);
        }
        assert(entries@.skip(i as int).skip(1) =~= entries@.skip(i + 1));
        i += 1;
    }
    None
}

/// The part of the signature kept for `p`, if there is one.
pub fn find_sig(entries: &Vec<SigEntry>, p: &ParticipantID) -> (r: Option<SchnorrSig>)
    ensures
        r == sig_for(entries@, *p),
{
    let mut i: usize = 0;
    assert(entries@.skip(0) =~= entries@);
    while i < entries.len()
        invariant
            i <= entries.len(),
            sig_for(entries@, *p) == sig_for(entries@.skip(i as int), *p),
        decreases entries.len() - i,
    {
        if entries[i].id.same(p) {
            return Some(entries[i].sig);
        }
        assert(entries@.skip(i as int).skip(1) =~= entries@.skip(i + 1));
        i += 1;
    }
    None
}

/// Appends the inputs kept for `p`.
#[verifier::rlimit(40)]
fn push_txins(out: &mut Vec<Digest>, all: &Vec<TxinEntry>, p: &ParticipantID)
    ensures
        final(out)@ == old(out)@ + txins_for(txin_views(all@), *p),
{
    let ghost views = txin_views(all@);
    let mut i: usize = 0;
    assert(views.skip(0) =~= views);
    while i < all.len()
        invariant
            i <= all.len(),
            views == txin_views(all@),
            *out == *old(out),
            txins_for(views, *p) == txins_for(views.skip(i as int), *p),
        decreases all.len() - i,
    {
        if all[i].id.same(p) {
            let txins = &all[i].txins;
            assert(views.skip(i as int)[0] == all@[i as int]@);
            let mut j: usize = 0;
            while j < txins.len()
                invariant
                    j <= txins.len(),
                    out@ == old(out)@ + txins@.take(j as int),
                decreases txins.len() - j,
            {
                out.push(txins[j]);
                assert(txins@.take(j + 1) =~= txins@.take(j as int).push(txins@[j as int]));
                assert(out@ =~= old(out)@ + txins@.take(j + 1));
                j += 1;
            }
            assert(txins@.take(txins@.len() as int) =~= txins@);
            return ;
        }
        assert(views.skip(i as int)[0] == all@[i as int]@);
        assert(views.skip(i as int).skip(1) =~= views.skip(i + 1));
        i += 1;
    }
    assert(out@ =~= old(out)@ + Seq::<Digest>::empty());
}

/// The inputs of the participants of `list`, in that order.
pub fn gather_txins(list: &Vec<ParticipantID>, all: &Vec<TxinEntry>) -> (out: Vec<Digest>)
    ensures
        out@ == collect_txins(list@, txin_views(all@)),
{
    let mut out: Vec<Digest> = Vec::new();
    let mut i: usize = 0;
    assert(list@.take(0) =~= Seq::<ParticipantID>::empty());
    while i < list.len()
        invariant
            i <= list.len(),
            out@ == collect_txins(list@.take(i as int), txin_views(all@)),
        decreases list.len() - i,
    {
        proof {
            assert(list@.take(i + 1).drop_last() =~= list@.take(i as int));
            assert(list@.take(i + 1).last() == list@[i as int]);
        }
        push_txins(&mut out, all, &list[i]);
        i += 1;
    }
    assert(list@.take(list@.len() as int) =~= list@);
    out
}

/// What is kept for the participants of `list`, in that order.
pub fn gather_keys(list: &Vec<ParticipantID>, entries: &Vec<KeyEntry>) -> (out: Vec<[u8; 32]>)
    ensures
        out@ == collect_keys(list@, entries@),
{
    let mut out: Vec<[u8; 32]> = Vec::new();
    let mut i: usize = 0;
    assert(list@.take(0) =~= Seq::<ParticipantID>::empty());
    while i < list.len()
        invariant
            i <= list.len(),
            out@ == collect_keys(list@.take(i as int), entries@),
        decreases list.len() - i,
    {
        proof {
            assert(list@.take(i + 1).drop_last() =~= list@.take(i as int));
            assert(list@.take(i + 1).last() == list@[i as int]);
        }
        match find_key(entries, &list[i]) {
            Some(v) => {
                out.push(v);
            },
            None => {},
        }
        i += 1;
    }
    assert(list@.take(list@.len() as int) =~= list@);
    out
}

/// The parts of the signature of the participants of `list`, in that
/// order.
pub fn gather_sigs(list: &Vec<ParticipantID>, entries: &Vec<SigEntry>) -> (out: Vec<SchnorrSig>)
    ensures
        out@ == collect_sigs(list@, entries@),
{
    let mut out: Vec<SchnorrSig> = Vec::new();
    let mut i: usize = 0;
    assert(list@.take(0) =~= Seq::<ParticipantID>::empty());
    while i < list.len()
        invariant
            i <= list.len(),
            out@ == collect_sigs(list@.take(i as int), entries@),
        decreases list.len() - i,
    {
        proof {
            assert(list@.take(i + 1).drop_last() =~= list@.take(i as int));
            assert(list@.take(i + 1).last() == list@[i as int]);
        }
        match find_sig(entries, &list[i]) {
            Some(v) => {
                out.push(v);
            },
            None => {},
        }
        i += 1;
    }
    assert(list@.take(list@.len() as int) =~= list@);
    out
}

/// The sum of the scalars of the parts of a signature.
pub fn sum_sig_scalars(sigs: &Vec<SchnorrSig>) -> (out: Scalar)
    ensures
        out == scalar_sum(crate::model::sig_scalars(sigs@)),
{
    let mut us: Vec<Scalar> = Vec::new();
    let mut i: usize = 0;
    while i < sigs.len()
        invariant
            i <= sigs.len(),
            us@.len() == i,
            forall|j: int| 0 <= j < i ==> us@[j] == sigs@[j].u,
        decreases sigs.len() - i,
    {
        us.push(sigs[i].u);
        i += 1;
    }
    assert(us@ =~= crate::model::sig_scalars(sigs@));
    sum_scalars(&us)
}

/// Whether every participant of `list` has sent its part of the
/// signature.
pub fn have_all_signed(list: &Vec<ParticipantID>, entries: &Vec<SigEntry>) -> (r: bool)
    ensures
        r == all_signed(list@, entries@),
{
    let mut i: usize = 0;
    while i < list.len()
        invariant
            i <= list.len(),
            forall|j: int| 0 <= j < i ==> sig_for(entries@, #[trigger] list@[j]) is Some,
        decreases list.len() - i,
    {
        if find_sig(entries, &list[i]).is_none() {
            return false;
        }
        i += 1;
    }
    true
}

/// The cloak shared with each peer in the round of `sid`.
pub fn derive_cloaks(shared: &Vec<KeyEntry>, sid: &Digest) -> (out: Vec<Cloak>)
    ensures
        out@ == cloaks_from(shared@, *sid),
{
    let mut out: Vec<Cloak> = Vec::new();
    let mut i: usize = 0;
    while i < shared.len()
        invariant
            i <= shared.len(),
            out@.len() == i,
            forall|j: int|
                0 <= j < i ==> out@[j] == (Cloak {
                    id: shared@[j].id,
                    key: crate::hashing::shared_cloak_of(shared@[j].value, *sid),
                }),
        decreases shared.len() - i,
    {
        let key = shared_cloak(&shared[i].value, sid);
        out.push(Cloak { id: shared[i].id, key });
        i += 1;
    }
    assert(out@ =~= cloaks_from(shared@, *sid));
    out
}

/// The cloaks shared with the participants of `excl`, in that order.
pub fn select_cloaks(cloaks: &Vec<Cloak>, excl: &Vec<ParticipantID>) -> (out: Vec<Cloak>)
    ensures
        out@ == cloaks_toward(cloaks@, excl@),
{
    let mut out: Vec<Cloak> = Vec::new();
    let mut i: usize = 0;
    assert(excl@.take(0) =~= Seq::<ParticipantID>::empty());
    while i < excl.len()
        invariant
            i <= excl.len(),
            out@ == cloaks_toward(cloaks@, excl@.take(i as int)),
        decreases excl.len() - i,
    {
        proof {
            assert(excl@.take(i + 1).drop_last() =~= excl@.take(i as int));
            assert(excl@.take(i + 1).last() == excl@[i as int]);
        }
        match find_cloak(cloaks, &excl[i]) {
            Some(key) => {
                out.push(Cloak { id: excl[i], key });
            },
            None => {},
        }
        i += 1;
    }
    assert(excl@.take(excl@.len() as int) =~= excl@);
    out
}

/// The sum of the scalars in the field.
pub fn sum_scalars(all: &Vec<Scalar>) -> (out: Scalar)
    ensures
        out == scalar_sum(all@),
{
    let mut acc = zero();
    let mut i: usize = 0;
    assert(all@.take(0) =~= Seq::<Scalar>::empty());
    while i < all.len()
        invariant
            i <= all.len(),
            acc == scalar_sum(all@.take(i as int)),
        decreases all.len() - i,
    {
        proof {
            assert(all@.take(i + 1).drop_last() =~= all@.take(i as int));
            assert(all@.take(i + 1).last() == all@[i as int]);
        }
        acc = crate::scalar::add(&acc, &all[i]);
        i += 1;
    }
    assert(all@.take(all@.len() as int) =~= all@);
    acc
}

/// The rows that are outputs: those that are not all zero and were found
/// to be outputs.
pub fn select_parsed(rows: &Vec<Vec<u8>>, parsed: &Vec<bool>) -> (out: Vec<Vec<u8>>)
    ensures
        rows_of(out@) == keep_parsed(rows_of(rows@), parsed@),
{
    let mut out: Vec<Vec<u8>> = Vec::new();
    let mut i: usize = 0;
    let ghost all = rows_of(rows@);
    assert(all.take(0) =~= Seq::<Seq<u8>>::empty());
    assert(rows_of(out@) =~= Seq::<Seq<u8>>::empty());
    while i < rows.len()
        invariant
            i <= rows.len(),
            all == rows_of(rows@),
            rows_of(out@) == keep_parsed(all.take(i as int), parsed@),
        decreases rows.len() - i,
    {
        proof {
            assert(all.take(i + 1).drop_last() =~= all.take(i as int));
            assert(all.take(i + 1).last() == rows@[i as int]@);
        }
        if i < parsed.len() && parsed[i] && crate::blame::has_content(&rows[i]) {
            let ghost before = rows_of(out@);
            out.push(copy_vec(&rows[i]));
            assert(rows_of(out@) =~= before.push(rows@[i as int]@));
        }
        i += 1;
    }
    assert(all.take(all.len() as int) =~= all);
    out
}

/// Whether `row` is `utxo` as it stands in a row of `size` bytes.
fn row_is_fitted(row: &Vec<u8>, utxo: &Vec<u8>, size: usize) -> (r: bool)
    ensures
        r == (row@ == crate::model::fitted(utxo@, size as int)),
{
    if row.len() != size {
        return false;
    }
    let mut j: usize = 0;
    while j < size
        invariant
            j <= size,
            row@.len() == size,
            forall|k: int|
                0 <= k < j ==> row@[k] == (if k < utxo@.len() {
                    utxo@[k]
                } else {
                    0u8
                }),
        decreases size - j,
    {
        let want: u8 = if j < utxo.len() {
            utxo[j]
        } else {
            0
        };
        if row[j] != want {
            assert(row@[j as int] != crate::model::fitted(utxo@, size as int)[j as int]);
            return false;
        }
        j += 1;
    }
    assert(row@ =~= crate::model::fitted(utxo@, size as int));
    true
}

/// Whether the outputs of the participant at `place` came out of the
/// matrix.
pub fn came_out(rows: &Vec<Vec<u8>>, place: usize, mine: &Vec<Vec<u8>>, size: usize) -> (r: bool)
    ensures
        r == crate::model::own_came_out(
            rows_of(rows@),
            place as int,
            rows_of(mine@),
            size as int,
        ),
{
    let ghost all = rows_of(rows@);
    let ghost own = rows_of(mine@);
    let mut slot: usize = 0;
    while slot < 5
        invariant
            slot <= 5,
            all == rows_of(rows@),
            own == rows_of(mine@),
            forall|k: int|
                0 <= k < slot ==> #[trigger] crate::model::came_out_at(
                    all,
                    place as int,
                    own,
                    size as int,
                    k,
                ),
        decreases 5 - slot,
    {
        if slot < mine.len() {
            assert(own[slot as int] == mine@[slot as int]@);
            let at: Option<usize> = match place.checked_mul(5) {
                Some(first) => first.checked_add(slot),
                None => None,
            };
            let r: usize = match at {
                Some(r) => r,
                None => rows.len(),
            };
            if r >= rows.len() {
                assert(place * 5 + slot >= rows@.len());
                assert(!crate::model::came_out_at(all, place as int, own, size as int, slot as int));
                return false;
            }
            assert(all[r as int] == rows@[r as int]@);
            if !row_is_fitted(&rows[r], &mine[slot], size) {
                assert(!crate::model::came_out_at(all, place as int, own, size as int, slot as int));
                return false;
            }
        }
        slot += 1;
    }
    true
}

/// The participants in whose contribution a fault was found.
pub fn list_convicted(verdicts: &Vec<Verdict>) -> (out: Vec<ParticipantID>)
    ensures
        out@ == convicted(verdicts@),
{
    let mut out: Vec<ParticipantID> = Vec::new();
    let mut i: usize = 0;
    assert(verdicts@.take(0) =~= Seq::<Verdict>::empty());
    while i < verdicts.len()
        invariant
            i <= verdicts.len(),
            out@ == convicted(verdicts@.take(i as int)),
        decreases verdicts.len() - i,
    {
        proof {
            assert(verdicts@.take(i + 1).drop_last() =~= verdicts@.take(i as int));
            assert(verdicts@.take(i + 1).last() == verdicts@[i as int]);
        }
        let v = verdicts[i];
        if !(v.balance_ok && v.range_ok && v.signature_ok) {
            out.push(v.id);
        }
        i += 1;
    }
    assert(verdicts@.take(verdicts@.len() as int) =~= verdicts@);
    out
}

/// Whether `me` is among the announced members.
pub fn is_listed(members: &Vec<PoolMember>, me: &ParticipantID) -> (r: bool)
    ensures
        r == listed(member_views(members@), *me),
{
    let mut i: usize = 0;
    while i < members.len()
        invariant
            i <= members.len(),
            forall|j: int| 0 <= j < i ==> member_views(members@)[j].id != *me,
        decreases members.len() - i,
    {
        if members[i].id.same(me) {
            assert(member_views(members@)[i as int].id == *me);
            return true;
        }
        i += 1;
    }
    false
}

/// The members that stay, as their identities and as their inputs: `me`,
/// and every other whose ownership signature is valid.
#[verifier::rlimit(40)]
pub fn keep_members(members: &Vec<PoolMember>, me: &ParticipantID) -> (out: (
    Vec<ParticipantID>,
    Vec<TxinEntry>,
))
    ensures
        out.0@ == member_ids(kept_members(member_views(members@), *me)),
        txin_views(out.1@) == member_txins(kept_members(member_views(members@), *me)),
        out.0@.len() == kept_members(member_views(members@), *me).len(),
{
    let mut ids: Vec<ParticipantID> = Vec::new();
    let mut txins: Vec<TxinEntry> = Vec::new();
    let ghost all = member_views(members@);
    let mut i: usize = 0;
    proof {
        assert(all.take(0) =~= Seq::<crate::types::MemberView>::empty());
        assert(ids@ =~= member_ids(kept_members(all.take(0), *me)));
        assert(txin_views(txins@) =~= member_txins(kept_members(all.take(0), *me)));
    }
    while i < members.len()
        invariant
            i <= members.len(),
            all == member_views(members@),
            ids@ == member_ids(kept_members(all.take(i as int), *me)),
            txin_views(txins@) == member_txins(kept_members(all.take(i as int), *me)),
            ids@.len() == kept_members(all.take(i as int), *me).len(),
            txins@.len() == ids@.len(),
        decreases members.len() - i,
    {
        proof {
            assert(all.take(i + 1).drop_last() =~= all.take(i as int));
            assert(all.take(i + 1).last() == members@[i as int]@);
        }
        let m = &members[i];
        if m.id.same(me) || m.ownership_valid {
            let ghost kept_before = kept_members(all.take(i as int), *me);
            let ghost before = txin_views(txins@);
            ids.push(m.id);
            txins.push(TxinEntry { id: m.id, txins: copy_vec(&m.txins) });
            proof {
                let kept = kept_members(all.take(i + 1), *me);
                assert(kept == kept_before.push(members@[i as int]@));
                assert(ids@ =~= member_ids(kept));
                let now = txin_views(txins@);
                let want = member_txins(kept);
                assert(now.len() == want.len());
                assert forall|j: int| 0 <= j < now.len() implies now[j] == want[j] by {
                    if j < before.len() {
                        assert(now[j] == before[j]);
                        assert(want[j] == member_txins(kept_before)[j]);
                    } else {
                        assert(now[j] =~= want[j]);
                    }
                }
                assert(now =~= want);
            }
        }
        i += 1;
    }
    assert(all.take(all.len() as int) =~= all);
    (ids, txins)
}

} // verus!
