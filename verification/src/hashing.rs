//! The hash function of the protocol and what the session hashes with it.

use crate::bytes::{le_u16, le_u64, push_bytes, push_le_u16, push_le_u64};
use crate::participant::{canonical, sort_dedup, ParticipantID};
use vstd::prelude::*;

verus! {

/// Width of a hash value.
pub const HASH_SIZE: usize = 32;

/// A 256-bit hash value.
pub type Digest = [u8; HASH_SIZE];

/// The SHA3-256 digest of `data`.
pub uninterp spec fn sha3_256(data: Seq<u8>) -> Seq<u8>;

/// `sha3::Sha3_256::digest`: the SHA3-256 digest of `data`, which is 32
/// bytes and depends on `data` alone. Nothing else is claimed of it.
#[verifier::external_body]
pub(crate) fn digest(data: &Vec<u8>) -> (out: Digest)
    ensures
        out@ == sha3_256(data@),
{
    let d = <sha3::Sha3_256 as sha3::Digest>::digest(data.as_slice());
    d.into()
}

/// The SHA3-256 digest of `data` as a hash value.
pub open spec fn digest_of(data: Seq<u8>) -> Digest {
    choose|d: Digest| d@ == sha3_256(data)
}

/// The hash of `data`.
pub fn hash_bytes(data: &Vec<u8>) -> (out: Digest)
    ensures
        out == digest_of(data@),
        out@ == sha3_256(data@),
{
    let out = digest(data);
    assert(out =~= digest_of(data@));
    out
}

/// The bytes of each identity of `s`, one after the other.
pub open spec fn ids_bytes(s: Seq<ParticipantID>) -> Seq<u8>
    decreases s.len(),
{
    if s.len() == 0 {
        Seq::<u8>::empty()
    } else {
        ids_bytes(s.drop_last()) + s.last().bytes()
    }
}

/// Appends the bytes of each identity of `list`.
pub fn push_ids(buf: &mut Vec<u8>, list: &Vec<ParticipantID>)
    ensures
        final(buf)@ == old(buf)@ + ids_bytes(list@),
{
    let mut i: usize = 0;
    assert(list@.take(0) =~= Seq::<ParticipantID>::empty());
    while i < list.len()
        invariant
            i <= list.len(),
            buf@ == old(buf)@ + ids_bytes(list@.take(i as int)),
        decreases list.len() - i,
    {
        push_bytes(buf, &list[i].pkey);
        push_bytes(buf, &list[i].seed);
        proof {
            let next = list@.take(i + 1);
            assert(next.drop_last() =~= list@.take(i as int));
            assert(next.last() == list@[i as int]);
            assert(buf@ =~= old(buf)@ + ids_bytes(next));
        }
        i += 1;
    }
    assert(list@.take(list@.len() as int) =~= list@);
}

/// The tag `sid`.
pub open spec fn tag_sid() -> Seq<u8> {
    seq![0x73u8, 0x69u8, 0x64u8]
}

/// The tag `kVal`.
pub open spec fn tag_kval() -> Seq<u8> {
    seq![0x6bu8, 0x56u8, 0x61u8, 0x6cu8]
}

/// The tag `CM`.
pub open spec fn tag_cm() -> Seq<u8> {
    seq![0x43u8, 0x4du8]
}

/// What is hashed into the session id of a round: the tag `sid`, the
/// session id before it, the round (two bytes, least significant first),
/// and the participants in order, each once.
pub open spec fn session_id_preimage(prev: Digest, round: u16, participants: Seq<ParticipantID>) -> Seq<u8> {
    tag_sid() + prev@ + le_u16(round) + ids_bytes(canonical(participants))
}

/// The session id of round `round` among `participants`, after `prev`.
pub open spec fn session_id_of(prev: Digest, round: u16, participants: Seq<ParticipantID>) -> Digest {
    digest_of(session_id_preimage(prev, round, participants))
}

/// The session id of a round. The order of `participants`, and an identity
/// that stands twice, make no difference.
pub fn session_id(prev: &Digest, round: u16, participants: &Vec<ParticipantID>) -> (sid: Digest)
    ensures
        sid == session_id_of(*prev, round, participants@),
{
    let sorted = sort_dedup(participants);
    let mut buf: Vec<u8> = Vec::new();
    buf.push(0x73u8);
    buf.push(0x69u8);
    buf.push(0x64u8);
    assert(buf@ =~= tag_sid());
    push_bytes(&mut buf, prev);
    push_le_u16(&mut buf, round);
    push_ids(&mut buf, &sorted);
    hash_bytes(&buf)
}

/// What the round nonce is derived from: the hash of the tag `kVal`, the
/// session id and the signing secret.
pub open spec fn nonce_seed_of(sid: Digest, skey: [u8; 32]) -> Digest {
    digest_of(tag_kval() + sid@ + skey@)
}

/// The seed of the round nonce. It changes with the session id, so that no
/// nonce serves two rounds.
pub fn nonce_seed(sid: &Digest, skey: &[u8; 32]) -> (seed: Digest)
    ensures
        seed == nonce_seed_of(*sid, *skey),
{
    let mut buf: Vec<u8> = Vec::new();
    buf.push(0x6bu8);
    buf.push(0x56u8);
    buf.push(0x61u8);
    buf.push(0x6cu8);
    assert(buf@ =~= tag_kval());
    push_bytes(&mut buf, sid);
    push_bytes(&mut buf, skey);
    hash_bytes(&buf)
}

/// What the session key pair of a round is derived from: the hash of the
/// session id and the signing secret.
pub open spec fn session_key_seed_of(sid: Digest, skey: [u8; 32]) -> Digest {
    digest_of(sid@ + skey@)
}

/// The seed of the session key pair of a round.
pub fn session_key_seed(sid: &Digest, skey: &[u8; 32]) -> (seed: Digest)
    ensures
        seed == session_key_seed_of(*sid, *skey),
{
    let mut buf: Vec<u8> = Vec::new();
    push_bytes(&mut buf, sid);
    assert(buf@ =~= sid@);
    push_bytes(&mut buf, skey);
    hash_bytes(&buf)
}

/// The cloak between two participants: the hash of their shared secret and
/// the session id.
pub open spec fn shared_cloak_of(shared: [u8; 32], sid: Digest) -> Digest {
    digest_of(shared@ + sid@)
}

/// The cloak between two participants in one round.
pub fn shared_cloak(shared: &[u8; 32], sid: &Digest) -> (k: Digest)
    ensures
        k == shared_cloak_of(*shared, *sid),
{
    let mut buf: Vec<u8> = Vec::new();
    push_bytes(&mut buf, shared);
    assert(buf@ =~= shared@);
    push_bytes(&mut buf, sid);
    hash_bytes(&buf)
}

/// The hash of one identity.
pub open spec fn id_digest_of(p: ParticipantID) -> Digest {
    digest_of(p.bytes())
}

/// The hash of one identity.
pub fn id_digest(p: &ParticipantID) -> (h: Digest)
    ensures
        h == id_digest_of(*p),
{
    let mut buf: Vec<u8> = Vec::new();
    push_bytes(&mut buf, &p.pkey);
    assert(buf@ =~= p.pkey@);
    push_bytes(&mut buf, &p.seed);
    hash_bytes(&buf)
}

/// The hash of the participants in order, each once.
pub open spec fn ids_digest_of(participants: Seq<ParticipantID>) -> Digest {
    digest_of(ids_bytes(canonical(participants)))
}

/// The hash of the participants in order, each once.
pub fn ids_digest(participants: &Vec<ParticipantID>) -> (h: Digest)
    ensures
        h == ids_digest_of(participants@),
{
    let sorted = sort_dedup(participants);
    let mut buf: Vec<u8> = Vec::new();
    push_ids(&mut buf, &sorted);
    assert(buf@ =~= ids_bytes(sorted@));
    hash_bytes(&buf)
}

/// What a commitment hashes: the tag `CM`, the cells of the matrix in
/// order, the cloaked adjustment and the cloaked fee.
pub open spec fn commitment_of(matrix: Seq<u8>, gamma: [u8; 32], fee: [u8; 32]) -> Digest {
    digest_of(tag_cm() + matrix + gamma@ + fee@)
}

/// The commitment to a cloaked matrix, a cloaked adjustment and a cloaked
/// fee.
pub fn hash_data(matrix: &Vec<u8>, cloaked_gamma_adj: &[u8; 32], cloaked_fee: &[u8; 32]) -> (cmt:
    Digest)
    ensures
        cmt == commitment_of(matrix@, *cloaked_gamma_adj, *cloaked_fee),
{
    let mut buf: Vec<u8> = Vec::new();
    buf.push(0x43u8);
    buf.push(0x4du8);
    assert(buf@ =~= tag_cm());
    push_bytes(&mut buf, matrix.as_slice());
    push_bytes(&mut buf, cloaked_gamma_adj);
    push_bytes(&mut buf, cloaked_fee);
    hash_bytes(&buf)
}

/// The 32 bytes that cloak one cell: the hash of the cloak, the row and
/// the chunk, each number as eight bytes, least significant first.
pub open spec fn pad_block_of(cloak: Digest, row: u64, chunk: u64) -> Digest {
    digest_of(cloak@ + le_u64(row) + le_u64(chunk))
}

/// The 32 bytes that cloak the cell at `row` and `chunk`.
pub fn pad_block(cloak: &Digest, row: u64, chunk: u64) -> (pad: Digest)
    ensures
        pad == pad_block_of(*cloak, row, chunk),
{
    let mut buf: Vec<u8> = Vec::new();
    push_bytes(&mut buf, cloak);
    assert(buf@ =~= cloak@);
    push_le_u64(&mut buf, row);
    push_le_u64(&mut buf, chunk);
    hash_bytes(&buf)
}

/// Whether two hash values are the same.
pub fn same_hash(a: &Digest, b: &Digest) -> (r: bool)
    ensures
        r == (*a == *b),
{
    let mut i: usize = 0;
    while i < 32
        invariant
            i <= 32,
            forall|j: int| 0 <= j < i ==> a[j] == b[j],
        decreases 32 - i,
    {
        if a[i] != b[i] {
            return false;
        }
        i += 1;
    }
    assert(*a =~= *b);
    true
}

} // verus!
