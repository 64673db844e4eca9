//! Who leads after a round that succeeded.

use crate::bytes::{be_value, compare_bytes, lemma_lex_is_value_order, Position};
use crate::hashing::{id_digest, id_digest_of, ids_digest, ids_digest_of, Digest};
use crate::participant::{
    sort_dedup, strictly_sorted, ParticipantID,
};
use vstd::prelude::*;

verus! {

/// The two strings added bit by bit.
pub open spec fn xor_bytes(a: Seq<u8>, b: Seq<u8>) -> Seq<u8> {
    Seq::new(a.len(), |i: int| a[i] ^ b[i])
}

/// How far the hash of `p` is from the hash of all participants: the two
/// hashes added bit by bit, read as a number.
pub open spec fn distance_of(p: ParticipantID, participants: Seq<ParticipantID>) -> nat {
    be_value(xor_bytes(id_digest_of(p)@, ids_digest_of(participants)@))
}

/// `l` leads `participants`: it is one of them, none is nearer to the hash
/// of all, and of those as near none comes earlier.
pub open spec fn leads(l: ParticipantID, participants: Seq<ParticipantID>) -> bool {
    &&& participants.contains(l)
    &&& forall|q: ParticipantID| #[trigger]
        participants.contains(q) ==> {
            ||| distance_of(l, participants) < distance_of(q, participants)
            ||| (distance_of(l, participants) == distance_of(q, participants) && l.rank()
                <= q.rank())
        }
}

/// Participants have one leader.
pub proof fn lemma_leader_unique(a: ParticipantID, b: ParticipantID, participants: Seq<ParticipantID>)
    requires
        leads(a, participants),
    ensures
        leads(b, participants) <==> a == b,
{
    if leads(b, participants) {
        crate::participant::lemma_rank_injective(a, b);
    }
}

/// The two hashes added bit by bit.
fn xor_digests(a: &Digest, b: &Digest) -> (out: Digest)
    ensures
        out@ == xor_bytes(a@, b@),
{
    let mut out: Digest = [0u8; 32];
    let mut i: usize = 0;
    while i < 32
        invariant
            i <= 32,
            forall|j: int| 0 <= j < i ==> out@[j] == a@[j] ^ b@[j],
        decreases 32 - i,
    {
        out[i] = a[i] ^ b[i];
        i += 1;
    }
    assert(out@ =~= xor_bytes(a@, b@));
    out
}

/// The leader of `participants`, if there is any participant.
pub fn leader_id(participants: &Vec<ParticipantID>) -> (r: Option<ParticipantID>)
    ensures
        r is None <==> participants@.len() == 0,
        r is Some ==> leads(r->Some_0, participants@),
{
    let sorted = sort_dedup(participants);
    if sorted.len() == 0 {
        proof {
            if participants@.len() > 0 {
                assert(participants@.contains(participants@[0]));
            }
        }
        return None;
    }
    let all = ids_digest(participants);
    let mut best = sorted[0];
    let mut best_distance = xor_digests(&id_digest(&best), &all);
    let mut i: usize = 1;
    while i < sorted.len()
        invariant
            1 <= i <= sorted.len(),
            strictly_sorted(sorted@),
            all == ids_digest_of(participants@),
            best_distance@ == xor_bytes(id_digest_of(best)@, all@),
            exists|k: int| 0 <= k < i && sorted@[k] == best,
            forall|j: int|
                0 <= j < i ==> {
                    ||| distance_of(best, participants@) < distance_of(
                        #[trigger] sorted@[j],
                        participants@,
                    )
                    ||| (distance_of(best, participants@) == distance_of(
                        sorted@[j],
                        participants@,
                    ) && best.rank() <= sorted@[j].rank())
                },
        decreases sorted.len() - i,
    {
        let p = sorted[i];
        let d = xor_digests(&id_digest(&p), &all);
        proof {
            lemma_lex_is_value_order(d@, best_distance@);
            lemma_lex_is_value_order(best_distance@, d@);
        }
        match compare_bytes(&d, &best_distance) {
            Position::Before => {
                best = p;
                best_distance = d;
            },
            _ => {},
        }
        i += 1;
    }
    proof {
        let k = choose|k: int| 0 <= k < sorted@.len() && sorted@[k] == best;
        assert(sorted@.contains(best));
        assert forall|q: ParticipantID| #[trigger] participants@.contains(q) implies {
            ||| distance_of(best, participants@) < distance_of(q, participants@)
            ||| (distance_of(best, participants@) == distance_of(q, participants@) && best.rank()
                <= q.rank())
        } by {
            assert(sorted@.contains(q));
            let j = choose|j: int| 0 <= j < sorted@.len() && sorted@[j] == q;
            assert(sorted@[j] == q);
        }
    }
    Some(best)
}

} // verus!
