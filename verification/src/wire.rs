//! Messages as bytes.
//!
//! A message travels as the length of what follows (four bytes, least
//! significant first), the session id, the source, the destination, one
//! byte for the kind of payload, and the payload. Byte strings of varying
//! length, and lists, are preceded by their length or count in four bytes.

use crate::bytes::{le_u32, push_bytes, push_le_u32};
use crate::dicemix::Cloak;
use crate::hashing::Digest;
use crate::message::{MessageView, PayloadView, SchnorrSig, SnowballMessage, SnowballPayload};
use crate::participant::ParticipantID;
use vstd::prelude::*;

verus! {

/// Bytes of one identity.
pub const ID_SIZE: usize = 97;

/// Bytes of one cloak with its identity.
pub const CLOAK_SIZE: usize = 129;

/// Bytes before the payload: session id, source, destination.
pub const HEADER_SIZE: usize = 226;

/// The cloaks one after the other, each as its identity and its key.
pub open spec fn cloaks_bytes(cloaks: Seq<Cloak>) -> Seq<u8>
    decreases cloaks.len(),
{
    if cloaks.len() == 0 {
        Seq::<u8>::empty()
    } else {
        cloaks_bytes(cloaks.drop_last()) + cloaks.last().id.bytes() + cloaks.last().key@
    }
}

/// The byte that tells the kind of a payload.
pub open spec fn tag_of(p: PayloadView) -> u8 {
    match p {
        PayloadView::SharedKeying { .. } => 1,
        PayloadView::Commitment { .. } => 2,
        PayloadView::CloakedVals { .. } => 3,
        PayloadView::Signature { .. } => 4,
        PayloadView::SecretKeying { .. } => 5,
    }
}

/// What follows the kind.
pub open spec fn body_bytes(p: PayloadView) -> Seq<u8> {
    match p {
        PayloadView::SharedKeying { pkey, ksig } => pkey@ + ksig@,
        PayloadView::Commitment { cmt } => cmt@,
        PayloadView::CloakedVals { matrix, gamma_sum, fee_sum, cloaks } => le_u32(
            matrix.len() as u32,
        ) + matrix + gamma_sum@ + fee_sum@ + le_u32(cloaks.len() as u32) + cloaks_bytes(cloaks),
        PayloadView::Signature { sig } => sig.u@ + sig.k@,
        PayloadView::SecretKeying { skey } => skey@,
    }
}

/// A message without the length in front.
pub open spec fn envelope_bytes(m: MessageView) -> Seq<u8> {
    m.sid@ + m.source.bytes() + m.destination.bytes() + seq![tag_of(m.payload)] + body_bytes(
        m.payload,
    )
}

/// Whether the lengths of a message can be written in four bytes.
pub open spec fn fits(m: MessageView) -> bool {
    envelope_bytes(m).len() <= u32::MAX
}

/// A message as it travels.
pub open spec fn wire(m: MessageView) -> Seq<u8> {
    le_u32(envelope_bytes(m).len() as u32) + envelope_bytes(m)
}

/// The number that four bytes spell, least significant first.
pub open spec fn u32_of(s: Seq<u8>, at: int) -> int {
    s[at] + 256 * s[at + 1] + 65536 * s[at + 2] + 16777216 * s[at + 3]
}

/// Reading what was written gives the number back.
pub proof fn lemma_u32_round_trip(x: u32)
    ensures
        le_u32(x).len() == 4,
        u32_of(le_u32(x), 0) == x,
{
}

/// Four bytes are known from the number they spell.
pub proof fn lemma_u32_bytes(s: Seq<u8>, x: u32)
    requires
        s.len() == 4,
        u32_of(s, 0) == x,
    ensures
        s == le_u32(x),
{
    let s0 = s[0] as int;
    let s1 = s[1] as int;
    let s2 = s[2] as int;
    let s3 = s[3] as int;
    let v = x as int;
    assert(v == s0 + 256 * (s1 + 256 * (s2 + 256 * s3)));
    assert(v % 256 == s0 && v / 256 == s1 + 256 * (s2 + 256 * s3));
    assert((v / 256) % 256 == s1);
    assert(v == (s0 + 256 * s1) + 65536 * (s2 + 256 * s3));
    assert(v / 65536 == s2 + 256 * s3 && (v / 65536) % 256 == s2);
    assert(v == (s0 + 256 * s1 + 65536 * s2) + 16777216 * s3);
    assert(v / 16777216 == s3);
    assert(s =~= le_u32(x));
}

pub proof fn lemma_cloaks_bytes_len(cloaks: Seq<Cloak>)
    ensures
        cloaks_bytes(cloaks).len() == cloaks.len() * 129,
    decreases cloaks.len(),
{
    if cloaks.len() > 0 {
        lemma_cloaks_bytes_len(cloaks.drop_last());
    }
}

/// Appends the bytes of one identity.
fn push_id(buf: &mut Vec<u8>, id: &ParticipantID)
    ensures
        final(buf)@ == old(buf)@ + id.bytes(),
{
    push_bytes(buf, &id.pkey);
    push_bytes(buf, &id.seed);
    assert(buf@ =~= old(buf)@ + id.bytes());
}

/// Appends the cloaks.
fn push_cloaks(buf: &mut Vec<u8>, cloaks: &Vec<Cloak>)
    ensures
        final(buf)@ == old(buf)@ + cloaks_bytes(cloaks@),
{
    let mut i: usize = 0;
    assert(cloaks@.take(0) =~= Seq::<Cloak>::empty());
    assert(buf@ =~= old(buf)@ + cloaks_bytes(cloaks@.take(0)));
    while i < cloaks.len()
        invariant
            i <= cloaks.len(),
            buf@ == old(buf)@ + cloaks_bytes(cloaks@.take(i as int)),
        decreases cloaks.len() - i,
    {
        push_id(buf, &cloaks[i].id);
        push_bytes(buf, &cloaks[i].key);
        proof {
            let next = cloaks@.take(i + 1);
            assert(next.drop_last() =~= cloaks@.take(i as int));
            assert(next.last() == cloaks@[i as int]);
            assert(buf@ =~= old(buf)@ + cloaks_bytes(next));
        }
        i += 1;
    }
    assert(cloaks@.take(cloaks@.len() as int) =~= cloaks@);
}

/// The bytes of the payload after its kind, if its lengths can be
/// written.
fn body_of(payload: &SnowballPayload) -> (r: Option<Vec<u8>>)
    ensures
        r is Some ==> r->Some_0@ == body_bytes(payload@),
        r is None ==> body_bytes(payload@).len() > u32::MAX,
{
    let mut buf: Vec<u8> = Vec::new();
    match payload {
        SnowballPayload::SharedKeying { pkey, ksig } => {
            push_bytes(&mut buf, pkey);
            push_bytes(&mut buf, ksig);
            assert(buf@ =~= body_bytes(payload@));
        },
        SnowballPayload::Commitment { cmt } => {
            push_bytes(&mut buf, cmt);
            assert(buf@ =~= body_bytes(payload@));
        },
        SnowballPayload::CloakedVals { matrix, gamma_sum, fee_sum, cloaks } => {
            proof {
                lemma_cloaks_bytes_len(cloaks@);
            }
            if matrix.len() > 0xffff_ffff || cloaks.len() > 0xffff_ffff {
                return None;
            }
            push_le_u32(&mut buf, matrix.len() as u32);
            push_bytes(&mut buf, matrix.as_slice());
            push_bytes(&mut buf, gamma_sum);
            push_bytes(&mut buf, fee_sum);
            push_le_u32(&mut buf, cloaks.len() as u32);
            push_cloaks(&mut buf, cloaks);
            assert(buf@ =~= body_bytes(payload@));
        },
        SnowballPayload::Signature { sig } => {
            push_bytes(&mut buf, &sig.u);
            push_bytes(&mut buf, &sig.k);
            assert(buf@ =~= body_bytes(payload@));
        },
        SnowballPayload::SecretKeying { skey } => {
            push_bytes(&mut buf, skey);
            assert(buf@ =~= body_bytes(payload@));
        },
    }
    Some(buf)
}

/// The byte that tells the kind of a payload.
fn tag(payload: &SnowballPayload) -> (t: u8)
    ensures
        t == tag_of(payload@),
{
    match payload {
        SnowballPayload::SharedKeying { .. } => 1,
        SnowballPayload::Commitment { .. } => 2,
        SnowballPayload::CloakedVals { .. } => 3,
        SnowballPayload::Signature { .. } => 4,
        SnowballPayload::SecretKeying { .. } => 5,
    }
}

impl SnowballMessage {
    /// The message as it travels; nothing where a length in it cannot be
    /// written in four bytes.
    #[verifier::rlimit(40)]
    pub fn into_buffer(&self) -> (r: Option<Vec<u8>>)
        ensures
            r is Some <==> fits(self@),
            r is Some ==> r->Some_0@ == wire(self@),
    {
        let body = match body_of(&self.payload) {
            Some(b) => b,
            None => {
                return None;
            },
        };
        if body.len() > 0xffff_ffff - 227 {
            return None;
        }
        let mut buf: Vec<u8> = Vec::new();
        push_le_u32(&mut buf, (body.len() + 227) as u32);
        push_bytes(&mut buf, &self.sid);
        push_id(&mut buf, &self.source);
        push_id(&mut buf, &self.destination);
        buf.push(tag(&self.payload));
        push_bytes(&mut buf, body.as_slice());
        proof {
            assert(envelope_bytes(self@).len() == body@.len() + 227);
            assert(buf@ =~= wire(self@));
        }
        Some(buf)
    }
}


// ---------------------------------------------------------------------
// Reading.

/// Two strings that begin with strings of one length are equal only if
/// those are, and what follows them.
pub proof fn lemma_split_equal(x1: Seq<u8>, y1: Seq<u8>, x2: Seq<u8>, y2: Seq<u8>)
    requires
        x1 + y1 == x2 + y2,
        x1.len() == x2.len(),
    ensures
        x1 == x2,
        y1 == y2,
{
    assert(x1 =~= (x1 + y1).subrange(0, x1.len() as int));
    assert(x2 =~= (x2 + y2).subrange(0, x2.len() as int));
    assert(y1 =~= (x1 + y1).subrange(x1.len() as int, (x1 + y1).len() as int));
    assert(y2 =~= (x2 + y2).subrange(x2.len() as int, (x2 + y2).len() as int));
}

/// An identity is known from its bytes.
pub proof fn lemma_id_bytes_injective(a: ParticipantID, b: ParticipantID)
    requires
        a.bytes() == b.bytes(),
    ensures
        a == b,
{
    lemma_split_equal(a.pkey@, a.seed@, b.pkey@, b.seed@);
    assert(a.pkey =~= b.pkey);
    assert(a.seed =~= b.seed);
}

/// Cloaks are known from their bytes and their count.
pub proof fn lemma_cloaks_bytes_injective(a: Seq<Cloak>, b: Seq<Cloak>)
    requires
        a.len() == b.len(),
        cloaks_bytes(a) == cloaks_bytes(b),
    ensures
        a == b,
    decreases a.len(),
{
    if a.len() == 0 {
        assert(a =~= b);
    } else {
        lemma_cloaks_bytes_len(a.drop_last());
        lemma_cloaks_bytes_len(b.drop_last());
        let ha = cloaks_bytes(a.drop_last());
        let hb = cloaks_bytes(b.drop_last());
        assert(cloaks_bytes(a) =~= ha + (a.last().id.bytes() + a.last().key@));
        assert(cloaks_bytes(b) =~= hb + (b.last().id.bytes() + b.last().key@));
        lemma_split_equal(
            ha,
            a.last().id.bytes() + a.last().key@,
            hb,
            b.last().id.bytes() + b.last().key@,
        );
        lemma_split_equal(a.last().id.bytes(), a.last().key@, b.last().id.bytes(), b.last().key@);
        lemma_id_bytes_injective(a.last().id, b.last().id);
        assert(a.last().key =~= b.last().key);
        lemma_cloaks_bytes_injective(a.drop_last(), b.drop_last());
        assert(a =~= a.drop_last().push(a.last()));
        assert(b =~= b.drop_last().push(b.last()));
    }
}

/// The bytes after the kind of what was opened, in their parts.
pub open spec fn opened_bytes(
    matrix: Seq<u8>,
    gamma_sum: [u8; 32],
    fee_sum: [u8; 32],
    cloaks: Seq<Cloak>,
) -> Seq<u8> {
    le_u32(matrix.len() as u32) + (matrix + (gamma_sum@ + (fee_sum@ + (le_u32(
        cloaks.len() as u32,
    ) + cloaks_bytes(cloaks)))))
}

pub proof fn lemma_opened_bytes(p: PayloadView)
    requires
        p is CloakedVals,
    ensures
        body_bytes(p) == opened_bytes(
            p->CloakedVals_matrix,
            p->CloakedVals_gamma_sum,
            p->CloakedVals_fee_sum,
            p->CloakedVals_cloaks,
        ),
        body_bytes(p).len() == 72 + p->CloakedVals_matrix.len() + 129
            * p->CloakedVals_cloaks.len(),
{
    lemma_cloaks_bytes_len(p->CloakedVals_cloaks);
    assert(body_bytes(p) =~= opened_bytes(
        p->CloakedVals_matrix,
        p->CloakedVals_gamma_sum,
        p->CloakedVals_fee_sum,
        p->CloakedVals_cloaks,
    ));
}

/// A payload is known from its kind and the bytes after it.
#[verifier::rlimit(40)]
pub proof fn lemma_body_injective(a: PayloadView, b: PayloadView)
    requires
        tag_of(a) == tag_of(b),
        body_bytes(a) == body_bytes(b),
        body_bytes(a).len() <= u32::MAX,
    ensures
        a == b,
{
    match (a, b) {
        (
            PayloadView::SharedKeying { pkey: pkey_a, ksig: ksig_a },
            PayloadView::SharedKeying { pkey: pkey_b, ksig: ksig_b },
        ) => {
            lemma_split_equal(pkey_a@, ksig_a@, pkey_b@, ksig_b@);
            assert(pkey_a =~= pkey_b);
            assert(ksig_a =~= ksig_b);
        },
        (PayloadView::Commitment { cmt: c1 }, PayloadView::Commitment { cmt: c2 }) => {
            assert(c1 =~= c2);
        },
        (
            PayloadView::CloakedVals { matrix: m1, gamma_sum: g1, fee_sum: f1, cloaks: c1 },
            PayloadView::CloakedVals { matrix: m2, gamma_sum: g2, fee_sum: f2, cloaks: c2 },
        ) => {
            lemma_opened_bytes(a);
            lemma_opened_bytes(b);
            let ra = m1 + (g1@ + (f1@ + (le_u32(c1.len() as u32) + cloaks_bytes(c1))));
            let rb = m2 + (g2@ + (f2@ + (le_u32(c2.len() as u32) + cloaks_bytes(c2))));
            lemma_split_equal(le_u32(m1.len() as u32), ra, le_u32(m2.len() as u32), rb);
            lemma_u32_round_trip(m1.len() as u32);
            lemma_u32_round_trip(m2.len() as u32);
            assert(m1.len() == m2.len());
            let sa = g1@ + (f1@ + (le_u32(c1.len() as u32) + cloaks_bytes(c1)));
            let sb = g2@ + (f2@ + (le_u32(c2.len() as u32) + cloaks_bytes(c2)));
            lemma_split_equal(m1, sa, m2, sb);
            let ta = f1@ + (le_u32(c1.len() as u32) + cloaks_bytes(c1));
            let tb = f2@ + (le_u32(c2.len() as u32) + cloaks_bytes(c2));
            lemma_split_equal(g1@, ta, g2@, tb);
            let ua = le_u32(c1.len() as u32) + cloaks_bytes(c1);
            let ub = le_u32(c2.len() as u32) + cloaks_bytes(c2);
            lemma_split_equal(f1@, ua, f2@, ub);
            lemma_split_equal(
                le_u32(c1.len() as u32),
                cloaks_bytes(c1),
                le_u32(c2.len() as u32),
                cloaks_bytes(c2),
            );
            lemma_u32_round_trip(c1.len() as u32);
            lemma_u32_round_trip(c2.len() as u32);
            assert(c1.len() == c2.len());
            lemma_cloaks_bytes_injective(c1, c2);
            assert(g1 =~= g2);
            assert(f1 =~= f2);
            assert(a =~= b);
        },
        (PayloadView::Signature { sig: s1 }, PayloadView::Signature { sig: s2 }) => {
            lemma_split_equal(s1.u@, s1.k@, s2.u@, s2.k@);
            assert(s1.u =~= s2.u);
            assert(s1.k =~= s2.k);
        },
        (PayloadView::SecretKeying { skey: k1 }, PayloadView::SecretKeying { skey: k2 }) => {
            assert(k1 =~= k2);
        },
        _ => {},
    }
}

/// A message without the length in front, in its parts.
pub open spec fn envelope_parts(m: MessageView) -> Seq<u8> {
    m.sid@ + (m.source.bytes() + (m.destination.bytes() + (seq![tag_of(m.payload)] + body_bytes(
        m.payload,
    ))))
}

pub proof fn lemma_envelope_parts(m: MessageView)
    ensures
        envelope_bytes(m) == envelope_parts(m),
        envelope_bytes(m).len() == 227 + body_bytes(m.payload).len(),
        wire(m).len() == 231 + body_bytes(m.payload).len(),
{
    assert(envelope_bytes(m) =~= envelope_parts(m));
}

/// Serialization is faithful: a message is known from the bytes it
/// travels as.
#[verifier::rlimit(40)]
pub proof fn law_wire_injective(a: MessageView, b: MessageView)
    requires
        fits(a),
        fits(b),
        wire(a) == wire(b),
    ensures
        a == b,
{
    lemma_envelope_parts(a);
    lemma_envelope_parts(b);
    let la = le_u32(envelope_bytes(a).len() as u32);
    let lb = le_u32(envelope_bytes(b).len() as u32);
    lemma_split_equal(la, envelope_bytes(a), lb, envelope_bytes(b));
    let a1 = a.source.bytes() + (a.destination.bytes() + (seq![tag_of(a.payload)] + body_bytes(
        a.payload,
    )));
    let b1 = b.source.bytes() + (b.destination.bytes() + (seq![tag_of(b.payload)] + body_bytes(
        b.payload,
    )));
    lemma_split_equal(a.sid@, a1, b.sid@, b1);
    let a2 = a.destination.bytes() + (seq![tag_of(a.payload)] + body_bytes(a.payload));
    let b2 = b.destination.bytes() + (seq![tag_of(b.payload)] + body_bytes(b.payload));
    lemma_split_equal(a.source.bytes(), a2, b.source.bytes(), b2);
    let a3 = seq![tag_of(a.payload)] + body_bytes(a.payload);
    let b3 = seq![tag_of(b.payload)] + body_bytes(b.payload);
    lemma_split_equal(a.destination.bytes(), a3, b.destination.bytes(), b3);
    lemma_split_equal(
        seq![tag_of(a.payload)],
        body_bytes(a.payload),
        seq![tag_of(b.payload)],
        body_bytes(b.payload),
    );
    assert(seq![tag_of(a.payload)][0] == seq![tag_of(b.payload)][0]);
    lemma_body_injective(a.payload, b.payload);
    lemma_id_bytes_injective(a.source, b.source);
    lemma_id_bytes_injective(a.destination, b.destination);
    assert(a.sid =~= b.sid);
    assert(a =~= b);
}


/// How the bytes of a message are laid out.
#[verifier::rlimit(40)]
pub proof fn lemma_wire_shape(m: MessageView)
    requires
        fits(m),
    ensures
        wire(m).len() >= 231,
        u32_of(wire(m), 0) == wire(m).len() - 4,
        wire(m)[230] == tag_of(m.payload),
        m.payload is SharedKeying || m.payload is Signature ==> wire(m).len() == 295,
        m.payload is Commitment || m.payload is SecretKeying ==> wire(m).len() == 263,
        m.payload is CloakedVals ==> {
            let mlen = m.payload->CloakedVals_matrix.len() as int;
            let clen = m.payload->CloakedVals_cloaks.len() as int;
            &&& wire(m).len() == 303 + mlen + 129 * clen
            &&& u32_of(wire(m), 231) == mlen
            &&& u32_of(wire(m), 299 + mlen) == clen
        },
{
    lemma_envelope_parts(m);
    let e = envelope_bytes(m);
    let w = wire(m);
    lemma_u32_round_trip(e.len() as u32);
    let l = le_u32(e.len() as u32);
    assert(w[0] == l[0] && w[1] == l[1] && w[2] == l[2] && w[3] == l[3]);
    let body = body_bytes(m.payload);
    assert(w[230] == e[226]);
    assert(e =~= envelope_parts(m));
    assert(e[226] == tag_of(m.payload));
    if m.payload is CloakedVals {
        lemma_opened_bytes(m.payload);
        let matrix = m.payload->CloakedVals_matrix;
        let cloaks = m.payload->CloakedVals_cloaks;
        let mlen = matrix.len() as int;
        let clen = cloaks.len() as int;
        lemma_u32_round_trip(mlen as u32);
        lemma_u32_round_trip(clen as u32);
        let lm = le_u32(mlen as u32);
        let lc = le_u32(clen as u32);
        assert forall|k: int| 0 <= k < body.len() implies w[231 + k] == body[k] by {
            assert(w[231 + k] == e[227 + k]);
        }
        assert(body[0] == lm[0] && body[1] == lm[1] && body[2] == lm[2] && body[3] == lm[3]);
        assert(body[68 + mlen] == lc[0] && body[69 + mlen] == lc[1] && body[70 + mlen] == lc[2]
            && body[71 + mlen] == lc[3]);
        assert(w[231] == body[0] && w[232] == body[1] && w[233] == body[2] && w[234] == body[3]);
        assert(w[299 + mlen] == body[68 + mlen] && w[300 + mlen] == body[69 + mlen] && w[301
            + mlen] == body[70 + mlen] && w[302 + mlen] == body[71 + mlen]);
    }
}

/// The number that the four bytes at `at` spell.
fn read_u32(buf: &[u8], at: usize) -> (x: u32)
    requires
        at + 4 <= buf@.len(),
    ensures
        x == u32_of(buf@, at as int),
{
    (buf[at] as u32) + 256 * (buf[at + 1] as u32) + 65536 * (buf[at + 2] as u32) + 16777216 * (
    buf[at + 3] as u32)
}

/// The 32 bytes at `at`.
fn read_32(buf: &[u8], at: usize) -> (out: [u8; 32])
    requires
        at + 32 <= buf@.len(),
    ensures
        out@ == buf@.subrange(at as int, at + 32),
{
    let n = buf.len();
    let mut out = [0u8; 32];
    let mut i: usize = 0;
    while i < 32
        invariant
            i <= 32,
            n == buf@.len(),
            at + 32 <= buf@.len(),
            forall|j: int| 0 <= j < i ==> out@[j] == buf@[at + j],
        decreases 32 - i,
    {
        out[i] = buf[at + i];
        i += 1;
    }
    assert(out@ =~= buf@.subrange(at as int, at + 32));
    out
}

/// The 65 bytes at `at`.
fn read_65(buf: &[u8], at: usize) -> (out: [u8; 65])
    requires
        at + 65 <= buf@.len(),
    ensures
        out@ == buf@.subrange(at as int, at + 65),
{
    let n = buf.len();
    let mut out = [0u8; 65];
    let mut i: usize = 0;
    while i < 65
        invariant
            i <= 65,
            n == buf@.len(),
            at + 65 <= buf@.len(),
            forall|j: int| 0 <= j < i ==> out@[j] == buf@[at + j],
        decreases 65 - i,
    {
        out[i] = buf[at + i];
        i += 1;
    }
    assert(out@ =~= buf@.subrange(at as int, at + 65));
    out
}

/// The identity at `at`.
fn read_id(buf: &[u8], at: usize) -> (id: ParticipantID)
    requires
        at + 97 <= buf@.len(),
    ensures
        id.bytes() == buf@.subrange(at as int, at + 97),
{
    let n = buf.len();
    let id = ParticipantID { pkey: read_65(buf, at), seed: read_32(buf, at + 65) };
    assert(id.bytes() =~= buf@.subrange(at as int, at + 97));
    id
}

/// The `len` bytes at `at`.
fn read_bytes(buf: &[u8], at: usize, len: usize) -> (out: Vec<u8>)
    requires
        at + len <= buf@.len(),
    ensures
        out@ == buf@.subrange(at as int, at + len),
{
    let n = buf.len();
    let mut out: Vec<u8> = Vec::new();
    let mut i: usize = 0;
    assert(out@ =~= buf@.subrange(at as int, at + 0));
    while i < len
        invariant
            i <= len,
            n == buf@.len(),
            at + len <= buf@.len(),
            out@ == buf@.subrange(at as int, at + i),
        decreases len - i,
    {
        out.push(buf[at + i]);
        assert(out@ =~= buf@.subrange(at as int, at + i + 1));
        i += 1;
    }
    out
}

/// The `count` cloaks at `at`.
fn read_cloaks(buf: &[u8], at: usize, count: usize) -> (out: Vec<Cloak>)
    requires
        at + 129 * count <= buf@.len(),
    ensures
        out@.len() == count,
        cloaks_bytes(out@) == buf@.subrange(at as int, at + 129 * count),
{
    let n = buf.len();
    let mut out: Vec<Cloak> = Vec::new();
    let mut i: usize = 0;
    assert(cloaks_bytes(out@) =~= buf@.subrange(at as int, at + 0));
    while i < count
        invariant
            i <= count,
            n == buf@.len(),
            at + 129 * count <= buf@.len(),
            out@.len() == i,
            cloaks_bytes(out@) == buf@.subrange(at as int, at + 129 * i),
        decreases count - i,
    {
        let ghost before = out@;
        let id = read_id(buf, at + 129 * i);
        let key = read_32(buf, at + 129 * i + 97);
        out.push(Cloak { id, key });
        proof {
            assert(out@.drop_last() =~= before);
            assert(cloaks_bytes(out@) =~= buf@.subrange(at as int, at + 129 * (i + 1)));
        }
        i += 1;
    }
    out
}

impl SnowballMessage {
    /// Reads a payload of two parts of 32 bytes.
    fn read_pair(buf: &[u8], tag: u8) -> (r: Option<SnowballPayload>)
        requires
            231 <= buf@.len(),
            tag == 1 || tag == 4,
        ensures
            r is Some ==> tag_of(r->Some_0@) == tag && body_bytes(r->Some_0@) == buf@.subrange(
                231,
                buf@.len() as int,
            ),
            r is None ==> buf@.len() != 295,
    {
        let n = buf.len();
        if n != 295 {
            return None;
        }
        let first = read_32(buf, 231);
        let second = read_32(buf, 263);
        let p = if tag == 1 {
            SnowballPayload::SharedKeying { pkey: first, ksig: second }
        } else {
            SnowballPayload::Signature { sig: SchnorrSig { u: first, k: second } }
        };
        assert(body_bytes(p@) =~= buf@.subrange(231, n as int));
        Some(p)
    }

    /// Reads a payload of 32 bytes.
    fn read_single(buf: &[u8], tag: u8) -> (r: Option<SnowballPayload>)
        requires
            231 <= buf@.len(),
            tag == 2 || tag == 5,
        ensures
            r is Some ==> tag_of(r->Some_0@) == tag && body_bytes(r->Some_0@) == buf@.subrange(
                231,
                buf@.len() as int,
            ),
            r is None ==> buf@.len() != 263,
    {
        let n = buf.len();
        if n != 263 {
            return None;
        }
        let first = read_32(buf, 231);
        let p = if tag == 2 {
            SnowballPayload::Commitment { cmt: first }
        } else {
            SnowballPayload::SecretKeying { skey: first }
        };
        assert(body_bytes(p@) =~= buf@.subrange(231, n as int));
        Some(p)
    }

    /// Whether the lengths written in the buffer are those of a payload
    /// that opens a matrix and fills the buffer from byte 231 on.
    pub open spec fn opened_shape(buf: Seq<u8>) -> bool {
        &&& buf.len() >= 303
        &&& buf.len() - 303 >= u32_of(buf, 231)
        &&& buf.len() == 303 + u32_of(buf, 231) + 129 * u32_of(buf, 299 + u32_of(buf, 231))
    }

    /// Reads a payload that opens a matrix.
    #[verifier::rlimit(40)]
    fn read_opened(buf: &[u8]) -> (r: Option<SnowballPayload>)
        requires
            231 <= buf@.len(),
        ensures
            r is Some ==> tag_of(r->Some_0@) == 3 && body_bytes(r->Some_0@) == buf@.subrange(
                231,
                buf@.len() as int,
            ),
            r is None ==> !SnowballMessage::opened_shape(buf@),
    {
        let n = buf.len();
        if n < 303 {
            return None;
        }
        let mlen = read_u32(buf, 231) as usize;
        if n - 303 < mlen {
            return None;
        }
        let clen = read_u32(buf, 299 + mlen) as usize;
        let rest = n - 303 - mlen;
        if rest % 129 != 0 || rest / 129 != clen {
            return None;
        }
        let matrix = read_bytes(buf, 235, mlen);
        let gamma_sum = read_32(buf, 235 + mlen);
        let fee_sum = read_32(buf, 267 + mlen);
        let cloaks = read_cloaks(buf, 303 + mlen, clen);
        let p = SnowballPayload::CloakedVals { matrix, gamma_sum, fee_sum, cloaks };
        proof {
            lemma_opened_bytes(p@);
            lemma_u32_bytes(buf@.subrange(231, 235), mlen as u32);
            lemma_u32_bytes(buf@.subrange(299 + mlen, 303 + mlen), clen as u32);
            let tail = le_u32(clen as u32) + cloaks_bytes(cloaks@);
            assert(tail =~= buf@.subrange(299 + mlen, n as int));
            let t3 = fee_sum@ + tail;
            assert(t3 =~= buf@.subrange(267 + mlen, n as int));
            let t2 = gamma_sum@ + t3;
            assert(t2 =~= buf@.subrange(235 + mlen, n as int));
            let t1 = matrix@ + t2;
            assert(t1 =~= buf@.subrange(235, n as int));
            assert(opened_bytes(matrix@, gamma_sum, fee_sum, cloaks@) =~= buf@.subrange(
                231,
                n as int,
            ));
        }
        Some(p)
    }

    /// Reads the payload of kind `tag` that fills the buffer from byte 231
    /// on.
    fn read_payload(buf: &[u8], tag: u8) -> (r: Option<SnowballPayload>)
        requires
            231 <= buf@.len(),
        ensures
            r is Some ==> tag_of(r->Some_0@) == tag && body_bytes(r->Some_0@) == buf@.subrange(
                231,
                buf@.len() as int,
            ),
            r is None ==> forall|m: MessageView|
                fits(m) && tag_of(m.payload) == tag ==> wire(m) != buf@,
    {
        let r = if tag == 1 || tag == 4 {
            SnowballMessage::read_pair(buf, tag)
        } else if tag == 2 || tag == 5 {
            SnowballMessage::read_single(buf, tag)
        } else if tag == 3 {
            SnowballMessage::read_opened(buf)
        } else {
            None
        };
        proof {
            if r is None {
                assert forall|m: MessageView| fits(m) && tag_of(m.payload) == tag implies wire(m)
                    != buf@ by {
                    lemma_wire_shape(m);
                }
            }
        }
        r
    }

    /// The message that travels as `buf`, if there is one.
    #[verifier::rlimit(40)]
    pub fn from_buffer(buf: &[u8]) -> (r: Option<SnowballMessage>)
        ensures
            r is Some ==> fits(r->Some_0@) && wire(r->Some_0@) == buf@,
            forall|m: MessageView|
                fits(m) && wire(m) == buf@ ==> r is Some && r->Some_0@ == m,
    {
        let n = buf.len();
        if n < 231 || n - 4 > 0xffff_ffff {
            assert forall|m: MessageView| fits(m) implies wire(m) != buf@ by {
                lemma_wire_shape(m);
            }
            return None;
        }
        if read_u32(buf, 0) as usize != n - 4 {
            assert forall|m: MessageView| fits(m) implies wire(m) != buf@ by {
                lemma_wire_shape(m);
            }
            return None;
        }
        let sid = read_32(buf, 4);
        let source = read_id(buf, 36);
        let destination = read_id(buf, 133);
        let tag = buf[230];
        let payload = match SnowballMessage::read_payload(buf, tag) {
            Some(p) => p,
            None => {
                assert forall|m: MessageView| fits(m) implies wire(m) != buf@ by {
                    lemma_wire_shape(m);
                }
                return None;
            },
        };
        let msg = SnowballMessage { sid, source, destination, payload };
        proof {
            lemma_envelope_parts(msg@);
            lemma_u32_bytes(buf@.subrange(0, 4), (n - 4) as u32);
            assert(seq![tag] =~= buf@.subrange(230, 231));
            assert(envelope_parts(msg@) =~= buf@.subrange(4, n as int));
            assert(wire(msg@) =~= buf@);
            assert forall|m: MessageView| fits(m) && wire(m) == buf@ implies msg@ == m by {
                law_wire_injective(msg@, m);
            }
        }
        Some(msg)
    }
}


// ---------------------------------------------------------------------
// The request to join a pool.

/// The first `n` inputs of a request, each as its hash, the length of its
/// body in four bytes, and its body.
pub open spec fn inputs_bytes(txins: Seq<Digest>, utxos: Seq<Seq<u8>>, n: nat) -> Seq<u8>
    decreases n,
{
    if n == 0 {
        Seq::<u8>::empty()
    } else {
        inputs_bytes(txins, utxos, (n - 1) as nat) + txins[n - 1]@ + le_u32(
            utxos[n - 1].len() as u32,
        ) + utxos[n - 1]
    }
}

/// Whether a request to join can be written: each input has its body, and
/// count and lengths fit four bytes.
pub open spec fn join_fits(txins: Seq<Digest>, utxos: Seq<Seq<u8>>) -> bool {
    &&& txins.len() == utxos.len()
    &&& txins.len() <= u32::MAX
    &&& forall|i: int| 0 <= i < utxos.len() ==> (#[trigger] utxos[i]).len() <= u32::MAX
}

/// A request to join as it travels: the seed, the count of inputs, the
/// inputs, and the ownership signature.
pub open spec fn join_bytes(
    seed: [u8; 32],
    txins: Seq<Digest>,
    utxos: Seq<Seq<u8>>,
    ownsig: SchnorrSig,
) -> Seq<u8> {
    seed@ + le_u32(txins.len() as u32) + inputs_bytes(txins, utxos, txins.len()) + ownsig.u@
        + ownsig.k@
}

/// The request to join a pool as it travels; nothing where an input has
/// no body or a length cannot be written in four bytes.
pub fn join_buffer(
    seed: &[u8; 32],
    txins: &Vec<Digest>,
    utxos: &Vec<Vec<u8>>,
    ownsig: &SchnorrSig,
) -> (r: Option<Vec<u8>>)
    ensures
        r is Some <==> join_fits(txins@, crate::dicemix::rows_of(utxos@)),
        r is Some ==> r->Some_0@ == join_bytes(
            *seed,
            txins@,
            crate::dicemix::rows_of(utxos@),
            *ownsig,
        ),
{
    let ghost bodies = crate::dicemix::rows_of(utxos@);
    if txins.len() != utxos.len() || txins.len() > 0xffff_ffff {
        return None;
    }
    let mut buf: Vec<u8> = Vec::new();
    push_bytes(&mut buf, seed);
    push_le_u32(&mut buf, txins.len() as u32);
    let ghost head = buf@;
    let mut i: usize = 0;
    assert(buf@ =~= head + inputs_bytes(txins@, bodies, 0));
    while i < txins.len()
        invariant
            i <= txins.len(),
            txins.len() == utxos.len(),
            bodies == crate::dicemix::rows_of(utxos@),
            forall|j: int| 0 <= j < i ==> (#[trigger] bodies[j]).len() <= u32::MAX,
            buf@ == head + inputs_bytes(txins@, bodies, i as nat),
        decreases txins.len() - i,
    {
        assert(bodies[i as int] == utxos@[i as int]@);
        if utxos[i].len() > 0xffff_ffff {
            return None;
        }
        push_bytes(&mut buf, &txins[i]);
        push_le_u32(&mut buf, utxos[i].len() as u32);
        push_bytes(&mut buf, utxos[i].as_slice());
        assert(buf@ =~= head + inputs_bytes(txins@, bodies, (i + 1) as nat));
        i += 1;
    }
    push_bytes(&mut buf, &ownsig.u);
    push_bytes(&mut buf, &ownsig.k);
    assert(buf@ =~= join_bytes(*seed, txins@, bodies, *ownsig));
    Some(buf)
}

} // verus!
