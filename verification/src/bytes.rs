//! Byte strings: lexicographic order, big-endian value, fixed-width integers.

use vstd::prelude::*;

verus! {

/// How one value stands to another in a total order.
#[derive(Clone, Copy, Debug, PartialEq, Eq)]
pub enum Position {
    Before,
    Same,
    After,
}

/// The number that a byte string spells, most significant byte first.
pub open spec fn be_value(s: Seq<u8>) -> nat
    decreases s.len(),
{
    if s.len() == 0 {
        0
    } else {
        be_value(s.drop_last()) * 256 + s.last() as nat
    }
}

/// `a` and `b` agree before index `i`, and `a` is smaller at `i`.
pub open spec fn smaller_at(a: Seq<u8>, b: Seq<u8>, i: int) -> bool {
    &&& 0 <= i < a.len()
    &&& i < b.len()
    &&& forall|j: int| 0 <= j < i ==> a[j] == b[j]
    &&& a[i] < b[i]
}

/// Lexicographic order on byte strings of one length.
pub open spec fn lex_lt(a: Seq<u8>, b: Seq<u8>) -> bool {
    exists|i: int| smaller_at(a, b, i)
}

/// A string that is smaller at its first difference spells a smaller number.
pub proof fn lemma_smaller_at_value(a: Seq<u8>, b: Seq<u8>, i: int)
    requires
        a.len() == b.len(),
        smaller_at(a, b, i),
    ensures
        be_value(a) < be_value(b),
    decreases a.len(),
{
    let n = a.len() as int;
    if i == n - 1 {
        assert(a.drop_last() =~= b.drop_last());
    } else {
        lemma_smaller_at_value(a.drop_last(), b.drop_last(), i);
    }
}

/// Two different strings of one length differ first somewhere.
pub proof fn lemma_first_difference(a: Seq<u8>, b: Seq<u8>) -> (i: int)
    requires
        a.len() == b.len(),
        a != b,
    ensures
        smaller_at(a, b, i) || smaller_at(b, a, i),
    decreases a.len(),
{
    if a.len() == 0 {
        assert(a =~= b);
        0
    } else if a.drop_last() == b.drop_last() {
        let n = a.len() as int;
        if a.last() == b.last() {
            assert(a =~= a.drop_last().push(a.last()));
            assert(b =~= b.drop_last().push(b.last()));
        }
        assert forall|j: int| 0 <= j < n - 1 implies a[j] == b[j] by {
            assert(a[j] == a.drop_last()[j]);
            assert(b[j] == b.drop_last()[j]);
        }
        n - 1
    } else {
        let i = lemma_first_difference(a.drop_last(), b.drop_last());
        assert forall|j: int| 0 <= j < i implies a[j] == b[j] by {
            assert(a[j] == a.drop_last()[j]);
            assert(b[j] == b.drop_last()[j]);
        }
        assert(a[i] == a.drop_last()[i]);
        assert(b[i] == b.drop_last()[i]);
        i
    }
}

/// On strings of one length the lexicographic order is the order of the
/// numbers they spell.
pub proof fn lemma_lex_is_value_order(a: Seq<u8>, b: Seq<u8>)
    requires
        a.len() == b.len(),
    ensures
        lex_lt(a, b) <==> be_value(a) < be_value(b),
        a == b <==> be_value(a) == be_value(b),
{
    if lex_lt(a, b) {
        let i = choose|i: int| smaller_at(a, b, i);
        lemma_smaller_at_value(a, b, i);
    }
    if a != b {
        let i = lemma_first_difference(a, b);
        if smaller_at(a, b, i) {
            lemma_smaller_at_value(a, b, i);
        } else {
            lemma_smaller_at_value(b, a, i);
        }
    }
}

/// Compares two byte strings of one length lexicographically.
pub fn compare_bytes(a: &[u8], b: &[u8]) -> (r: Position)
    requires
        a@.len() == b@.len(),
    ensures
        r == Position::Before <==> lex_lt(a@, b@),
        r == Position::Same <==> a@ == b@,
        r == Position::After <==> lex_lt(b@, a@),
{
    let n = a.len();
    let mut i: usize = 0;
    while i < n
        invariant
            n == a@.len(),
            n == b@.len(),
            i <= n,
            forall|j: int| 0 <= j < i ==> a@[j] == b@[j],
        decreases n - i,
    {
        if a[i] < b[i] {
            proof {
                assert(smaller_at(a@, b@, i as int));
                lemma_lex_is_value_order(a@, b@);
                lemma_lex_is_value_order(b@, a@);
            }
            return Position::Before;
        }
        if a[i] > b[i] {
            proof {
                assert(smaller_at(b@, a@, i as int));
                lemma_lex_is_value_order(a@, b@);
                lemma_lex_is_value_order(b@, a@);
            }
            return Position::After;
        }
        i += 1;
    }
    proof {
        assert(a@ =~= b@);
        lemma_lex_is_value_order(a@, b@);
    }
    Position::Same
}

} // verus!

verus! {

/// The two bytes of `x`, least significant first.
pub open spec fn le_u16(x: u16) -> Seq<u8> {
    seq![(x % 256) as u8, (x / 256) as u8]
}

/// The four bytes of `x`, least significant first.
pub open spec fn le_u32(x: u32) -> Seq<u8> {
    seq![
        (x % 256) as u8,
        ((x / 256) % 256) as u8,
        ((x / 65536) % 256) as u8,
        (x / 16777216) as u8,
    ]
}

/// Appends the two bytes of `x`, least significant first.
pub fn push_le_u16(buf: &mut Vec<u8>, x: u16)
    ensures
        final(buf)@ == old(buf)@ + le_u16(x),
{
    buf.push((x % 256) as u8);
    buf.push((x / 256) as u8);
    assert(buf@ =~= old(buf)@ + le_u16(x));
}

/// Appends the four bytes of `x`, least significant first.
pub fn push_le_u32(buf: &mut Vec<u8>, x: u32)
    ensures
        final(buf)@ == old(buf)@ + le_u32(x),
{
    buf.push((x % 256) as u8);
    buf.push(((x / 256) % 256) as u8);
    buf.push(((x / 65536) % 256) as u8);
    buf.push((x / 16777216) as u8);
    assert(buf@ =~= old(buf)@ + le_u32(x));
}

/// The eight bytes of `x`, least significant first.
pub open spec fn le_u64(x: u64) -> Seq<u8> {
    le_u32((x % 4294967296) as u32) + le_u32((x / 4294967296) as u32)
}

/// Appends the eight bytes of `x`, least significant first.
pub fn push_le_u64(buf: &mut Vec<u8>, x: u64)
    ensures
        final(buf)@ == old(buf)@ + le_u64(x),
{
    push_le_u32(buf, (x % 4294967296) as u32);
    push_le_u32(buf, (x / 4294967296) as u32);
    assert(buf@ =~= old(buf)@ + le_u64(x));
}

/// Appends the bytes of `src`.
pub fn push_bytes(buf: &mut Vec<u8>, src: &[u8])
    ensures
        final(buf)@ == old(buf)@ + src@,
{
    let mut i: usize = 0;
    while i < src.len()
        invariant
            i <= src.len(),
            buf@ == old(buf)@ + src@.take(i as int),
        decreases src.len() - i,
    {
        buf.push(src[i]);
        assert(src@.take(i + 1) =~= src@.take(i as int).push(src@[i as int]));
        assert(buf@ =~= old(buf)@ + src@.take(i + 1));
        i += 1;
    }
    assert(src@.take(src@.len() as int) =~= src@);
}

} // verus!
