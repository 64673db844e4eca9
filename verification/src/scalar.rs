//! Scalars: integers modulo the order of the group, as 32 bytes, least
//! significant first.

use vstd::arithmetic::div_mod::{
    lemma_add_mod_noop, lemma_fundamental_div_mod_converse_mod, lemma_small_mod,
    lemma_sub_mod_noop,
};
use vstd::prelude::*;

verus! {

/// A scalar as it travels: 32 bytes, least significant first.
pub type Scalar = [u8; 32];

/// The order of the group: 2^252 + 27742317777372353535851937790883648493.
pub open spec fn group_order() -> nat {
    0x1000000000000000000000000000000014def9dea2f79cd65812631a5cf5d3ednat
}

/// The number that the eight bytes from `o` on spell, least significant
/// first.
pub open spec fn limb_at(s: Seq<u8>, o: int) -> nat {
    (s[o] as nat) + (s[o + 1] as nat) * 0x100 + (s[o + 2] as nat) * 0x1_0000 + (s[o + 3] as nat)
        * 0x100_0000 + (s[o + 4] as nat) * 0x1_0000_0000 + (s[o + 5] as nat) * 0x100_0000_0000 + (s[o
        + 6] as nat) * 0x1_0000_0000_0000 + (s[o + 7] as nat) * 0x100_0000_0000_0000
}

/// The number that 32 bytes spell, least significant first.
pub open spec fn bytes_value(s: Seq<u8>) -> nat {
    limb_at(s, 0) + limb_at(s, 8) * 0x1_0000_0000_0000_0000 + limb_at(s, 16)
        * 0x1_0000_0000_0000_0000_0000_0000_0000_0000 + limb_at(s, 24)
        * 0x1_0000_0000_0000_0000_0000_0000_0000_0000_0000_0000_0000_0000
}

/// The number that a scalar spells. It is a member of the field where it
/// is below the order of the group.
pub open spec fn scalar_value(s: Scalar) -> nat {
    bytes_value(s@)
}

/// The member of the field that `s` stands for.
pub open spec fn residue(s: Scalar) -> nat {
    scalar_value(s) % group_order()
}

/// The scalar that spells `v`, for `v` below 2^256.
pub open spec fn scalar_with_value(v: nat) -> Scalar {
    choose|s: Scalar| scalar_value(s) == v
}

/// The sum of two scalars in the field.
pub open spec fn sum_of(a: Scalar, b: Scalar) -> Scalar {
    scalar_with_value((scalar_value(a) + scalar_value(b)) % group_order())
}

/// The difference of two scalars in the field.
pub open spec fn difference_of(a: Scalar, b: Scalar) -> Scalar {
    scalar_with_value(((scalar_value(a) - scalar_value(b)) % (group_order() as int)) as nat)
}

/// Four words, least significant first.
struct Limbs {
    w0: u64,
    w1: u64,
    w2: u64,
    w3: u64,
}

impl Limbs {
    spec fn value(self) -> nat {
        (self.w0 as nat) + (self.w1 as nat) * 0x1_0000_0000_0000_0000 + (self.w2 as nat)
            * 0x1_0000_0000_0000_0000_0000_0000_0000_0000 + (self.w3 as nat)
            * 0x1_0000_0000_0000_0000_0000_0000_0000_0000_0000_0000_0000_0000
    }
}

fn order_limbs() -> (l: Limbs)
    ensures
        l.value() == group_order(),
{
    Limbs { w0: 0x5812631a5cf5d3ed, w1: 0x14def9dea2f79cd6, w2: 0, w3: 0x1000000000000000 }
}

fn load_limb(s: &Scalar, o: usize) -> (l: u64)
    requires
        o + 8 <= 32,
    ensures
        l == limb_at(s@, o as int),
{
    (s[o] as u64) + (s[o + 1] as u64) * 0x100 + (s[o + 2] as u64) * 0x1_0000 + (s[o + 3] as u64)
        * 0x100_0000 + (s[o + 4] as u64) * 0x1_0000_0000 + (s[o + 5] as u64) * 0x100_0000_0000 + (s[o
        + 6] as u64) * 0x1_0000_0000_0000 + (s[o + 7] as u64) * 0x100_0000_0000_0000
}

fn load(s: &Scalar) -> (l: Limbs)
    ensures
        l.value() == scalar_value(*s),
{
    Limbs { w0: load_limb(s, 0), w1: load_limb(s, 8), w2: load_limb(s, 16), w3: load_limb(s, 24) }
}

#[verifier::rlimit(40)]
fn store_limb(out: &mut Scalar, o: usize, l: u64)
    requires
        o + 8 <= 32,
    ensures
        limb_at(final(out)@, o as int) == l,
        forall|j: int| 0 <= j < 32 && !(o <= j < o + 8) ==> final(out)@[j] == old(out)@[j],
{
    let r1: u64 = l / 256;
    let r2: u64 = r1 / 256;
    let r3: u64 = r2 / 256;
    let r4: u64 = r3 / 256;
    let r5: u64 = r4 / 256;
    let r6: u64 = r5 / 256;
    let r7: u64 = r6 / 256;
    out[o] = (l % 256) as u8;
    out[o + 1] = (r1 % 256) as u8;
    out[o + 2] = (r2 % 256) as u8;
    out[o + 3] = (r3 % 256) as u8;
    out[o + 4] = (r4 % 256) as u8;
    out[o + 5] = (r5 % 256) as u8;
    out[o + 6] = (r6 % 256) as u8;
    out[o + 7] = r7 as u8;
}

fn store(l: &Limbs) -> (s: Scalar)
    ensures
        scalar_value(s) == l.value(),
        s == scalar_with_value(l.value()),
{
    let mut out: Scalar = [0u8; 32];
    store_limb(&mut out, 0, l.w0);
    store_limb(&mut out, 8, l.w1);
    store_limb(&mut out, 16, l.w2);
    store_limb(&mut out, 24, l.w3);
    proof {
        lemma_scalar_is(out);
    }
    out
}

fn limbs_geq(x: &Limbs, y: &Limbs) -> (r: bool)
    ensures
        r == (x.value() >= y.value()),
{
    if x.w3 != y.w3 {
        x.w3 > y.w3
    } else if x.w2 != y.w2 {
        x.w2 > y.w2
    } else if x.w1 != y.w1 {
        x.w1 > y.w1
    } else {
        x.w0 >= y.w0
    }
}

#[verifier::rlimit(40)]
fn limbs_add(x: &Limbs, y: &Limbs) -> (r: Limbs)
    requires
        x.value() + y.value() < 0x1_0000_0000_0000_0000_0000_0000_0000_0000_0000_0000_0000_0000_0000_0000_0000_0000,
    ensures
        r.value() == x.value() + y.value(),
{
    let t0: u128 = x.w0 as u128 + y.w0 as u128;
    let c0: u128 = t0 / 0x1_0000_0000_0000_0000;
    let t1: u128 = x.w1 as u128 + y.w1 as u128 + c0;
    let c1: u128 = t1 / 0x1_0000_0000_0000_0000;
    let t2: u128 = x.w2 as u128 + y.w2 as u128 + c1;
    let c2: u128 = t2 / 0x1_0000_0000_0000_0000;
    let t3: u128 = x.w3 as u128 + y.w3 as u128 + c2;
    Limbs {
        w0: (t0 % 0x1_0000_0000_0000_0000) as u64,
        w1: (t1 % 0x1_0000_0000_0000_0000) as u64,
        w2: (t2 % 0x1_0000_0000_0000_0000) as u64,
        w3: t3 as u64,
    }
}

#[verifier::rlimit(40)]
fn limbs_sub(x: &Limbs, y: &Limbs) -> (r: Limbs)
    requires
        x.value() >= y.value(),
    ensures
        r.value() == x.value() - y.value(),
{
    let t0: u128 = 0x1_0000_0000_0000_0000 + x.w0 as u128 - y.w0 as u128;
    let b0: u128 = 1 - t0 / 0x1_0000_0000_0000_0000;
    let t1: u128 = 0x1_0000_0000_0000_0000 + x.w1 as u128 - y.w1 as u128 - b0;
    let b1: u128 = 1 - t1 / 0x1_0000_0000_0000_0000;
    let t2: u128 = 0x1_0000_0000_0000_0000 + x.w2 as u128 - y.w2 as u128 - b1;
    let b2: u128 = 1 - t2 / 0x1_0000_0000_0000_0000;
    let t3: u128 = x.w3 as u128 - y.w3 as u128 - b2;
    Limbs {
        w0: (t0 % 0x1_0000_0000_0000_0000) as u64,
        w1: (t1 % 0x1_0000_0000_0000_0000) as u64,
        w2: (t2 % 0x1_0000_0000_0000_0000) as u64,
        w3: t3 as u64,
    }
}

/// Brings four words below the order of the group.
fn limbs_reduce(x: Limbs) -> (r: Limbs)
    ensures
        r.value() == x.value() % group_order(),
{
    let order = order_limbs();
    let mut cur = x;
    let ghost mut k: nat = 0;
    while limbs_geq(&cur, &order)
        invariant
            order.value() == group_order(),
            cur.value() + k * group_order() == x.value(),
        decreases cur.value(),
    {
        cur = limbs_sub(&cur, &order);
        proof {
            k = k + 1;
            assert((k - 1) * group_order() + group_order() == k * group_order())
                by (nonlinear_arith);
        }
    }
    proof {
        lemma_fundamental_div_mod_converse_mod(
            x.value() as int,
            group_order() as int,
            k as int,
            cur.value() as int,
        );
    }
    cur
}

/// Whether `s` is below the order of the group.
pub fn is_canonical(s: &Scalar) -> (r: bool)
    ensures
        r == (scalar_value(*s) < group_order()),
{
    let l = load(s);
    !limbs_geq(&l, &order_limbs())
}

/// The scalar zero.
pub fn zero() -> (s: Scalar)
    ensures
        scalar_value(s) == 0,
        s == scalar_with_value(0),
{
    store(&Limbs { w0: 0, w1: 0, w2: 0, w3: 0 })
}

/// Whether `s` stands for zero.
pub fn is_zero(s: &Scalar) -> (r: bool)
    ensures
        r == (residue(*s) == 0),
{
    let l = limbs_reduce(load(s));
    l.w0 == 0 && l.w1 == 0 && l.w2 == 0 && l.w3 == 0
}

/// The member of the field that `s` stands for, below the order.
pub fn reduce(s: &Scalar) -> (r: Scalar)
    ensures
        scalar_value(r) == residue(*s),
        r == scalar_with_value(residue(*s)),
{
    store(&limbs_reduce(load(s)))
}

/// The sum of two scalars in the field.
pub fn add(a: &Scalar, b: &Scalar) -> (r: Scalar)
    ensures
        scalar_value(r) == (scalar_value(*a) + scalar_value(*b)) % group_order(),
        r == sum_of(*a, *b),
{
    let x = limbs_reduce(load(a));
    let y = limbs_reduce(load(b));
    let order = order_limbs();
    let sum = limbs_add(&x, &y);
    proof {
        lemma_add_mod_noop(
            scalar_value(*a) as int,
            scalar_value(*b) as int,
            group_order() as int,
        );
    }
    if limbs_geq(&sum, &order) {
        let r = limbs_sub(&sum, &order);
        proof {
            lemma_fundamental_div_mod_converse_mod(
                sum.value() as int,
                group_order() as int,
                1,
                r.value() as int,
            );
        }
        store(&r)
    } else {
        proof {
            lemma_small_mod(sum.value(), group_order());
        }
        store(&sum)
    }
}

/// The difference of two scalars in the field.
pub fn sub(a: &Scalar, b: &Scalar) -> (r: Scalar)
    ensures
        scalar_value(r) == (scalar_value(*a) - scalar_value(*b)) % (group_order() as int),
        r == difference_of(*a, *b),
{
    let x = limbs_reduce(load(a));
    let y = limbs_reduce(load(b));
    let order = order_limbs();
    proof {
        lemma_sub_mod_noop(
            scalar_value(*a) as int,
            scalar_value(*b) as int,
            group_order() as int,
        );
    }
    if limbs_geq(&x, &y) {
        let r = limbs_sub(&x, &y);
        proof {
            lemma_small_mod(r.value(), group_order());
        }
        store(&r)
    } else {
        let lifted = limbs_add(&x, &order);
        let r = limbs_sub(&lifted, &y);
        proof {
            lemma_fundamental_div_mod_converse_mod(
                x.value() - y.value(),
                group_order() as int,
                -1,
                r.value() as int,
            );
        }
        store(&r)
    }
}

/// The scalar that stands for a count.
pub fn from_u64(x: u64) -> (s: Scalar)
    ensures
        scalar_value(s) == x,
        s == scalar_with_value(x as nat),
{
    store(&Limbs { w0: x, w1: 0, w2: 0, w3: 0 })
}

/// The count that a scalar stands for, where it is one that fits `i64`
/// without a sign.
pub fn to_i64(s: &Scalar) -> (r: Option<i64>)
    ensures
        r is Some <==> residue(*s) <= i64::MAX,
        r is Some ==> r->Some_0 == residue(*s),
{
    let l = limbs_reduce(load(s));
    if l.w3 == 0 && l.w2 == 0 && l.w1 == 0 && l.w0 <= 0x7fff_ffff_ffff_ffff {
        Some(l.w0 as i64)
    } else {
        None
    }
}

/// The scalar that a hash value stands for: the hash with its four top bits
/// cleared, which is below the order of the group.
pub open spec fn digest_scalar_value(h: Seq<u8>) -> nat {
    bytes_value(h.update(31, h[31] % 16))
}

/// The scalar that a hash value stands for.
pub open spec fn digest_scalar(h: [u8; 32]) -> Scalar {
    vstd::array::spec_array_update(h, 31, h@[31] % 16)
}

/// The scalar that a hash value stands for is the hash with its four top
/// bits cleared.
pub proof fn lemma_digest_scalar(h: [u8; 32])
    ensures
        digest_scalar(h)@ == h@.update(31, h@[31] % 16),
        scalar_value(digest_scalar(h)) == digest_scalar_value(h@),
{
    vstd::array::axiom_spec_array_update(h, 31, h@[31] % 16);
}

/// The scalar that a hash value stands for.
pub fn from_digest(h: &[u8; 32]) -> (s: Scalar)
    ensures
        s == digest_scalar(*h),
        scalar_value(s) == digest_scalar_value(h@),
        scalar_value(s) < group_order(),
        s@ == h@.update(31, h@[31] % 16),
{
    let mut out: Scalar = *h;
    out[31] = h[31] % 16;
    proof {
        lemma_digest_scalar(*h);
        assert(out@ =~= h@.update(31, h@[31] % 16));
        assert(out =~= digest_scalar(*h));
    }
    out
}


/// A number below 256 and what stands above it are known from the whole.
proof fn lemma_split_byte(a0: int, ra: int, b0: int, rb: int)
    requires
        0 <= a0 < 256,
        0 <= b0 < 256,
        a0 + 256 * ra == b0 + 256 * rb,
    ensures
        a0 == b0,
        ra == rb,
{
}

/// A word and what stands above it are known from the whole.
proof fn lemma_split_word(a0: int, ra: int, b0: int, rb: int)
    requires
        0 <= a0 < 0x1_0000_0000_0000_0000,
        0 <= b0 < 0x1_0000_0000_0000_0000,
        a0 + 0x1_0000_0000_0000_0000 * ra == b0 + 0x1_0000_0000_0000_0000 * rb,
    ensures
        a0 == b0,
        ra == rb,
{
}

/// Eight bytes are known from the number they spell.
#[verifier::rlimit(40)]
proof fn lemma_limb_injective(a: Seq<u8>, b: Seq<u8>, o: int)
    requires
        limb_at(a, o) == limb_at(b, o),
    ensures
        a[o] == b[o],
        a[o + 1] == b[o + 1],
        a[o + 2] == b[o + 2],
        a[o + 3] == b[o + 3],
        a[o + 4] == b[o + 4],
        a[o + 5] == b[o + 5],
        a[o + 6] == b[o + 6],
        a[o + 7] == b[o + 7],
{
    let a7 = a[o + 7] as int;
    let a6 = a[o + 6] + 256 * a7;
    let a5 = a[o + 5] + 256 * a6;
    let a4 = a[o + 4] + 256 * a5;
    let a3 = a[o + 3] + 256 * a4;
    let a2 = a[o + 2] + 256 * a3;
    let a1 = a[o + 1] + 256 * a2;
    let b7 = b[o + 7] as int;
    let b6 = b[o + 6] + 256 * b7;
    let b5 = b[o + 5] + 256 * b6;
    let b4 = b[o + 4] + 256 * b5;
    let b3 = b[o + 3] + 256 * b4;
    let b2 = b[o + 2] + 256 * b3;
    let b1 = b[o + 1] + 256 * b2;
    assert(limb_at(a, o) == a[o] + 256 * a1);
    assert(limb_at(b, o) == b[o] + 256 * b1);
    lemma_split_byte(a[o] as int, a1, b[o] as int, b1);
    lemma_split_byte(a[o + 1] as int, a2, b[o + 1] as int, b2);
    lemma_split_byte(a[o + 2] as int, a3, b[o + 2] as int, b3);
    lemma_split_byte(a[o + 3] as int, a4, b[o + 3] as int, b4);
    lemma_split_byte(a[o + 4] as int, a5, b[o + 4] as int, b5);
    lemma_split_byte(a[o + 5] as int, a6, b[o + 5] as int, b6);
    lemma_split_byte(a[o + 6] as int, a7, b[o + 6] as int, b7);
}

/// A scalar is known from the number it spells.
#[verifier::rlimit(40)]
pub proof fn lemma_scalar_value_injective(a: Scalar, b: Scalar)
    requires
        scalar_value(a) == scalar_value(b),
    ensures
        a == b,
{
    let a0 = limb_at(a@, 0) as int;
    let a1 = limb_at(a@, 8) as int;
    let a2 = limb_at(a@, 16) as int;
    let a3 = limb_at(a@, 24) as int;
    let b0 = limb_at(b@, 0) as int;
    let b1 = limb_at(b@, 8) as int;
    let b2 = limb_at(b@, 16) as int;
    let b3 = limb_at(b@, 24) as int;
    let ra2 = a2 + 0x1_0000_0000_0000_0000 * a3;
    let ra1 = a1 + 0x1_0000_0000_0000_0000 * ra2;
    let rb2 = b2 + 0x1_0000_0000_0000_0000 * b3;
    let rb1 = b1 + 0x1_0000_0000_0000_0000 * rb2;
    assert(scalar_value(a) == a0 + 0x1_0000_0000_0000_0000 * ra1);
    assert(scalar_value(b) == b0 + 0x1_0000_0000_0000_0000 * rb1);
    lemma_split_word(a0, ra1, b0, rb1);
    lemma_split_word(a1, ra2, b1, rb2);
    lemma_split_word(a2, a3, b2, b3);
    lemma_limb_injective(a@, b@, 0);
    lemma_limb_injective(a@, b@, 8);
    lemma_limb_injective(a@, b@, 16);
    lemma_limb_injective(a@, b@, 24);
    assert(a =~= b);
}

/// `v` without its `i` lowest bytes.
pub open spec fn shifted(v: nat, i: nat) -> nat
    decreases i,
{
    if i == 0 {
        v
    } else {
        shifted(v, (i - 1) as nat) / 256
    }
}

/// The array whose first `i` bytes spell the `i` lowest bytes of `v`, and
/// whose other bytes are zero.
pub open spec fn spelled(v: nat, i: nat) -> Scalar
    decreases i,
{
    if i == 0 {
        vstd::array::spec_array_fill_for_copy_type::<u8, 32>(0u8)
    } else {
        vstd::array::spec_array_update(
            spelled(v, (i - 1) as nat),
            i - 1,
            (shifted(v, (i - 1) as nat) % 256) as u8,
        )
    }
}

proof fn lemma_spelled(v: nat, i: nat)
    requires
        i <= 32,
    ensures
        forall|j: int| 0 <= j < i ==> #[trigger] spelled(v, i)@[j] == (shifted(v, j as nat) % 256) as u8,
        forall|j: int| i <= j < 32 ==> #[trigger] spelled(v, i)@[j] == 0,
    decreases i,
{
    if i == 0 {
        vstd::array::axiom_spec_array_fill_for_copy_type::<u8, 32>(0u8);
    } else {
        lemma_spelled(v, (i - 1) as nat);
        let before = spelled(v, (i - 1) as nat);
        let byte = (shifted(v, (i - 1) as nat) % 256) as u8;
        vstd::array::axiom_spec_array_update(before, i - 1, byte);
        assert(spelled(v, i)@ == before@.update(i - 1, byte));
    }
}

/// Eight bytes of a number spell what is between two of its shifts.
proof fn lemma_limb_of_shifts(v: nat, s: Seq<u8>, at: nat)
    requires
        at + 8 <= 32,
        s.len() == 32,
        forall|j: int| at <= j < at + 8 ==> #[trigger] s[j] == (shifted(v, j as nat) % 256) as u8,
    ensures
        limb_at(s, at as int) + 0x1_0000_0000_0000_0000 * shifted(v, at + 8) == shifted(v, at),
{
    let o = at as int;
    let r0 = shifted(v, at);
    let r1 = shifted(v, at + 1);
    let r2 = shifted(v, at + 2);
    let r3 = shifted(v, at + 3);
    let r4 = shifted(v, at + 4);
    let r5 = shifted(v, at + 5);
    let r6 = shifted(v, at + 6);
    let r7 = shifted(v, at + 7);
    let r8 = shifted(v, at + 8);
    assert(r1 == r0 / 256 && r2 == r1 / 256 && r3 == r2 / 256 && r4 == r3 / 256);
    assert(r5 == r4 / 256 && r6 == r5 / 256 && r7 == r6 / 256 && r8 == r7 / 256);
    assert(s[o] == r0 % 256);
    assert(s[o + 1] == r1 % 256);
    assert(s[o + 2] == r2 % 256);
    assert(s[o + 3] == r3 % 256);
    assert(s[o + 4] == r4 % 256);
    assert(s[o + 5] == r5 % 256);
    assert(s[o + 6] == r6 % 256);
    assert(s[o + 7] == r7 % 256);
    assert(r0 == s[o] + 256 * r1);
    assert(r1 == s[o + 1] + 256 * r2);
    assert(r2 == s[o + 2] + 256 * r3);
    assert(r3 == s[o + 3] + 256 * r4);
    assert(r4 == s[o + 4] + 256 * r5);
    assert(r5 == s[o + 5] + 256 * r6);
    assert(r6 == s[o + 6] + 256 * r7);
    assert(r7 == s[o + 7] + 256 * r8);
}

/// Every number below 2^256 is spelled by a scalar, and by one only.
pub proof fn lemma_scalar_with_value(v: nat)
    requires
        v < 0x1_0000_0000_0000_0000_0000_0000_0000_0000_0000_0000_0000_0000_0000_0000_0000_0000,
    ensures
        scalar_value(scalar_with_value(v)) == v,
{
    let s = spelled(v, 32);
    lemma_spelled(v, 32);
    lemma_limb_of_shifts(v, s@, 0);
    lemma_limb_of_shifts(v, s@, 8);
    lemma_limb_of_shifts(v, s@, 16);
    lemma_limb_of_shifts(v, s@, 24);
    let r8 = shifted(v, 8);
    let r16 = shifted(v, 16);
    let r24 = shifted(v, 24);
    let r32 = shifted(v, 32);
    assert(limb_at(s@, 0) >= 0 && limb_at(s@, 8) >= 0 && limb_at(s@, 16) >= 0 && limb_at(s@, 24)
        >= 0);
    assert(r8 < 0x1_0000_0000_0000_0000_0000_0000_0000_0000_0000_0000_0000_0000);
    assert(r16 < 0x1_0000_0000_0000_0000_0000_0000_0000_0000);
    assert(r24 < 0x1_0000_0000_0000_0000);
    assert(r32 == 0);
    assert(scalar_value(s) == v);
}

/// The sum of two scalars in the field stands for the sum of what they
/// stand for.
pub proof fn lemma_sum_of(a: Scalar, b: Scalar)
    ensures
        scalar_value(sum_of(a, b)) == (scalar_value(a) + scalar_value(b)) % group_order(),
{
    let v = (scalar_value(a) + scalar_value(b)) % group_order();
    assert(v < group_order());
    lemma_scalar_with_value(v);
}

/// The difference of two scalars in the field stands for the difference
/// of what they stand for.
pub proof fn lemma_difference_of(a: Scalar, b: Scalar)
    ensures
        scalar_value(difference_of(a, b)) == (scalar_value(a) - scalar_value(b)) % (
        group_order() as int),
{
    let v = (scalar_value(a) - scalar_value(b)) % (group_order() as int);
    assert(0 <= v < group_order());
    lemma_scalar_with_value(v as nat);
}

/// A scalar is the scalar that spells its number.
pub proof fn lemma_scalar_is(s: Scalar)
    ensures
        s == scalar_with_value(scalar_value(s)),
{
    lemma_scalar_value_injective(s, scalar_with_value(scalar_value(s)));
}

} // verus!
