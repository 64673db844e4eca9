//! Participant identities and the lists the session keeps of them.

use crate::bytes::{be_value, compare_bytes, lemma_lex_is_value_order, lex_lt, smaller_at, Position};
use vstd::prelude::*;

verus! {

/// Width of a network public key.
pub const NETWORK_PKEY_SIZE: usize = 65;

/// Width of the seed that a participant draws for a session.
pub const SEED_SIZE: usize = 32;

/// A participant: its network public key and the seed it drew for this
/// session. Ordered by key, then by seed, bytes compared as unsigned.
#[derive(Clone, Copy, Debug, PartialEq, Eq, PartialOrd, Ord, Hash)]
pub struct ParticipantID {
    pub pkey: [u8; NETWORK_PKEY_SIZE],
    pub seed: [u8; SEED_SIZE],
}

impl ParticipantID {
    /// Key followed by seed.
    pub open spec fn bytes(self) -> Seq<u8> {
        self.pkey@ + self.seed@
    }

    /// The place of this identity in the order of all identities: the
    /// number that `bytes` spells. A smaller rank is an earlier identity.
    pub open spec fn rank(self) -> nat {
        be_value(self.bytes())
    }

    pub fn new(pkey: [u8; NETWORK_PKEY_SIZE], seed: [u8; SEED_SIZE]) -> (id: Self)
        ensures
            id.pkey == pkey,
            id.seed == seed,
    {
        ParticipantID { pkey, seed }
    }

    /// Where `self` stands to `other`: by key, then by seed.
    pub fn compare(&self, other: &ParticipantID) -> (r: Position)
        ensures
            r == Position::Before <==> self.rank() < other.rank(),
            r == Position::Same <==> *self == *other,
            r == Position::After <==> self.rank() > other.rank(),
            r == Position::Before <==> lex_lt(self.bytes(), other.bytes()),
    {
        proof {
            lemma_lex_is_value_order(self.bytes(), other.bytes());
            lemma_lex_is_value_order(other.bytes(), self.bytes());
        }
        let by_key = compare_bytes(&self.pkey, &other.pkey);
        match by_key {
            Position::Before => {
                proof {
                    let i = choose|i: int| smaller_at(self.pkey@, other.pkey@, i);
                    assert(smaller_at(self.bytes(), other.bytes(), i));
                }
                Position::Before
            },
            Position::After => {
                proof {
                    let i = choose|i: int| smaller_at(other.pkey@, self.pkey@, i);
                    assert(smaller_at(other.bytes(), self.bytes(), i));
                }
                Position::After
            },
            Position::Same => {
                let by_seed = compare_bytes(&self.seed, &other.seed);
                proof {
                    assert(self.pkey =~= other.pkey);
                    match by_seed {
                        Position::Before => {
                            let i = choose|i: int| smaller_at(self.seed@, other.seed@, i);
                            assert(smaller_at(self.bytes(), other.bytes(), i + 65));
                        },
                        Position::After => {
                            let i = choose|i: int| smaller_at(other.seed@, self.seed@, i);
                            assert(smaller_at(other.bytes(), self.bytes(), i + 65));
                        },
                        Position::Same => {
                            assert(self.seed =~= other.seed);
                        },
                    }
                }
                by_seed
            },
        }
    }

    /// Whether the two identities are the same.
    pub fn same(&self, other: &ParticipantID) -> (r: bool)
        ensures
            r == (*self == *other),
    {
        match self.compare(other) {
            Position::Same => true,
            _ => false,
        }
    }
}

/// Two identities of one rank are one identity.
pub proof fn lemma_rank_injective(a: ParticipantID, b: ParticipantID)
    ensures
        a.rank() == b.rank() <==> a == b,
{
    lemma_lex_is_value_order(a.bytes(), b.bytes());
    if a.bytes() == b.bytes() {
        assert forall|i: int| 0 <= i < 65 implies a.pkey[i] == b.pkey[i] by {
            assert(a.pkey[i] == a.bytes()[i]);
            assert(b.pkey[i] == b.bytes()[i]);
        }
        assert forall|i: int| 0 <= i < 32 implies a.seed[i] == b.seed[i] by {
            assert(a.seed[i] == a.bytes()[i + 65]);
            assert(b.seed[i] == b.bytes()[i + 65]);
        }
        assert(a.pkey =~= b.pkey);
        assert(a.seed =~= b.seed);
    }
}

/// Each identity comes before the next: sorted, and none twice.
pub open spec fn strictly_sorted(s: Seq<ParticipantID>) -> bool {
    forall|i: int, j: int| 0 <= i < j < s.len() ==> s[i].rank() < s[j].rank()
}

/// The two lists hold the same identities, whatever the order and the count.
pub open spec fn same_members(a: Seq<ParticipantID>, b: Seq<ParticipantID>) -> bool {
    forall|p: ParticipantID| a.contains(p) <==> b.contains(p)
}

/// Every identity of `a` is in `b`.
pub open spec fn subset_of(a: Seq<ParticipantID>, b: Seq<ParticipantID>) -> bool {
    forall|p: ParticipantID| a.contains(p) ==> b.contains(p)
}

/// `t` is `s` sorted, with each identity once.
pub open spec fn is_canonical(t: Seq<ParticipantID>, s: Seq<ParticipantID>) -> bool {
    strictly_sorted(t) && same_members(t, s)
}

/// The identities of `s` in order, each once.
pub open spec fn canonical(s: Seq<ParticipantID>) -> Seq<ParticipantID> {
    choose|t: Seq<ParticipantID>| is_canonical(t, s)
}

/// The predicate "is not in `excl`".
pub open spec fn not_in(excl: Seq<ParticipantID>) -> spec_fn(ParticipantID) -> bool {
    |p: ParticipantID| !excl.contains(p)
}

/// `list` without the identities of `excl`, order kept.
pub open spec fn without(list: Seq<ParticipantID>, excl: Seq<ParticipantID>) -> Seq<
    ParticipantID,
> {
    list.filter(not_in(excl))
}

/// A strictly sorted list holds no identity twice.
pub proof fn lemma_sorted_no_duplicates(s: Seq<ParticipantID>)
    requires
        strictly_sorted(s),
    ensures
        s.no_duplicates(),
{
}

/// There is one sorted list of a given set of identities.
pub proof fn lemma_sorted_unique(t1: Seq<ParticipantID>, t2: Seq<ParticipantID>)
    requires
        strictly_sorted(t1),
        strictly_sorted(t2),
        same_members(t1, t2),
    ensures
        t1 == t2,
    decreases t1.len(),
{
    if t1.len() == 0 {
        if t2.len() > 0 {
            assert(t2.contains(t2[0]));
            assert(t1.contains(t2[0]));
        }
        assert(t1 =~= t2);
    } else {
        assert(t1.contains(t1[0]));
        assert(t2.contains(t1[0]));
        let k = choose|k: int| 0 <= k < t2.len() && t2[k] == t1[0];
        assert(t2.contains(t2[0]));
        assert(t1.contains(t2[0]));
        let m = choose|m: int| 0 <= m < t1.len() && t1[m] == t2[0];
        assert(m == 0);
        assert(t1[0] == t2[0]);
        let r1 = t1.skip(1);
        let r2 = t2.skip(1);
        assert forall|p: ParticipantID| r1.contains(p) <==> r2.contains(p) by {
            if r1.contains(p) {
                let i = choose|i: int| 0 <= i < r1.len() && r1[i] == p;
                assert(t1[i + 1] == p);
                assert(t1.contains(p));
                assert(t2.contains(p));
                let j = choose|j: int| 0 <= j < t2.len() && t2[j] == p;
                assert(j != 0);
                assert(r2[j - 1] == p);
            }
            if r2.contains(p) {
                let i = choose|i: int| 0 <= i < r2.len() && r2[i] == p;
                assert(t2[i + 1] == p);
                assert(t2.contains(p));
                assert(t1.contains(p));
                let j = choose|j: int| 0 <= j < t1.len() && t1[j] == p;
                assert(j != 0);
                assert(r1[j - 1] == p);
            }
        }
        lemma_sorted_unique(r1, r2);
        assert(t1 =~= seq![t1[0]] + r1);
        assert(t2 =~= seq![t2[0]] + r2);
    }
}

/// Whatever is sorted and holds the identities of `s` is `canonical(s)`.
pub proof fn lemma_canonical_is(t: Seq<ParticipantID>, s: Seq<ParticipantID>)
    requires
        is_canonical(t, s),
    ensures
        t == canonical(s),
        is_canonical(canonical(s), s),
{
    lemma_sorted_unique(t, canonical(s));
}

/// How many identities at the head of `t` come before `x`.
pub open spec fn place_of(t: Seq<ParticipantID>, x: ParticipantID) -> int
    decreases t.len(),
{
    if t.len() == 0 {
        0
    } else if t[0].rank() < x.rank() {
        1 + place_of(t.skip(1), x)
    } else {
        0
    }
}

proof fn lemma_place_of(t: Seq<ParticipantID>, x: ParticipantID)
    requires
        strictly_sorted(t),
    ensures
        0 <= place_of(t, x) <= t.len(),
        forall|j: int| 0 <= j < place_of(t, x) ==> t[j].rank() < x.rank(),
        forall|j: int| place_of(t, x) <= j < t.len() ==> t[j].rank() >= x.rank(),
    decreases t.len(),
{
    if t.len() == 0 {
    } else if t[0].rank() < x.rank() {
        let rest = t.skip(1);
        assert forall|i: int, j: int| 0 <= i < j < rest.len() implies rest[i].rank()
            < rest[j].rank() by {
            assert(rest[i] == t[i + 1]);
            assert(rest[j] == t[j + 1]);
        }
        lemma_place_of(rest, x);
        assert forall|j: int| 0 <= j < place_of(t, x) implies t[j].rank() < x.rank() by {
            if j > 0 {
                assert(t[j] == rest[j - 1]);
            }
        }
        assert forall|j: int| place_of(t, x) <= j < t.len() implies t[j].rank() >= x.rank() by {
            assert(t[j] == rest[j - 1]);
        }
    } else {
    }
}

/// A sorted list with `x` put at its place is sorted and holds one
/// identity more.
proof fn lemma_insert_at_place(t: Seq<ParticipantID>, x: ParticipantID)
    requires
        strictly_sorted(t),
        !t.contains(x),
    ensures
        strictly_sorted(t.insert(place_of(t, x), x)),
        forall|q: ParticipantID|
            t.insert(place_of(t, x), x).contains(q) <==> (t.contains(q) || q == x),
{
    lemma_place_of(t, x);
    let k = place_of(t, x);
    let after = t.insert(k, x);
    assert forall|j: int| k <= j < t.len() implies t[j].rank() > x.rank() by {
        lemma_rank_injective(t[j], x);
        assert(t.contains(t[j]));
    }
    assert forall|a: int, b: int| 0 <= a < b < after.len() implies after[a].rank()
        < after[b].rank() by {
        if b < k {
        } else if b == k {
        } else if a < k {
            assert(after[b] == t[b - 1]);
        } else if a == k {
            assert(after[b] == t[b - 1]);
        } else {
            assert(after[a] == t[a - 1]);
            assert(after[b] == t[b - 1]);
        }
    }
    assert forall|q: ParticipantID| after.contains(q) <==> (t.contains(q) || q == x) by {
        if after.contains(q) {
            let i = choose|i: int| 0 <= i < after.len() && after[i] == q;
            if i < k {
                assert(t[i] == q);
            } else if i == k {
            } else {
                assert(t[i - 1] == q);
            }
        }
        if t.contains(q) {
            let i = choose|i: int| 0 <= i < t.len() && t[i] == q;
            if i < k {
                assert(after[i] == q);
            } else {
                assert(after[i + 1] == q);
            }
        }
        if q == x {
            assert(after[k] == q);
        }
    }
}

/// Every list has its sorted list, which is no longer.
pub proof fn lemma_canonical_exists(s: Seq<ParticipantID>)
    ensures
        is_canonical(canonical(s), s),
        canonical(s).len() <= s.len(),
    decreases s.len(),
{
    if s.len() == 0 {
        let t = Seq::<ParticipantID>::empty();
        assert(is_canonical(t, s));
        lemma_canonical_is(t, s);
    } else {
        let head = s.drop_last();
        let x = s.last();
        lemma_canonical_exists(head);
        let t0 = canonical(head);
        lemma_place_of(t0, x);
        let t = if t0.contains(x) {
            t0
        } else {
            t0.insert(place_of(t0, x), x)
        };
        if !t0.contains(x) {
            lemma_insert_at_place(t0, x);
        }
        assert forall|q: ParticipantID| t.contains(q) <==> s.contains(q) by {
            if s.contains(q) {
                let i = choose|i: int| 0 <= i < s.len() && s[i] == q;
                if i < s.len() - 1 {
                    assert(head[i] == q);
                }
            }
            if head.contains(q) {
                let i = choose|i: int| 0 <= i < head.len() && head[i] == q;
                assert(s[i] == q);
            }
            assert(s[s.len() - 1] == x);
        }
        assert(is_canonical(t, s));
        lemma_canonical_is(t, s);
    }
}

/// Lists of the same identities have the same sorted list.
pub proof fn lemma_canonical_same_members(a: Seq<ParticipantID>, b: Seq<ParticipantID>)
    requires
        same_members(a, b),
    ensures
        canonical(a) == canonical(b),
{
    lemma_canonical_exists(a);
    lemma_canonical_exists(b);
    lemma_sorted_unique(canonical(a), canonical(b));
}

/// Whether `p` is in `list`.
pub fn contains(list: &Vec<ParticipantID>, p: &ParticipantID) -> (r: bool)
    ensures
        r == list@.contains(*p),
{
    let mut i: usize = 0;
    while i < list.len()
        invariant
            i <= list.len(),
            forall|j: int| 0 <= j < i ==> list@[j] != *p,
        decreases list.len() - i,
    {
        if list[i].same(p) {
            return true;
        }
        i += 1;
    }
    false
}

/// Puts `p` at its place in a sorted list, unless it is there already.
pub fn insert_sorted(list: &mut Vec<ParticipantID>, p: ParticipantID)
    requires
        strictly_sorted(old(list)@),
    ensures
        strictly_sorted(final(list)@),
        forall|q: ParticipantID| final(list)@.contains(q) <==> (old(list)@.contains(q) || q == p),
        old(list)@.contains(p) ==> final(list)@ == old(list)@,
        !old(list)@.contains(p) ==> final(list)@.len() == old(list)@.len() + 1,
{
    let mut i: usize = 0;
    while i < list.len()
        invariant
            i <= list.len(),
            *list == *old(list),
            strictly_sorted(list@),
            forall|j: int| 0 <= j < i ==> list@[j].rank() < p.rank(),
        ensures
            i <= list.len(),
            i < list.len() ==> list@[i as int].rank() > p.rank(),
        decreases list.len() - i,
    {
        match list[i].compare(&p) {
            Position::Before => {},
            Position::Same => {
                return ;
            },
            Position::After => {
                break ;
            },
        }
        i += 1;
    }
    let ghost before = list@;
    assert(!before.contains(p)) by {
        if before.contains(p) {
            let k = choose|k: int| 0 <= k < before.len() && before[k] == p;
            if k < i {
            } else {
                assert(before[i as int].rank() > p.rank());
            }
        }
    }
    list.insert(i, p);
    proof {
        let after = list@;
        assert(after == before.insert(i as int, p));
        assert forall|a: int, b: int| 0 <= a < b < after.len() implies after[a].rank()
            < after[b].rank() by {
            if b < i {
            } else if b == i {
            } else if a < i {
                assert(after[b] == before[b - 1]);
                if i < before.len() {
                    assert(before[i as int].rank() > p.rank());
                }
            } else if a == i {
                assert(after[b] == before[b - 1]);
            } else {
                assert(after[a] == before[a - 1]);
                assert(after[b] == before[b - 1]);
            }
        }
        assert forall|q: ParticipantID| after.contains(q) <==> (before.contains(q) || q == p) by {
            if after.contains(q) {
                let k = choose|k: int| 0 <= k < after.len() && after[k] == q;
                if k < i {
                    assert(before[k] == q);
                } else if k == i {
                } else {
                    assert(before[k - 1] == q);
                }
            }
            if before.contains(q) {
                let k = choose|k: int| 0 <= k < before.len() && before[k] == q;
                if k < i {
                    assert(after[k] == q);
                } else {
                    assert(after[k + 1] == q);
                }
            }
            if q == p {
                assert(after[i as int] == q);
            }
        }
    }
}

/// The identities of `list` in order, each once.
pub fn sort_dedup(list: &Vec<ParticipantID>) -> (out: Vec<ParticipantID>)
    ensures
        out@ == canonical(list@),
        is_canonical(out@, list@),
        out@.len() <= list@.len(),
{
    let mut out: Vec<ParticipantID> = Vec::new();
    let mut i: usize = 0;
    while i < list.len()
        invariant
            i <= list.len(),
            strictly_sorted(out@),
            out@.len() <= i,
            forall|q: ParticipantID| out@.contains(q) <==> list@.take(i as int).contains(q),
        decreases list.len() - i,
    {
        insert_sorted(&mut out, list[i]);
        proof {
            let head = list@.take(i as int);
            let next = list@.take(i + 1);
            assert(next =~= head.push(list@[i as int]));
            assert forall|q: ParticipantID| out@.contains(q) <==> next.contains(q) by {
                if next.contains(q) {
                    let k = choose|k: int| 0 <= k < next.len() && next[k] == q;
                    if k < i {
                        assert(head[k] == q);
                    }
                }
                if head.contains(q) {
                    let k = choose|k: int| 0 <= k < head.len() && head[k] == q;
                    assert(next[k] == q);
                }
                assert(next[i as int] == list@[i as int]);
            }
        }
        i += 1;
    }
    proof {
        assert(list@.take(list@.len() as int) =~= list@);
        lemma_canonical_is(out@, list@);
    }
    out
}

/// `list` without the identities of `excl`, order kept.
pub fn exclude(list: &Vec<ParticipantID>, excl: &Vec<ParticipantID>) -> (out: Vec<ParticipantID>)
    ensures
        out@ == without(list@, excl@),
{
    let mut out: Vec<ParticipantID> = Vec::new();
    let mut i: usize = 0;
    assert(list@.take(0) =~= Seq::<ParticipantID>::empty());
    while i < list.len()
        invariant
            i <= list.len(),
            out@ == without(list@.take(i as int), excl@),
        decreases list.len() - i,
    {
        let p = list[i];
        proof {
            assert(list@.take(i + 1) =~= list@.take(i as int).push(p));
            list@.take(i as int).lemma_filter_push(p, not_in(excl@));
        }
        if !contains(excl, &p) {
            out.push(p);
        }
        i += 1;
    }
    assert(list@.take(list@.len() as int) =~= list@);
    out
}

/// Whether every identity of `a` is in `b`.
pub fn is_subset(a: &Vec<ParticipantID>, b: &Vec<ParticipantID>) -> (r: bool)
    ensures
        r == subset_of(a@, b@),
{
    let mut i: usize = 0;
    while i < a.len()
        invariant
            i <= a.len(),
            forall|j: int| 0 <= j < i ==> b@.contains(a@[j]),
        decreases a.len() - i,
    {
        if !contains(b, &a[i]) {
            assert(a@.contains(a@[i as int]));
            return false;
        }
        i += 1;
    }
    true
}

/// Whether the two lists hold the same identities.
pub fn same_set(a: &Vec<ParticipantID>, b: &Vec<ParticipantID>) -> (r: bool)
    ensures
        r == same_members(a@, b@),
{
    is_subset(a, b) && is_subset(b, a)
}

} // verus!
